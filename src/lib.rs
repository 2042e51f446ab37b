pub mod compute_changes;
pub mod merge_changes;
pub mod similarity;
pub mod stable_marriage;
pub mod task;
