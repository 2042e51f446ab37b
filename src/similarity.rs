use crate::stable_marriage::{ordering_of, Matcher};
use crate::task::{same_task, Task, TaskView};
use std::cmp::Ordering;
use vstd::prelude::*;
use vstd::string::*;

verus! {

/// The edit distance between two strings.
pub uninterp spec fn levenshtein_distance(a: Seq<char>, b: Seq<char>) -> nat;

/// Relies on strsim::levenshtein: the least number of single-character
/// insertions, deletions and substitutions that turn one string into the other,
/// counted over characters; a function of the two strings alone.
#[verifier::external_body]
fn levenshtein(a: &str, b: &str) -> (r: usize)
    ensures
        r == levenshtein_distance(a@, b@),
{
    strsim::levenshtein(a, b)
}

/// How far the subject of `x` is from the subject of `from`.
pub open spec fn distance(from: TaskView, x: TaskView) -> int {
    levenshtein_distance(x.subject, from.subject) as int
}

/// `from` may stand for `other`: their subjects differ by at most
/// `allowed_divergence` percent of the length of `other`'s subject.
pub open spec fn admissible(from: TaskView, other: TaskView, allowed_divergence: int) -> bool {
    distance(from, other) * 100 <= allowed_divergence * other.subject.len()
}

/// Raising the allowed divergence keeps every admissible pair admissible.
pub proof fn lemma_admissible_monotone(from: TaskView, other: TaskView, smaller: int, larger: int)
    requires
        smaller <= larger,
        admissible(from, other, smaller),
    ensures
        admissible(from, other, larger),
{
    assert(smaller * other.subject.len() <= larger * other.subject.len()) by (nonlinear_arith)
        requires
            smaller <= larger,
    ;
}

/// Decides `admissible`.
pub fn is_task_admissible(from: &Task, other: &Task, allowed_divergence: usize) -> (r: bool)
    ensures
        r == admissible(from@, other@, allowed_divergence as int),
{
    let ol = other.subject.as_str().unicode_len();
    let dist = levenshtein(other.subject.as_str(), from.subject.as_str());
    let d = allowed_divergence as u128;
    let l = ol as u128;
    proof {
        assert(d * l <= u128::MAX) by (nonlinear_arith)
            requires
                d <= u64::MAX,
                l <= u64::MAX,
        ;
    }
    (dist as u128) * 100 <= d * l
}

/// Which of `left` and `right` is closer to `from`, by `distance`.
pub fn cmp_tasks_3way(from: &Task, left: &Task, right: &Task) -> (r: Ordering)
    ensures
        r == ordering_of(distance(from@, left@), distance(from@, right@)),
{
    let left_lev = levenshtein(left.subject.as_str(), from.subject.as_str());
    let right_lev = levenshtein(right.subject.as_str(), from.subject.as_str());
    if left_lev < right_lev {
        Ordering::Less
    } else if left_lev == right_lev {
        Ordering::Equal
    } else {
        Ordering::Greater
    }
}

/// Matches tasks by `admissible` at a fixed divergence, closest first; equal
/// tasks are perfect matches.
pub struct TaskMatcher {
    pub allowed_divergence: usize,
}

impl Matcher for TaskMatcher {
    type Item = Task;

    type Target = Task;

    open spec fn admissible(&self, x: &Task, y: &Task) -> bool {
        admissible(x@, y@, self.allowed_divergence as int)
    }

    open spec fn rank(&self, from: &Task, to: &Task) -> int {
        distance(from@, to@)
    }

    open spec fn perfect(&self, x: &Task, y: &Task) -> bool {
        x@ == y@
    }

    fn is_admissible(&self, x: &Task, y: &Task) -> (r: bool) {
        is_task_admissible(x, y, self.allowed_divergence)
    }

    fn cmp_3way(&self, from: &Task, left: &Task, right: &Task) -> (r: Ordering) {
        cmp_tasks_3way(from, left, right)
    }

    fn is_perfect_match(&self, x: &Task, y: &Task) -> (r: bool) {
        same_task(x, y)
    }
}

} // verus!
