use chrono::{Datelike, NaiveDate};
use std::str::FromStr;
use todiff::merge_changes::{extract_merge_result, merge_3way, merge_successful, merge_to_string, MergeResult};
use todiff::task::{Date, Period, Recurrence, Tag, Task};

fn date(d: NaiveDate) -> Date {
    Date { days: d.num_days_from_ce() }
}

fn task(line: &str) -> Task {
    let t = todo_txt::task::Extended::from_str(line).unwrap();
    Task {
        subject: t.subject.clone(),
        priority: u8::from(t.priority.clone()),
        create_date: t.create_date.map(date),
        finish_date: t.finish_date.map(date),
        finished: t.finished,
        threshold_date: t.threshold_date.map(date),
        due_date: t.due_date.map(date),
        tags: t
            .tags
            .iter()
            .map(|(k, v)| Tag { key: k.clone(), value: v.clone() })
            .collect(),
        recurrence: t.recurrence.as_ref().map(|r| Recurrence {
            num: r.num,
            period: match r.period {
                todo_txt::task::Period::Day => Period::Day,
                todo_txt::task::Period::Week => Period::Week,
                todo_txt::task::Period::Month => Period::Month,
                todo_txt::task::Period::Year => Period::Year,
            },
            strict: r.strict,
        }),
    }
}

fn tasks(lines: Vec<&str>) -> Vec<Task> {
    lines.into_iter().map(task).collect()
}

#[test]
fn one_side_changed_is_taken() {
    let result = merge_3way(tasks(vec!["buy milk"]), tasks(vec!["buy milk"]), tasks(vec!["x 2020-01-01 buy milk"]), 0);
    assert_eq!(result, vec![MergeResult::Merged(task("x 2020-01-01 buy milk"))]);
    assert!(merge_successful(&result));
    assert_eq!(extract_merge_result(result), Some(vec![task("x 2020-01-01 buy milk")]));
}

#[test]
fn both_sides_changed_is_a_conflict() {
    let result = merge_3way(
        tasks(vec!["buy milk", "call mom"]),
        tasks(vec!["buy milk due:2020-01-02", "call mom"]),
        tasks(vec!["x buy milk", "call mom"]),
        30,
    );
    assert_eq!(
        result,
        vec![
            MergeResult::Conflict(task("buy milk"), vec![task("buy milk due:2020-01-02")], vec![task("x buy milk")]),
            MergeResult::Merged(task("call mom")),
        ]
    );
    assert!(!merge_successful(&result));
    assert_eq!(extract_merge_result(result), None);
}

#[test]
fn new_tasks_of_both_sides_are_kept_once() {
    let result = merge_3way(
        tasks(vec!["buy milk"]),
        tasks(vec!["buy milk", "walk dog", "feed cat"]),
        tasks(vec!["buy milk", "feed cat", "water plants"]),
        0,
    );
    assert_eq!(
        result,
        vec![
            MergeResult::Merged(task("buy milk")),
            MergeResult::Merged(task("feed cat")),
            MergeResult::Merged(task("walk dog")),
            MergeResult::Merged(task("water plants")),
        ]
    );
}

#[test]
fn deleted_on_one_side_is_gone() {
    let result = merge_3way(tasks(vec!["buy milk", "call mom"]), tasks(vec!["call mom"]), tasks(vec!["buy milk", "call mom"]), 0);
    assert_eq!(result, vec![MergeResult::Merged(task("call mom"))]);
}

#[test]
fn conflicts_are_written_between_markers() {
    let merge = vec![
        MergeResult::Merged("a".to_string()),
        MergeResult::Conflict("b".to_string(), vec!["b1".to_string(), "b2".to_string()], vec!["b3".to_string()]),
        MergeResult::Merged("c".to_string()),
    ];
    assert_eq!(merge_to_string(merge), "a\n<<<<<\nb1\nb2\n|||||\nb\n=====\nb3\n>>>>>\nc");
    assert_eq!(merge_to_string(vec![]), "");
    assert_eq!(merge_to_string(vec![MergeResult::Merged("only".to_string())]), "only");
}

#[test]
fn merge_result_map_keeps_shape() {
    let m = MergeResult::Conflict(1, vec![2, 3], vec![4]);
    assert_eq!(m.map(|x| x * 2), MergeResult::Conflict(2, vec![4, 6], vec![8]));
    assert_eq!(MergeResult::Merged(5).map(|x| x + 1), MergeResult::Merged(6));
}

#[test]
fn merging_a_list_with_itself_keeps_it() {
    let list = vec!["buy milk", "do a thing", "do a thing", "(A) call mom due:2020-01-01"];
    let result = merge_3way(tasks(list.clone()), tasks(list.clone()), tasks(list.clone()), 50);
    let expected: Vec<MergeResult<Task>> = tasks(list).into_iter().map(MergeResult::Merged).collect();
    assert_eq!(result, expected);
}

#[test]
fn one_unchanged_side_gives_no_conflict() {
    let from = vec!["buy milk", "call mom", "walk dog"];
    let right = vec!["x buy milk", "call dad", "feed cat"];
    let result = merge_3way(tasks(from.clone()), tasks(from.clone()), tasks(right), 30);
    assert!(merge_successful(&result));
    assert_eq!(
        result,
        vec![
            MergeResult::Merged(task("x buy milk")),
            MergeResult::Merged(task("call dad")),
            MergeResult::Merged(task("feed cat")),
        ]
    );
}
