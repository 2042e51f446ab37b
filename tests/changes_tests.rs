use chrono::{Datelike, NaiveDate};
use std::cmp::Ordering;
use std::str::FromStr;
use todiff::compute_changes::{
    changes_between, compute_changeset, has_been_completed, has_been_postponed, has_been_recurred,
    is_completion, is_postponed, is_recurred, match_tasks, remove_common, ChangedTask, Changes, TaskDelta,
};
use todiff::similarity::{cmp_tasks_3way, is_task_admissible};
use todiff::task::{recurs_on, Date, Period, Recurrence, Tag, Task};

fn date(d: NaiveDate) -> Date {
    Date { days: d.num_days_from_ce() }
}

fn ymd(y: i32, m: u32, d: u32) -> Date {
    date(NaiveDate::from_ymd_opt(y, m, d).unwrap())
}

fn task(line: &str) -> Task {
    let t = todo_txt::task::Extended::from_str(line).unwrap();
    Task {
        subject: t.subject.clone(),
        priority: u8::from(t.priority.clone()),
        create_date: t.create_date.map(date),
        finish_date: t.finish_date.map(date),
        finished: t.finished,
        threshold_date: t.threshold_date.map(date),
        due_date: t.due_date.map(date),
        tags: t
            .tags
            .iter()
            .map(|(k, v)| Tag { key: k.clone(), value: v.clone() })
            .collect(),
        recurrence: t.recurrence.as_ref().map(|r| Recurrence {
            num: r.num,
            period: match r.period {
                todo_txt::task::Period::Day => Period::Day,
                todo_txt::task::Period::Week => Period::Week,
                todo_txt::task::Period::Month => Period::Month,
                todo_txt::task::Period::Year => Period::Year,
            },
            strict: r.strict,
        }),
    }
}

fn tasks_from_strings(strings: Vec<&str>) -> Vec<Task> {
    strings.into_iter().map(task).collect()
}

fn closer_of(from: &str, left: &str, right: &str) -> Ordering {
    cmp_tasks_3way(&task(from), &task(left), &task(right))
}

#[test]
fn compute_changes_test_cmp_3way() {
    assert_eq!(closer_of("do a thing", "do a thing", "do an thing"), Ordering::Less);
    assert_eq!(closer_of("do a thing", "do an thing", "do a thingie"), Ordering::Less);
    assert_eq!(closer_of("do a thing", "x do a thing", "do any thing"), Ordering::Less);
}

#[test]
fn task_change_test_cmp_3way() {
    assert_eq!(closer_of("do a thing", "do a thing", "do an thing"), Ordering::Less);
    assert_eq!(closer_of("do a thing", "do an thing", "do a thingie"), Ordering::Less);
    assert_eq!(closer_of("do a thing", "x do a thing", "do any thing"), Ordering::Less);
}

fn rec(s: &str) -> Recurrence {
    let r = todo_txt::task::Recurrence::from_str(s).unwrap();
    Recurrence {
        num: r.num,
        period: match r.period {
            todo_txt::task::Period::Day => Period::Day,
            todo_txt::task::Period::Week => Period::Week,
            todo_txt::task::Period::Month => Period::Month,
            todo_txt::task::Period::Year => Period::Year,
        },
        strict: r.strict,
    }
}

fn day(s: &str) -> Date {
    date(NaiveDate::from_str(s).unwrap())
}

#[test]
fn test_add_recspec() {
    fn test(from: &str, r: &str, to: &str) {
        assert!(recurs_on(day(from), rec(r), day(to)), "{} + {} should be {}", from, r, to);
    }

    test("2010-01-01", "2d", "2010-01-03");
    test("2010-01-01", "2w", "2010-01-15");
    test("2010-01-01", "2m", "2010-03-01");
    test("2010-01-01", "2y", "2012-01-01");

    test("2010-01-30", "1m", "2010-02-28");
    test("2010-02-28", "1m", "2010-03-31");
    test("2010-01-30", "2m", "2010-03-30");
    test("2003-02-28", "1y", "2004-02-29");
    test("2004-02-29", "1y", "2005-02-28");
}

#[test]
fn recurrence_does_not_return_the_date_itself() {
    assert!(!recurs_on(day("2010-01-01"), rec("1d"), day("2010-01-01")));
    assert!(!recurs_on(day("2010-01-31"), rec("1m"), day("2010-01-31")));
    assert!(!recurs_on(day("2010-01-01"), rec("1d"), day("2010-01-03")));
}

fn deltas(changes: &Vec<ChangedTask<Vec<Changes>>>) -> Vec<(Task, TaskDelta<Vec<Changes>>)> {
    changes.iter().map(|c| (c.orig.clone(), c.delta.clone())).collect()
}

#[test]
fn new_tasks() {
    let from = tasks_from_strings(vec!["do a thing"]);
    let to = tasks_from_strings(vec!["do a thing", "do another thing"]);
    let (new_tasks, changes) = compute_changeset(from, to, 0);

    assert_eq!(new_tasks, tasks_from_strings(vec!["do another thing"]));
    // The unchanged task is reported as identical, that is, as no change.
    assert_eq!(deltas(&changes), vec![(task("do a thing"), TaskDelta::Identical)]);
}

#[test]
fn delete_task() {
    let from = tasks_from_strings(vec!["do a thing"]);
    let to = tasks_from_strings(vec!["what is this ?"]);
    let (new_tasks, changes) = compute_changeset(from, to, 30);

    assert_eq!(new_tasks, tasks_from_strings(vec!["what is this ?"]));
    assert_eq!(deltas(&changes), vec![(task("do a thing"), TaskDelta::Deleted)]);
}

#[test]
fn change_subject() {
    let from = tasks_from_strings(vec!["do a thing", "eat a hamburger"]);
    let to = tasks_from_strings(vec!["drink a hamburger", "do an thing"]);
    let (new_tasks, changes) = compute_changeset(from, to, 40);

    assert_eq!(new_tasks, vec![]);
    assert_eq!(
        deltas(&changes),
        vec![
            (
                task("do a thing"),
                TaskDelta::Changed(vec![Changes::Subject(
                    "do a thing".to_string(),
                    "do an thing".to_string(),
                )]),
            ),
            (
                task("eat a hamburger"),
                TaskDelta::Changed(vec![Changes::Subject(
                    "eat a hamburger".to_string(),
                    "drink a hamburger".to_string(),
                )]),
            ),
        ]
    );

    let from = tasks_from_strings(vec!["do a thing"]);
    let to = tasks_from_strings(vec!["do an thing", "x do a thing"]);
    let (new_tasks, changes) = compute_changeset(from, to, 40);

    assert_eq!(new_tasks, vec![task("do an thing")]);
    assert_eq!(
        deltas(&changes),
        vec![(task("do a thing"), TaskDelta::Changed(vec![Changes::Finished(true)]))]
    );
}

#[test]
fn identical_lists_give_no_change() {
    let list = vec!["do a thing", "(A) 2020-01-01 buy milk due:2020-01-05", "do a thing", "call mom +family"];
    for d in [0, 30, 100] {
        let (new_tasks, changes) = compute_changeset(tasks_from_strings(list.clone()), tasks_from_strings(list.clone()), d);
        assert!(new_tasks.is_empty());
        assert_eq!(changes.len(), 4);
        for c in &changes {
            assert_eq!(c.delta, TaskDelta::Identical);
        }
    }
}

#[test]
fn admissibility_grows_with_divergence() {
    let a = task("do a thing");
    let b = task("do an thing");
    // Distance 1 against a subject of 11 characters: admissible from 10 percent on.
    assert!(!is_task_admissible(&a, &b, 0));
    assert!(!is_task_admissible(&a, &b, 9));
    for d in 10..=100 {
        assert!(is_task_admissible(&a, &b, d));
    }
    let c = task("what is this ?");
    assert!(!is_task_admissible(&a, &c, 30));
    assert!(is_task_admissible(&a, &c, 100));
}

#[test]
fn a_task_against_itself_has_no_edit() {
    for line in ["do a thing", "x 2020-01-02 2020-01-01 buy milk due:2020-01-05 t:2020-01-03 +shop @town key:value", "(C) pay rent due:2020-02-01 rec:+1m"] {
        let t = task(line);
        assert!(changes_between(&t, &t, true).is_empty());
    }
}

#[test]
fn completion_with_date_is_one_edit() {
    let from = task("2018-04-08 foo due:2018-04-08");
    let to = task("x 2018-04-08 2018-04-08 foo due:2018-04-08");
    assert_eq!(changes_between(&from, &to, true), vec![Changes::FinishedAt(ymd(2018, 4, 8))]);
}

#[test]
fn postponement_moves_due_and_threshold_together() {
    let from = task("foo due:2018-04-08 t:2018-04-01");
    let to = task("foo due:2018-04-10 t:2018-04-03");
    assert_eq!(changes_between(&from, &to, true), vec![Changes::PostponedStrictBy(2)]);

    let to = task("foo due:2018-04-10 t:2018-04-01");
    assert_eq!(
        changes_between(&from, &to, true),
        vec![
            Changes::DueDate(Some(ymd(2018, 4, 8)), Some(ymd(2018, 4, 10))),
        ]
    );

    let to = task("foo due:2018-04-10 t:2018-04-02");
    assert_eq!(
        changes_between(&from, &to, true),
        vec![
            Changes::ThresholdDate(Some(ymd(2018, 4, 1)), Some(ymd(2018, 4, 2))),
            Changes::DueDate(Some(ymd(2018, 4, 8)), Some(ymd(2018, 4, 10))),
        ]
    );
}

#[test]
fn later_links_of_a_chain_detect_recurrence() {
    let from = task("2018-04-08 foo due:2018-04-08 rec:+1d");
    let to = task("2018-04-08 foo due:2018-04-09 rec:+1d");
    assert_eq!(changes_between(&from, &to, false), vec![Changes::RecurredStrict]);
    assert_eq!(changes_between(&from, &to, true), vec![Changes::PostponedStrictBy(1)]);

    let from = task("2018-04-08 foo due:2018-04-08 rec:1w");
    let to = task("2018-04-10 foo due:2018-04-17 rec:1w");
    assert_eq!(changes_between(&from, &to, false), vec![Changes::RecurredFrom(ymd(2018, 4, 10))]);

    let to = task("2018-04-10 foo due:2018-04-18 rec:1w");
    assert_eq!(
        changes_between(&from, &to, false),
        vec![
            Changes::Copied,
            Changes::PostponedStrictBy(10),
            Changes::CreateDate(Some(ymd(2018, 4, 8)), Some(ymd(2018, 4, 10))),
        ]
    );
}

#[test]
fn priority_is_shown_as_a_letter() {
    let from = task("(A) foo");
    let to = task("(C) foo");
    assert_eq!(changes_between(&from, &to, true), vec![Changes::Priority(Some('A'), Some('C'))]);
    let to = task("foo");
    assert_eq!(changes_between(&from, &to, true), vec![Changes::Priority(Some('A'), None)]);
    // Completing a task drops its priority without saying so.
    let from = task("(A) 2020-01-01 foo");
    let to = task("x 2020-01-05 2020-01-01 foo");
    assert_eq!(changes_between(&from, &to, true), vec![Changes::FinishedAt(ymd(2020, 1, 5))]);
}

#[test]
fn tags_report_what_each_side_lacks() {
    let from = task("foo a:1 b:2 c:3");
    let to = task("foo b:2 c:4 d:5");
    assert_eq!(
        changes_between(&from, &to, true),
        vec![Changes::Tags(
            vec![Tag { key: "a".to_string(), value: "1".to_string() }, Tag { key: "c".to_string(), value: "3".to_string() }],
            vec![Tag { key: "c".to_string(), value: "4".to_string() }, Tag { key: "d".to_string(), value: "5".to_string() }],
        )]
    );
}

#[test]
fn remove_common_counts_multiplicity() {
    let mut a = vec![task("x"), task("y"), task("x"), task("z")];
    let mut b = vec![task("x"), task("w"), task("y")];
    let mut common = remove_common(&mut a, &mut b);
    common.sort_by(|p, q| p.subject.cmp(&q.subject));
    assert_eq!(common, vec![task("x"), task("y")]);
    assert_eq!(a, vec![task("x"), task("z")]);
    assert_eq!(b, vec![task("w")]);
}

#[test]
fn recurring_chain_is_sorted_by_due_date() {
    let from = tasks_from_strings(vec!["2018-06-01 foo due:2018-06-20 rec:1m", "2018-04-08 bar"]);
    let to = tasks_from_strings(vec![
        "2018-06-17 foo due:2018-08-15 rec:1m",
        "x 2018-06-17 2018-06-01 foo due:2018-06-15 rec:1m",
        "2018-06-17 foo due:2018-07-15 rec:1m",
        "2018-04-08 bar",
    ]);
    let (new_tasks, matched) = match_tasks(from.clone(), to, 50);
    assert!(new_tasks.is_empty());
    assert_eq!(matched[1].delta, TaskDelta::Identical);
    match &matched[0].delta {
        TaskDelta::Recurred(chain) => {
            let dues: Vec<Option<Date>> = chain.iter().map(|t| t.due_date).collect();
            assert_eq!(dues, vec![Some(ymd(2018, 6, 15)), Some(ymd(2018, 7, 15)), Some(ymd(2018, 8, 15))]);
        }
        other => panic!("expected a chain, got {:?}", other),
    }

    let (_, changes) = compute_changeset(from, tasks_from_strings(vec![
        "x 2018-06-17 2018-06-01 foo due:2018-06-15 rec:1m",
        "2018-06-17 foo due:2018-07-15 rec:1m",
        "2018-04-08 bar",
    ]), 50);
    assert_eq!(
        changes[0].delta,
        TaskDelta::Recurred(vec![
            vec![Changes::FinishedAt(ymd(2018, 6, 17)), Changes::PostponedStrictBy(-5)],
            vec![
                Changes::PostponedStrictBy(30),
                Changes::Finished(false),
                Changes::FinishDate(Some(ymd(2018, 6, 17)), None),
                Changes::CreateDate(Some(ymd(2018, 6, 1)), Some(ymd(2018, 6, 17))),
            ],
        ])
    );
}

#[test]
fn delta_items_and_map() {
    let d: TaskDelta<u32> = TaskDelta::Recurred(vec![1, 2, 3]);
    assert_eq!(d.iter(), vec![&1, &2, &3]);
    assert_eq!(d.map(|x| x * 10), TaskDelta::Recurred(vec![10, 20, 30]));
    let d: TaskDelta<u32> = TaskDelta::Changed(4);
    assert_eq!(d.iter(), vec![&4]);
    assert_eq!(d.map(|x| x + 1), TaskDelta::Changed(5));
    let d: TaskDelta<u32> = TaskDelta::Deleted;
    assert!(d.iter().is_empty());
    assert_eq!(d.map(|x| x + 1), TaskDelta::Deleted);
    let d: TaskDelta<u32> = TaskDelta::Identical;
    assert_eq!(d.map(|x| x + 1), TaskDelta::Identical);
}

#[test]
fn edit_categories() {
    assert!(is_recurred(&Changes::RecurredStrict));
    assert!(is_recurred(&Changes::RecurredFrom(ymd(2020, 1, 1))));
    assert!(!is_recurred(&Changes::Copied));
    assert!(is_completion(&Changes::FinishedAt(ymd(2020, 1, 1))));
    assert!(is_completion(&Changes::Finished(true)));
    assert!(!is_completion(&Changes::Finished(false)));
    assert!(is_postponed(&Changes::PostponedStrictBy(3)));
    assert!(is_postponed(&Changes::DueDate(Some(ymd(2020, 1, 1)), Some(ymd(2020, 1, 2)))));
    assert!(!is_postponed(&Changes::DueDate(None, Some(ymd(2020, 1, 2)))));

    let chain = ChangedTask {
        orig: task("foo"),
        delta: TaskDelta::Recurred(vec![vec![Changes::Copied], vec![Changes::RecurredStrict, Changes::PostponedStrictBy(1)]]),
    };
    assert!(has_been_recurred(&chain));
    assert!(has_been_postponed(&chain));
    assert!(!has_been_completed(&chain));
    let done = ChangedTask { orig: task("foo"), delta: TaskDelta::Changed(vec![Changes::Finished(true)]) };
    assert!(has_been_completed(&done));
    assert!(!has_been_recurred(&done));
    let gone: ChangedTask<Vec<Changes>> = ChangedTask { orig: task("foo"), delta: TaskDelta::Deleted };
    assert!(!has_been_completed(&gone) && !has_been_recurred(&gone) && !has_been_postponed(&gone));
}

#[test]
fn uncomplete_clears_completion() {
    let mut t = task("x 2020-01-05 2020-01-01 foo");
    t.uncomplete();
    assert_eq!(t, task("2020-01-01 foo"));
}

#[test]
fn larger_divergence_may_pair_a_task_differently() {
    // "abcdeVWXYZ" is 5 edits from "abcdefghij", "abcdef" is 4 edits away but short.
    let from = tasks_from_strings(vec!["abcdeVWXYZ", "abcdef"]);
    let to = tasks_from_strings(vec!["abcdefghij"]);
    let (_, at_60) = compute_changeset(from.clone(), to.clone(), 60);
    assert!(matches!(at_60[0].delta, TaskDelta::Changed(_)));
    assert_eq!(at_60[1].delta, TaskDelta::Deleted);
    let (_, at_70) = compute_changeset(from, to, 70);
    assert_eq!(at_70[0].delta, TaskDelta::Deleted);
    assert!(matches!(at_70[1].delta, TaskDelta::Changed(_)));
}

#[test]
fn copy_task() {
    let from = tasks_from_strings(vec!["do a thing"]);
    let to = tasks_from_strings(vec!["do a thing", "do a thing"]);
    let (new_tasks, changes) = compute_changeset(from, to, 0);

    assert_eq!(new_tasks, tasks_from_strings(vec!["do a thing"]));
    assert_eq!(deltas(&changes), vec![(task("do a thing"), TaskDelta::Identical)]);

    // Equal subjects are admissible at divergence 0: one copy is the completed task.
    let from = tasks_from_strings(vec!["do a thing"]);
    let to = tasks_from_strings(vec!["x do a thing", "x do a thing"]);
    let (new_tasks, changes) = compute_changeset(from, to, 0);

    assert_eq!(new_tasks, tasks_from_strings(vec!["x do a thing"]));
    assert_eq!(
        deltas(&changes),
        vec![(task("do a thing"), TaskDelta::Changed(vec![Changes::Finished(true)]))]
    );
}

#[test]
fn recurring_tasks() {
    let from = tasks_from_strings(vec!["2018-04-08 foo due:2018-04-08 rec:1d"]);
    let to = tasks_from_strings(vec![
        "x 2018-04-08 2018-04-08 foo due:2018-04-08 rec:1d",
        "x 2018-04-08 2018-04-08 foo due:2018-04-09 rec:1d",
        "2018-04-08 foo due:2018-04-10 rec:1d",
        "2018-04-08 bar",
    ]);
    let (new_tasks, changes) = compute_changeset(from, to, 50);

    assert_eq!(new_tasks, tasks_from_strings(vec!["2018-04-08 bar"]));
    assert_eq!(
        deltas(&changes),
        vec![(
            task("2018-04-08 foo due:2018-04-08 rec:1d"),
            TaskDelta::Recurred(vec![
                vec![Changes::FinishedAt(ymd(2018, 4, 8))],
                vec![Changes::PostponedStrictBy(1)],
                vec![
                    Changes::Copied,
                    Changes::PostponedStrictBy(1),
                    Changes::Finished(false),
                    Changes::FinishDate(Some(ymd(2018, 4, 8)), None),
                ],
            ]),
        )]
    );

    let from = tasks_from_strings(vec!["2018-06-01 foo due:2018-06-20 rec:1m"]);
    let to = tasks_from_strings(vec![
        "x 2018-06-17 2018-06-01 foo due:2018-06-15 rec:1m",
        "2018-06-17 foo due:2018-07-15 rec:1m",
    ]);
    let (new_tasks, changes) = compute_changeset(from, to, 50);

    assert_eq!(new_tasks, vec![]);
    assert_eq!(
        deltas(&changes),
        vec![(
            task("2018-06-01 foo due:2018-06-20 rec:1m"),
            TaskDelta::Recurred(vec![
                vec![Changes::FinishedAt(ymd(2018, 6, 17)), Changes::PostponedStrictBy(-5)],
                vec![
                    Changes::PostponedStrictBy(30),
                    Changes::Finished(false),
                    Changes::FinishDate(Some(ymd(2018, 6, 17)), None),
                    Changes::CreateDate(Some(ymd(2018, 6, 1)), Some(ymd(2018, 6, 17))),
                ],
            ]),
        )]
    );
}

#[test]
fn an_equal_task_is_bound_even_when_its_target_is_taken() {
    let from = tasks_from_strings(vec!["do a thing"]);
    let to = tasks_from_strings(vec!["x do a thing", "do a thing"]);
    let (new_tasks, changes) = compute_changeset(from, to, 40);
    assert_eq!(new_tasks, tasks_from_strings(vec!["x do a thing"]));
    assert_eq!(deltas(&changes), vec![(task("do a thing"), TaskDelta::Identical)]);
}

#[test]
fn recurrence_is_found_far_in_the_future_and_for_large_counts() {
    let from = task("8500-01-01 foo due:8500-01-01 rec:+1d");
    let to = task("8500-01-01 foo due:8500-01-02 rec:+1d");
    assert_eq!(changes_between(&from, &to, false), vec![Changes::RecurredStrict]);
    assert!(recurs_on(day("9999-12-30"), rec("1d"), day("9999-12-31")));
    assert!(recurs_on(day("2010-01-01"), rec("20000d"), date(NaiveDate::from_ymd_opt(2010, 1, 1).unwrap() + chrono::Duration::days(20000))));
    assert!(recurs_on(day("2010-01-01"), rec("12000m"), day("3010-01-01")));
}
