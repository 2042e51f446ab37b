use crate::similarity::{admissible, cmp_tasks_3way, distance, is_task_admissible, TaskMatcher};
use crate::stable_marriage::{diagonal, is_stable, perfect_pairs_bound, stable_matching, valid_outcome};
use crate::task::{
    copy_tags, recurrence_after, recurs_on, same_date, same_task, tags_equal, tags_view, Date, Tag, Task,
    TaskView,
};
use vstd::multiset::Multiset;
use std::cmp::Ordering;
use vstd::prelude::*;
use vstd::std_specs::cmp::PartialEqSpec;

verus! {

broadcast use vstd::multiset::group_multiset_axioms, vstd::seq_lib::group_to_multiset_ensures;

/// What became of one task of the earlier list.
#[derive(Debug, PartialEq, Eq, Clone)]
pub enum TaskDelta<T> {
    Identical,
    Deleted,
    Changed(T),
    Recurred(Vec<T>),
}

/// A task of the earlier list with what became of it.
#[derive(Debug, PartialEq, Eq, Clone)]
pub struct ChangedTask<T> {
    pub orig: Task,
    pub delta: TaskDelta<T>,
}

/// One named edit between two versions of a task. The pairs hold the value
/// before and the value after; a postponement is counted in days.
#[derive(Clone, PartialEq, Eq, Debug)]
pub enum Changes {
    Created,
    Copied,
    RecurredStrict,
    RecurredFrom(Date),
    FinishedAt(Date),
    PostponedStrictBy(i64),
    Finished(bool),
    Priority(Option<char>, Option<char>),
    FinishDate(Option<Date>, Option<Date>),
    CreateDate(Option<Date>, Option<Date>),
    Subject(String, String),
    DueDate(Option<Date>, Option<Date>),
    ThresholdDate(Option<Date>, Option<Date>),
    Tags(Vec<Tag>, Vec<Tag>),
}

/// The items a delta carries, oldest first.
pub open spec fn delta_items<T>(d: TaskDelta<T>) -> Seq<T> {
    match d {
        TaskDelta::Identical => Seq::empty(),
        TaskDelta::Deleted => Seq::empty(),
        TaskDelta::Changed(t) => seq![t],
        TaskDelta::Recurred(v) => v@,
    }
}

impl<T> TaskDelta<T> {
    /// The items the delta carries, oldest first.
    pub fn iter(&self) -> (r: Vec<&T>)
        ensures
            r@.len() == delta_items(*self).len(),
            forall|i: int| 0 <= i < r@.len() ==> *r@[i] == delta_items(*self)[i],
    {
        let mut r: Vec<&T> = Vec::new();
        match self {
            TaskDelta::Identical => {},
            TaskDelta::Deleted => {},
            TaskDelta::Changed(t) => {
                r.push(t);
            },
            TaskDelta::Recurred(v) => {
                let mut i: usize = 0;
                while i < v.len()
                    invariant
                        i <= v@.len(),
                        r@.len() == i,
                        forall|k: int| 0 <= k < i ==> *r@[k] == v@[k],
                    decreases v@.len() - i,
                {
                    r.push(&v[i]);
                    i = i + 1;
                }
            },
        }
        r
    }

    /// Applies `f` to each item, keeping the kind of delta.
    pub fn map<U, F: Fn(T) -> U>(self, f: F) -> (r: TaskDelta<U>)
        requires
            forall|t: T| f.requires((t,)),
        ensures
            match (self, r) {
                (TaskDelta::Identical, TaskDelta::Identical) => true,
                (TaskDelta::Deleted, TaskDelta::Deleted) => true,
                (TaskDelta::Changed(t), TaskDelta::Changed(u)) => f.ensures((t,), u),
                (TaskDelta::Recurred(v), TaskDelta::Recurred(w)) => w@.len() == v@.len() && forall|i: int|
                    0 <= i < v@.len() ==> f.ensures((v@[i],), w@[i]),
                _ => false,
            },
    {
        match self {
            TaskDelta::Identical => TaskDelta::Identical,
            TaskDelta::Deleted => TaskDelta::Deleted,
            TaskDelta::Changed(t) => TaskDelta::Changed(f(t)),
            TaskDelta::Recurred(v) => {
                let ghost orig = v@;
                let mut v = v;
                let mut rev: Vec<U> = Vec::new();
                while v.len() > 0
                    invariant
                        forall|t: T| f.requires((t,)),
                        v@.len() + rev@.len() == orig.len(),
                        v@ == orig.subrange(0, v@.len() as int),
                        forall|i: int| 0 <= i < rev@.len() ==> f.ensures((orig[orig.len() - 1 - i],), rev@[i]),
                    decreases v@.len(),
                {
                    match v.pop() {
                        Some(x) => {
                            rev.push(f(x));
                        },
                        None => {},
                    }
                }
                let mut w: Vec<U> = Vec::new();
                while rev.len() > 0
                    invariant
                        w@.len() + rev@.len() == orig.len(),
                        forall|i: int| 0 <= i < rev@.len() ==> f.ensures((orig[orig.len() - 1 - i],), rev@[i]),
                        forall|i: int| 0 <= i < w@.len() ==> f.ensures((orig[i],), w@[i]),
                    decreases rev@.len(),
                {
                    match rev.pop() {
                        Some(x) => {
                            w.push(x);
                        },
                        None => {},
                    }
                }
                TaskDelta::Recurred(w)
            },
        }
    }
}

/// The views of a sequence, counted with multiplicity.
pub open spec fn view_multiset<T: View>(s: Seq<T>) -> Multiset<T::V> {
    s.map_values(|x: T| x@).to_multiset()
}

proof fn lemma_view_multiset_remove<T: View>(s: Seq<T>, i: int)
    requires
        0 <= i < s.len(),
    ensures
        view_multiset(s.remove(i)) == view_multiset(s).remove(s[i]@),
{
    let m = s.map_values(|x: T| x@);
    assert(s.remove(i).map_values(|x: T| x@) =~= m.remove(i));
    vstd::seq_lib::to_multiset_remove(m, i);
}

proof fn lemma_view_multiset_push<T: View>(s: Seq<T>, x: T)
    ensures
        view_multiset(s.push(x)) == view_multiset(s).insert(x@),
{
    let m = s.map_values(|y: T| y@);
    assert(s.push(x).map_values(|y: T| y@) =~= m.push(x@));
    m.to_multiset_ensures();
}

/// `s` is `t` with some elements left out and the rest in their order: `idx`
/// gives the position in `t` of each element of `s`.
pub open spec fn is_subsequence<T>(s: Seq<T>, t: Seq<T>, idx: Seq<int>) -> bool {
    &&& idx.len() == s.len()
    &&& forall|k: int| 0 <= k < s.len() ==> 0 <= #[trigger] idx[k] < t.len() && s[k] == t[idx[k]]
    &&& forall|k1: int, k2: int| 0 <= k1 < k2 < s.len() ==> idx[k1] < idx[k2]
}

proof fn lemma_subsequence_remove<T>(s: Seq<T>, t: Seq<T>, idx: Seq<int>, i: int)
    requires
        is_subsequence(s, t, idx),
        0 <= i < s.len(),
    ensures
        is_subsequence(s.remove(i), t, idx.remove(i)),
{
    let s2 = s.remove(i);
    let i2 = idx.remove(i);
    assert forall|k: int| 0 <= k < s2.len() implies 0 <= #[trigger] i2[k] < t.len() && s2[k] == t[i2[k]] by {
        if k < i {
            assert(i2[k] == idx[k] && s2[k] == s[k]);
        } else {
            assert(i2[k] == idx[k + 1] && s2[k] == s[k + 1]);
        }
    }
    assert forall|k1: int, k2: int| 0 <= k1 < k2 < s2.len() implies i2[k1] < i2[k2] by {
        let a = if k1 < i { k1 } else { k1 + 1 };
        let b = if k2 < i { k2 } else { k2 + 1 };
        assert(i2[k1] == idx[a] && i2[k2] == idx[b]);
    }
}

/// Removes from both lists what they have in common, counted with multiplicity,
/// and returns it; what remains of each list keeps its order. Elements are
/// compared by their views.
pub fn remove_common<T: View + PartialEq + PartialEqSpec>(a: &mut Vec<T>, b: &mut Vec<T>) -> (r: Vec<T>)
    requires
        forall|x: T, y: T| x.eq_spec(&y) <==> x@ == y@,
        <T as PartialEqSpec>::obeys_eq_spec(),
    ensures
        view_multiset(r@) == view_multiset(old(a)@).intersection_with(view_multiset(old(b)@)),
        view_multiset(final(a)@) == view_multiset(old(a)@).sub(view_multiset(old(b)@)),
        view_multiset(final(b)@) == view_multiset(old(b)@).sub(view_multiset(old(a)@)),
        exists|ia: Seq<int>| is_subsequence(final(a)@, old(a)@, ia),
        exists|ib: Seq<int>| is_subsequence(final(b)@, old(b)@, ib),
{
    let ghost a0 = a@;
    let ghost b0 = b@;
    let ghost mut ia: Seq<int> = Seq::new(a@.len(), |k: int| k);
    let ghost mut ib: Seq<int> = Seq::new(b@.len(), |k: int| k);
    let mut common: Vec<T> = Vec::new();
    let mut i: usize = a.len();
    proof {
        assert(view_multiset(common@) =~= Multiset::empty());
    }
    while i > 0
        invariant
            i <= a@.len(),
            forall|x: T, y: T| x.eq_spec(&y) <==> x@ == y@,
            <T as PartialEqSpec>::obeys_eq_spec(),
            view_multiset(a0) == view_multiset(a@).add(view_multiset(common@)),
            view_multiset(b0) == view_multiset(b@).add(view_multiset(common@)),
            forall|k: int| i <= k < a@.len() ==> view_multiset(b@).count(a@[k]@) == 0,
            is_subsequence(a@, a0, ia),
            is_subsequence(b@, b0, ib),
        decreases i,
    {
        i = i - 1;
        let mut j: usize = 0;
        let mut found: Option<usize> = None;
        while j < b.len()
            invariant_except_break
                found is None,
            invariant
                j <= b@.len(),
                i < a@.len(),
                forall|x: T, y: T| x.eq_spec(&y) <==> x@ == y@,
                <T as PartialEqSpec>::obeys_eq_spec(),
                forall|k: int| 0 <= k < j ==> b@[k]@ != a@[i as int]@,
            ensures
                found is Some ==> found->0 < b@.len() && b@[found->0 as int]@ == a@[i as int]@,
                found is None ==> forall|k: int| 0 <= k < b@.len() ==> b@[k]@ != a@[i as int]@,
            decreases b@.len() - j,
        {
            if b[j] == a[i] {
                found = Some(j);
                break;
            }
            j = j + 1;
        }
        match found {
            Some(p) => {
                let ghost a1 = a@;
                let ghost b1 = b@;
                let ghost c1 = common@;
                b.remove(p);
                let x = a.remove(i);
                common.push(x);
                proof {
                    lemma_subsequence_remove(a1, a0, ia, i as int);
                    lemma_subsequence_remove(b1, b0, ib, p as int);
                    ia = ia.remove(i as int);
                    ib = ib.remove(p as int);
                    lemma_view_multiset_remove(a1, i as int);
                    lemma_view_multiset_remove(b1, p as int);
                    lemma_view_multiset_push(c1, x);
                    let v = a1[i as int]@;
                    let ma = a1.map_values(|y: T| y@);
                    let mb = b1.map_values(|y: T| y@);
                    assert(ma[i as int] == v);
                    assert(mb[p as int] == v);
                    ma.to_multiset_ensures();
                    mb.to_multiset_ensures();
                    assert(view_multiset(a1).count(v) > 0);
                    assert(view_multiset(b1).count(v) > 0);
                    assert(view_multiset(a0) =~= view_multiset(a@).add(view_multiset(common@)));
                    assert(view_multiset(b0) =~= view_multiset(b@).add(view_multiset(common@)));
                    assert forall|k: int| i <= k < a@.len() implies view_multiset(b@).count(a@[k]@) == 0 by {
                        assert(a@[k] == a1[k + 1]);
                    }
                }
            },
            None => {
                proof {
                    let m = b@.map_values(|y: T| y@);
                    assert forall|k: int| 0 <= k < m.len() implies m[k] != a@[i as int]@ by {}
                    assert(!m.contains(a@[i as int]@));
                    m.to_multiset_ensures();
                }
            },
        }
    }
    proof {
        let am = view_multiset(a@);
        let bm = view_multiset(b@);
        let cm = view_multiset(common@);
        assert forall|v: T::V| am.count(v) == 0 || bm.count(v) == 0 by {
            if am.count(v) > 0 {
                let s = a@.map_values(|x: T| x@);
                s.to_multiset_ensures();
                let k = choose|k: int| 0 <= k < s.len() && s[k] == v;
            }
        }
        assert forall|v: T::V| view_multiset(a0).intersection_with(view_multiset(b0)).count(v) == cm.count(v) by {
            assert(am.count(v) == 0 || bm.count(v) == 0);
            vstd::multiset::lemma_intersection_count(view_multiset(a0), view_multiset(b0), v);
        }
        assert(view_multiset(a0).intersection_with(view_multiset(b0)) =~= cm);
        assert(view_multiset(a0).sub(view_multiset(b0)) =~= am);
        assert(view_multiset(b0).sub(view_multiset(a0)) =~= bm);
    }
    common
}


/// The letter of a priority: 0 is `A`, 25 is `Z`, anything else none.
pub open spec fn priority_letter(p: u8) -> Option<char> {
    if p < 26 {
        Some(((65 + p) as u8) as char)
    } else {
        None
    }
}

/// The letter of a priority (see `priority_letter`).
pub fn priority_char(p: u8) -> (r: Option<char>)
    ensures
        r == priority_letter(p),
{
    if p < 26 {
        Some(((65 + p) as u8) as char)
    } else {
        None
    }
}

/// How many days the due date moved, where that explains the whole change of
/// dates: both due dates are set, and either no threshold date is set or the
/// threshold date moved by as many days.
pub open spec fn postpone_days(from: TaskView, to: TaskView) -> Option<int> {
    match (from.due_date, to.due_date) {
        (Some(fd), Some(td)) => {
            let shift = td.days - fd.days;
            match (from.threshold_date, to.threshold_date) {
                (None, None) => Some(shift),
                (Some(fh), Some(th)) => if th.days - fh.days == shift {
                    Some(shift)
                } else {
                    None
                },
                _ => None,
            }
        },
        _ => None,
    }
}

/// The recurrence edit, for a task that follows another in a chain and has the
/// same recurrence: the new due date lies one interval after the old due date
/// (strict recurrence) or after the new creation date (otherwise).
pub open spec fn recurrence_edit(from: TaskView, to: TaskView, is_first: bool) -> Option<Changes> {
    if !is_first && from.recurrence == to.recurrence && from.recurrence is Some && postpone_days(
        from,
        to,
    ) is Some {
        let rec = from.recurrence->0;
        let due = to.due_date->0;
        if rec.strict {
            if recurrence_after(from.due_date->0, rec) == Some(due.days as int) {
                Some(Changes::RecurredStrict)
            } else {
                None
            }
        } else if to.create_date is Some && recurrence_after(to.create_date->0, rec) == Some(
            due.days as int,
        ) {
            Some(Changes::RecurredFrom(to.create_date->0))
        } else {
            None
        }
    } else {
        None
    }
}

/// The edit `e` alone when `cond` holds, else nothing.
pub open spec fn edit_if(cond: bool, e: Changes) -> Seq<Changes> {
    if cond {
        seq![e]
    } else {
        Seq::empty()
    }
}

/// Completed, with a completion date set at once.
pub open spec fn finished_at(from: TaskView, to: TaskView) -> bool {
    !from.finished && to.finished && from.finish_date is None && to.finish_date is Some
}

/// `s` followed by `e` when `cond` holds, else `s`.
pub open spec fn push_if(s: Seq<Changes>, cond: bool, e: Changes) -> Seq<Changes> {
    if cond {
        s.push(e)
    } else {
        s
    }
}

/// The edits up to the tags, in their order of precedence.
pub open spec fn leading_edits(from: TaskView, to: TaskView, is_first: bool) -> Seq<Changes> {
    let rec = recurrence_edit(from, to, is_first);
    let recurred = rec is Some;
    let done_at = finished_at(from, to);
    let postponed = !recurred && from.due_date != to.due_date && postpone_days(from, to) is Some;
    let moved = !recurred && !postponed;
    let s0 = push_if(Seq::empty(), recurred, rec->0);
    let s1 = push_if(s0, !recurred && !is_first, Changes::Copied);
    let s2 = push_if(s1, done_at, Changes::FinishedAt(to.finish_date->0));
    let s3 = push_if(s2, postponed, Changes::PostponedStrictBy(postpone_days(from, to)->0 as i64));
    let s4 = push_if(
        s3,
        moved && from.threshold_date != to.threshold_date,
        Changes::ThresholdDate(from.threshold_date, to.threshold_date),
    );
    let s5 = push_if(s4, moved && from.due_date != to.due_date, Changes::DueDate(from.due_date, to.due_date));
    let s6 = push_if(s5, !done_at && from.finished != to.finished, Changes::Finished(to.finished));
    let s7 = push_if(
        s6,
        !done_at && from.finish_date != to.finish_date,
        Changes::FinishDate(from.finish_date, to.finish_date),
    );
    let s8 = push_if(
        s7,
        from.priority != to.priority && !(done_at && priority_letter(to.priority) is None),
        Changes::Priority(priority_letter(from.priority), priority_letter(to.priority)),
    );
    push_if(s8, !recurred && from.create_date != to.create_date, Changes::CreateDate(from.create_date, to.create_date))
}

/// The tags that `from` has and `to` lacks, and those that `to` has and `from`
/// lacks, counted with multiplicity.
pub open spec fn is_tag_edit(from: TaskView, to: TaskView, e: Changes) -> bool {
    match e {
        Changes::Tags(removed, added) => tags_view(removed@).to_multiset() == from.tags.to_multiset().sub(
            to.tags.to_multiset(),
        ) && tags_view(added@).to_multiset() == to.tags.to_multiset().sub(from.tags.to_multiset()),
        _ => false,
    }
}

/// The edits that turn `from` into `to`: `leading_edits`, then the tags when
/// they differ, then the subject when it differs.
pub open spec fn is_classification(from: Task, to: Task, is_first: bool, r: Seq<Changes>) -> bool {
    let lead = leading_edits(from@, to@, is_first);
    let n = lead.len();
    let tagged = from@.tags != to@.tags;
    let tail = edit_if(from@.subject != to@.subject, Changes::Subject(from.subject, to.subject));
    let m = if tagged {
        n + 1
    } else {
        n
    };
    &&& r.len() == m + tail.len()
    &&& r.subrange(0, n as int) == lead
    &&& tagged ==> is_tag_edit(from@, to@, r[n as int])
    &&& r.subrange(m as int, r.len() as int) == tail
}

fn due_shift(from: &Task, to: &Task) -> (r: Option<i64>)
    ensures
        r is Some <==> postpone_days(from@, to@) is Some,
        r is Some ==> r->0 == postpone_days(from@, to@)->0,
{
    match (from.due_date, to.due_date) {
        (Some(fd), Some(td)) => {
            let shift = td.days as i64 - fd.days as i64;
            match (from.threshold_date, to.threshold_date) {
                (None, None) => Some(shift),
                (Some(fh), Some(th)) => if th.days as i64 - fh.days as i64 == shift {
                    Some(shift)
                } else {
                    None
                },
                _ => None,
            }
        },
        _ => None,
    }
}

fn recurrence_change(from: &Task, to: &Task, is_first: bool) -> (r: Option<Changes>)
    ensures
        r == recurrence_edit(from@, to@, is_first),
{
    if is_first || !crate::task::same_recurrence(from.recurrence, to.recurrence) {
        return None;
    }
    match (from.recurrence, due_shift(from, to), from.due_date, to.due_date) {
        (Some(rec), Some(_), Some(fd), Some(td)) => {
            if rec.strict {
                if recurs_on(fd, rec, td) {
                    Some(Changes::RecurredStrict)
                } else {
                    None
                }
            } else {
                match to.create_date {
                    Some(c) => if recurs_on(c, rec, td) {
                        Some(Changes::RecurredFrom(c))
                    } else {
                        None
                    },
                    None => None,
                }
            }
        },
        _ => None,
    }
}

fn leading_changes(from: &Task, to: &Task, is_first: bool) -> (r: Vec<Changes>)
    ensures
        r@ == leading_edits(from@, to@, is_first),
{
    let ghost f = from@;
    let ghost t = to@;
    let mut res: Vec<Changes> = Vec::new();
    let rec = recurrence_change(from, to, is_first);
    let recurred = rec.is_some();
    match rec {
        Some(c) => res.push(c),
        None => {},
    }
    let ghost mut acc = push_if(Seq::empty(), recurred, recurrence_edit(f, t, is_first)->0);
    proof {
        assert(res@ == acc);
    }
    if !recurred && !is_first {
        res.push(Changes::Copied);
    }
    proof {
        acc = push_if(acc, !recurred && !is_first, Changes::Copied);
        assert(res@ == acc);
    }
    let done_at = !from.finished && to.finished && from.finish_date.is_none()
        && to.finish_date.is_some();
    if done_at {
        match to.finish_date {
            Some(d) => res.push(Changes::FinishedAt(d)),
            None => {},
        }
    }
    proof {
        acc = push_if(acc, done_at, Changes::FinishedAt(t.finish_date->0));
        assert(res@ == acc);
    }
    let due_changed = !same_date(from.due_date, to.due_date);
    let mut postponed = false;
    if !recurred && due_changed {
        match due_shift(from, to) {
            Some(d) => {
                res.push(Changes::PostponedStrictBy(d));
                postponed = true;
            },
            None => {},
        }
    }
    proof {
        acc = push_if(acc, postponed, Changes::PostponedStrictBy(postpone_days(f, t)->0 as i64));
        assert(res@ == acc);
    }
    let moved = !recurred && !postponed;
    let threshold_changed = !same_date(from.threshold_date, to.threshold_date);
    if moved && threshold_changed {
        res.push(Changes::ThresholdDate(from.threshold_date, to.threshold_date));
    }
    proof {
        acc = push_if(acc, moved && threshold_changed, Changes::ThresholdDate(f.threshold_date, t.threshold_date));
        assert(res@ == acc);
    }
    if moved && due_changed {
        res.push(Changes::DueDate(from.due_date, to.due_date));
    }
    proof {
        acc = push_if(acc, moved && due_changed, Changes::DueDate(f.due_date, t.due_date));
        assert(res@ == acc);
    }
    if !done_at && from.finished != to.finished {
        res.push(Changes::Finished(to.finished));
    }
    proof {
        acc = push_if(acc, !done_at && f.finished != t.finished, Changes::Finished(t.finished));
        assert(res@ == acc);
    }
    let finish_changed = !same_date(from.finish_date, to.finish_date);
    if !done_at && finish_changed {
        res.push(Changes::FinishDate(from.finish_date, to.finish_date));
    }
    proof {
        acc = push_if(acc, !done_at && finish_changed, Changes::FinishDate(f.finish_date, t.finish_date));
        assert(res@ == acc);
    }
    let to_letter = priority_char(to.priority);
    let prio = from.priority != to.priority && !(done_at && to_letter.is_none());
    if prio {
        res.push(Changes::Priority(priority_char(from.priority), to_letter));
    }
    proof {
        acc = push_if(acc, prio, Changes::Priority(priority_letter(f.priority), priority_letter(t.priority)));
        assert(res@ == acc);
    }
    let created_changed = !same_date(from.create_date, to.create_date);
    if !recurred && created_changed {
        res.push(Changes::CreateDate(from.create_date, to.create_date));
    }
    proof {
        acc = push_if(acc, !recurred && created_changed, Changes::CreateDate(f.create_date, t.create_date));
        assert(res@ == acc);
        assert(acc == leading_edits(f, t, is_first));
    }
    res
}

/// Classifies the change from `from` to `to` as a short list of named edits (see
/// `is_classification`). `is_first` tells that `to` is the first successor of
/// `from`, not a later element of a chain of recurrences.
pub fn changes_between(from: &Task, to: &Task, is_first: bool) -> (r: Vec<Changes>)
    ensures
        is_classification(*from, *to, is_first, r@),
        from@ == to@ && is_first ==> r@.len() == 0,
{
    let ghost f = from@;
    let ghost t = to@;
    let mut res = leading_changes(from, to, is_first);
    let ghost n = res@.len();
    let tagged = !tags_equal(&from.tags, &to.tags);
    if tagged {
        let mut removed = copy_tags(&from.tags);
        let mut added = copy_tags(&to.tags);
        remove_common(&mut removed, &mut added);
        res.push(Changes::Tags(removed, added));
    }
    let ghost m = res@.len();
    if from.subject != to.subject {
        res.push(Changes::Subject(from.subject.clone(), to.subject.clone()));
    }
    proof {
        assert(res@.subrange(0, n as int) =~= leading_edits(f, t, is_first));
        assert(res@.subrange(m as int, res@.len() as int) =~= edit_if(
            f.subject != t.subject,
            Changes::Subject(from.subject, to.subject),
        ));
        if f == t && is_first {
            assert(leading_edits(f, t, is_first).len() == 0);
        }
    }
    res
}


/// `a` is due no later than `b`; a task without a due date comes first.
pub open spec fn due_le(a: TaskView, b: TaskView) -> bool {
    match (a.due_date, b.due_date) {
        (None, _) => true,
        (Some(_), None) => false,
        (Some(x), Some(y)) => x.days <= y.days,
    }
}

fn is_due_le(a: &Task, b: &Task) -> (r: bool)
    ensures
        r == due_le(a@, b@),
{
    match (a.due_date, b.due_date) {
        (None, _) => true,
        (Some(_), None) => false,
        (Some(x), Some(y)) => x.days <= y.days,
    }
}

/// Due dates never decrease along the list.
pub open spec fn sorted_by_due(s: Seq<Task>) -> bool {
    forall|i: int, j: int| 0 <= i < j < s.len() ==> due_le(s[i]@, s[j]@)
}

/// A copy of `v` ordered by due date; tasks due on the same day keep their order.
fn sort_by_due(v: &Vec<Task>) -> (r: Vec<Task>)
    ensures
        r@.len() == v@.len(),
        view_multiset(r@) == view_multiset(v@),
        sorted_by_due(r@),
{
    let mut r: Vec<Task> = Vec::new();
    let mut i: usize = 0;
    proof {
        assert(view_multiset(r@) =~= view_multiset(v@.subrange(0, 0)));
    }
    while i < v.len()
        invariant
            i <= v@.len(),
            r@.len() == i,
            view_multiset(r@) == view_multiset(v@.subrange(0, i as int)),
            sorted_by_due(r@),
        decreases v@.len() - i,
    {
        let x = v[i].copy();
        let mut p: usize = 0;
        while p < r.len()
            invariant
                p <= r@.len(),
                forall|q: int| 0 <= q < p ==> due_le(r@[q]@, x@),
            ensures
                p <= r@.len(),
                forall|q: int| 0 <= q < p ==> due_le(r@[q]@, x@),
                p < r@.len() ==> !due_le(r@[p as int]@, x@),
            decreases r@.len() - p,
        {
            if !is_due_le(&r[p], &x) {
                break;
            }
            p = p + 1;
        }
        let ghost old_r = r@;
        r.insert(p, x);
        proof {
            let m = old_r.map_values(|t: Task| t@);
            assert(r@.map_values(|t: Task| t@) =~= m.insert(p as int, x@));
            vstd::seq_lib::to_multiset_insert(m, p as int, x@);
            assert(v@.subrange(0, i + 1) == v@.subrange(0, i as int).push(v@[i as int]));
            lemma_view_multiset_push(v@.subrange(0, i as int), v@[i as int]);
            assert forall|a: int, b: int| 0 <= a < b < r@.len() implies due_le(r@[a]@, r@[b]@) by {
                if b < p {
                    assert(r@[a] == old_r[a] && r@[b] == old_r[b]);
                } else if b == p {
                    assert(r@[a] == old_r[a]);
                } else if a < p {
                    assert(r@[a] == old_r[a] && r@[b] == old_r[b - 1]);
                } else if a == p {
                    assert(r@[b] == old_r[b - 1]);
                    assert(!due_le(old_r[p as int]@, x@));
                    if b - 1 > p {
                        assert(due_le(old_r[p as int]@, old_r[b - 1]@));
                    }
                } else {
                    assert(r@[a] == old_r[a - 1] && r@[b] == old_r[b - 1]);
                }
            }
        }
        i = i + 1;
    }
    proof {
        assert(v@.subrange(0, v@.len() as int) == v@);
    }
    r
}



/// The task of the earlier list at `j` was matched, changed, and recurs without
/// being finished: later versions of it may join its chain.
pub open spec fn chain_open(from: Seq<Task>, to: Seq<Task>, partners: Seq<Option<usize>>, j: int) -> bool {
    partners[j] is Some && from[j]@ != to[partners[j]->0 as int]@ && from[j].recurrence is Some
        && !from[j].finished
}

/// The views of the tasks of `to` left alone by the matching (among the first
/// `n` of `unmatched`) that `dest` sends to `target`: the position of a chain in
/// the earlier list, or -1 for the new tasks. In the order of `unmatched`.
pub open spec fn sent_to(to: Seq<Task>, unmatched: Seq<usize>, dest: Seq<int>, target: int, n: nat) -> Seq<TaskView>
    decreases n,
{
    if n == 0 {
        Seq::empty()
    } else {
        let prev = sent_to(to, unmatched, dest, target, (n - 1) as nat);
        if dest[n - 1] == target {
            prev.push(to[unmatched[n - 1] as int]@)
        } else {
            prev
        }
    }
}

proof fn lemma_sent_to_extend(to: Seq<Task>, unmatched: Seq<usize>, dest: Seq<int>, x: int, target: int, n: nat)
    requires
        n <= dest.len(),
    ensures
        sent_to(to, unmatched, dest.push(x), target, n) == sent_to(to, unmatched, dest, target, n),
    decreases n,
{
    if n > 0 {
        lemma_sent_to_extend(to, unmatched, dest, x, target, (n - 1) as nat);
    }
}

/// A task `x` of `to` left alone goes to `target`: to the open chain that admits
/// it and is closest to it, or, when no open chain admits it, to the new tasks (-1).
pub open spec fn folded_well(
    from: Seq<Task>,
    to: Seq<Task>,
    allowed_divergence: usize,
    partners: Seq<Option<usize>>,
    x: TaskView,
    target: int,
) -> bool {
    if target == -1 {
        forall|j: int| 0 <= j < from.len() && chain_open(from, to, partners, j)
            ==> !admissible(from[j]@, x, allowed_divergence as int)
    } else {
        &&& 0 <= target < from.len()
        &&& chain_open(from, to, partners, target)
        &&& admissible(from[target]@, x, allowed_divergence as int)
        &&& forall|j: int| 0 <= j < from.len() && chain_open(from, to, partners, j) && admissible(from[j]@, x, allowed_divergence as int)
            ==> distance(x, from[target]@) <= distance(x, from[j]@)
    }
}

/// Each task of `to` left alone goes where `dest` says (see `folded_well`).
pub open spec fn folding_ok(
    from: Seq<Task>,
    to: Seq<Task>,
    allowed_divergence: usize,
    partners: Seq<Option<usize>>,
    unmatched: Seq<usize>,
    dest: Seq<int>,
) -> bool {
    &&& dest.len() == unmatched.len()
    &&& forall|a: int| 0 <= a < dest.len() ==> #[trigger] folded_well(from, to, allowed_divergence, partners, to[unmatched[a] as int]@, dest[a])
}

/// What became of the task of the earlier list at `j`, given its partner and the
/// tasks `dest` sends to its chain.
pub open spec fn is_task_delta(
    from: Seq<Task>,
    to: Seq<Task>,
    partners: Seq<Option<usize>>,
    unmatched: Seq<usize>,
    dest: Seq<int>,
    j: int,
    delta: TaskDelta<Task>,
) -> bool {
    let joined = sent_to(to, unmatched, dest, j, unmatched.len());
    match delta {
        TaskDelta::Deleted => partners[j] is None,
        TaskDelta::Identical => partners[j] is Some && from[j]@ == to[partners[j]->0 as int]@,
        TaskDelta::Changed(t) => partners[j] is Some && from[j]@ != to[partners[j]->0 as int]@ && t@
            == to[partners[j]->0 as int]@ && joined.len() == 0,
        TaskDelta::Recurred(v) => chain_open(from, to, partners, j) && v@.len() >= 2 && sorted_by_due(v@)
            && view_multiset(v@) == (seq![to[partners[j]->0 as int]@] + joined).to_multiset(),
    }
}

/// The views of the tasks, in order.
pub open spec fn task_views(s: Seq<Task>) -> Seq<TaskView> {
    s.map_values(|t: Task| t@)
}

/// The tasks of the two lists are equal one by one.
pub open spec fn same_tasks(a: Seq<Task>, b: Seq<Task>) -> bool {
    a.len() == b.len() && forall|i: int| 0 <= i < a.len() ==> a[i]@ == b[i]@
}

/// A stable matching of the later tasks (proposers) with the earlier ones
/// (targets), the tasks left alone folded into open chains (`folding_ok`), and
/// the deltas and new tasks read from them.
pub open spec fn is_task_matching(
    from: Seq<Task>,
    to: Seq<Task>,
    allowed_divergence: usize,
    partners: Seq<Option<usize>>,
    perfect: Seq<bool>,
    unmatched: Seq<usize>,
    dest: Seq<int>,
    new_tasks: Seq<Task>,
    changed: Seq<ChangedTask<Task>>,
) -> bool {
    let m = TaskMatcher { allowed_divergence };
    &&& valid_outcome(to, from, &m, &m, partners, perfect, unmatched)
    &&& is_stable(to, from, &m, &m, partners, perfect, unmatched)
    &&& perfect_pairs_bound(to, from, &m, partners, perfect)
    &&& folding_ok(from, to, allowed_divergence, partners, unmatched, dest)
    &&& changed.len() == from.len()
    &&& forall|j: int| 0 <= j < from.len() ==> changed[j].orig@ == from[j]@ && is_task_delta(from, to, partners, unmatched, dest, j, changed[j].delta)
    &&& new_tasks.map_values(|t: Task| t@) == sent_to(to, unmatched, dest, -1, unmatched.len())
}


/// Some stable matching and folding (see `is_task_matching`) gives these new
/// tasks and deltas.
pub open spec fn is_match_result(
    from: Seq<Task>,
    to: Seq<Task>,
    allowed_divergence: usize,
    new_tasks: Seq<Task>,
    changed: Seq<ChangedTask<Task>>,
) -> bool {
    exists|partners: Seq<Option<usize>>, perfect: Seq<bool>, unmatched: Seq<usize>, dest: Seq<int>|
        is_task_matching(from, to, allowed_divergence, partners, perfect, unmatched, dest, new_tasks, changed)
}

/// The open chain that admits `x` and whose task is closest to it; the first of
/// several equally close ones.
fn closest_open(from: &Vec<Task>, open: &Vec<bool>, x: &Task, allowed_divergence: usize) -> (r: Option<usize>)
    requires
        open@.len() == from@.len(),
    ensures
        r is None ==> forall|j: int| 0 <= j < from@.len() && open@[j] ==> !admissible(from@[j]@, x@, allowed_divergence as int),
        r is Some ==> r->0 < from@.len() && open@[r->0 as int] && admissible(from@[r->0 as int]@, x@, allowed_divergence as int),
        r is Some ==> forall|j: int| 0 <= j < from@.len() && open@[j] && admissible(from@[j]@, x@, allowed_divergence as int)
            ==> distance(x@, from@[r->0 as int]@) <= distance(x@, from@[j]@),
{
    let mut best: Option<usize> = None;
    let mut j: usize = 0;
    while j < from.len()
        invariant
            j <= from@.len(),
            open@.len() == from@.len(),
            best is None ==> forall|i: int| 0 <= i < j && open@[i] ==> !admissible(from@[i]@, x@, allowed_divergence as int),
            best is Some ==> best->0 < j && open@[best->0 as int] && admissible(from@[best->0 as int]@, x@, allowed_divergence as int),
            best is Some ==> forall|i: int| 0 <= i < j && open@[i] && admissible(from@[i]@, x@, allowed_divergence as int)
                ==> distance(x@, from@[best->0 as int]@) <= distance(x@, from@[i]@),
        decreases from@.len() - j,
    {
        if open[j] && is_task_admissible(&from[j], x, allowed_divergence) {
            match best {
                None => {
                    best = Some(j);
                },
                Some(b) => {
                    match cmp_tasks_3way(x, &from[j], &from[b]) {
                        Ordering::Less => {
                            best = Some(j);
                        },
                        _ => {},
                    }
                },
            }
        }
        j = j + 1;
    }
    best
}


/// Matches the tasks of `to` with those of `from` (see `is_task_matching`):
/// stable matching, then each task of `to` left alone joins the closest open
/// chain that admits it, or else is new. A chain of one is a change; longer
/// chains are ordered by due date.
pub fn match_tasks(from: Vec<Task>, to: Vec<Task>, allowed_divergence: usize) -> (r: (Vec<Task>, Vec<ChangedTask<Task>>))
    ensures
        is_match_result(from@, to@, allowed_divergence, r.0@, r.1@),
        r.1@.len() == from@.len(),
        forall|j: int| 0 <= j < from@.len() ==> r.1@[j].orig@ == from@[j]@,
        same_tasks(from@, to@) ==> r.0@.len() == 0 && forall|j: int| 0 <= j < r.1@.len() ==> r.1@[j].delta is Identical,
{
    let matcher = TaskMatcher { allowed_divergence };
    let o = stable_matching(&to, &from, &matcher, &matcher);
    let ghost partners = o.partners@;
    let mut open: Vec<bool> = Vec::new();
    let mut chains: Vec<Vec<Task>> = Vec::new();
    let mut j: usize = 0;
    while j < from.len()
        invariant
            j <= from@.len(),
            partners == o.partners@,
            valid_outcome(to@, from@, &matcher, &matcher, o.partners@, o.perfect@, o.unmatched@),
            open@.len() == j,
            chains@.len() == j,
            forall|i: int| 0 <= i < j ==> open@[i] == chain_open(from@, to@, partners, i),
            forall|i: int| 0 <= i < j && partners[i] is Some ==> chains@[i]@.len() == 1 && chains@[i]@[0]@ == to@[partners[i]->0 as int]@,
            forall|i: int| 0 <= i < j ==> chains@[i]@.len() <= 1,
        decreases from@.len() - j,
    {
        match o.partners[j] {
            Some(k) => {
                let same = same_task(&from[j], &to[k]);
                open.push(!same && from[j].recurrence.is_some() && !from[j].finished);
                let mut c: Vec<Task> = Vec::new();
                c.push(to[k].copy());
                chains.push(c);
            },
            None => {
                open.push(false);
                chains.push(Vec::new());
            },
        }
        j = j + 1;
    }
    let mut new_tasks: Vec<Task> = Vec::new();
    let ghost unmatched = o.unmatched@;
    let ghost mut dest: Seq<int> = Seq::empty();
    let mut a: usize = 0;
    proof {
        assert(unmatched.subrange(0, 0) =~= Seq::<usize>::empty());
        assert(task_views(new_tasks@) =~= Seq::<TaskView>::empty());
        assert forall|i: int| 0 <= i < from@.len() && partners[i] is Some
            implies task_views(chains@[i]@) == seq![to@[partners[i]->0 as int]@] + sent_to(to@, unmatched, dest, i, 0) by {
            assert(task_views(chains@[i]@) =~= seq![to@[partners[i]->0 as int]@] + sent_to(to@, unmatched, dest, i, 0));
        }
    }
    while a < o.unmatched.len()
        invariant
            a <= o.unmatched@.len(),
            unmatched == o.unmatched@,
            partners == o.partners@,
            valid_outcome(to@, from@, &matcher, &matcher, o.partners@, o.perfect@, o.unmatched@),
            open@.len() == from@.len(),
            chains@.len() == from@.len(),
            forall|i: int| 0 <= i < from@.len() ==> open@[i] == chain_open(from@, to@, partners, i),
            folding_ok(from@, to@, allowed_divergence, partners, unmatched.subrange(0, a as int), dest),
            forall|i: int| 0 <= i < from@.len() && partners[i] is Some
                ==> task_views(chains@[i]@) == seq![to@[partners[i]->0 as int]@] + sent_to(to@, unmatched, dest, i, a as nat),
            forall|i: int| 0 <= i < from@.len() && !open@[i] ==> sent_to(to@, unmatched, dest, i, a as nat).len() == 0,
            task_views(new_tasks@) == sent_to(to@, unmatched, dest, -1, a as nat),
        decreases o.unmatched@.len() - a,
    {
        let u = o.unmatched[a];
        let x = to[u].copy();
        let ghost old_dest = dest;
        let ghost old_new = new_tasks@;
        let ghost before = chains@;
        let ghost target: int;
        let found = closest_open(&from, &open, &x, allowed_divergence);
        match found {
            Some(b) => {
                proof {
                    assert forall|i: int| 0 <= i < from@.len() && chain_open(from@, to@, partners, i)
                        && admissible(from@[i]@, x@, allowed_divergence as int)
                        implies distance(x@, from@[b as int]@) <= distance(x@, from@[i]@) by {
                        assert(open@[i]);
                    }
                    assert(folded_well(from@, to@, allowed_divergence, partners, x@, b as int));
                }
                chains[b].push(x);
                proof {
                    target = b as int;
                }
            },
            None => {
                proof {
                    assert forall|i: int| 0 <= i < from@.len() && chain_open(from@, to@, partners, i)
                        implies !admissible(from@[i]@, x@, allowed_divergence as int) by {
                        assert(open@[i]);
                    }
                    assert(folded_well(from@, to@, allowed_divergence, partners, x@, -1));
                }
                new_tasks.push(x);
                proof {
                    target = -1;
                }
            },
        }
        proof {
            dest = old_dest.push(target);
            let xv = to@[unmatched[a as int] as int]@;
            assert(x@ == xv);
            assert forall|t: int| #![trigger sent_to(to@, unmatched, dest, t, (a + 1) as nat)]
                sent_to(to@, unmatched, dest, t, (a + 1) as nat) == if t == target {
                    sent_to(to@, unmatched, old_dest, t, a as nat).push(xv)
                } else {
                    sent_to(to@, unmatched, old_dest, t, a as nat)
                } by {
                lemma_sent_to_extend(to@, unmatched, old_dest, target, t, a as nat);
            }
            assert(folded_well(from@, to@, allowed_divergence, partners, xv, target));
            assert forall|q: int| 0 <= q < dest.len()
                implies #[trigger] folded_well(from@, to@, allowed_divergence, partners, to@[unmatched.subrange(0, a + 1)[q] as int]@, dest[q]) by {
                if q < a {
                    assert(unmatched.subrange(0, a + 1)[q] == unmatched.subrange(0, a as int)[q]);
                    assert(dest[q] == old_dest[q]);
                    assert(folded_well(from@, to@, allowed_divergence, partners, to@[unmatched.subrange(0, a as int)[q] as int]@, old_dest[q]));
                }
            }
            assert(folding_ok(from@, to@, allowed_divergence, partners, unmatched.subrange(0, a + 1), dest));
            assert forall|i: int| 0 <= i < from@.len() && partners[i] is Some
                implies task_views(chains@[i]@) == seq![to@[partners[i]->0 as int]@] + sent_to(to@, unmatched, dest, i, (a + 1) as nat) by {
                if i == target {
                    assert(task_views(chains@[i]@) =~= task_views(before[i]@).push(xv));
                    assert(task_views(chains@[i]@) =~= seq![to@[partners[i]->0 as int]@] + sent_to(to@, unmatched, dest, i, (a + 1) as nat));
                } else {
                    assert(chains@[i] == before[i]);
                }
            }
            assert forall|i: int| 0 <= i < from@.len() && !open@[i] implies sent_to(to@, unmatched, dest, i, (a + 1) as nat).len() == 0 by {
                assert(sent_to(to@, unmatched, dest, i, (a + 1) as nat) == sent_to(to@, unmatched, old_dest, i, a as nat));
            }
            if target == -1 {
                assert(task_views(new_tasks@) =~= task_views(old_new).push(xv));
            } else {
                assert(new_tasks@ == old_new);
            }
        }
        a = a + 1;
    }
    proof {
        assert(unmatched.subrange(0, a as int) == unmatched);
    }
    let mut changed: Vec<ChangedTask<Task>> = Vec::new();
    let mut j: usize = 0;
    while j < from.len()
        invariant
            j <= from@.len(),
            unmatched == o.unmatched@,
            partners == o.partners@,
            valid_outcome(to@, from@, &matcher, &matcher, o.partners@, o.perfect@, o.unmatched@),
            open@.len() == from@.len(),
            chains@.len() == from@.len(),
            forall|i: int| 0 <= i < from@.len() ==> open@[i] == chain_open(from@, to@, partners, i),
            folding_ok(from@, to@, allowed_divergence, partners, unmatched, dest),
            forall|i: int| 0 <= i < from@.len() && partners[i] is Some
                ==> task_views(chains@[i]@) == seq![to@[partners[i]->0 as int]@] + sent_to(to@, unmatched, dest, i, unmatched.len()),
            forall|i: int| 0 <= i < from@.len() && !open@[i] ==> sent_to(to@, unmatched, dest, i, unmatched.len()).len() == 0,
            task_views(new_tasks@) == sent_to(to@, unmatched, dest, -1, unmatched.len()),
            changed@.len() == j,
            forall|i: int| 0 <= i < j ==> changed@[i].orig@ == from@[i]@ && is_task_delta(from@, to@, partners, unmatched, dest, i, changed@[i].delta),
        decreases from@.len() - j,
    {
        let ghost joined = sent_to(to@, unmatched, dest, j as int, unmatched.len());
        let delta = match o.partners[j] {
            None => TaskDelta::Deleted,
            Some(k) => {
                proof {
                    assert(task_views(chains@[j as int]@) == seq![to@[k as int]@] + joined);
                    assert(task_views(chains@[j as int]@).len() == 1 + joined.len());
                }
                if !open[j] {
                    proof {
                        assert(joined.len() == 0);
                    }
                    if same_task(&from[j], &to[k]) {
                        TaskDelta::Identical
                    } else {
                        TaskDelta::Changed(to[k].copy())
                    }
                } else if chains[j].len() == 1 {
                    proof {
                        assert(joined.len() == 0);
                        assert(task_views(chains@[j as int]@)[0] == chains@[j as int]@[0]@);
                    }
                    TaskDelta::Changed(chains[j][0].copy())
                } else {
                    let sorted = sort_by_due(&chains[j]);
                    proof {
                        assert(task_views(chains@[j as int]@).to_multiset() == view_multiset(chains@[j as int]@));
                        assert(sorted@.len() >= 2);
                    }
                    TaskDelta::Recurred(sorted)
                }
            },
        };
        changed.push(ChangedTask { orig: from[j].copy(), delta });
        j = j + 1;
    }
    proof {
        let m = TaskMatcher { allowed_divergence };
        assert(matcher == m);
        assert(valid_outcome(to@, from@, &m, &m, o.partners@, o.perfect@, o.unmatched@));
        assert(is_stable(to@, from@, &m, &m, o.partners@, o.perfect@, o.unmatched@));
        assert(perfect_pairs_bound(to@, from@, &m, o.partners@, o.perfect@));
        assert(forall|j: int| 0 <= j < from@.len() ==> changed@[j].orig@ == from@[j]@ && is_task_delta(from@, to@, o.partners@, unmatched, dest, j, changed@[j].delta));
        assert(is_task_matching(from@, to@, allowed_divergence, o.partners@, o.perfect@, o.unmatched@, dest, new_tasks@, changed@));
        assert(same_tasks(from@, to@) ==> new_tasks@.len() == 0 && forall|i: int| 0 <= i < changed@.len() ==> changed@[i].delta is Identical) by {
            if same_tasks(from@, to@) {
                assert(diagonal(to@, from@, &matcher));
                assert(sent_to(to@, unmatched, dest, -1, unmatched.len()).len() == 0);
                assert(task_views(new_tasks@).len() == 0);
                assert forall|i: int| 0 <= i < changed@.len() implies changed@[i].delta is Identical by {
                    assert(partners[i] == Some(i as usize));
                }
            }
        }
        assert(is_match_result(from@, to@, allowed_divergence, new_tasks@, changed@));
    }
    let r = (new_tasks, changed);
    proof {
        assert(r.0@ == new_tasks@ && r.1@ == changed@);
    }
    r
}



/// The edits along a delta: from the task to its successor, then between
/// successive elements of a chain (the first link of the chain counting as first).
pub open spec fn is_description(orig: Task, delta: TaskDelta<Task>, edits: TaskDelta<Vec<Changes>>) -> bool {
    match (delta, edits) {
        (TaskDelta::Identical, TaskDelta::Identical) => true,
        (TaskDelta::Deleted, TaskDelta::Deleted) => true,
        (TaskDelta::Changed(t), TaskDelta::Changed(c)) => is_classification(orig, t, true, c@),
        (TaskDelta::Recurred(ts), TaskDelta::Recurred(cs)) => {
            &&& cs@.len() == ts@.len()
            &&& ts@.len() >= 1 ==> is_classification(orig, ts@[0], true, cs@[0]@)
            &&& forall|i: int| 1 <= i < ts@.len() ==> is_classification(ts@[i - 1], ts@[i], i == 1, #[trigger] cs@[i]@)
        },
        _ => false,
    }
}

fn describe(orig: &Task, delta: &TaskDelta<Task>) -> (r: TaskDelta<Vec<Changes>>)
    ensures
        is_description(*orig, *delta, r),
{
    match delta {
        TaskDelta::Identical => TaskDelta::Identical,
        TaskDelta::Deleted => TaskDelta::Deleted,
        TaskDelta::Changed(t) => TaskDelta::Changed(changes_between(orig, t, true)),
        TaskDelta::Recurred(ts) => {
            let mut cs: Vec<Vec<Changes>> = Vec::new();
            if ts.len() > 0 {
                cs.push(changes_between(orig, &ts[0], true));
                let mut i: usize = 1;
                while i < ts.len()
                    invariant
                        1 <= i <= ts@.len(),
                        cs@.len() == i,
                        is_classification(*orig, ts@[0], true, cs@[0]@),
                        forall|k: int| 1 <= k < i ==> is_classification(ts@[k - 1], ts@[k], k == 1, #[trigger] cs@[k]@),
                    decreases ts@.len() - i,
                {
                    cs.push(changes_between(&ts[i - 1], &ts[i], i == 1));
                    i = i + 1;
                }
            }
            TaskDelta::Recurred(cs)
        },
    }
}

/// Compares two task lists: the tasks of `to` that are new, and for each task of
/// `from` what became of it, with the edits spelled out (see `match_tasks` and
/// `changes_between`). Equal lists give no new task and no change.
pub fn compute_changeset(from: Vec<Task>, to: Vec<Task>, allowed_divergence: usize) -> (r: (Vec<Task>, Vec<ChangedTask<Vec<Changes>>>))
    ensures
        exists|matched: Seq<ChangedTask<Task>>| {
            &&& is_match_result(from@, to@, allowed_divergence, r.0@, matched)
            &&& r.1@.len() == matched.len()
            &&& forall|j: int| 0 <= j < matched.len() ==> r.1@[j].orig@ == matched[j].orig@
                && is_description(matched[j].orig, matched[j].delta, #[trigger] r.1@[j].delta)
        },
        same_tasks(from@, to@) ==> r.0@.len() == 0 && forall|j: int| 0 <= j < r.1@.len() ==> r.1@[j].delta is Identical,
{
    let ghost from_v = from@;
    let ghost to_v = to@;
    let (new_tasks, matches) = match_tasks(from, to, allowed_divergence);
    let mut changes: Vec<ChangedTask<Vec<Changes>>> = Vec::new();
    let mut j: usize = 0;
    while j < matches.len()
        invariant
            j <= matches@.len(),
            changes@.len() == j,
            forall|i: int| 0 <= i < j ==> changes@[i].orig@ == matches@[i].orig@
                && is_description(matches@[i].orig, matches@[i].delta, #[trigger] changes@[i].delta),
            forall|i: int| 0 <= i < j && matches@[i].delta is Identical ==> changes@[i].delta is Identical,
        decreases matches@.len() - j,
    {
        let delta = describe(&matches[j].orig, &matches[j].delta);
        changes.push(ChangedTask { orig: matches[j].orig.copy(), delta });
        j = j + 1;
    }
    let r = (new_tasks, changes);
    proof {
        assert(r.0@ == new_tasks@ && r.1@ == changes@);
        assert(is_match_result(from_v, to_v, allowed_divergence, r.0@, matches@));
    }
    r
}


/// The edit says the task came back by recurrence.
pub open spec fn recurred_edit(c: Changes) -> bool {
    c is RecurredStrict || c is RecurredFrom
}

/// The edit says the task was completed.
pub open spec fn completion_edit(c: Changes) -> bool {
    c is FinishedAt || c == Changes::Finished(true)
}

/// The edit says the due date moved from one day to another.
pub open spec fn postponement_edit(c: Changes) -> bool {
    c is PostponedStrictBy || (c matches Changes::DueDate(Some(_), Some(_)))
}

/// Decides `recurred_edit`.
pub fn is_recurred(c: &Changes) -> (r: bool)
    ensures
        r == recurred_edit(*c),
{
    match c {
        Changes::RecurredStrict => true,
        Changes::RecurredFrom(_) => true,
        _ => false,
    }
}

/// Decides `completion_edit`.
pub fn is_completion(c: &Changes) -> (r: bool)
    ensures
        r == completion_edit(*c),
{
    match c {
        Changes::FinishedAt(_) => true,
        Changes::Finished(true) => true,
        _ => false,
    }
}

/// Decides `postponement_edit`.
pub fn is_postponed(c: &Changes) -> (r: bool)
    ensures
        r == postponement_edit(*c),
{
    match c {
        Changes::PostponedStrictBy(_) => true,
        Changes::DueDate(Some(_), Some(_)) => true,
        _ => false,
    }
}

/// Some edit list of the delta holds an edit of the kind `kind` names: 0 for
/// recurrence, 1 for completion, 2 for postponement.
pub open spec fn has_edit(delta: TaskDelta<Vec<Changes>>, kind: int) -> bool {
    exists|i: int, k: int|
        0 <= i < delta_items(delta).len() && 0 <= k < delta_items(delta)[i]@.len() && edit_of_kind(
            #[trigger] delta_items(delta)[i]@[k],
            kind,
        )
}

pub open spec fn edit_of_kind(c: Changes, kind: int) -> bool {
    (kind == 0 && recurred_edit(c)) || (kind == 1 && completion_edit(c)) || (kind == 2
        && postponement_edit(c))
}

fn find_edit(x: &ChangedTask<Vec<Changes>>, kind: u8) -> (r: bool)
    requires
        kind <= 2,
    ensures
        r == has_edit(x.delta, kind as int),
{
    let items = x.delta.iter();
    let mut i: usize = 0;
    while i < items.len()
        invariant
            i <= items@.len(),
            kind <= 2,
            items@.len() == delta_items(x.delta).len(),
            forall|q: int| 0 <= q < items@.len() ==> *items@[q] == delta_items(x.delta)[q],
            forall|q: int, k: int|
                0 <= q < i && 0 <= k < delta_items(x.delta)[q]@.len() ==> !edit_of_kind(
                    #[trigger] delta_items(x.delta)[q]@[k],
                    kind as int,
                ),
        decreases items@.len() - i,
    {
        let edits: &Vec<Changes> = items[i];
        let mut k: usize = 0;
        while k < edits.len()
            invariant
                k <= edits@.len(),
                kind <= 2,
                i < items@.len(),
                items@.len() == delta_items(x.delta).len(),
                *edits == delta_items(x.delta)[i as int],
                forall|q: int| 0 <= q < k ==> !edit_of_kind(
                    #[trigger] delta_items(x.delta)[i as int]@[q],
                    kind as int,
                ),
            decreases edits@.len() - k,
        {
            let c = &edits[k];
            let hit = if kind == 0 {
                is_recurred(c)
            } else if kind == 1 {
                is_completion(c)
            } else {
                is_postponed(c)
            };
            if hit {
                proof {
                    let cc = delta_items(x.delta)[i as int]@[k as int];
                    assert(edits@[k as int] == cc);
                    assert(edit_of_kind(cc, kind as int));

                }
                return true;
            }
            k = k + 1;
        }
        i = i + 1;
    }
    false
}

/// Some edit of the change is a recurrence.
pub fn has_been_recurred(x: &ChangedTask<Vec<Changes>>) -> (r: bool)
    ensures
        r == has_edit(x.delta, 0),
{
    find_edit(x, 0)
}

/// Some edit of the change is a completion.
pub fn has_been_completed(x: &ChangedTask<Vec<Changes>>) -> (r: bool)
    ensures
        r == has_edit(x.delta, 1),
{
    find_edit(x, 1)
}

/// Some edit of the change is a postponement.
pub fn has_been_postponed(x: &ChangedTask<Vec<Changes>>) -> (r: bool)
    ensures
        r == has_edit(x.delta, 2),
{
    find_edit(x, 2)
}

} // verus!
