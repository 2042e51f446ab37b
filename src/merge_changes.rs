use crate::compute_changes::{
    delta_items, is_match_result, match_tasks, remove_common, same_tasks, view_multiset,
    ChangedTask, TaskDelta,
};
use crate::task::Task;
use vstd::multiset::Multiset;
use vstd::prelude::*;
use vstd::string::*;

verus! {

broadcast use vstd::multiset::group_multiset_axioms, vstd::seq_lib::group_to_multiset_ensures;

/// One entry of a three-way merge: a task taken as it is, or a conflict that
/// holds the common ancestor and the tasks each side made of it.
#[derive(Debug, PartialEq, Eq, Clone)]
pub enum MergeResult<T> {
    Merged(T),
    Conflict(T, Vec<T>, Vec<T>),
}

/// A merge entry as the contracts see it: its lists as sequences.
pub enum MergeView<T> {
    Merged(T),
    Conflict(T, Seq<T>, Seq<T>),
}

impl<T> View for MergeResult<T> {
    type V = MergeView<T>;

    open spec fn view(&self) -> MergeView<T> {
        match self {
            MergeResult::Merged(t) => MergeView::Merged(*t),
            MergeResult::Conflict(t, l, r) => MergeView::Conflict(*t, l@, r@),
        }
    }
}

fn map_vec<T, U, F: Fn(T) -> U>(v: Vec<T>, f: &F) -> (r: Vec<U>)
    requires
        forall|t: T| f.requires((t,)),
    ensures
        r@.len() == v@.len(),
        forall|i: int| 0 <= i < v@.len() ==> f.ensures((v@[i],), r@[i]),
{
    let ghost orig = v@;
    let mut v = v;
    let mut rev: Vec<U> = Vec::new();
    while v.len() > 0
        invariant
            forall|t: T| f.requires((t,)),
            v@.len() + rev@.len() == orig.len(),
            v@ == orig.subrange(0, v@.len() as int),
            forall|i: int| 0 <= i < rev@.len() ==> f.ensures((orig[orig.len() - 1 - i],), rev@[i]),
        decreases v@.len(),
    {
        match v.pop() {
            Some(x) => {
                rev.push(f(x));
            },
            None => {},
        }
    }
    let mut w: Vec<U> = Vec::new();
    while rev.len() > 0
        invariant
            w@.len() + rev@.len() == orig.len(),
            forall|i: int| 0 <= i < rev@.len() ==> f.ensures((orig[orig.len() - 1 - i],), rev@[i]),
            forall|i: int| 0 <= i < w@.len() ==> f.ensures((orig[i],), w@[i]),
        decreases rev@.len(),
    {
        match rev.pop() {
            Some(x) => {
                w.push(x);
            },
            None => {},
        }
    }
    w
}

impl<T> MergeResult<T> {
    /// Applies `f` to every task of the entry, keeping its shape.
    pub fn map<U, F: Fn(T) -> U>(self, f: F) -> (r: MergeResult<U>)
        requires
            forall|t: T| f.requires((t,)),
        ensures
            match (self, r) {
                (MergeResult::Merged(t), MergeResult::Merged(u)) => f.ensures((t,), u),
                (MergeResult::Conflict(t, l, rr), MergeResult::Conflict(u, l2, r2)) => {
                    &&& f.ensures((t,), u)
                    &&& l2@.len() == l@.len()
                    &&& forall|i: int| 0 <= i < l@.len() ==> f.ensures((l@[i],), l2@[i])
                    &&& r2@.len() == rr@.len()
                    &&& forall|i: int| 0 <= i < rr@.len() ==> f.ensures((rr@[i],), r2@[i])
                },
                _ => false,
            },
    {
        match self {
            MergeResult::Merged(t) => MergeResult::Merged(f(t)),
            MergeResult::Conflict(t, l, r) => {
                let u = f(t);
                let l2 = map_vec(l, &f);
                let r2 = map_vec(r, &f);
                MergeResult::Conflict(u, l2, r2)
            },
        }
    }
}


/// Each task taken as it is.
pub open spec fn merged_all(s: Seq<Task>) -> Seq<MergeView<Task>> {
    s.map_values(|t: Task| MergeView::Merged(t))
}

/// The merge entries of one task of the ancestor list: unchanged on both sides,
/// it stays; changed on one side only, that side's tasks are taken; changed on
/// both sides, the two are in conflict.
pub open spec fn merge_entry(l: ChangedTask<Task>, r: ChangedTask<Task>) -> Seq<MergeView<Task>> {
    match (l.delta, r.delta) {
        (TaskDelta::Identical, TaskDelta::Identical) => seq![MergeView::Merged(l.orig)],
        (TaskDelta::Identical, d) => merged_all(delta_items(d)),
        (d, TaskDelta::Identical) => merged_all(delta_items(d)),
        (dl, dr) => seq![MergeView::Conflict(l.orig, delta_items(dl), delta_items(dr))],
    }
}

/// The merge entries of the first `n` tasks of the ancestor list, in order.
pub open spec fn merge_entries(cl: Seq<ChangedTask<Task>>, cr: Seq<ChangedTask<Task>>, n: nat) -> Seq<MergeView<Task>>
    decreases n,
{
    if n == 0 {
        Seq::empty()
    } else {
        merge_entries(cl, cr, (n - 1) as nat) + merge_entry(cl[n - 1], cr[n - 1])
    }
}

/// The views of the merge entries, in order.
pub open spec fn views_of(v: Seq<MergeResult<Task>>) -> Seq<MergeView<Task>> {
    v.map_values(|m: MergeResult<Task>| m@)
}

fn copy_tasks(v: &Vec<Task>) -> (r: Vec<Task>)
    ensures
        same_tasks(r@, v@),
{
    let mut r: Vec<Task> = Vec::new();
    let mut i: usize = 0;
    while i < v.len()
        invariant
            i <= v@.len(),
            r@.len() == i,
            forall|k: int| 0 <= k < i ==> r@[k]@ == v@[k]@,
        decreases v@.len() - i,
    {
        r.push(v[i].copy());
        i = i + 1;
    }
    r
}

fn reversed<T>(v: Vec<T>) -> (r: Vec<T>)
    ensures
        r@.len() == v@.len(),
        forall|i: int| 0 <= i < v@.len() ==> r@[i] == v@[v@.len() - 1 - i],
{
    let ghost orig = v@;
    let mut v = v;
    let mut r: Vec<T> = Vec::new();
    while v.len() > 0
        invariant
            v@.len() + r@.len() == orig.len(),
            v@ == orig.subrange(0, v@.len() as int),
            forall|i: int| 0 <= i < r@.len() ==> r@[i] == orig[orig.len() - 1 - i],
        decreases v@.len(),
    {
        match v.pop() {
            Some(x) => r.push(x),
            None => {},
        }
    }
    r
}

fn into_items(d: TaskDelta<Task>) -> (r: Vec<Task>)
    ensures
        r@ == delta_items(d),
{
    match d {
        TaskDelta::Identical => Vec::new(),
        TaskDelta::Deleted => Vec::new(),
        TaskDelta::Changed(t) => {
            let mut v: Vec<Task> = Vec::new();
            v.push(t);
            proof {
                assert(v@ =~= seq![t]);
            }
            v
        },
        TaskDelta::Recurred(v) => v,
    }
}

fn push_merged(res: &mut Vec<MergeResult<Task>>, items: Vec<Task>)
    ensures
        views_of(final(res)@) == views_of(old(res)@) + merged_all(items@),
{
    let ghost start = views_of(res@);
    let ghost orig = items@;
    let mut rev = reversed(items);
    let ghost mut done: int = 0;
    while rev.len() > 0
        invariant
            rev@.len() + done == orig.len(),
            0 <= done <= orig.len(),
            forall|i: int| 0 <= i < rev@.len() ==> rev@[i] == orig[orig.len() - 1 - i],
            views_of(res@) == start + merged_all(orig.subrange(0, done)),
        decreases rev@.len(),
    {
        match rev.pop() {
            Some(t) => {
                let ghost old_res = res@;
                res.push(MergeResult::Merged(t));
                proof {
                    assert(t == orig[done]);
                    assert(orig.subrange(0, done + 1) == orig.subrange(0, done).push(t));
                    assert(merged_all(orig.subrange(0, done + 1)) =~= merged_all(orig.subrange(0, done)).push(MergeView::Merged(t)));
                    assert(views_of(res@) =~= views_of(old_res).push(MergeView::Merged(t)));
                    assert(views_of(res@) =~= start + merged_all(orig.subrange(0, done + 1)));
                    done = done + 1;
                }
            },
            None => {},
        }
    }
    proof {
        assert(orig.subrange(0, done) == orig);
    }
}

fn push_entry(res: &mut Vec<MergeResult<Task>>, l: ChangedTask<Task>, r: ChangedTask<Task>)
    ensures
        views_of(final(res)@) == views_of(old(res)@) + merge_entry(l, r),
{
    let ghost lg = l;
    let ghost rg = r;
    let ghost start = views_of(res@);
    match (l.delta, r.delta) {
        (TaskDelta::Identical, TaskDelta::Identical) => {
            res.push(MergeResult::Merged(l.orig));
            proof {
                assert(views_of(res@) =~= start + merge_entry(lg, rg));
            }
        },
        (TaskDelta::Identical, d) => {
            push_merged(res, into_items(d));
        },
        (d, TaskDelta::Identical) => {
            push_merged(res, into_items(d));
        },
        (dl, dr) => {
            res.push(MergeResult::Conflict(l.orig, into_items(dl), into_items(dr)));
            proof {
                assert(views_of(res@) =~= start + merge_entry(lg, rg));
            }
        },
    }
}


proof fn lemma_entries_merged(cl: Seq<ChangedTask<Task>>, cr: Seq<ChangedTask<Task>>, n: nat)
    requires
        n <= cl.len(),
        n <= cr.len(),
        (forall|j: int| 0 <= j < n ==> cl[j].delta is Identical) || (forall|j: int| 0 <= j < n ==> cr[j].delta is Identical),
    ensures
        forall|i: int| 0 <= i < merge_entries(cl, cr, n).len() ==> merge_entries(cl, cr, n)[i] is Merged,
    decreases n,
{
    if n > 0 {
        lemma_entries_merged(cl, cr, (n - 1) as nat);
        let prev = merge_entries(cl, cr, (n - 1) as nat);
        let e = merge_entry(cl[n - 1], cr[n - 1]);
        assert forall|i: int| 0 <= i < e.len() implies e[i] is Merged by {}
        assert forall|i: int| 0 <= i < (prev + e).len() implies (prev + e)[i] is Merged by {
            if i >= prev.len() {
                assert((prev + e)[i] == e[i - prev.len()]);
            }
        }
    }
}

proof fn lemma_entries_unchanged(cl: Seq<ChangedTask<Task>>, cr: Seq<ChangedTask<Task>>, n: nat)
    requires
        n <= cl.len(),
        n <= cr.len(),
        forall|j: int| 0 <= j < n ==> cl[j].delta is Identical && cr[j].delta is Identical,
    ensures
        merge_entries(cl, cr, n).len() == n,
        forall|j: int| 0 <= j < n ==> merge_entries(cl, cr, n)[j] == MergeView::Merged(cl[j].orig),
    decreases n,
{
    if n > 0 {
        lemma_entries_unchanged(cl, cr, (n - 1) as nat);
    }
}

/// Merges two descendants `left` and `right` of the task list `from`: each side
/// is compared with `from` (see `match_tasks`), each task of `from` gives the
/// entries of `merge_entry`, and the new tasks of both sides follow, those new on
/// both sides once.
pub fn merge_3way(from: Vec<Task>, left: Vec<Task>, right: Vec<Task>, allowed_divergence: usize) -> (r: Vec<MergeResult<Task>>)
    ensures
        exists|f2: Seq<Task>, nl: Seq<Task>, cl: Seq<ChangedTask<Task>>, nr: Seq<Task>, cr: Seq<ChangedTask<Task>>,
            common: Seq<Task>, rest_l: Seq<Task>, rest_r: Seq<Task>|
        {
            &&& same_tasks(f2, from@)
            &&& is_match_result(f2, left@, allowed_divergence, nl, cl)
            &&& is_match_result(from@, right@, allowed_divergence, nr, cr)
            &&& views_of(r@) == merge_entries(cl, cr, from@.len()) + merged_all(common) + merged_all(rest_l) + merged_all(rest_r)
            &&& view_multiset(common) == view_multiset(nl).intersection_with(view_multiset(nr))
            &&& view_multiset(rest_l) == view_multiset(nl).sub(view_multiset(nr))
            &&& view_multiset(rest_r) == view_multiset(nr).sub(view_multiset(nl))
        },
        same_tasks(from@, left@) || same_tasks(from@, right@) ==> forall|i: int| 0 <= i < r@.len() ==> r@[i] is Merged,
        same_tasks(from@, left@) && same_tasks(from@, right@) ==> r@.len() == from@.len() && forall|j: int|
            #![trigger r@[j]] 0 <= j < from@.len() ==> (r@[j] matches MergeResult::Merged(t) && t@ == from@[j]@),
{
    let ghost from_v = from@;
    let ghost left_v = left@;
    let ghost right_v = right@;
    let from_copy = copy_tasks(&from);
    let ghost f2 = from_copy@;
    let n = from.len();
    let (mut new_left, changes_left) = match_tasks(from_copy, left, allowed_divergence);
    let (mut new_right, changes_right) = match_tasks(from, right, allowed_divergence);
    let ghost nl = new_left@;
    let ghost nr = new_right@;
    let ghost cl = changes_left@;
    let ghost cr = changes_right@;
    let common = remove_common(&mut new_left, &mut new_right);
    let mut res: Vec<MergeResult<Task>> = Vec::new();
    let mut lrev = reversed(changes_left);
    let mut rrev = reversed(changes_right);
    let mut j: usize = 0;
    while j < n
        invariant
            j <= n,
            n == from_v.len(),
            cl.len() == n,
            cr.len() == n,
            lrev@.len() == n - j,
            rrev@.len() == n - j,
            forall|i: int| 0 <= i < lrev@.len() ==> lrev@[i] == cl[n - 1 - i],
            forall|i: int| 0 <= i < rrev@.len() ==> rrev@[i] == cr[n - 1 - i],
            views_of(res@) == merge_entries(cl, cr, j as nat),
        decreases n - j,
    {
        match (lrev.pop(), rrev.pop()) {
            (Some(l), Some(r)) => {
                push_entry(&mut res, l, r);
            },
            _ => {},
        }
        j = j + 1;
    }
    let ghost entries = views_of(res@);
    let ghost common_v = common@;
    let ghost rest_l = new_left@;
    let ghost rest_r = new_right@;
    push_merged(&mut res, common);
    push_merged(&mut res, new_left);
    push_merged(&mut res, new_right);
    proof {
        let all = views_of(res@);
        assert(all == merge_entries(cl, cr, from_v.len()) + merged_all(common_v) + merged_all(rest_l) + merged_all(rest_r));
        let ent = merge_entries(cl, cr, from_v.len());
        let tail = merged_all(common_v) + merged_all(rest_l) + merged_all(rest_r);
        assert(all == ent + tail);
        assert forall|i: int| 0 <= i < tail.len() implies tail[i] is Merged by {
            if i < common_v.len() {
            } else if i < common_v.len() + rest_l.len() {
            } else {
            }
        }
        assert forall|i: int| 0 <= i < res@.len() implies (res@[i] is Merged <==> all[i] is Merged) by {}
        if same_tasks(from_v, left_v) {
            assert(same_tasks(f2, left_v));
        }
        if same_tasks(from_v, right_v) {
            assert(same_tasks(from_v, right_v));
        }
        if same_tasks(from_v, left_v) || same_tasks(from_v, right_v) {
            lemma_entries_merged(cl, cr, from_v.len());
            assert forall|i: int| 0 <= i < res@.len() implies res@[i] is Merged by {
                if i < ent.len() {
                    assert(all[i] == ent[i]);
                } else {
                    assert(all[i] == tail[i - ent.len()]);
                }
            }
        }
        if same_tasks(from_v, left_v) && same_tasks(from_v, right_v) {
            lemma_entries_unchanged(cl, cr, from_v.len());
            nl.map_values(|t: Task| t@).to_multiset_ensures();
            nr.map_values(|t: Task| t@).to_multiset_ensures();
            common_v.map_values(|t: Task| t@).to_multiset_ensures();
            rest_l.map_values(|t: Task| t@).to_multiset_ensures();
            rest_r.map_values(|t: Task| t@).to_multiset_ensures();
            assert(view_multiset(nl) =~= Multiset::empty());
            assert(view_multiset(nr) =~= Multiset::empty());
            assert forall|v| #[trigger] view_multiset(common_v).count(v) == 0 by {
                vstd::multiset::lemma_intersection_count(view_multiset(nl), view_multiset(nr), v);
            }
            assert(view_multiset(common_v) =~= Multiset::empty());
            assert(view_multiset(rest_l) =~= Multiset::empty());
            assert(view_multiset(rest_r) =~= Multiset::empty());
            assert(view_multiset(common_v).len() == 0);
            assert(view_multiset(rest_l).len() == 0);
            assert(view_multiset(rest_r).len() == 0);
            assert(all.len() == from_v.len());
            assert forall|j: int| #![trigger res@[j]] 0 <= j < from_v.len() implies (res@[j] matches MergeResult::Merged(t) && t@ == from_v[j]@) by {
                assert(all[j] == ent[j]);
                assert(cl[j].orig@ == f2[j]@);
            }
        }
    }
    res
}


/// Every entry of the merge is a task taken as it is.
pub fn merge_successful(merge: &Vec<MergeResult<Task>>) -> (r: bool)
    ensures
        r == forall|i: int| 0 <= i < merge@.len() ==> merge@[i] is Merged,
{
    let mut i: usize = 0;
    while i < merge.len()
        invariant
            i <= merge@.len(),
            forall|k: int| 0 <= k < i ==> merge@[k] is Merged,
        decreases merge@.len() - i,
    {
        match &merge[i] {
            MergeResult::Merged(_) => {},
            MergeResult::Conflict(_, _, _) => {
                return false;
            },
        }
        i = i + 1;
    }
    true
}

/// The merged tasks, when the merge has no conflict.
pub fn extract_merge_result(merge: Vec<MergeResult<Task>>) -> (r: Option<Vec<Task>>)
    ensures
        r is Some <==> forall|i: int| 0 <= i < merge@.len() ==> merge@[i] is Merged,
        r is Some ==> views_of(merge@) == merged_all(r->0@),
{
    if !merge_successful(&merge) {
        return None;
    }
    let ghost orig = merge@;
    let n = merge.len();
    let mut rev = reversed(merge);
    let mut out: Vec<Task> = Vec::new();
    let mut i: usize = 0;
    while i < n
        invariant
            i <= n,
            n == orig.len(),
            rev@.len() == n - i,
            forall|k: int| 0 <= k < rev@.len() ==> rev@[k] == orig[n - 1 - k],
            out@.len() == i,
            forall|k: int| 0 <= k < n ==> orig[k] is Merged,
            forall|k: int| 0 <= k < i ==> orig[k] == MergeResult::Merged(out@[k]),
        decreases n - i,
    {
        let ghost last = rev@[rev@.len() - 1];
        proof {
            assert(last == orig[i as int]);
        }
        match rev.pop() {
            Some(MergeResult::Merged(t)) => {
                out.push(t);
            },
            _ => {
                proof {
                    assert(orig[i as int] is Merged);
                }
                return None;
            },
        }
        i = i + 1;
    }
    proof {
        assert(views_of(orig) =~= merged_all(out@));
    }
    Some(out)
}

/// A line of five `c`.
pub open spec fn marker(c: char) -> Seq<char> {
    seq![c, c, c, c, c]
}

/// The characters of each string, in order.
pub open spec fn string_views(s: Seq<String>) -> Seq<Seq<char>> {
    s.map_values(|x: String| x@)
}

/// The lines of one merge entry: the task's line, or a conflict between markers
/// (`<<<<<`, the left tasks, `|||||`, the ancestor, `=====`, the right tasks, `>>>>>`).
pub open spec fn entry_lines(m: MergeResult<String>) -> Seq<Seq<char>> {
    match m {
        MergeResult::Merged(t) => seq![t@],
        MergeResult::Conflict(t, l, r) => seq![marker('<')] + string_views(l@) + seq![
            marker('|'),
            t@,
            marker('='),
        ] + string_views(r@) + seq![marker('>')],
    }
}

/// The lines of all merge entries, in order.
pub open spec fn merge_lines(ms: Seq<MergeResult<String>>) -> Seq<Seq<char>>
    decreases ms.len(),
{
    if ms.len() == 0 {
        Seq::empty()
    } else {
        merge_lines(ms.drop_last()) + entry_lines(ms.last())
    }
}

/// The lines joined by newlines.
pub open spec fn join_lines(lines: Seq<Seq<char>>) -> Seq<char>
    decreases lines.len(),
{
    if lines.len() == 0 {
        Seq::empty()
    } else if lines.len() == 1 {
        lines[0]
    } else {
        join_lines(lines.drop_last()) + seq!['\n'] + lines.last()
    }
}

fn marker_line(c: char) -> (r: String)
    requires
        c == '<' || c == '|' || c == '=' || c == '>',
    ensures
        r@ == marker(c),
{
    let r = if c == '<' {
        String::from_str("<<<<<")
    } else if c == '|' {
        String::from_str("|||||")
    } else if c == '=' {
        String::from_str("=====")
    } else {
        String::from_str(">>>>>")
    };
    proof {
        reveal_strlit("<<<<<");
        reveal_strlit("|||||");
        reveal_strlit("=====");
        reveal_strlit(">>>>>");
        assert(r@ =~= marker(c));
    }
    r
}

fn push_lines(lines: &mut Vec<String>, items: Vec<String>)
    ensures
        string_views(final(lines)@) == string_views(old(lines)@) + string_views(items@),
{
    let ghost start = string_views(lines@);
    let ghost orig = items@;
    let mut rev = reversed(items);
    let ghost mut done: int = 0;
    while rev.len() > 0
        invariant
            rev@.len() + done == orig.len(),
            0 <= done <= orig.len(),
            forall|i: int| 0 <= i < rev@.len() ==> rev@[i] == orig[orig.len() - 1 - i],
            string_views(lines@) == start + string_views(orig.subrange(0, done)),
        decreases rev@.len(),
    {
        match rev.pop() {
            Some(t) => {
                let ghost old_lines = lines@;
                lines.push(t);
                proof {
                    assert(t == orig[done]);
                    assert(string_views(orig.subrange(0, done + 1)) =~= string_views(orig.subrange(0, done)).push(t@));
                    assert(string_views(lines@) =~= string_views(old_lines).push(t@));
                    assert(string_views(lines@) =~= start + string_views(orig.subrange(0, done + 1)));
                    done = done + 1;
                }
            },
            None => {},
        }
    }
    proof {
        assert(orig.subrange(0, done) == orig);
    }
}

fn push_one(lines: &mut Vec<String>, s: String)
    ensures
        string_views(final(lines)@) == string_views(old(lines)@) + seq![s@],
{
    let ghost old_lines = lines@;
    lines.push(s);
    proof {
        assert(string_views(lines@) =~= string_views(old_lines) + seq![s@]);
    }
}

/// Writes a merge as text, one line per task; a conflict is framed by marker
/// lines (see `entry_lines`).
pub fn merge_to_string(merge: Vec<MergeResult<String>>) -> (r: String)
    ensures
        r@ == join_lines(merge_lines(merge@)),
{
    let ghost orig = merge@;
    let n = merge.len();
    let mut rev = reversed(merge);
    let mut lines: Vec<String> = Vec::new();
    let mut i: usize = 0;
    while i < n
        invariant
            i <= n,
            n == orig.len(),
            rev@.len() == n - i,
            forall|k: int| 0 <= k < rev@.len() ==> rev@[k] == orig[n - 1 - k],
            string_views(lines@) == merge_lines(orig.subrange(0, i as int)),
        decreases n - i,
    {
        let ghost before = string_views(lines@);
        match rev.pop() {
            Some(m) => {
                let ghost mg = m;
                match m {
                    MergeResult::Merged(t) => {
                        push_one(&mut lines, t);
                    },
                    MergeResult::Conflict(t, l, r) => {
                        push_one(&mut lines, marker_line('<'));
                        push_lines(&mut lines, l);
                        push_one(&mut lines, marker_line('|'));
                        push_one(&mut lines, t);
                        push_one(&mut lines, marker_line('='));
                        push_lines(&mut lines, r);
                        push_one(&mut lines, marker_line('>'));
                    },
                }
                proof {
                    assert(mg == orig[i as int]);
                    assert(orig.subrange(0, i + 1).drop_last() == orig.subrange(0, i as int));
                    assert(string_views(lines@) =~= before + entry_lines(mg));
                }
            },
            None => {},
        }
        i = i + 1;
    }
    proof {
        assert(orig.subrange(0, n as int) == orig);
    }
    let ghost all = string_views(lines@);
    let mut res = String::new();
    let mut k: usize = 0;
    while k < lines.len()
        invariant
            k <= lines@.len(),
            all == string_views(lines@),
            res@ == join_lines(all.subrange(0, k as int)),
        decreases lines@.len() - k,
    {
        let ghost prev = res@;
        if k > 0 {
            res.append("\n");
        }
        res.append(lines[k].as_str());
        proof {
            reveal_strlit("\n");
            assert(all.subrange(0, k + 1).drop_last() == all.subrange(0, k as int));
            if k == 0 {
                assert(res@ =~= join_lines(all.subrange(0, 1)));
            } else {
                assert(res@ =~= join_lines(all.subrange(0, k + 1)));
            }
        }
        k = k + 1;
    }
    proof {
        assert(all.subrange(0, lines@.len() as int) == all);
    }
    res
}

} // verus!
