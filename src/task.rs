use vstd::prelude::*;

verus! {

/// A calendar date, held as its day number: 0001-01-01 is day 1.
#[derive(Clone, Copy, Debug, PartialEq, Eq, Structural)]
pub struct Date {
    pub days: i32,
}

/// The unit of a recurrence interval.
#[derive(Clone, Copy, Debug, PartialEq, Eq, Structural)]
pub enum Period {
    Day,
    Week,
    Month,
    Year,
}

/// How a recurring task comes back: every `num` units, from its due date when
/// `strict`, else from the day it was completed.
#[derive(Clone, Copy, Debug, PartialEq, Eq, Structural)]
pub struct Recurrence {
    pub num: i64,
    pub period: Period,
    pub strict: bool,
}

/// A `key:value` pair attached to a task.
#[derive(Clone, Debug)]
pub struct Tag {
    pub key: String,
    pub value: String,
}

/// One line of a task list. `priority` is 0 for `A` up to 25 for `Z`; any
/// larger value means no priority.
#[derive(Clone, Debug)]
pub struct Task {
    pub subject: String,
    pub priority: u8,
    pub create_date: Option<Date>,
    pub finish_date: Option<Date>,
    pub finished: bool,
    pub threshold_date: Option<Date>,
    pub due_date: Option<Date>,
    pub tags: Vec<Tag>,
    pub recurrence: Option<Recurrence>,
}

/// A task as the contracts see it: its strings as sequences of characters.
pub struct TaskView {
    pub subject: Seq<char>,
    pub priority: u8,
    pub create_date: Option<Date>,
    pub finish_date: Option<Date>,
    pub finished: bool,
    pub threshold_date: Option<Date>,
    pub due_date: Option<Date>,
    pub tags: Seq<(Seq<char>, Seq<char>)>,
    pub recurrence: Option<Recurrence>,
}

impl View for Tag {
    type V = (Seq<char>, Seq<char>);

    open spec fn view(&self) -> (Seq<char>, Seq<char>) {
        (self.key@, self.value@)
    }
}

pub open spec fn tags_view(tags: Seq<Tag>) -> Seq<(Seq<char>, Seq<char>)> {
    tags.map_values(|t: Tag| t@)
}

impl View for Task {
    type V = TaskView;

    open spec fn view(&self) -> TaskView {
        TaskView {
            subject: self.subject@,
            priority: self.priority,
            create_date: self.create_date,
            finish_date: self.finish_date,
            finished: self.finished,
            threshold_date: self.threshold_date,
            due_date: self.due_date,
            tags: tags_view(self.tags@),
            recurrence: self.recurrence,
        }
    }
}

impl Tag {
    /// A copy of the tag.
    pub fn copy(&self) -> (r: Tag)
        ensures
            r@ == self@,
    {
        Tag { key: self.key.clone(), value: self.value.clone() }
    }
}

/// Whether two tags have the same key and the same value.
pub fn same_tag(a: &Tag, b: &Tag) -> (r: bool)
    ensures
        r == (a@ == b@),
{
    a.key == b.key && a.value == b.value
}

impl PartialEq for Tag {
    fn eq(&self, other: &Tag) -> (r: bool)
        ensures
            r == (self@ == other@),
    {
        same_tag(self, other)
    }
}

impl vstd::std_specs::cmp::PartialEqSpecImpl for Tag {
    open spec fn obeys_eq_spec() -> bool {
        true
    }

    open spec fn eq_spec(&self, other: &Tag) -> bool {
        self@ == other@
    }
}

impl Eq for Tag {}

/// A copy of the tag list.
pub fn copy_tags(tags: &Vec<Tag>) -> (r: Vec<Tag>)
    ensures
        tags_view(r@) == tags_view(tags@),
{
    let mut r: Vec<Tag> = Vec::new();
    let mut i: usize = 0;
    while i < tags.len()
        invariant
            i <= tags@.len(),
            r@.len() == i,
            forall|k: int| 0 <= k < i ==> r@[k]@ == tags@[k]@,
        decreases tags@.len() - i,
    {
        r.push(tags[i].copy());
        i = i + 1;
    }
    proof {
        assert(tags_view(r@) =~= tags_view(tags@));
    }
    r
}

/// Whether two tag lists hold the same tags in the same order.
pub fn tags_equal(a: &Vec<Tag>, b: &Vec<Tag>) -> (r: bool)
    ensures
        r == (tags_view(a@) == tags_view(b@)),
{
    if a.len() != b.len() {
        proof {
            assert(tags_view(a@).len() != tags_view(b@).len());
        }
        return false;
    }
    let mut i: usize = 0;
    while i < a.len()
        invariant
            a@.len() == b@.len(),
            i <= a@.len(),
            forall|k: int| 0 <= k < i ==> a@[k]@ == b@[k]@,
        decreases a@.len() - i,
    {
        if !same_tag(&a[i], &b[i]) {
            proof {
                assert(tags_view(a@)[i as int] != tags_view(b@)[i as int]);
            }
            return false;
        }
        i = i + 1;
    }
    proof {
        assert(tags_view(a@) =~= tags_view(b@));
    }
    true
}

/// Whether two optional dates are equal.
pub fn same_date(a: Option<Date>, b: Option<Date>) -> (r: bool)
    ensures
        r == (a == b),
{
    match (a, b) {
        (None, None) => true,
        (Some(x), Some(y)) => x.days == y.days,
        _ => false,
    }
}

/// Whether two optional recurrences are equal.
pub fn same_recurrence(a: Option<Recurrence>, b: Option<Recurrence>) -> (r: bool)
    ensures
        r == (a == b),
{
    match (a, b) {
        (None, None) => true,
        (Some(x), Some(y)) => x.num == y.num && x.period == y.period && x.strict == y.strict,
        _ => false,
    }
}

impl Task {
    /// A copy of the task.
    pub fn copy(&self) -> (r: Task)
        ensures
            r@ == self@,
            r.subject == self.subject,
    {
        Task {
            subject: self.subject.clone(),
            priority: self.priority,
            create_date: self.create_date,
            finish_date: self.finish_date,
            finished: self.finished,
            threshold_date: self.threshold_date,
            due_date: self.due_date,
            tags: copy_tags(&self.tags),
            recurrence: self.recurrence,
        }
    }

    /// Marks the task as not completed, without a completion date.
    pub fn uncomplete(&mut self)
        ensures
            final(self)@ == (TaskView { finished: false, finish_date: None, ..old(self)@ }),
    {
        self.finished = false;
        self.finish_date = None;
    }
}

/// Whether two tasks are equal in every field.
pub fn same_task(a: &Task, b: &Task) -> (r: bool)
    ensures
        r == (a@ == b@),
{
    a.subject == b.subject && a.priority == b.priority && same_date(a.create_date, b.create_date)
        && same_date(a.finish_date, b.finish_date) && a.finished == b.finished && same_date(
        a.threshold_date,
        b.threshold_date,
    ) && same_date(a.due_date, b.due_date) && tags_equal(&a.tags, &b.tags) && same_recurrence(
        a.recurrence,
        b.recurrence,
    )
}

impl PartialEq for Task {
    fn eq(&self, other: &Task) -> (r: bool)
        ensures
            r == (self@ == other@),
    {
        same_task(self, other)
    }
}

impl vstd::std_specs::cmp::PartialEqSpecImpl for Task {
    open spec fn obeys_eq_spec() -> bool {
        true
    }

    open spec fn eq_spec(&self, other: &Task) -> bool {
        self@ == other@
    }
}

impl Eq for Task {}

/// The day number that `months` calendar months after `day` falls on.
pub uninterp spec fn months_later(day: int, months: int) -> int;

/// Largest day number that recurrence arithmetic is done on (9999-12-31).
pub const LAST_RECURRENCE_DAY: i32 = 3_652_059;

/// Largest interval count that recurrence arithmetic is done with.
pub const MAX_RECURRENCE_COUNT: i64 = 65_535;

/// The interval count is one recurrence arithmetic handles: any count up to
/// `MAX_RECURRENCE_COUNT` either way for days and weeks, a count from 0 to it for
/// months and years.
pub open spec fn count_in_range(num: int, unit: Period) -> bool {
    match unit {
        Period::Day | Period::Week => -MAX_RECURRENCE_COUNT <= num <= MAX_RECURRENCE_COUNT,
        _ => 0 <= num <= MAX_RECURRENCE_COUNT,
    }
}

/// Relies on todo_txt's `Recurrence + NaiveDate`: days and weeks move the date by
/// whole days (chrono's `NaiveDate + Duration`), a year is twelve months, and a
/// month step is the calendar rule of that crate, named `months_later`. chrono's
/// `from_num_days_from_ce_opt` and `num_days_from_ce` convert the day number.
#[verifier::external_body]
fn add_period(day: i32, num: i64, unit: Period) -> (r: i32)
    requires
        1 <= day <= LAST_RECURRENCE_DAY,
        count_in_range(num as int, unit),
    ensures
        unit == Period::Day ==> r == day + num,
        unit == Period::Week ==> r == day + 7 * num,
        unit == Period::Month ==> r == months_later(day as int, num as int),
        unit == Period::Year ==> r == months_later(day as int, 12 * num),
{
    let date = chrono::NaiveDate::from_num_days_from_ce_opt(day).unwrap();
    let period = match unit {
        Period::Day => todo_txt::task::Period::Day,
        Period::Week => todo_txt::task::Period::Week,
        Period::Month => todo_txt::task::Period::Month,
        Period::Year => todo_txt::task::Period::Year,
    };
    let rec = todo_txt::task::Recurrence { num, period, strict: false };
    chrono::Datelike::num_days_from_ce(&(rec + date))
}

/// The date one recurrence interval after `date`, where the arithmetic is in range.
pub open spec fn recurrence_after(date: Date, rec: Recurrence) -> Option<int> {
    if 1 <= date.days <= LAST_RECURRENCE_DAY && count_in_range(rec.num as int, rec.period) {
        Some(
            match rec.period {
                Period::Day => date.days + rec.num,
                Period::Week => date.days + 7 * rec.num,
                Period::Month => months_later(date.days as int, rec.num as int),
                Period::Year => months_later(date.days as int, 12 * rec.num),
            },
        )
    } else {
        None
    }
}

/// Whether `target` lies exactly one recurrence interval after `date`.
pub fn recurs_on(date: Date, rec: Recurrence, target: Date) -> (r: bool)
    ensures
        r == (recurrence_after(date, rec) == Some(target.days as int)),
{
    let in_range = match rec.period {
        Period::Day | Period::Week => -MAX_RECURRENCE_COUNT <= rec.num && rec.num <= MAX_RECURRENCE_COUNT,
        _ => 0 <= rec.num && rec.num <= MAX_RECURRENCE_COUNT,
    };
    if 1 <= date.days && date.days <= LAST_RECURRENCE_DAY && in_range {
        let next = add_period(date.days, rec.num, rec.period);
        next == target.days
    } else {
        false
    }
}

} // verus!
