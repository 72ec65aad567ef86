//! A single day's categorized time record.
//!
//! Each day keeps three buckets of named entries — productive tasks,
//! chores and entertainment — and every entry only ever accumulates
//! minutes; nothing is edited or removed within a day.  A bucket is a
//! list of entries with pairwise-distinct names, viewed as a sequence
//! of `(name, minutes)` pairs.

use vstd::prelude::*;

use crate::date::Date;
use crate::time_of_day::TimeOfDay;

verus! {

/// Minutes accumulated under one category name.
#[derive(Clone, Debug)]
pub struct Task {
    pub minutes_spent: u64,
}

/// One named slot of a bucket.
#[derive(Clone, Debug)]
pub struct TaskEntry {
    pub name: String,
    pub task: Task,
}

/// A bucket: named entries in insertion order, names pairwise distinct.
#[derive(Clone, Debug)]
pub struct TaskList {
    pub entries: Vec<TaskEntry>,
}

/// The three category partitions of a day.
#[derive(Clone, Copy, PartialEq, Eq, Structural, Debug)]
pub enum BucketKind {
    Productive,
    Chores,
    Entertainment,
}

/// Sum of the minutes of all entries.
pub open spec fn list_total(m: Seq<(Seq<char>, u64)>) -> int
    decreases m.len(),
{
    if m.len() == 0 {
        0
    } else {
        m[0].1 + list_total(m.drop_first())
    }
}

/// Minutes recorded under `name`; zero when the name is absent.
pub open spec fn list_minutes_of(m: Seq<(Seq<char>, u64)>, name: Seq<char>) -> int
    decreases m.len(),
{
    if m.len() == 0 {
        0
    } else {
        (if m[0].0 == name {
            m[0].1 as int
        } else {
            0
        }) + list_minutes_of(m.drop_first(), name)
    }
}

pub open spec fn list_has_name(m: Seq<(Seq<char>, u64)>, name: Seq<char>) -> bool {
    exists|i: int| 0 <= i < m.len() && m[i].0 == name
}

pub open spec fn list_names_distinct(m: Seq<(Seq<char>, u64)>) -> bool {
    forall|i: int, j: int| 0 <= i < j < m.len() ==> m[i].0 != m[j].0
}

/// The model-level effect of recording `minutes` under `name`: the
/// first entry of that name grows by `minutes`, or a new entry is
/// appended when the name is absent.
pub open spec fn spec_add_minutes(
    m: Seq<(Seq<char>, u64)>,
    name: Seq<char>,
    minutes: u64,
) -> Seq<(Seq<char>, u64)>
    decreases m.len(),
{
    if m.len() == 0 {
        seq![(name, minutes)]
    } else if m[0].0 == name {
        seq![(m[0].0, (m[0].1 + minutes) as u64)] + m.drop_first()
    } else {
        seq![m[0]] + spec_add_minutes(m.drop_first(), name, minutes)
    }
}

pub proof fn lemma_list_total_nonneg(m: Seq<(Seq<char>, u64)>)
    ensures
        0 <= list_total(m),
    decreases m.len(),
{
    if m.len() > 0 {
        lemma_list_total_nonneg(m.drop_first());
    }
}

pub proof fn lemma_minutes_of_le_total(m: Seq<(Seq<char>, u64)>, name: Seq<char>)
    ensures
        0 <= list_minutes_of(m, name) <= list_total(m),
    decreases m.len(),
{
    if m.len() > 0 {
        lemma_minutes_of_le_total(m.drop_first(), name);
    }
}

pub proof fn lemma_list_total_append(a: Seq<(Seq<char>, u64)>, b: Seq<(Seq<char>, u64)>)
    ensures
        list_total(a + b) == list_total(a) + list_total(b),
    decreases a.len(),
{
    if a.len() == 0 {
        assert(a + b =~= b);
    } else {
        assert((a + b).drop_first() =~= a.drop_first() + b);
        lemma_list_total_append(a.drop_first(), b);
    }
}

pub proof fn lemma_list_minutes_of_append(
    a: Seq<(Seq<char>, u64)>,
    b: Seq<(Seq<char>, u64)>,
    name: Seq<char>,
)
    ensures
        list_minutes_of(a + b, name) == list_minutes_of(a, name) + list_minutes_of(b, name),
    decreases a.len(),
{
    if a.len() == 0 {
        assert(a + b =~= b);
    } else {
        assert((a + b).drop_first() =~= a.drop_first() + b);
        lemma_list_minutes_of_append(a.drop_first(), b, name);
    }
}

/// A name that does not occur contributes nothing.
pub proof fn lemma_absent_name_zero(m: Seq<(Seq<char>, u64)>, name: Seq<char>)
    requires
        !list_has_name(m, name),
    ensures
        list_minutes_of(m, name) == 0,
    decreases m.len(),
{
    if m.len() > 0 {
        assert(m[0].0 != name);
        assert(forall|i: int|
            0 <= i < m.drop_first().len() ==> m.drop_first()[i] == m[i + 1]);
        lemma_absent_name_zero(m.drop_first(), name);
    }
}

pub proof fn lemma_list_total_singleton(p: (Seq<char>, u64))
    ensures
        list_total(seq![p]) == p.1,
{
    let s = seq![p];
    assert(s.drop_first() =~= Seq::<(Seq<char>, u64)>::empty());
    assert(list_total(s.drop_first()) == 0);
}

pub proof fn lemma_list_minutes_singleton(p: (Seq<char>, u64), n: Seq<char>)
    ensures
        list_minutes_of(seq![p], n) == if p.0 == n {
            p.1 as int
        } else {
            0
        },
{
    let s = seq![p];
    assert(s.drop_first() =~= Seq::<(Seq<char>, u64)>::empty());
    assert(list_minutes_of(s.drop_first(), n) == 0);
}

/// What one recording step does to every observation of the bucket.
pub proof fn lemma_add_minutes_props(m: Seq<(Seq<char>, u64)>, name: Seq<char>, minutes: u64)
    requires
        list_names_distinct(m),
        list_minutes_of(m, name) + minutes <= u64::MAX,
    ensures
        list_names_distinct(spec_add_minutes(m, name, minutes)),
        list_total(spec_add_minutes(m, name, minutes)) == list_total(m) + minutes,
        forall|n: Seq<char>| #[trigger] list_minutes_of(spec_add_minutes(m, name, minutes), n)
            == list_minutes_of(m, n) + (if n == name { minutes as int } else { 0 }),
        forall|n: Seq<char>| #[trigger] list_has_name(spec_add_minutes(m, name, minutes), n)
            <==> (list_has_name(m, n) || n == name),
    decreases m.len(),
{
    let r = spec_add_minutes(m, name, minutes);
    if m.len() == 0 {
        lemma_list_total_singleton((name, minutes));
        assert forall|n: Seq<char>| #[trigger] list_minutes_of(r, n)
            == list_minutes_of(m, n) + (if n == name { minutes as int } else { 0 }) by {
            lemma_list_minutes_singleton((name, minutes), n);
        }
        assert forall|n: Seq<char>| #[trigger] list_has_name(r, n)
            implies (list_has_name(m, n) || n == name) by {
            let i = choose|i: int| 0 <= i < r.len() && r[i].0 == n;
            assert(i == 0);
        }
        assert forall|n: Seq<char>| (list_has_name(m, n) || n == name)
            implies #[trigger] list_has_name(r, n) by {
            assert(r[0].0 == name);
        }
    } else if m[0].0 == name {
        let head = (m[0].0, (m[0].1 + minutes) as u64);
        assert(r =~= seq![head] + m.drop_first());
        // the tail cannot mention `name` again, so the head's sum is exact
        assert forall|k: int| 0 <= k < m.drop_first().len()
            implies #[trigger] m.drop_first()[k].0 != name by {
            assert(m.drop_first()[k] == m[k + 1]);
        }
        lemma_absent_name_zero(m.drop_first(), name);
        assert(r.drop_first() =~= m.drop_first());
        assert forall|n: Seq<char>| #[trigger] list_minutes_of(r, n)
            == list_minutes_of(m, n) + (if n == name { minutes as int } else { 0 }) by {
            assert(list_minutes_of(r, n) == (if r[0].0 == n { r[0].1 as int } else { 0 })
                + list_minutes_of(m.drop_first(), n));
        }
        assert forall|n: Seq<char>| #[trigger] list_has_name(r, n)
            implies (list_has_name(m, n) || n == name) by {
            let i = choose|i: int| 0 <= i < r.len() && r[i].0 == n;
            if i == 0 {
                assert(m[0].0 == n);
            } else {
                assert(m[i].0 == n);
            }
        }
        assert forall|n: Seq<char>| (list_has_name(m, n) || n == name)
            implies #[trigger] list_has_name(r, n) by {
            if n == name {
                assert(r[0].0 == n);
            } else {
                let i = choose|i: int| 0 <= i < m.len() && m[i].0 == n;
                assert(i != 0);
                assert(r[i].0 == n);
            }
        }
    } else {
        let tail = m.drop_first();
        assert(forall|i: int, j: int|
            0 <= i < j < tail.len() ==> #[trigger] tail[i].0 != #[trigger] tail[j].0) by {
            assert(forall|i: int| 0 <= i < tail.len() ==> tail[i] == m[i + 1]);
        }
        assert(list_minutes_of(m, name) == list_minutes_of(tail, name));
        lemma_add_minutes_props(tail, name, minutes);
        let rt = spec_add_minutes(tail, name, minutes);
        assert(r =~= seq![m[0]] + rt);
        assert(r.drop_first() =~= rt);
        lemma_list_total_nonneg(tail);
        // distinctness: the new name differs from the head
        assert forall|i: int, j: int| 0 <= i < j < r.len()
            implies r[i].0 != r[j].0 by {
            if i == 0 {
                assert(r[j].0 == rt[j - 1].0);
                if r[0].0 == r[j].0 {
                    assert(list_has_name(rt, m[0].0));
                    if list_has_name(tail, m[0].0) {
                        let k = choose|k: int| 0 <= k < tail.len() && tail[k].0 == m[0].0;
                        assert(m[k + 1].0 == m[0].0);
                        assert(false);
                    } else {
                        assert(m[0].0 == name);
                        assert(false);
                    }
                }
            } else {
                assert(r[i].0 == rt[i - 1].0 && r[j].0 == rt[j - 1].0);
            }
        }
        assert forall|n: Seq<char>| #[trigger] list_minutes_of(r, n)
            == list_minutes_of(m, n) + (if n == name { minutes as int } else { 0 }) by {
            assert(list_minutes_of(r, n) == (if m[0].0 == n { m[0].1 as int } else { 0 })
                + list_minutes_of(rt, n));
        }
        assert forall|n: Seq<char>| #[trigger] list_has_name(r, n)
            implies (list_has_name(m, n) || n == name) by {
            let i = choose|i: int| 0 <= i < r.len() && r[i].0 == n;
            if i == 0 {
                assert(m[0].0 == n);
            } else {
                assert(rt[i - 1].0 == n);
                assert(list_has_name(rt, n));
                if list_has_name(tail, n) {
                    let k = choose|k: int| 0 <= k < tail.len() && tail[k].0 == n;
                    assert(m[k + 1].0 == n);
                }
            }
        }
        assert forall|n: Seq<char>| (list_has_name(m, n) || n == name)
            implies #[trigger] list_has_name(r, n) by {
            if n == name {
                assert(list_has_name(rt, n));
                let k = choose|k: int| 0 <= k < rt.len() && rt[k].0 == n;
                assert(r[k + 1].0 == n);
            } else {
                let i = choose|i: int| 0 <= i < m.len() && m[i].0 == n;
                if i == 0 {
                    assert(r[0].0 == n);
                } else {
                    assert(tail[i - 1].0 == n);
                    assert(list_has_name(tail, n));
                    assert(list_has_name(rt, n));
                    let k = choose|k: int| 0 <= k < rt.len() && rt[k].0 == n;
                    assert(r[k + 1].0 == n);
                }
            }
        }
    }
}

impl TaskList {
    /// The bucket as a sequence of `(name, minutes)` pairs.
    pub open spec fn model(self) -> Seq<(Seq<char>, u64)> {
        self.entries@.map_values(|e: TaskEntry| (e.name@, e.task.minutes_spent))
    }

    pub open spec fn wf(self) -> bool {
        list_names_distinct(self.model())
    }

    pub fn new() -> (r: TaskList)
        ensures
            r.model() =~= Seq::<(Seq<char>, u64)>::empty(),
            r.wf(),
    {
        let r = TaskList { entries: Vec::new() };
        proof {
            assert(r.model() =~= Seq::<(Seq<char>, u64)>::empty());
        }
        r
    }

    pub fn len(&self) -> (n: usize)
        ensures
            n == self.model().len(),
    {
        self.entries.len()
    }

    /// Name and minutes of the entry at `i`, for reading a bucket out.
    pub fn entry_at(&self, i: usize) -> (r: (String, u64))
        requires
            i < self.model().len(),
        ensures
            r.0@ == self.model()[i as int].0,
            r.1 == self.model()[i as int].1,
    {
        let e = &self.entries[i];
        (e.name.clone(), e.task.minutes_spent)
    }

    /// Adds `minutes` under `name`, creating the entry if it is new.
    pub fn add_minutes(&mut self, name: &String, minutes: u64)
        requires
            old(self).wf(),
            list_minutes_of(old(self).model(), name@) + minutes <= u64::MAX,
        ensures
            final(self).model() == spec_add_minutes(old(self).model(), name@, minutes),
            final(self).wf(),
    {
        proof {
            lemma_add_minutes_props(self.model(), name@, minutes);
        }
        let ghost m0 = self.model();
        let mut i: usize = 0;
        while i < self.entries.len()
            invariant
                i <= self.entries.len(),
                *self == *old(self),
                m0 == self.model(),
                forall|j: int| 0 <= j < i ==> m0[j].0 != name@,
                list_names_distinct(m0),
                list_minutes_of(m0, name@) + minutes <= u64::MAX,
            decreases self.entries.len() - i,
        {
            if self.entries[i].name == *name {
                proof {
                    lemma_add_match_at(m0, name@, minutes, i as int);
                    lemma_minutes_at_match(m0, name@, i as int);
                }
                let cur = self.entries[i].task.minutes_spent;
                self.entries[i].task.minutes_spent = cur + minutes;
                proof {
                    assert(self.model() =~= m0.update(i as int, (name@, (m0[i as int].1 + minutes) as u64)));
                }
                return ;
            }
            i += 1;
        }
        proof {
            lemma_add_no_match(m0, name@, minutes);
        }
        self.entries.push(TaskEntry { name: name.clone(), task: Task { minutes_spent: minutes } });
        proof {
            assert(self.model() =~= m0.push((name@, minutes)));
        }
    }

    /// Sum of all minutes in the bucket.
    pub fn total_minutes(&self) -> (t: u64)
        requires
            list_total(self.model()) <= u64::MAX,
        ensures
            t == list_total(self.model()),
    {
        let ghost m = self.model();
        let mut acc: u64 = 0;
        let mut i: usize = 0;
        proof {
            assert(m.take(0) =~= Seq::<(Seq<char>, u64)>::empty());
        }
        while i < self.entries.len()
            invariant
                i <= self.entries.len(),
                m == self.model(),
                list_total(m) <= u64::MAX,
                acc == list_total(m.take(i as int)),
            decreases self.entries.len() - i,
        {
            proof {
                assert(m.take(i as int) + m.skip(i as int) =~= m);
                lemma_list_total_append(m.take(i as int), m.skip(i as int));
                assert(m.skip(i as int).len() > 0);
                assert(m.skip(i as int)[0] == m[i as int]);
                lemma_list_total_nonneg(m.skip(i as int).drop_first());
                assert(m.take(i as int + 1) =~= m.take(i as int) + seq![m[i as int]]);
                lemma_list_total_append(m.take(i as int), seq![m[i as int]]);
                lemma_list_total_singleton(m[i as int]);
            }
            acc = acc + self.entries[i].task.minutes_spent;
            i += 1;
        }
        proof {
            assert(m.take(i as int) =~= m);
        }
        acc
    }
}

/// When the first match is at `i`, the recording step is an update there.
proof fn lemma_add_match_at(m: Seq<(Seq<char>, u64)>, name: Seq<char>, minutes: u64, i: int)
    requires
        0 <= i < m.len(),
        m[i].0 == name,
        forall|j: int| 0 <= j < i ==> m[j].0 != name,
    ensures
        spec_add_minutes(m, name, minutes) == m.update(i, (name, (m[i].1 + minutes) as u64)),
    decreases i,
{
    if i == 0 {
        assert(spec_add_minutes(m, name, minutes) =~= m.update(0, (name, (m[0].1 + minutes) as u64)));
    } else {
        let tail = m.drop_first();
        assert(forall|j: int| 0 <= j < i - 1 ==> tail[j] == m[j + 1]);
        assert(tail[i - 1] == m[i]);
        lemma_add_match_at(tail, name, minutes, i - 1);
        assert(spec_add_minutes(m, name, minutes) =~= m.update(i, (name, (m[i].1 + minutes) as u64)));
    }
}

/// With distinct names, the entry at the match holds the whole sum.
proof fn lemma_minutes_at_match(m: Seq<(Seq<char>, u64)>, name: Seq<char>, i: int)
    requires
        list_names_distinct(m),
        0 <= i < m.len(),
        m[i].0 == name,
    ensures
        list_minutes_of(m, name) == m[i].1,
    decreases i,
{
    let tail = m.drop_first();
    assert(forall|k: int| 0 <= k < tail.len() ==> tail[k] == m[k + 1]);
    if i == 0 {
        assert(forall|k: int| 0 <= k < tail.len() ==> tail[k].0 != name);
        lemma_absent_name_zero(tail, name);
    } else {
        assert(m[0].0 != name);
        lemma_minutes_at_match(tail, name, i - 1);
    }
}

/// With no match anywhere, the recording step is an append.
proof fn lemma_add_no_match(m: Seq<(Seq<char>, u64)>, name: Seq<char>, minutes: u64)
    requires
        forall|j: int| 0 <= j < m.len() ==> m[j].0 != name,
    ensures
        spec_add_minutes(m, name, minutes) == m.push((name, minutes)),
    decreases m.len(),
{
    if m.len() == 0 {
        assert(spec_add_minutes(m, name, minutes) =~= m.push((name, minutes)));
    } else {
        let tail = m.drop_first();
        assert(forall|k: int| 0 <= k < tail.len() ==> tail[k] == m[k + 1]);
        lemma_add_no_match(tail, name, minutes);
        assert(spec_add_minutes(m, name, minutes) =~= m.push((name, minutes)));
    }
}

/// Sum of a run of interval durations.
pub open spec fn seq_sum(durations: Seq<u64>) -> int
    decreases durations.len(),
{
    if durations.len() == 0 {
        0
    } else {
        durations[0] + seq_sum(durations.drop_first())
    }
}

pub proof fn lemma_seq_sum_nonneg(durations: Seq<u64>)
    ensures
        0 <= seq_sum(durations),
    decreases durations.len(),
{
    if durations.len() > 0 {
        lemma_seq_sum_nonneg(durations.drop_first());
    }
}

/// The model-level effect of recording a run of intervals, one after
/// the other, all under the same name.
pub open spec fn spec_record_seq(
    m: Seq<(Seq<char>, u64)>,
    name: Seq<char>,
    durations: Seq<u64>,
) -> Seq<(Seq<char>, u64)>
    decreases durations.len(),
{
    if durations.len() == 0 {
        m
    } else {
        spec_record_seq(spec_add_minutes(m, name, durations[0]), name, durations.drop_first())
    }
}

/// Law: recording a run of intervals under one category accumulates
/// exactly their sum under that category, and every other category's
/// minutes stay what they were — recordings never cross-contaminate.
pub proof fn lemma_record_seq_accumulates(
    m: Seq<(Seq<char>, u64)>,
    name: Seq<char>,
    durations: Seq<u64>,
)
    requires
        list_names_distinct(m),
        list_minutes_of(m, name) + seq_sum(durations) <= u64::MAX,
    ensures
        list_names_distinct(spec_record_seq(m, name, durations)),
        list_minutes_of(spec_record_seq(m, name, durations), name) == list_minutes_of(m, name)
            + seq_sum(durations),
        forall|n: Seq<char>|
            n != name ==> #[trigger] list_minutes_of(spec_record_seq(m, name, durations), n)
                == list_minutes_of(m, n),
        list_total(spec_record_seq(m, name, durations)) == list_total(m) + seq_sum(durations),
    decreases durations.len(),
{
    if durations.len() > 0 {
        lemma_seq_sum_nonneg(durations.drop_first());
        lemma_add_minutes_props(m, name, durations[0]);
        lemma_record_seq_accumulates(
            spec_add_minutes(m, name, durations[0]),
            name,
            durations.drop_first(),
        );
    }
}

/// Exactly what recording `minutes` under `name` does to a day: the
/// chosen bucket absorbs one recording step, the other two buckets and
/// the day's identity are untouched.
pub open spec fn is_record_result(
    pre: TodaysTasks,
    post: TodaysTasks,
    bucket: BucketKind,
    name: Seq<char>,
    minutes: u64,
) -> bool {
    &&& post.date == pre.date
    &&& post.start_time == pre.start_time
    &&& (bucket == BucketKind::Productive ==> {
        &&& post.todays_tasks.model() == spec_add_minutes(pre.todays_tasks.model(), name, minutes)
        &&& post.todays_chores == pre.todays_chores
        &&& post.todays_entertainment == pre.todays_entertainment
    })
    &&& (bucket == BucketKind::Chores ==> {
        &&& post.todays_chores.model() == spec_add_minutes(pre.todays_chores.model(), name, minutes)
        &&& post.todays_tasks == pre.todays_tasks
        &&& post.todays_entertainment == pre.todays_entertainment
    })
    &&& (bucket == BucketKind::Entertainment ==> {
        &&& post.todays_entertainment.model() == spec_add_minutes(
            pre.todays_entertainment.model(),
            name,
            minutes,
        )
        &&& post.todays_tasks == pre.todays_tasks
        &&& post.todays_chores == pre.todays_chores
    })
}

/// One calendar day's record: its date, the time its tracking started,
/// and the three buckets.
#[derive(Clone, Debug)]
pub struct TodaysTasks {
    pub date: Date,
    pub start_time: Option<TimeOfDay>,
    pub todays_tasks: TaskList,
    pub todays_chores: TaskList,
    pub todays_entertainment: TaskList,
}

impl TodaysTasks {
    pub open spec fn wf(self) -> bool {
        &&& self.date.valid()
        &&& (self.start_time matches Some(t) ==> t.valid())
        &&& self.todays_tasks.wf()
        &&& self.todays_chores.wf()
        &&& self.todays_entertainment.wf()
    }

    /// Minutes across all three buckets.
    pub open spec fn spec_total(self) -> int {
        list_total(self.todays_tasks.model()) + list_total(self.todays_chores.model())
            + list_total(self.todays_entertainment.model())
    }

    /// Minutes in the productive bucket alone.
    pub open spec fn spec_productive(self) -> int {
        list_total(self.todays_tasks.model())
    }

    /// Minutes recorded under `name`, summed over all three buckets.
    pub open spec fn spec_all_minutes_of(self, name: Seq<char>) -> int {
        list_minutes_of(self.todays_tasks.model(), name) + list_minutes_of(
            self.todays_chores.model(),
            name,
        ) + list_minutes_of(self.todays_entertainment.model(), name)
    }

    pub open spec fn spec_has_name(self, name: Seq<char>) -> bool {
        ||| list_has_name(self.todays_tasks.model(), name)
        ||| list_has_name(self.todays_chores.model(), name)
        ||| list_has_name(self.todays_entertainment.model(), name)
    }

    /// Whether nothing has been recorded yet.
    pub open spec fn is_fresh(self) -> bool {
        &&& self.todays_tasks.model().len() == 0
        &&& self.todays_chores.model().len() == 0
        &&& self.todays_entertainment.model().len() == 0
    }

    /// A new, empty day.
    pub fn new(date: Date, start_time: Option<TimeOfDay>) -> (r: Self)
        requires
            date.valid(),
            start_time matches Some(t) ==> t.valid(),
        ensures
            r.date == date,
            r.start_time == start_time,
            r.is_fresh(),
            r.wf(),
            r.spec_total() == 0,
    {
        TodaysTasks {
            date,
            start_time,
            todays_tasks: TaskList::new(),
            todays_chores: TaskList::new(),
            todays_entertainment: TaskList::new(),
        }
    }

    /// Records `minutes` under `name` in the chosen bucket.  Totals
    /// only ever grow: no operation decrements or removes an entry.
    pub fn record(&mut self, bucket: BucketKind, name: &String, minutes: u64)
        requires
            old(self).wf(),
            old(self).spec_total() + minutes <= u64::MAX,
        ensures
            final(self).wf(),
            is_record_result(*old(self), *final(self), bucket, name@, minutes),
            final(self).spec_total() == old(self).spec_total() + minutes,
            forall|n: Seq<char>| #[trigger] final(self).spec_all_minutes_of(n)
                == old(self).spec_all_minutes_of(n) + (if n == name@ { minutes as int } else { 0 }),
            bucket != BucketKind::Productive ==> final(self).spec_productive()
                == old(self).spec_productive(),
    {
        proof {
            lemma_list_total_nonneg(self.todays_tasks.model());
            lemma_list_total_nonneg(self.todays_chores.model());
            lemma_list_total_nonneg(self.todays_entertainment.model());
            lemma_minutes_of_le_total(self.todays_tasks.model(), name@);
            lemma_minutes_of_le_total(self.todays_chores.model(), name@);
            lemma_minutes_of_le_total(self.todays_entertainment.model(), name@);
        }
        match bucket {
            BucketKind::Productive => {
                proof {
                    lemma_add_minutes_props(self.todays_tasks.model(), name@, minutes);
                }
                self.todays_tasks.add_minutes(name, minutes);
            },
            BucketKind::Chores => {
                proof {
                    lemma_add_minutes_props(self.todays_chores.model(), name@, minutes);
                }
                self.todays_chores.add_minutes(name, minutes);
            },
            BucketKind::Entertainment => {
                proof {
                    lemma_add_minutes_props(self.todays_entertainment.model(), name@, minutes);
                }
                self.todays_entertainment.add_minutes(name, minutes);
            },
        }
    }

    /// Minutes across all three buckets.
    pub fn total_minutes_spent(&self) -> (t: u64)
        requires
            self.spec_total() <= u64::MAX,
        ensures
            t == self.spec_total(),
    {
        proof {
            lemma_list_total_nonneg(self.todays_tasks.model());
            lemma_list_total_nonneg(self.todays_chores.model());
            lemma_list_total_nonneg(self.todays_entertainment.model());
        }
        self.todays_tasks.total_minutes() + self.todays_chores.total_minutes()
            + self.todays_entertainment.total_minutes()
    }

    /// Minutes in the productive bucket alone: chores and entertainment
    /// are tracked, but excluded from this figure.
    pub fn total_productive_minutes(&self) -> (t: u64)
        requires
            self.spec_total() <= u64::MAX,
        ensures
            t == self.spec_productive(),
    {
        proof {
            lemma_list_total_nonneg(self.todays_chores.model());
            lemma_list_total_nonneg(self.todays_entertainment.model());
        }
        self.todays_tasks.total_minutes()
    }
}

} // verus!
