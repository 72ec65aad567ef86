//! Process-wide tracker state: the active day, the history, and the
//! configured end of day.
//!
//! The history is an append-only chronological record: a day's ledger
//! is archived exactly once, when the first run on a later date finds
//! the active date stale.  Checking again on the same date is a no-op,
//! and days on which the tracker never ran are skipped silently rather
//! than backfilled.

use vstd::prelude::*;

use crate::date::Date;
use crate::task::{
    is_record_result, lemma_list_total_nonneg, BucketKind, TodaysTasks,
};
use crate::time_of_day::TimeOfDay;

verus! {

/// The persisted state: configured end of day, the single mutable
/// active ledger, and the archive of finished days.
#[derive(Clone, Debug)]
pub struct UserSettings {
    pub end_time: Option<TimeOfDay>,
    pub today: TodaysTasks,
    pub past_tasks: Vec<TodaysTasks>,
}

/// Sum of the day totals of a run of ledgers.
pub open spec fn days_total(days: Seq<TodaysTasks>) -> int
    decreases days.len(),
{
    if days.len() == 0 {
        0
    } else {
        days[0].spec_total() + days_total(days.drop_first())
    }
}

pub proof fn lemma_days_total_nonneg(days: Seq<TodaysTasks>)
    ensures
        0 <= days_total(days),
    decreases days.len(),
{
    if days.len() > 0 {
        lemma_list_total_nonneg(days[0].todays_tasks.model());
        lemma_list_total_nonneg(days[0].todays_chores.model());
        lemma_list_total_nonneg(days[0].todays_entertainment.model());
        lemma_days_total_nonneg(days.drop_first());
    }
}

pub proof fn lemma_days_total_singleton(day: TodaysTasks)
    ensures
        days_total(seq![day]) == day.spec_total(),
{
    let s = seq![day];
    assert(s.drop_first() =~= Seq::<TodaysTasks>::empty());
    assert(days_total(s.drop_first()) == 0);
}

pub proof fn lemma_days_total_push(days: Seq<TodaysTasks>, day: TodaysTasks)
    ensures
        days_total(days.push(day)) == days_total(days) + day.spec_total(),
    decreases days.len(),
{
    if days.len() == 0 {
        assert(days.push(day) =~= seq![day]);
        lemma_days_total_singleton(day);
    } else {
        assert(days.push(day).drop_first() =~= days.drop_first().push(day));
        lemma_days_total_push(days.drop_first(), day);
    }
}

/// Exactly what the rollover check leaves behind: either nothing
/// changed (same date), or the old active ledger was archived whole
/// and a fresh one opened under the current date.
pub open spec fn is_rollover_result(
    pre: UserSettings,
    post: UserSettings,
    current_date: Date,
    now_time: TimeOfDay,
) -> bool {
    if pre.rollover_needed(current_date) {
        &&& post.past_tasks@ == pre.past_tasks@.push(pre.today)
        &&& post.today.date == current_date
        &&& post.today.start_time == Some(now_time)
        &&& post.today.is_fresh()
        &&& post.end_time == pre.end_time
    } else {
        post == pre
    }
}

impl UserSettings {
    /// All ledgers, archived days first, the active day last.
    pub open spec fn spec_all_days(self) -> Seq<TodaysTasks> {
        self.past_tasks@.push(self.today)
    }

    /// Every minute ever recorded, over history and the active day.
    pub open spec fn grand_total(self) -> int {
        days_total(self.spec_all_days())
    }

    pub open spec fn spec_history_has_date(self, d: Date) -> bool {
        exists|i: int| 0 <= i < self.past_tasks@.len() && self.past_tasks@[i].date == d
    }

    pub open spec fn wf(self) -> bool {
        &&& self.today.wf()
        &&& (self.end_time matches Some(t) ==> t.valid())
        &&& forall|i: int|
            0 <= i < self.past_tasks@.len() ==> (#[trigger] self.past_tasks@[i]).wf()
        &&& forall|i: int, j: int|
            0 <= i < j < self.past_tasks@.len() ==> (#[trigger] self.past_tasks@[i]).date != (
            #[trigger] self.past_tasks@[j]).date
        &&& forall|i: int|
            0 <= i < self.past_tasks@.len() ==> (#[trigger] self.past_tasks@[i]).date
                != self.today.date
        &&& self.grand_total() <= u64::MAX
    }

    /// Whether the active ledger's date is stale.
    pub open spec fn rollover_needed(self, current_date: Date) -> bool {
        current_date != self.today.date
    }

    /// A first-ever state: nothing configured, nothing recorded.
    pub fn new(date: Date) -> (r: Self)
        requires
            date.valid(),
        ensures
            r.end_time is None,
            r.today.date == date,
            r.today.start_time is None,
            r.today.is_fresh(),
            r.past_tasks@.len() == 0,
            r.grand_total() == 0,
            r.wf(),
    {
        let r = UserSettings {
            end_time: None,
            today: TodaysTasks::new(date, None),
            past_tasks: Vec::new(),
        };
        proof {
            assert(r.spec_all_days() =~= seq![r.today]);
            lemma_days_total_singleton(r.today);
        }
        r
    }

    /// Whether some archived ledger carries date `d`.
    pub fn has_history_date(&self, d: &Date) -> (r: bool)
        ensures
            r == self.spec_history_has_date(*d),
    {
        let mut i: usize = 0;
        while i < self.past_tasks.len()
            invariant
                i <= self.past_tasks.len(),
                forall|j: int| 0 <= j < i ==> self.past_tasks@[j].date != *d,
            decreases self.past_tasks.len() - i,
        {
            if self.past_tasks[i].date == *d {
                return true;
            }
            i += 1;
        }
        false
    }

    /// The day-rollover check, run once per process start.
    ///
    /// If the current date still matches the active ledger, nothing
    /// happens.  Otherwise the active ledger is archived — totals
    /// intact — and a fresh ledger is opened for the current date,
    /// its start time set to the moment of rollover.  Dates that were
    /// skipped entirely get no placeholder ledgers.
    pub fn rollover(&mut self, current_date: Date, now_time: TimeOfDay) -> (rolled: bool)
        requires
            old(self).wf(),
            current_date.valid(),
            now_time.valid(),
            old(self).rollover_needed(current_date) ==> !old(self).spec_history_has_date(
                current_date,
            ),
        ensures
            rolled == old(self).rollover_needed(current_date),
            is_rollover_result(*old(self), *final(self), current_date, now_time),
            final(self).wf(),
            final(self).grand_total() == old(self).grand_total(),
            final(self).today.date == current_date,
    {
        if current_date == self.today.date {
            return false;
        }
        let ghost pre = *self;
        let mut archived = TodaysTasks::new(current_date, Some(now_time));
        core::mem::swap(&mut self.today, &mut archived);
        self.past_tasks.push(archived);
        proof {
            assert(self.past_tasks@ =~= pre.past_tasks@.push(pre.today));
            lemma_days_total_push(pre.past_tasks@, pre.today);
            lemma_days_total_push(self.past_tasks@, self.today);
            assert(pre.spec_all_days() == pre.past_tasks@.push(pre.today));
            assert(self.grand_total() == days_total(self.past_tasks@) + self.today.spec_total());
            assert(self.today.spec_total() == 0);
        }
        true
    }

    /// Records `minutes` under `name` in the chosen bucket of the
    /// active ledger; the history and the configuration are untouched.
    pub fn record_task(&mut self, bucket: BucketKind, name: &String, minutes: u64)
        requires
            old(self).wf(),
            old(self).grand_total() + minutes <= u64::MAX,
        ensures
            final(self).wf(),
            is_record_result(old(self).today, final(self).today, bucket, name@, minutes),
            final(self).past_tasks == old(self).past_tasks,
            final(self).end_time == old(self).end_time,
            final(self).grand_total() == old(self).grand_total() + minutes,
    {
        proof {
            lemma_days_total_push(self.past_tasks@, self.today);
            lemma_days_total_nonneg(self.past_tasks@);
        }
        self.today.record(bucket, name, minutes);
        proof {
            lemma_days_total_push(self.past_tasks@, self.today);
        }
    }

    /// Every minute ever recorded, over history and the active day.
    pub fn grand_total_minutes(&self) -> (t: u64)
        requires
            self.wf(),
        ensures
            t == self.grand_total(),
    {
        let ghost all = self.spec_all_days();
        proof {
            lemma_days_total_push(self.past_tasks@, self.today);
            lemma_days_total_nonneg(self.past_tasks@);
            lemma_list_total_nonneg(self.today.todays_tasks.model());
            lemma_list_total_nonneg(self.today.todays_chores.model());
            lemma_list_total_nonneg(self.today.todays_entertainment.model());
            assert(self.past_tasks@.take(0) =~= Seq::<TodaysTasks>::empty());
        }
        let mut acc: u64 = 0;
        let mut i: usize = 0;
        while i < self.past_tasks.len()
            invariant
                i <= self.past_tasks.len(),
                self.wf(),
                acc == days_total(self.past_tasks@.take(i as int)),
                days_total(self.past_tasks@) + self.today.spec_total() == self.grand_total(),
                self.grand_total() <= u64::MAX,
            decreases self.past_tasks.len() - i,
        {
            proof {
                lemma_days_total_split(self.past_tasks@, i as int);
                lemma_days_total_nonneg(self.past_tasks@.skip(i as int + 1));
                lemma_list_total_nonneg(self.today.todays_tasks.model());
                lemma_list_total_nonneg(self.today.todays_chores.model());
                lemma_list_total_nonneg(self.today.todays_entertainment.model());
            }
            acc = acc + self.past_tasks[i].total_minutes_spent();
            i += 1;
        }
        proof {
            assert(self.past_tasks@.take(i as int) =~= self.past_tasks@);
        }
        acc + self.today.total_minutes_spent()
    }

    /// The day's fixed start time: the stored one if it is already
    /// set, else `prompted`, which is then stored for the rest of the
    /// day.  A start time, once set, is never overwritten.
    pub fn resolve_start_time(&mut self, prompted: TimeOfDay) -> (r: TimeOfDay)
        requires
            old(self).wf(),
            prompted.valid(),
        ensures
            final(self).wf(),
            r.valid(),
            final(self).today.start_time == Some(r),
            old(self).today.start_time matches Some(t) ==> r == t && *final(self) == *old(self),
            old(self).today.start_time is None ==> r == prompted && *final(self) == (UserSettings {
                today: TodaysTasks { start_time: Some(prompted), ..old(self).today },
                ..*old(self)
            }),
    {
        match self.today.start_time {
            Some(t) => t,
            None => {
                let ghost pre = *self;
                self.today.start_time = Some(prompted);
                proof {
                    lemma_days_total_push(pre.past_tasks@, pre.today);
                    lemma_days_total_push(self.past_tasks@, self.today);
                }
                prompted
            },
        }
    }

    /// The configured end of day: the stored one if it is already
    /// set, else `prompted`, which is then stored and reused on every
    /// later day.
    pub fn resolve_end_time(&mut self, prompted: TimeOfDay) -> (r: TimeOfDay)
        requires
            old(self).wf(),
            prompted.valid(),
        ensures
            final(self).wf(),
            r.valid(),
            final(self).end_time == Some(r),
            old(self).end_time matches Some(t) ==> r == t && *final(self) == *old(self),
            old(self).end_time is None ==> r == prompted && *final(self) == (UserSettings {
                end_time: Some(prompted),
                ..*old(self)
            }),
    {
        match self.end_time {
            Some(t) => t,
            None => {
                self.end_time = Some(prompted);
                prompted
            },
        }
    }
}

/// Splitting a run of ledgers at `i` splits its total.
pub proof fn lemma_days_total_split(days: Seq<TodaysTasks>, i: int)
    requires
        0 <= i < days.len(),
    ensures
        days_total(days.take(i + 1)) == days_total(days.take(i)) + days[i].spec_total(),
        days_total(days) == days_total(days.take(i + 1)) + days_total(days.skip(i + 1)),
    decreases days.len(),
{
    lemma_days_total_append(days.take(i), seq![days[i]]);
    assert(days.take(i + 1) =~= days.take(i) + seq![days[i]]);
    lemma_days_total_singleton(days[i]);
    lemma_days_total_append(days.take(i + 1), days.skip(i + 1));
    assert(days.take(i + 1) + days.skip(i + 1) =~= days);
}

pub proof fn lemma_days_total_append(a: Seq<TodaysTasks>, b: Seq<TodaysTasks>)
    ensures
        days_total(a + b) == days_total(a) + days_total(b),
    decreases a.len(),
{
    if a.len() == 0 {
        assert(a + b =~= b);
    } else {
        assert((a + b).drop_first() =~= a.drop_first() + b);
        lemma_days_total_append(a.drop_first(), b);
    }
}

/// Law: the rollover check is idempotent per calendar day.  Once a
/// check has run against `current_date`, running it again on the same
/// date changes nothing — in particular the history keeps its length,
/// so a day is archived at most once.
pub proof fn lemma_rollover_idempotent(
    s0: UserSettings,
    s1: UserSettings,
    s2: UserSettings,
    current_date: Date,
    t1: TimeOfDay,
    t2: TimeOfDay,
)
    requires
        is_rollover_result(s0, s1, current_date, t1),
        is_rollover_result(s1, s2, current_date, t2),
    ensures
        s2 == s1,
        s2.past_tasks@.len() == s1.past_tasks@.len(),
{
    assert(s1.today.date == current_date);
    assert(!s1.rollover_needed(current_date));
}

} // verus!
