//! Weekly and monthly aggregation over the history and the active day.
//!
//! A summary merges the three buckets of every ledger whose date falls
//! in the queried window into one mapping from category name to
//! minutes; the active day is always part of its own week and month.
//! The order of the merged names carries no meaning.

use vstd::prelude::*;

use crate::date::{in_month_of, in_week_of, Date};
use crate::settings::{days_total, lemma_days_total_push, UserSettings};
use crate::task::{
    lemma_list_total_nonneg, list_has_name, list_minutes_of, list_total, TaskList, TodaysTasks,
};

verus! {

/// The ledgers a weekly query selects: dates in the Monday-aligned
/// week of `current`, up to `current` itself.
pub open spec fn weekly_sel(current: Date) -> spec_fn(Date) -> bool {
    |d: Date| in_week_of(d, current)
}

/// The ledgers a monthly query selects: dates in the calendar month
/// of `current`.
pub open spec fn monthly_sel(current: Date) -> spec_fn(Date) -> bool {
    |d: Date| in_month_of(d, current)
}

/// Total minutes of the ledgers whose date the window selects.
pub open spec fn selected_total(days: Seq<TodaysTasks>, sel: spec_fn(Date) -> bool) -> int
    decreases days.len(),
{
    if days.len() == 0 {
        0
    } else {
        (if sel(days[0].date) {
            days[0].spec_total()
        } else {
            0
        }) + selected_total(days.drop_first(), sel)
    }
}

/// Minutes under `name` across the ledgers the window selects.
pub open spec fn selected_minutes_of(
    days: Seq<TodaysTasks>,
    sel: spec_fn(Date) -> bool,
    name: Seq<char>,
) -> int
    decreases days.len(),
{
    if days.len() == 0 {
        0
    } else {
        (if sel(days[0].date) {
            days[0].spec_all_minutes_of(name)
        } else {
            0
        }) + selected_minutes_of(days.drop_first(), sel, name)
    }
}

/// Whether some selected ledger mentions `name` at all.
pub open spec fn selected_has_name(
    days: Seq<TodaysTasks>,
    sel: spec_fn(Date) -> bool,
    name: Seq<char>,
) -> bool {
    exists|i: int| 0 <= i < days.len() && sel(days[i].date) && days[i].spec_has_name(name)
}

pub proof fn lemma_selected_total_bounds(days: Seq<TodaysTasks>, sel: spec_fn(Date) -> bool)
    ensures
        0 <= selected_total(days, sel) <= days_total(days),
    decreases days.len(),
{
    if days.len() > 0 {
        lemma_list_total_nonneg(days[0].todays_tasks.model());
        lemma_list_total_nonneg(days[0].todays_chores.model());
        lemma_list_total_nonneg(days[0].todays_entertainment.model());
        lemma_selected_total_bounds(days.drop_first(), sel);
    }
}

pub proof fn lemma_selected_total_append(
    a: Seq<TodaysTasks>,
    b: Seq<TodaysTasks>,
    sel: spec_fn(Date) -> bool,
)
    ensures
        selected_total(a + b, sel) == selected_total(a, sel) + selected_total(b, sel),
    decreases a.len(),
{
    if a.len() == 0 {
        assert(a + b =~= b);
    } else {
        assert((a + b).drop_first() =~= a.drop_first() + b);
        lemma_selected_total_append(a.drop_first(), b, sel);
    }
}

pub proof fn lemma_selected_minutes_append(
    a: Seq<TodaysTasks>,
    b: Seq<TodaysTasks>,
    sel: spec_fn(Date) -> bool,
    name: Seq<char>,
)
    ensures
        selected_minutes_of(a + b, sel, name) == selected_minutes_of(a, sel, name)
            + selected_minutes_of(b, sel, name),
    decreases a.len(),
{
    if a.len() == 0 {
        assert(a + b =~= b);
    } else {
        assert((a + b).drop_first() =~= a.drop_first() + b);
        lemma_selected_minutes_append(a.drop_first(), b, sel, name);
    }
}

proof fn lemma_selected_total_singleton(day: TodaysTasks, sel: spec_fn(Date) -> bool)
    ensures
        selected_total(seq![day], sel) == if sel(day.date) {
            day.spec_total()
        } else {
            0
        },
{
    let s = seq![day];
    assert(s.drop_first() =~= Seq::<TodaysTasks>::empty());
    assert(selected_total(s.drop_first(), sel) == 0);
}

proof fn lemma_selected_minutes_singleton(
    day: TodaysTasks,
    sel: spec_fn(Date) -> bool,
    name: Seq<char>,
)
    ensures
        selected_minutes_of(seq![day], sel, name) == if sel(day.date) {
            day.spec_all_minutes_of(name)
        } else {
            0
        },
{
    let s = seq![day];
    assert(s.drop_first() =~= Seq::<TodaysTasks>::empty());
    assert(selected_minutes_of(s.drop_first(), sel, name) == 0);
}

/// Merges every entry of `day`, all three buckets, into `summary`:
/// each name's minutes grow by what the day recorded under that name.
pub fn update_task_summary(summary: &mut TaskList, day: &TodaysTasks)
    requires
        old(summary).wf(),
        list_total(old(summary).model()) + day.spec_total() <= u64::MAX,
    ensures
        final(summary).wf(),
        list_total(final(summary).model()) == list_total(old(summary).model())
            + day.spec_total(),
        forall|n: Seq<char>| #[trigger] list_minutes_of(final(summary).model(), n)
            == list_minutes_of(old(summary).model(), n) + day.spec_all_minutes_of(n),
        forall|n: Seq<char>| #[trigger] list_has_name(final(summary).model(), n)
            <==> (list_has_name(old(summary).model(), n) || day.spec_has_name(n)),
{
    proof {
        lemma_list_total_nonneg(day.todays_tasks.model());
        lemma_list_total_nonneg(day.todays_chores.model());
        lemma_list_total_nonneg(day.todays_entertainment.model());
    }
    absorb_list(summary, &day.todays_tasks);
    absorb_list(summary, &day.todays_chores);
    absorb_list(summary, &day.todays_entertainment);
}

/// Adds every entry of one bucket into `summary`.
fn absorb_list(summary: &mut TaskList, bucket: &TaskList)
    requires
        old(summary).wf(),
        list_total(old(summary).model()) + list_total(bucket.model()) <= u64::MAX,
    ensures
        final(summary).wf(),
        list_total(final(summary).model()) == list_total(old(summary).model())
            + list_total(bucket.model()),
        forall|n: Seq<char>| #[trigger] list_minutes_of(final(summary).model(), n)
            == list_minutes_of(old(summary).model(), n) + list_minutes_of(bucket.model(), n),
        forall|n: Seq<char>| #[trigger] list_has_name(final(summary).model(), n)
            <==> (list_has_name(old(summary).model(), n) || list_has_name(bucket.model(), n)),
{
    let ghost s0 = old(summary).model();
    let ghost bm = bucket.model();
    proof {
        assert(bm.take(0) =~= Seq::<(Seq<char>, u64)>::empty());
    }
    let n = bucket.len();
    let mut i: usize = 0;
    while i < n
        invariant
            i <= n,
            n == bm.len(),
            bm == bucket.model(),
            summary.wf(),
            list_total(s0) + list_total(bm) <= u64::MAX,
            list_total(summary.model()) == list_total(s0) + list_total(bm.take(i as int)),
            forall|nm: Seq<char>| #[trigger] list_minutes_of(summary.model(), nm)
                == list_minutes_of(s0, nm) + list_minutes_of(bm.take(i as int), nm),
            forall|nm: Seq<char>| #[trigger] list_has_name(summary.model(), nm)
                <==> (list_has_name(s0, nm) || list_has_name(bm.take(i as int), nm)),
        decreases n - i,
    {
        let ghost scur = summary.model();
        let (name, minutes) = bucket.entry_at(i);
        proof {
            // split the bucket total at i to bound the next addition
            assert(bm.take(i as int) + bm.skip(i as int) =~= bm);
            crate::task::lemma_list_total_append(bm.take(i as int), bm.skip(i as int));
            assert(bm.skip(i as int).drop_first() =~= bm.skip(i as int + 1));
            lemma_list_total_nonneg(bm.skip(i as int + 1));
            crate::task::lemma_minutes_of_le_total(scur, name@);
            crate::task::lemma_add_minutes_props(scur, name@, minutes);
        }
        summary.add_minutes(&name, minutes);
        proof {
            assert(bm.take(i as int + 1) =~= bm.take(i as int) + seq![bm[i as int]]);
            crate::task::lemma_list_total_append(bm.take(i as int), seq![bm[i as int]]);
            crate::task::lemma_list_total_singleton(bm[i as int]);
            assert forall|nm: Seq<char>| #[trigger] list_minutes_of(summary.model(), nm)
                == list_minutes_of(s0, nm) + list_minutes_of(bm.take(i as int + 1), nm) by {
                crate::task::lemma_list_minutes_of_append(
                    bm.take(i as int),
                    seq![bm[i as int]],
                    nm,
                );
                crate::task::lemma_list_minutes_singleton(bm[i as int], nm);
            }
            assert forall|nm: Seq<char>| #[trigger] list_has_name(summary.model(), nm)
                <==> (list_has_name(s0, nm) || list_has_name(bm.take(i as int + 1), nm)) by {
                if list_has_name(bm.take(i as int + 1), nm) {
                    let k = choose|k: int|
                        0 <= k < i + 1 && (#[trigger] bm.take(i as int + 1)[k]).0 == nm;
                    if k < i {
                        assert(bm.take(i as int)[k].0 == nm);
                        assert(list_has_name(bm.take(i as int), nm));
                    } else {
                        assert(nm == name@);
                    }
                }
                if list_has_name(bm.take(i as int), nm) {
                    let k = choose|k: int| 0 <= k < i && (#[trigger] bm.take(i as int)[k]).0 == nm;
                    assert(bm.take(i as int + 1)[k].0 == nm);
                }
                if nm == name@ {
                    assert(bm.take(i as int + 1)[i as int].0 == nm);
                }
            }
        }
        i += 1;
    }
    proof {
        assert(bm.take(n as int) =~= bm);
    }
}

/// Window total and per-name summary for the chosen selection.
fn summarize(user_settings: &UserSettings, weekly: bool) -> (r: (u64, TaskList))
    requires
        user_settings.wf(),
    ensures
        ({
            let sel = if weekly {
                weekly_sel(user_settings.today.date)
            } else {
                monthly_sel(user_settings.today.date)
            };
            &&& r.0 == selected_total(user_settings.past_tasks@, sel)
                + user_settings.today.spec_total()
            &&& r.1.wf()
            &&& forall|n: Seq<char>| #[trigger] list_minutes_of(r.1.model(), n)
                == selected_minutes_of(user_settings.past_tasks@, sel, n)
                + user_settings.today.spec_all_minutes_of(n)
            &&& forall|n: Seq<char>| #[trigger] list_has_name(r.1.model(), n)
                <==> (selected_has_name(user_settings.past_tasks@, sel, n)
                || user_settings.today.spec_has_name(n))
        }),
{
    let ghost sel = if weekly {
        weekly_sel(user_settings.today.date)
    } else {
        monthly_sel(user_settings.today.date)
    };
    let ghost past = user_settings.past_tasks@;
    let current = user_settings.today.date;
    proof {
        lemma_days_total_push(past, user_settings.today);
        crate::settings::lemma_days_total_nonneg(past);
        lemma_list_total_nonneg(user_settings.today.todays_tasks.model());
        lemma_list_total_nonneg(user_settings.today.todays_chores.model());
        lemma_list_total_nonneg(user_settings.today.todays_entertainment.model());
        assert(past.take(0) =~= Seq::<TodaysTasks>::empty());
    }
    let mut total: u64 = 0;
    let mut summary = TaskList::new();
    let n = user_settings.past_tasks.len();
    let mut i: usize = 0;
    while i < n
        invariant
            i <= n,
            n == past.len(),
            past == user_settings.past_tasks@,
            user_settings.wf(),
            current == user_settings.today.date,
            sel == (if weekly {
                weekly_sel(user_settings.today.date)
            } else {
                monthly_sel(user_settings.today.date)
            }),
            summary.wf(),
            total == selected_total(past.take(i as int), sel),
            list_total(summary.model()) == selected_total(past.take(i as int), sel),
            forall|nm: Seq<char>| #[trigger] list_minutes_of(summary.model(), nm)
                == selected_minutes_of(past.take(i as int), sel, nm),
            forall|nm: Seq<char>| #[trigger] list_has_name(summary.model(), nm)
                <==> selected_has_name(past.take(i as int), sel, nm),
        decreases n - i,
    {
        let day = &user_settings.past_tasks[i];
        let ghost scur = summary.model();
        proof {
            // bound what this day could add
            lemma_days_total_push(past, user_settings.today);
            lemma_list_total_nonneg(user_settings.today.todays_tasks.model());
            lemma_list_total_nonneg(user_settings.today.todays_chores.model());
            lemma_list_total_nonneg(user_settings.today.todays_entertainment.model());
            assert(past.take(i as int) + past.skip(i as int) =~= past);
            crate::settings::lemma_days_total_append(past.take(i as int), past.skip(i as int));
            assert(past.skip(i as int).drop_first() =~= past.skip(i as int + 1));
            assert(past.skip(i as int)[0] == past[i as int]);
            assert(days_total(past.skip(i as int)) == past[i as int].spec_total() + days_total(
                past.skip(i as int + 1),
            ));
            crate::settings::lemma_days_total_nonneg(past.skip(i as int + 1));
            lemma_selected_total_bounds(past.take(i as int), sel);
            lemma_list_total_nonneg(day.todays_tasks.model());
            lemma_list_total_nonneg(day.todays_chores.model());
            lemma_list_total_nonneg(day.todays_entertainment.model());
        }
        let included = if weekly {
            day.date.in_week_of(&current)
        } else {
            day.date.in_month_of(&current)
        };
        if included {
            total = total + day.total_minutes_spent();
            update_task_summary(&mut summary, day);
        }
        proof {
            assert(past.take(i as int + 1) =~= past.take(i as int) + seq![past[i as int]]);
            lemma_selected_total_append(past.take(i as int), seq![past[i as int]], sel);
            lemma_selected_total_singleton(past[i as int], sel);
            assert forall|nm: Seq<char>| #[trigger] list_minutes_of(summary.model(), nm)
                == selected_minutes_of(past.take(i as int + 1), sel, nm) by {
                lemma_selected_minutes_append(past.take(i as int), seq![past[i as int]], sel, nm);
                lemma_selected_minutes_singleton(past[i as int], sel, nm);
            }
            assert forall|nm: Seq<char>| #[trigger] list_has_name(summary.model(), nm)
                <==> selected_has_name(past.take(i as int + 1), sel, nm) by {
                if selected_has_name(past.take(i as int + 1), sel, nm) {
                    let k = choose|k: int|
                        0 <= k < i + 1 && sel((#[trigger] past.take(i as int + 1)[k]).date)
                            && past.take(i as int + 1)[k].spec_has_name(nm);
                    if k < i {
                        assert(sel(past.take(i as int)[k].date)
                            && past.take(i as int)[k].spec_has_name(nm));
                        assert(selected_has_name(past.take(i as int), sel, nm));
                    }
                }
                if selected_has_name(past.take(i as int), sel, nm) {
                    let k = choose|k: int|
                        0 <= k < i && sel((#[trigger] past.take(i as int)[k]).date)
                            && past.take(i as int)[k].spec_has_name(nm);
                    assert(sel(past.take(i as int + 1)[k].date)
                        && past.take(i as int + 1)[k].spec_has_name(nm));
                }
                if included && past[i as int].spec_has_name(nm) {
                    assert(sel(past.take(i as int + 1)[i as int].date)
                        && past.take(i as int + 1)[i as int].spec_has_name(nm));
                }
            }
        }
        i += 1;
    }
    proof {
        assert(past.take(n as int) =~= past);
        lemma_selected_total_bounds(past, sel);
    }
    total = total + user_settings.today.total_minutes_spent();
    update_task_summary(&mut summary, &user_settings.today);
    (total, summary)
}

/// Sum and per-name summary over the Monday-aligned week ending on the
/// active day: every archived ledger dated between that week's Monday
/// and the active date, and the active day itself.  Earlier days are
/// excluded.
pub fn weekly_summary(user_settings: &UserSettings) -> (r: (u64, TaskList))
    requires
        user_settings.wf(),
    ensures
        r.0 == selected_total(
            user_settings.past_tasks@,
            weekly_sel(user_settings.today.date),
        ) + user_settings.today.spec_total(),
        r.1.wf(),
        forall|n: Seq<char>| #[trigger] list_minutes_of(r.1.model(), n) == selected_minutes_of(
            user_settings.past_tasks@,
            weekly_sel(user_settings.today.date),
            n,
        ) + user_settings.today.spec_all_minutes_of(n),
        forall|n: Seq<char>| #[trigger] list_has_name(r.1.model(), n) <==> (selected_has_name(
            user_settings.past_tasks@,
            weekly_sel(user_settings.today.date),
            n,
        ) || user_settings.today.spec_has_name(n)),
{
    summarize(user_settings, true)
}

/// Sum and per-name summary over the calendar month of the active
/// day: every archived ledger of that month and year, and the active
/// day itself.
pub fn monthly_summary(user_settings: &UserSettings) -> (r: (u64, TaskList))
    requires
        user_settings.wf(),
    ensures
        r.0 == selected_total(
            user_settings.past_tasks@,
            monthly_sel(user_settings.today.date),
        ) + user_settings.today.spec_total(),
        r.1.wf(),
        forall|n: Seq<char>| #[trigger] list_minutes_of(r.1.model(), n) == selected_minutes_of(
            user_settings.past_tasks@,
            monthly_sel(user_settings.today.date),
            n,
        ) + user_settings.today.spec_all_minutes_of(n),
        forall|n: Seq<char>| #[trigger] list_has_name(r.1.model(), n) <==> (selected_has_name(
            user_settings.past_tasks@,
            monthly_sel(user_settings.today.date),
            n,
        ) || user_settings.today.spec_has_name(n)),
{
    summarize(user_settings, false)
}

} // verus!
