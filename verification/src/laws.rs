//! The laws the library states of itself, proved once over the abstract
//! store: what a run of identical key presses does to a counter, that
//! replay means double counting, that an untouched day answers with zeros,
//! that a single-day range query equals the day query, and that a flush of
//! any batch preserves the consistency every reader relies on.

use vstd::prelude::*;

use crate::aggregator::apply_event;
use crate::aggregator::apply_events;
use crate::date::Date;
use crate::date::lemma_date_le_antisym;
use crate::listener::EventRec;
use crate::schema::KeyStatRec;
use crate::schema::MouseStatRec;
use crate::stats::day_key_stats;
use crate::stats::day_mouse_stats;
use crate::stats::find_group_key;
use crate::stats::find_group_mouse;
use crate::stats::group_keys_range;
use crate::stats::group_mouse_range;
use crate::stats::in_range;
use crate::stats::key_stat_of;
use crate::stats::lemma_find_group_key;
use crate::stats::lemma_find_group_mouse;
use crate::stats::mouse_stat_of;
use crate::stats::sum_tc_range;
use crate::stats::sum_tk_range;
use crate::store::StoreModel;
use crate::store::SumRec;
use crate::store::date_stats_rec;
use crate::store::find_key;
use crate::store::find_sum;
use crate::store::key_count;
use crate::store::key_step;
use crate::store::lemma_find_key;
use crate::store::lemma_find_sum;
use crate::store::lemma_find_sum_at;
use crate::store::lemma_find_sum_none;
use crate::store::lemma_key_step_props;
use crate::store::lemma_mouse_step_props;
use crate::store::lemma_sum_keys_absent;
use crate::store::lemma_sum_mouse_absent;
use crate::store::mouse_step;
use crate::store::range_stats_rec;
use crate::store::sum_keys_date;
use crate::store::total_keys_of;

verus! {

/// Whether an event is a press of the key called `name`.
pub open spec fn is_press_of(e: EventRec, name: Seq<char>) -> bool {
    match e {
        EventRec::Key { name: n, code: _ } => n == name,
        EventRec::Click { .. } => false,
    }
}

/// For any batch of key presses of one key on one day, applied in order and
/// within counting capacity: the key's counter rises by exactly the batch
/// length, and afterwards the day's summary total equals the sum of the
/// day's per-key counters.
pub proof fn lemma_repeated_presses(m: StoreModel, es: Seq<EventRec>, d: Date, name: Seq<char>)
    requires
        m.wf(),
        d.wf(),
        forall|i: int| 0 <= i < es.len() ==> is_press_of(#[trigger] es[i], name),
        m.applied + es.len() <= i64::MAX,
    ensures
        apply_events(m, es, d).wf(),
        apply_events(m, es, d).applied == m.applied + es.len(),
        key_count(apply_events(m, es, d), d, name) == key_count(m, d, name) + es.len(),
        total_keys_of(apply_events(m, es, d), d) == total_keys_of(m, d) + es.len(),
        es.len() > 0 ==> total_keys_of(apply_events(m, es, d), d) == sum_keys_date(
            apply_events(m, es, d).keys,
            d,
        ),
    decreases es.len(),
{
    if es.len() > 0 {
        let dl = es.drop_last();
        assert forall|i: int| 0 <= i < dl.len() implies is_press_of(#[trigger] dl[i], name) by {
            assert(dl[i] == es[i]);
        }
        lemma_repeated_presses(m, dl, d, name);
        let m1 = apply_events(m, dl, d);
        let m2 = apply_events(m, es, d);
        match es.last() {
            EventRec::Key { name: n, code } => {
                assert(n == name);
                lemma_key_step_props(m1, d, name, code);
            },
            EventRec::Click { .. } => {
                assert(false);
            },
        }
        // After at least one press the counter row exists, so its day has a
        // summary row, whose total is the day's sum by consistency.
        lemma_find_key(m.keys, d, name);
        assert(key_count(m, d, name) >= 0);
        lemma_find_key(m2.keys, d, name);
        match find_key(m2.keys, d, name) {
            Some(i) => {
                assert(find_sum(m2.sums, m2.keys[i].date) is Some);
                lemma_find_sum(m2.sums, d);
            },
            None => {
                assert(false);
            },
        }
    }
}

/// Replaying an already-applied increment is indistinguishable from a fresh
/// one: the same press applied twice adds exactly two. There is no
/// deduplication, by design.
pub proof fn lemma_replay_double_counts(m: StoreModel, e: EventRec, d: Date, name: Seq<char>)
    requires
        m.wf(),
        d.wf(),
        is_press_of(e, name),
        m.applied + 2 <= i64::MAX,
    ensures
        key_count(apply_event(apply_event(m, e, d), e, d), d, name) == key_count(m, d, name) + 2,
{
    match e {
        EventRec::Key { name: n, code } => {
            lemma_key_step_props(m, d, n, code);
            lemma_key_step_props(key_step(m, d, n, code), d, n, code);
        },
        EventRec::Click { .. } => {
            assert(false);
        },
    }
}

/// A flush of any batch preserves the store's consistency. Since every
/// store access holds the exclusive borrow for a whole operation, a reader
/// observes the store either before a flush or after it — and in both
/// states each day's summary equals the sum of that day's counters.
pub proof fn lemma_flush_preserves_consistency(m: StoreModel, es: Seq<EventRec>, d: Date)
    requires
        m.wf(),
        d.wf(),
    ensures
        apply_events(m, es, d).wf(),
    decreases es.len(),
{
    if es.len() > 0 {
        lemma_flush_preserves_consistency(m, es.drop_last(), d);
        let m1 = apply_events(m, es.drop_last(), d);
        match es.last() {
            EventRec::Key { name, code } => {
                if m1.applied < i64::MAX {
                    lemma_key_step_props(m1, d, name, code);
                } else {
                    assert(key_step(m1, d, name, code) == m1);
                }
            },
            EventRec::Click { button } => {
                if m1.applied < i64::MAX {
                    lemma_mouse_step_props(m1, d, button);
                } else {
                    assert(mouse_step(m1, d, button) == m1);
                }
            },
        }
    }
}

/// A day with no per-key rows contributes no day rows.
pub proof fn lemma_day_key_stats_absent(s: Seq<crate::store::KeyRec>, d: Date)
    requires
        forall|i: int| 0 <= i < s.len() ==> (#[trigger] s[i]).date != d,
    ensures
        day_key_stats(s, d) == Seq::<KeyStatRec>::empty(),
    decreases s.len(),
{
    if s.len() > 0 {
        lemma_day_key_stats_absent(s.drop_last(), d);
    }
}

/// A day with no per-button rows contributes no day rows.
pub proof fn lemma_day_mouse_stats_absent(s: Seq<crate::store::MouseRec>, d: Date)
    requires
        forall|i: int| 0 <= i < s.len() ==> (#[trigger] s[i]).date != d,
    ensures
        day_mouse_stats(s, d) == Seq::<MouseStatRec>::empty(),
    decreases s.len(),
{
    if s.len() > 0 {
        lemma_day_mouse_stats_absent(s.drop_last(), d);
    }
}

/// Querying a date with no recorded activity answers with zero totals and
/// empty per-entity rows — an ordinary answer, not an error.
pub proof fn lemma_empty_day(m: StoreModel, d: Date)
    requires
        m.wf(),
        d.wf(),
        forall|i: int| 0 <= i < m.keys.len() ==> (#[trigger] m.keys[i]).date != d,
        forall|i: int| 0 <= i < m.mouse.len() ==> (#[trigger] m.mouse[i]).date != d,
    ensures
        date_stats_rec(m, d).total_keys == 0,
        date_stats_rec(m, d).total_clicks == 0,
        date_stats_rec(m, d).key_stats == Seq::<KeyStatRec>::empty(),
        date_stats_rec(m, d).mouse_stats == Seq::<MouseStatRec>::empty(),
{
    lemma_day_key_stats_absent(m.keys, d);
    lemma_day_mouse_stats_absent(m.mouse, d);
    lemma_sum_keys_absent(m.keys, d);
    lemma_sum_mouse_absent(m.mouse, d);
    lemma_find_sum(m.sums, d);
}

/// Inside a one-day range lies exactly that day.
pub proof fn lemma_in_range_single(x: Date, d: Date)
    ensures
        in_range(x, d, d) <==> x == d,
{
    if in_range(x, d, d) {
        lemma_date_le_antisym(d, x);
    }
}

/// Over summary rows with distinct dates, the one-day range totals are the
/// day's own summary totals, or zero without one.
pub proof fn lemma_single_day_totals(s: Seq<SumRec>, d: Date)
    requires
        forall|i: int, j: int|
            #![trigger s[i], s[j]]
            0 <= i < j < s.len() ==> s[i].date != s[j].date,
    ensures
        match find_sum(s, d) {
            Some(j) => sum_tk_range(s, d, d) == s[j].total_keys && sum_tc_range(s, d, d)
                == s[j].total_clicks,
            None => sum_tk_range(s, d, d) == 0 && sum_tc_range(s, d, d) == 0,
        },
    decreases s.len(),
{
    if s.len() > 0 {
        let dl = s.drop_last();
        assert forall|i: int, j: int|
            #![trigger dl[i], dl[j]]
            0 <= i < j < dl.len() implies dl[i].date != dl[j].date by {
            assert(dl[i] == s[i] && dl[j] == s[j]);
        }
        lemma_single_day_totals(dl, d);
        lemma_in_range_single(s.last().date, d);
        if s.last().date == d {
            assert forall|j: int| 0 <= j < dl.len() implies (#[trigger] dl[j]).date != d by {
                assert(dl[j] == s[j]);
                assert(s[j].date != s[s.len() - 1].date);
            }
            lemma_find_sum_none(dl, d);
            lemma_find_sum_at(s, d, s.len() - 1);
        } else {
            lemma_find_sum(s, d);
            match find_sum(s, d) {
                Some(j) => {
                    assert(j < s.len() - 1);
                    assert(dl[j] == s[j]);
                    assert forall|x: int| 0 <= x < j implies (#[trigger] dl[x]).date != d by {
                        assert(dl[x] == s[x]);
                    }
                    lemma_find_sum_at(dl, d, j);
                },
                None => {
                    assert forall|x: int| 0 <= x < dl.len() implies (#[trigger] dl[x]).date
                        != d by {
                        assert(dl[x] == s[x]);
                    }
                    lemma_find_sum_none(dl, d);
                },
            }
        }
    }
}

/// Every aggregate entry's name comes from some in-range row.
pub proof fn lemma_group_key_names(s: Seq<crate::store::KeyRec>, lo: Date, hi: Date)
    ensures
        forall|i: int|
            #![trigger group_keys_range(s, lo, hi)[i]]
            0 <= i < group_keys_range(s, lo, hi).len() ==> exists|x: int|
                0 <= x < s.len() && in_range(#[trigger] s[x].date, lo, hi) && s[x].name
                    == group_keys_range(s, lo, hi)[i].name,
    decreases s.len(),
{
    if s.len() > 0 {
        let dl = s.drop_last();
        let rest = group_keys_range(dl, lo, hi);
        let g2 = group_keys_range(s, lo, hi);
        lemma_group_key_names(dl, lo, hi);
        assert forall|i: int|
            0 <= i < g2.len() implies exists|x: int|
            0 <= x < s.len() && in_range(#[trigger] s[x].date, lo, hi) && s[x].name
                == #[trigger] g2[i].name by {
            if in_range(s.last().date, lo, hi) {
                lemma_find_group_key(rest, s.last().name);
                match find_group_key(rest, s.last().name) {
                    Some(gi) => {
                        assert(g2 == rest.update(
                            gi,
                            KeyStatRec {
                                name: s.last().name,
                                code: crate::stats::max_code(rest[gi].code, s.last().code),
                                count: rest[gi].count + s.last().count,
                            },
                        ));
                        if i == gi {
                            assert(in_range(s[s.len() - 1].date, lo, hi) && s[s.len() - 1].name
                                == g2[i].name);
                        } else {
                            assert(g2[i] == rest[i]);
                            let x = choose|x: int|
                                0 <= x < dl.len() && in_range(#[trigger] dl[x].date, lo, hi)
                                    && dl[x].name == rest[i].name;
                            assert(s[x] == dl[x]);
                            assert(in_range(s[x].date, lo, hi) && s[x].name == g2[i].name);
                        }
                    },
                    None => {
                        assert(g2 == rest.push(key_stat_of(s.last())));
                        if i < rest.len() {
                            assert(g2[i] == rest[i]);
                            let x = choose|x: int|
                                0 <= x < dl.len() && in_range(#[trigger] dl[x].date, lo, hi)
                                    && dl[x].name == rest[i].name;
                            assert(s[x] == dl[x]);
                            assert(in_range(s[x].date, lo, hi) && s[x].name == g2[i].name);
                        } else {
                            assert(in_range(s[s.len() - 1].date, lo, hi) && s[s.len() - 1].name
                                == g2[i].name);
                        }
                    },
                }
            } else {
                assert(g2 == rest);
                let x = choose|x: int|
                    0 <= x < dl.len() && in_range(#[trigger] dl[x].date, lo, hi) && dl[x].name
                        == rest[i].name;
                assert(s[x] == dl[x]);
                assert(in_range(s[x].date, lo, hi) && s[x].name == g2[i].name);
            }
        }
    }
}

/// Every aggregate entry's button comes from some in-range row.
pub proof fn lemma_group_mouse_names(s: Seq<crate::store::MouseRec>, lo: Date, hi: Date)
    ensures
        forall|i: int|
            #![trigger group_mouse_range(s, lo, hi)[i]]
            0 <= i < group_mouse_range(s, lo, hi).len() ==> exists|x: int|
                0 <= x < s.len() && in_range(#[trigger] s[x].date, lo, hi) && s[x].button
                    == group_mouse_range(s, lo, hi)[i].button,
    decreases s.len(),
{
    if s.len() > 0 {
        let dl = s.drop_last();
        let rest = group_mouse_range(dl, lo, hi);
        let g2 = group_mouse_range(s, lo, hi);
        lemma_group_mouse_names(dl, lo, hi);
        assert forall|i: int|
            0 <= i < g2.len() implies exists|x: int|
            0 <= x < s.len() && in_range(#[trigger] s[x].date, lo, hi) && s[x].button
                == #[trigger] g2[i].button by {
            if in_range(s.last().date, lo, hi) {
                lemma_find_group_mouse(rest, s.last().button);
                match find_group_mouse(rest, s.last().button) {
                    Some(gi) => {
                        assert(g2 == rest.update(
                            gi,
                            MouseStatRec {
                                button: s.last().button,
                                count: rest[gi].count + s.last().count,
                            },
                        ));
                        if i == gi {
                            assert(in_range(s[s.len() - 1].date, lo, hi) && s[s.len() - 1].button
                                == g2[i].button);
                        } else {
                            assert(g2[i] == rest[i]);
                            let x = choose|x: int|
                                0 <= x < dl.len() && in_range(#[trigger] dl[x].date, lo, hi)
                                    && dl[x].button == rest[i].button;
                            assert(s[x] == dl[x]);
                            assert(in_range(s[x].date, lo, hi) && s[x].button == g2[i].button);
                        }
                    },
                    None => {
                        assert(g2 == rest.push(mouse_stat_of(s.last())));
                        if i < rest.len() {
                            assert(g2[i] == rest[i]);
                            let x = choose|x: int|
                                0 <= x < dl.len() && in_range(#[trigger] dl[x].date, lo, hi)
                                    && dl[x].button == rest[i].button;
                            assert(s[x] == dl[x]);
                            assert(in_range(s[x].date, lo, hi) && s[x].button == g2[i].button);
                        } else {
                            assert(in_range(s[s.len() - 1].date, lo, hi) && s[s.len() - 1].button
                                == g2[i].button);
                        }
                    },
                }
            } else {
                assert(g2 == rest);
                let x = choose|x: int|
                    0 <= x < dl.len() && in_range(#[trigger] dl[x].date, lo, hi) && dl[x].button
                        == rest[i].button;
                assert(s[x] == dl[x]);
                assert(in_range(s[x].date, lo, hi) && s[x].button == g2[i].button);
            }
        }
    }
}

/// Over rows whose `(date, name)` pairs are unique, the one-day aggregate
/// is exactly the day's rows: each group is a single counter.
pub proof fn lemma_group_single_day_keys(s: Seq<crate::store::KeyRec>, d: Date)
    requires
        forall|i: int, j: int|
            #![trigger s[i], s[j]]
            0 <= i < j < s.len() ==> !(s[i].date == s[j].date && s[i].name == s[j].name),
    ensures
        group_keys_range(s, d, d) == day_key_stats(s, d),
    decreases s.len(),
{
    if s.len() > 0 {
        let dl = s.drop_last();
        assert forall|i: int, j: int|
            #![trigger dl[i], dl[j]]
            0 <= i < j < dl.len() implies !(dl[i].date == dl[j].date && dl[i].name
            == dl[j].name) by {
            assert(dl[i] == s[i] && dl[j] == s[j]);
        }
        lemma_group_single_day_keys(dl, d);
        lemma_in_range_single(s.last().date, d);
        if s.last().date == d {
            let rest = group_keys_range(dl, d, d);
            lemma_group_key_names(dl, d, d);
            lemma_find_group_key(rest, s.last().name);
            match find_group_key(rest, s.last().name) {
                Some(gi) => {
                    let x = choose|x: int|
                        0 <= x < dl.len() && in_range(#[trigger] dl[x].date, d, d) && dl[x].name
                            == rest[gi].name;
                    lemma_in_range_single(dl[x].date, d);
                    assert(s[x] == dl[x]);
                    assert(s[x].date == s[s.len() - 1].date && s[x].name == s[s.len() - 1].name);
                    assert(false);
                },
                None => {},
            }
        }
    }
}

/// Over rows whose `(date, button)` pairs are unique, the one-day aggregate
/// is exactly the day's rows.
pub proof fn lemma_group_single_day_mouse(s: Seq<crate::store::MouseRec>, d: Date)
    requires
        forall|i: int, j: int|
            #![trigger s[i], s[j]]
            0 <= i < j < s.len() ==> !(s[i].date == s[j].date && s[i].button == s[j].button),
    ensures
        group_mouse_range(s, d, d) == day_mouse_stats(s, d),
    decreases s.len(),
{
    if s.len() > 0 {
        let dl = s.drop_last();
        assert forall|i: int, j: int|
            #![trigger dl[i], dl[j]]
            0 <= i < j < dl.len() implies !(dl[i].date == dl[j].date && dl[i].button
            == dl[j].button) by {
            assert(dl[i] == s[i] && dl[j] == s[j]);
        }
        lemma_group_single_day_mouse(dl, d);
        lemma_in_range_single(s.last().date, d);
        if s.last().date == d {
            let rest = group_mouse_range(dl, d, d);
            lemma_group_mouse_names(dl, d, d);
            lemma_find_group_mouse(rest, s.last().button);
            match find_group_mouse(rest, s.last().button) {
                Some(gi) => {
                    let x = choose|x: int|
                        0 <= x < dl.len() && in_range(#[trigger] dl[x].date, d, d) && dl[x].button
                            == rest[gi].button;
                    lemma_in_range_single(dl[x].date, d);
                    assert(s[x] == dl[x]);
                    assert(s[x].date == s[s.len() - 1].date && s[x].button == s[s.len()
                        - 1].button);
                    assert(false);
                },
                None => {},
            }
        }
    }
}

/// A single-day range query answers exactly as the day query: the same
/// totals, and the same per-entity rows in the same order.
pub proof fn lemma_single_day_range(m: StoreModel, d: Date)
    requires
        m.wf(),
        d.wf(),
    ensures
        range_stats_rec(m, d, d).total_keys == date_stats_rec(m, d).total_keys,
        range_stats_rec(m, d, d).total_clicks == date_stats_rec(m, d).total_clicks,
        range_stats_rec(m, d, d).key_stats == date_stats_rec(m, d).key_stats,
        range_stats_rec(m, d, d).mouse_stats == date_stats_rec(m, d).mouse_stats,
{
    lemma_single_day_totals(m.sums, d);
    lemma_find_sum(m.sums, d);
    lemma_group_single_day_keys(m.keys, d);
    lemma_group_single_day_mouse(m.mouse, d);
}

} // verus!
