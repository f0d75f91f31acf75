//! The keyed counter store.
//!
//! Four logical tables: per-day per-key press counters, per-day per-button
//! click counters, per-day summaries, and a small string key-value settings
//! table. Counters are created on first occurrence of their key and only ever
//! incremented; summaries are recomputed from the counter tables on every
//! write that touches them, so that a reader always finds each day's totals
//! equal to the sum of that day's per-entity counters.
//!
//! The store is an in-memory structure; the surrounding application owns
//! durability, replaying the persisted rows through the same increment
//! operations when it opens a backing file.

use vstd::prelude::*;

use crate::date::Date;
use crate::date::date_seq;
use crate::schema::DateStats;
use crate::schema::DateStatsRec;
use crate::schema::DaySummary;
use crate::schema::DaySummaryRec;
use crate::schema::KeyStat;
use crate::schema::KeyStatRec;
use crate::schema::MouseStat;
use crate::schema::MouseStatRec;
use crate::schema::TodayStats;
use crate::stats::day_key_stats;
use crate::stats::day_mouse_stats;
use crate::stats::insert_date_desc;
use crate::stats::insert_desc_key;
use crate::stats::insert_desc_mouse;
use crate::stats::key_stat_of;
use crate::stats::krecs;
use crate::stats::lemma_insert_date_desc_split;
use crate::stats::lemma_insert_desc_key_split;
use crate::stats::lemma_insert_desc_mouse_split;
use crate::stats::mouse_stat_of;
use crate::stats::mrecs;
use crate::stats::sort_date_desc;
use crate::stats::sort_desc_key;
use crate::stats::sort_desc_mouse;
use crate::stats::sorted_date_desc;
use crate::stats::sorted_desc_key;
use crate::stats::sorted_desc_mouse;
use crate::stats::sums_in_range;
use crate::stats::take_at_most;
use crate::stats::add_key_group;
use crate::stats::add_mouse_group;
use crate::stats::find_group_key;
use crate::stats::find_group_mouse;
use crate::stats::group_keys_range;
use crate::stats::group_mouse_range;
use crate::stats::lemma_counts_bounded;
use crate::stats::lemma_find_group_key_at;
use crate::stats::lemma_find_group_key_none;
use crate::stats::lemma_find_group_mouse_at;
use crate::stats::lemma_find_group_mouse_none;
use crate::stats::lemma_group_keys_range_shape;
use crate::stats::lemma_group_mouse_range_shape;
use crate::stats::lemma_sum_keys_range_bounds;
use crate::stats::lemma_sum_keys_range_take_le;
use crate::stats::lemma_sum_mouse_range_bounds;
use crate::stats::lemma_sum_mouse_range_take_le;
use crate::stats::lemma_sum_tk_range_bounds;
use crate::stats::lemma_sum_tk_range_take_le;
use crate::stats::max_code;
use crate::stats::sum_keys_range;
use crate::stats::sum_mouse_range;
use crate::stats::sum_tc_range;
use crate::stats::sum_tk_range;

verus! {

use vstd::string::StrSliceExecFns;
use vstd::string::StringExecFns;

/// Abstract form of one per-key counter row.
pub struct KeyRec {
    pub date: Date,
    pub name: Seq<char>,
    pub code: Option<i32>,
    pub count: int,
}

/// Abstract form of one per-button counter row.
pub struct MouseRec {
    pub date: Date,
    pub button: Seq<char>,
    pub count: int,
}

/// Abstract form of one per-day summary row.
pub struct SumRec {
    pub date: Date,
    pub total_keys: int,
    pub total_clicks: int,
}

/// Abstract form of one settings row.
pub struct SettingRec {
    pub key: Seq<char>,
    pub value: Seq<char>,
}

/// Abstract form of the whole store: the four tables in insertion order, and
/// the number of increments applied since the store was created.
pub struct StoreModel {
    pub keys: Seq<KeyRec>,
    pub mouse: Seq<MouseRec>,
    pub sums: Seq<SumRec>,
    pub settings: Seq<SettingRec>,
    pub applied: int,
}

/// Index of the first per-key row for `(d, name)`, if any.
pub open spec fn find_key(s: Seq<KeyRec>, d: Date, name: Seq<char>) -> Option<int>
    decreases s.len(),
{
    if s.len() == 0 {
        None
    } else if s[0].date == d && s[0].name == name {
        Some(0int)
    } else {
        match find_key(s.subrange(1, s.len() as int), d, name) {
            Some(i) => Some(i + 1),
            None => None,
        }
    }
}

/// Index of the first per-button row for `(d, button)`, if any.
pub open spec fn find_mouse(s: Seq<MouseRec>, d: Date, button: Seq<char>) -> Option<int>
    decreases s.len(),
{
    if s.len() == 0 {
        None
    } else if s[0].date == d && s[0].button == button {
        Some(0int)
    } else {
        match find_mouse(s.subrange(1, s.len() as int), d, button) {
            Some(i) => Some(i + 1),
            None => None,
        }
    }
}

/// Index of the first summary row for `d`, if any.
pub open spec fn find_sum(s: Seq<SumRec>, d: Date) -> Option<int>
    decreases s.len(),
{
    if s.len() == 0 {
        None
    } else if s[0].date == d {
        Some(0int)
    } else {
        match find_sum(s.subrange(1, s.len() as int), d) {
            Some(i) => Some(i + 1),
            None => None,
        }
    }
}

/// Index of the first settings row for `key`, if any.
pub open spec fn find_setting(s: Seq<SettingRec>, key: Seq<char>) -> Option<int>
    decreases s.len(),
{
    if s.len() == 0 {
        None
    } else if s[0].key == key {
        Some(0int)
    } else {
        match find_setting(s.subrange(1, s.len() as int), key) {
            Some(i) => Some(i + 1),
            None => None,
        }
    }
}

/// What `find_key` returns: the first matching index, or `None` when no row
/// matches.
pub proof fn lemma_find_key(s: Seq<KeyRec>, d: Date, name: Seq<char>)
    ensures
        match find_key(s, d, name) {
            Some(i) => 0 <= i < s.len() && s[i].date == d && s[i].name == name && forall|j: int|
                0 <= j < i ==> !(s[j].date == d && s[j].name == name),
            None => forall|j: int| 0 <= j < s.len() ==> !(s[j].date == d && s[j].name == name),
        },
    decreases s.len(),
{
    if s.len() > 0 && !(s[0].date == d && s[0].name == name) {
        let sub = s.subrange(1, s.len() as int);
        lemma_find_key(sub, d, name);
        assert forall|j: int| 1 <= j < s.len() implies s[j] == sub[j - 1] by {}
        match find_key(s, d, name) {
            Some(i) => {
                assert(s[i] == sub[i - 1]);
            },
            None => {},
        }
    }
}

/// What `find_mouse` returns: the first matching index, or `None` when no
/// row matches.
pub proof fn lemma_find_mouse(s: Seq<MouseRec>, d: Date, button: Seq<char>)
    ensures
        match find_mouse(s, d, button) {
            Some(i) => 0 <= i < s.len() && s[i].date == d && s[i].button == button && forall|
                j: int,
            | 0 <= j < i ==> !(s[j].date == d && s[j].button == button),
            None => forall|j: int| 0 <= j < s.len() ==> !(s[j].date == d && s[j].button == button),
        },
    decreases s.len(),
{
    if s.len() > 0 && !(s[0].date == d && s[0].button == button) {
        let sub = s.subrange(1, s.len() as int);
        lemma_find_mouse(sub, d, button);
        assert forall|j: int| 1 <= j < s.len() implies s[j] == sub[j - 1] by {}
        match find_mouse(s, d, button) {
            Some(i) => {
                assert(s[i] == sub[i - 1]);
            },
            None => {},
        }
    }
}

/// What `find_sum` returns: the first matching index, or `None` when no row
/// matches.
pub proof fn lemma_find_sum(s: Seq<SumRec>, d: Date)
    ensures
        match find_sum(s, d) {
            Some(i) => 0 <= i < s.len() && s[i].date == d && forall|j: int|
                0 <= j < i ==> s[j].date != d,
            None => forall|j: int| 0 <= j < s.len() ==> s[j].date != d,
        },
    decreases s.len(),
{
    if s.len() > 0 && s[0].date != d {
        let sub = s.subrange(1, s.len() as int);
        lemma_find_sum(sub, d);
        assert forall|j: int| 1 <= j < s.len() implies s[j] == sub[j - 1] by {}
        match find_sum(s, d) {
            Some(i) => {
                assert(s[i] == sub[i - 1]);
            },
            None => {},
        }
    }
}

/// What `find_setting` returns: the first matching index, or `None` when no
/// row matches.
pub proof fn lemma_find_setting(s: Seq<SettingRec>, key: Seq<char>)
    ensures
        match find_setting(s, key) {
            Some(i) => 0 <= i < s.len() && s[i].key == key && forall|j: int|
                0 <= j < i ==> s[j].key != key,
            None => forall|j: int| 0 <= j < s.len() ==> s[j].key != key,
        },
    decreases s.len(),
{
    if s.len() > 0 && s[0].key != key {
        let sub = s.subrange(1, s.len() as int);
        lemma_find_setting(sub, key);
        assert forall|j: int| 1 <= j < s.len() implies s[j] == sub[j - 1] by {}
        match find_setting(s, key) {
            Some(i) => {
                assert(s[i] == sub[i - 1]);
            },
            None => {},
        }
    }
}

/// A first match at `k` is what `find_key` returns.
pub proof fn lemma_find_key_at(s: Seq<KeyRec>, d: Date, name: Seq<char>, k: int)
    requires
        0 <= k < s.len(),
        s[k].date == d && s[k].name == name,
        forall|j: int| 0 <= j < k ==> !(s[j].date == d && s[j].name == name),
    ensures
        find_key(s, d, name) == Some(k),
    decreases s.len(),
{
    if k > 0 {
        lemma_find_key_at(s.subrange(1, s.len() as int), d, name, k - 1);
    }
}

/// A first match at `k` is what `find_mouse` returns.
pub proof fn lemma_find_mouse_at(s: Seq<MouseRec>, d: Date, button: Seq<char>, k: int)
    requires
        0 <= k < s.len(),
        s[k].date == d && s[k].button == button,
        forall|j: int| 0 <= j < k ==> !(s[j].date == d && s[j].button == button),
    ensures
        find_mouse(s, d, button) == Some(k),
    decreases s.len(),
{
    if k > 0 {
        lemma_find_mouse_at(s.subrange(1, s.len() as int), d, button, k - 1);
    }
}

/// A first match at `k` is what `find_sum` returns.
pub proof fn lemma_find_sum_at(s: Seq<SumRec>, d: Date, k: int)
    requires
        0 <= k < s.len(),
        s[k].date == d,
        forall|j: int| 0 <= j < k ==> s[j].date != d,
    ensures
        find_sum(s, d) == Some(k),
    decreases s.len(),
{
    if k > 0 {
        lemma_find_sum_at(s.subrange(1, s.len() as int), d, k - 1);
    }
}

/// A first match at `k` is what `find_setting` returns.
pub proof fn lemma_find_setting_at(s: Seq<SettingRec>, key: Seq<char>, k: int)
    requires
        0 <= k < s.len(),
        s[k].key == key,
        forall|j: int| 0 <= j < k ==> s[j].key != key,
    ensures
        find_setting(s, key) == Some(k),
    decreases s.len(),
{
    if k > 0 {
        lemma_find_setting_at(s.subrange(1, s.len() as int), key, k - 1);
    }
}

/// No match anywhere means `find_key` returns `None`.
pub proof fn lemma_find_key_none(s: Seq<KeyRec>, d: Date, name: Seq<char>)
    requires
        forall|j: int| 0 <= j < s.len() ==> !(s[j].date == d && s[j].name == name),
    ensures
        find_key(s, d, name) is None,
    decreases s.len(),
{
    if s.len() > 0 {
        lemma_find_key_none(s.subrange(1, s.len() as int), d, name);
    }
}

/// No match anywhere means `find_mouse` returns `None`.
pub proof fn lemma_find_mouse_none(s: Seq<MouseRec>, d: Date, button: Seq<char>)
    requires
        forall|j: int| 0 <= j < s.len() ==> !(s[j].date == d && s[j].button == button),
    ensures
        find_mouse(s, d, button) is None,
    decreases s.len(),
{
    if s.len() > 0 {
        lemma_find_mouse_none(s.subrange(1, s.len() as int), d, button);
    }
}

/// No match anywhere means `find_sum` returns `None`.
pub proof fn lemma_find_sum_none(s: Seq<SumRec>, d: Date)
    requires
        forall|j: int| 0 <= j < s.len() ==> s[j].date != d,
    ensures
        find_sum(s, d) is None,
    decreases s.len(),
{
    if s.len() > 0 {
        lemma_find_sum_none(s.subrange(1, s.len() as int), d);
    }
}

/// No match anywhere means `find_setting` returns `None`.
pub proof fn lemma_find_setting_none(s: Seq<SettingRec>, key: Seq<char>)
    requires
        forall|j: int| 0 <= j < s.len() ==> s[j].key != key,
    ensures
        find_setting(s, key) is None,
    decreases s.len(),
{
    if s.len() > 0 {
        lemma_find_setting_none(s.subrange(1, s.len() as int), key);
    }
}

/// Sum of the per-key counters recorded for day `d`.
pub open spec fn sum_keys_date(s: Seq<KeyRec>, d: Date) -> int
    decreases s.len(),
{
    if s.len() == 0 {
        0
    } else {
        sum_keys_date(s.drop_last(), d) + if s.last().date == d {
            s.last().count
        } else {
            0
        }
    }
}

/// Sum of the per-button counters recorded for day `d`.
pub open spec fn sum_mouse_date(s: Seq<MouseRec>, d: Date) -> int
    decreases s.len(),
{
    if s.len() == 0 {
        0
    } else {
        sum_mouse_date(s.drop_last(), d) + if s.last().date == d {
            s.last().count
        } else {
            0
        }
    }
}

/// Sum of both totals over all summary rows. Under well-formedness this
/// equals the number of increments ever applied.
pub open spec fn sum_totals(s: Seq<SumRec>) -> int
    decreases s.len(),
{
    if s.len() == 0 {
        0
    } else {
        sum_totals(s.drop_last()) + s.last().total_keys + s.last().total_clicks
    }
}

/// Replacing one row changes a day's sum by that row's change of count.
pub proof fn lemma_sum_keys_update(s: Seq<KeyRec>, i: int, r: KeyRec, d: Date)
    requires
        0 <= i < s.len(),
        r.date == s[i].date,
    ensures
        sum_keys_date(s.update(i, r), d) == sum_keys_date(s, d) + if s[i].date == d {
            r.count - s[i].count
        } else {
            0
        },
    decreases s.len(),
{
    if i == s.len() - 1 {
        assert(s.update(i, r).drop_last() =~= s.drop_last());
    } else {
        assert(s.update(i, r).drop_last() =~= s.drop_last().update(i, r));
        lemma_sum_keys_update(s.drop_last(), i, r, d);
    }
}

/// With no negative counters a day's sum is not negative.
pub proof fn lemma_sum_keys_nonneg(s: Seq<KeyRec>, d: Date)
    requires
        forall|i: int| 0 <= i < s.len() ==> s[i].count >= 0,
    ensures
        sum_keys_date(s, d) >= 0,
    decreases s.len(),
{
    if s.len() > 0 {
        lemma_sum_keys_nonneg(s.drop_last(), d);
    }
}

/// With no negative counters a prefix's sum is at most the whole sum.
pub proof fn lemma_sum_keys_take_le(s: Seq<KeyRec>, k: int, d: Date)
    requires
        forall|i: int| 0 <= i < s.len() ==> s[i].count >= 0,
        0 <= k <= s.len(),
    ensures
        sum_keys_date(s.take(k), d) <= sum_keys_date(s, d),
    decreases s.len() - k,
{
    if k == s.len() {
        assert(s.take(k) =~= s);
    } else {
        assert(s.take(k + 1).drop_last() =~= s.take(k));
        lemma_sum_keys_take_le(s, k + 1, d);
    }
}

/// With no negative counters each of a day's rows counts at most the day's
/// sum.
pub proof fn lemma_sum_keys_elem(s: Seq<KeyRec>, i: int, d: Date)
    requires
        forall|j: int| 0 <= j < s.len() ==> s[j].count >= 0,
        0 <= i < s.len(),
        s[i].date == d,
    ensures
        s[i].count <= sum_keys_date(s, d),
    decreases s.len(),
{
    if i == s.len() - 1 {
        lemma_sum_keys_nonneg(s.drop_last(), d);
    } else {
        lemma_sum_keys_elem(s.drop_last(), i, d);
    }
}

/// A day with no rows sums to zero.
pub proof fn lemma_sum_keys_absent(s: Seq<KeyRec>, d: Date)
    requires
        forall|i: int| 0 <= i < s.len() ==> s[i].date != d,
    ensures
        sum_keys_date(s, d) == 0,
    decreases s.len(),
{
    if s.len() > 0 {
        lemma_sum_keys_absent(s.drop_last(), d);
    }
}

/// Replacing one row changes a day's sum by that row's change of count.
pub proof fn lemma_sum_mouse_update(s: Seq<MouseRec>, i: int, r: MouseRec, d: Date)
    requires
        0 <= i < s.len(),
        r.date == s[i].date,
    ensures
        sum_mouse_date(s.update(i, r), d) == sum_mouse_date(s, d) + if s[i].date == d {
            r.count - s[i].count
        } else {
            0
        },
    decreases s.len(),
{
    if i == s.len() - 1 {
        assert(s.update(i, r).drop_last() =~= s.drop_last());
    } else {
        assert(s.update(i, r).drop_last() =~= s.drop_last().update(i, r));
        lemma_sum_mouse_update(s.drop_last(), i, r, d);
    }
}

/// With no negative counters a day's sum is not negative.
pub proof fn lemma_sum_mouse_nonneg(s: Seq<MouseRec>, d: Date)
    requires
        forall|i: int| 0 <= i < s.len() ==> s[i].count >= 0,
    ensures
        sum_mouse_date(s, d) >= 0,
    decreases s.len(),
{
    if s.len() > 0 {
        lemma_sum_mouse_nonneg(s.drop_last(), d);
    }
}

/// With no negative counters a prefix's sum is at most the whole sum.
pub proof fn lemma_sum_mouse_take_le(s: Seq<MouseRec>, k: int, d: Date)
    requires
        forall|i: int| 0 <= i < s.len() ==> s[i].count >= 0,
        0 <= k <= s.len(),
    ensures
        sum_mouse_date(s.take(k), d) <= sum_mouse_date(s, d),
    decreases s.len() - k,
{
    if k == s.len() {
        assert(s.take(k) =~= s);
    } else {
        assert(s.take(k + 1).drop_last() =~= s.take(k));
        lemma_sum_mouse_take_le(s, k + 1, d);
    }
}

/// With no negative counters each of a day's rows counts at most the day's
/// sum.
pub proof fn lemma_sum_mouse_elem(s: Seq<MouseRec>, i: int, d: Date)
    requires
        forall|j: int| 0 <= j < s.len() ==> s[j].count >= 0,
        0 <= i < s.len(),
        s[i].date == d,
    ensures
        s[i].count <= sum_mouse_date(s, d),
    decreases s.len(),
{
    if i == s.len() - 1 {
        lemma_sum_mouse_nonneg(s.drop_last(), d);
    } else {
        lemma_sum_mouse_elem(s.drop_last(), i, d);
    }
}

/// A day with no rows sums to zero.
pub proof fn lemma_sum_mouse_absent(s: Seq<MouseRec>, d: Date)
    requires
        forall|i: int| 0 <= i < s.len() ==> s[i].date != d,
    ensures
        sum_mouse_date(s, d) == 0,
    decreases s.len(),
{
    if s.len() > 0 {
        lemma_sum_mouse_absent(s.drop_last(), d);
    }
}

/// Replacing one summary row changes the grand total by that row's change.
pub proof fn lemma_sum_totals_update(s: Seq<SumRec>, i: int, r: SumRec)
    requires
        0 <= i < s.len(),
    ensures
        sum_totals(s.update(i, r)) == sum_totals(s) + r.total_keys + r.total_clicks
            - s[i].total_keys - s[i].total_clicks,
    decreases s.len(),
{
    if i == s.len() - 1 {
        assert(s.update(i, r).drop_last() =~= s.drop_last());
    } else {
        assert(s.update(i, r).drop_last() =~= s.drop_last().update(i, r));
        lemma_sum_totals_update(s.drop_last(), i, r);
    }
}

/// With no negative totals the grand total is not negative.
pub proof fn lemma_sum_totals_nonneg(s: Seq<SumRec>)
    requires
        forall|i: int| 0 <= i < s.len() ==> s[i].total_keys >= 0 && s[i].total_clicks >= 0,
    ensures
        sum_totals(s) >= 0,
    decreases s.len(),
{
    if s.len() > 0 {
        lemma_sum_totals_nonneg(s.drop_last());
    }
}

/// With no negative totals each row's totals are at most the grand total.
pub proof fn lemma_sum_totals_elem(s: Seq<SumRec>, i: int)
    requires
        forall|j: int| 0 <= j < s.len() ==> s[j].total_keys >= 0 && s[j].total_clicks >= 0,
        0 <= i < s.len(),
    ensures
        s[i].total_keys + s[i].total_clicks <= sum_totals(s),
    decreases s.len(),
{
    if i == s.len() - 1 {
        lemma_sum_totals_nonneg(s.drop_last());
    } else {
        lemma_sum_totals_elem(s.drop_last(), i);
    }
}

impl StoreModel {
    /// The store's internal consistency: each counter key appears in one row
    /// only, counters are positive, every day that has counters has a summary
    /// row holding exactly the sums of that day's counters, and the grand
    /// total of all summaries is the number of increments applied. This is
    /// the state every reader observes.
    pub open spec fn wf(self) -> bool {
        &&& forall|i: int, j: int|
            #![trigger self.keys[i], self.keys[j]]
            0 <= i < j < self.keys.len() ==> !(self.keys[i].date == self.keys[j].date
                && self.keys[i].name == self.keys[j].name)
        &&& forall|i: int, j: int|
            #![trigger self.mouse[i], self.mouse[j]]
            0 <= i < j < self.mouse.len() ==> !(self.mouse[i].date == self.mouse[j].date
                && self.mouse[i].button == self.mouse[j].button)
        &&& forall|i: int, j: int|
            #![trigger self.sums[i], self.sums[j]]
            0 <= i < j < self.sums.len() ==> self.sums[i].date != self.sums[j].date
        &&& forall|i: int, j: int|
            #![trigger self.settings[i], self.settings[j]]
            0 <= i < j < self.settings.len() ==> self.settings[i].key != self.settings[j].key
        &&& forall|i: int|
            #![trigger self.keys[i]]
            0 <= i < self.keys.len() ==> self.keys[i].count >= 1 && self.keys[i].date.wf()
                && find_sum(self.sums, self.keys[i].date) is Some
        &&& forall|i: int|
            #![trigger self.mouse[i]]
            0 <= i < self.mouse.len() ==> self.mouse[i].count >= 1 && self.mouse[i].date.wf()
                && find_sum(self.sums, self.mouse[i].date) is Some
        &&& forall|i: int|
            #![trigger self.sums[i]]
            0 <= i < self.sums.len() ==> self.sums[i].date.wf() && self.sums[i].total_keys
                == sum_keys_date(self.keys, self.sums[i].date) && self.sums[i].total_clicks
                == sum_mouse_date(self.mouse, self.sums[i].date)
        &&& self.applied == sum_totals(self.sums)
        &&& 0 <= self.applied <= i64::MAX
    }
}

/// The count recorded for `(d, name)`, zero when no row exists.
pub open spec fn key_count(m: StoreModel, d: Date, name: Seq<char>) -> int {
    match find_key(m.keys, d, name) {
        Some(i) => m.keys[i].count,
        None => 0,
    }
}

/// The count recorded for `(d, button)`, zero when no row exists.
pub open spec fn mouse_count(m: StoreModel, d: Date, button: Seq<char>) -> int {
    match find_mouse(m.mouse, d, button) {
        Some(i) => m.mouse[i].count,
        None => 0,
    }
}

/// The summary's key total for day `d`, zero when the day has no summary.
pub open spec fn total_keys_of(m: StoreModel, d: Date) -> int {
    match find_sum(m.sums, d) {
        Some(j) => m.sums[j].total_keys,
        None => 0,
    }
}

/// The summary's click total for day `d`, zero when the day has no summary.
pub open spec fn total_clicks_of(m: StoreModel, d: Date) -> int {
    match find_sum(m.sums, d) {
        Some(j) => m.sums[j].total_clicks,
        None => 0,
    }
}

/// The stored value for a settings key, if any.
pub open spec fn setting_value(m: StoreModel, key: Seq<char>) -> Option<Seq<char>> {
    match find_setting(m.settings, key) {
        Some(i) => Some(m.settings[i].value),
        None => None,
    }
}

/// One key-press increment: upsert the `(d, name)` counter, remember the
/// last-seen key code, then recompute the day's key total from the counter
/// table. At counting capacity the store is left unchanged.
pub open spec fn key_step(m: StoreModel, d: Date, name: Seq<char>, code: Option<i32>) -> StoreModel {
    if m.applied == i64::MAX {
        m
    } else {
        let keys2 = match find_key(m.keys, d, name) {
            Some(i) => m.keys.update(
                i,
                KeyRec { date: d, name: name, code: code, count: m.keys[i].count + 1 },
            ),
            None => m.keys.push(KeyRec { date: d, name: name, code: code, count: 1 }),
        };
        let tk = sum_keys_date(keys2, d);
        let sums2 = match find_sum(m.sums, d) {
            Some(j) => m.sums.update(
                j,
                SumRec { date: d, total_keys: tk, total_clicks: m.sums[j].total_clicks },
            ),
            None => m.sums.push(SumRec { date: d, total_keys: tk, total_clicks: 0 }),
        };
        StoreModel { keys: keys2, sums: sums2, applied: m.applied + 1, ..m }
    }
}

/// One mouse-click increment: upsert the `(d, button)` counter, then
/// recompute the day's click total from the counter table. At counting
/// capacity the store is left unchanged.
pub open spec fn mouse_step(m: StoreModel, d: Date, button: Seq<char>) -> StoreModel {
    if m.applied == i64::MAX {
        m
    } else {
        let mouse2 = match find_mouse(m.mouse, d, button) {
            Some(i) => m.mouse.update(
                i,
                MouseRec { date: d, button: button, count: m.mouse[i].count + 1 },
            ),
            None => m.mouse.push(MouseRec { date: d, button: button, count: 1 }),
        };
        let tc = sum_mouse_date(mouse2, d);
        let sums2 = match find_sum(m.sums, d) {
            Some(j) => m.sums.update(
                j,
                SumRec { date: d, total_keys: m.sums[j].total_keys, total_clicks: tc },
            ),
            None => m.sums.push(SumRec { date: d, total_keys: 0, total_clicks: tc }),
        };
        StoreModel { mouse: mouse2, sums: sums2, applied: m.applied + 1, ..m }
    }
}

/// One settings write: last-write-wins upsert of `key`.
pub open spec fn setting_step(m: StoreModel, key: Seq<char>, value: Seq<char>) -> StoreModel {
    let settings2 = match find_setting(m.settings, key) {
        Some(i) => m.settings.update(i, SettingRec { key: key, value: value }),
        None => m.settings.push(SettingRec { key: key, value: value }),
    };
    StoreModel { settings: settings2, ..m }
}

/// Replacing a row by one with the same identity leaves every `find_key`
/// lookup unchanged.
pub proof fn lemma_find_key_update_same(s: Seq<KeyRec>, i: int, r: KeyRec, d: Date, name: Seq<char>)
    requires
        0 <= i < s.len(),
        r.date == s[i].date,
        r.name == s[i].name,
    ensures
        find_key(s.update(i, r), d, name) == find_key(s, d, name),
    decreases s.len(),
{
    let s2 = s.update(i, r);
    if i == 0 {
        assert(s2.subrange(1, s2.len() as int) =~= s.subrange(1, s.len() as int));
    } else {
        assert(s2.subrange(1, s2.len() as int) =~= s.subrange(1, s.len() as int).update(i - 1, r));
        lemma_find_key_update_same(s.subrange(1, s.len() as int), i - 1, r, d, name);
    }
}

/// Appending a row changes a `find_key` lookup only where nothing matched
/// before and the new row matches.
pub proof fn lemma_find_key_push(s: Seq<KeyRec>, r: KeyRec, d: Date, name: Seq<char>)
    ensures
        find_key(s.push(r), d, name) == match find_key(s, d, name) {
            Some(i) => Some(i),
            None => if r.date == d && r.name == name {
                Some(s.len() as int)
            } else {
                None
            },
        },
{
    let s2 = s.push(r);
    lemma_find_key(s, d, name);
    match find_key(s, d, name) {
        Some(i) => {
            assert(s2[i] == s[i]);
            assert forall|j: int| 0 <= j < i implies s2[j] == s[j] by {}
            lemma_find_key_at(s2, d, name, i);
        },
        None => {
            if r.date == d && r.name == name {
                assert(s2[s.len() as int] == r);
                assert forall|j: int| 0 <= j < s.len() implies s2[j] == s[j] by {}
                lemma_find_key_at(s2, d, name, s.len() as int);
            } else {
                assert forall|j: int| 0 <= j < s2.len() implies !((s2[j]).date == d && (s2[j]).name == name) by {
                    if j < s.len() {
                        assert(s2[j] == s[j]);
                    } else {
                        assert(s2[j] == r);
                    }
                }
                lemma_find_key_none(s2, d, name);
            }
        },
    }
}

/// Replacing a row by one with the same identity leaves every `find_mouse`
/// lookup unchanged.
pub proof fn lemma_find_mouse_update_same(
    s: Seq<MouseRec>,
    i: int,
    r: MouseRec,
    d: Date,
    button: Seq<char>,
)
    requires
        0 <= i < s.len(),
        r.date == s[i].date,
        r.button == s[i].button,
    ensures
        find_mouse(s.update(i, r), d, button) == find_mouse(s, d, button),
    decreases s.len(),
{
    let s2 = s.update(i, r);
    if i == 0 {
        assert(s2.subrange(1, s2.len() as int) =~= s.subrange(1, s.len() as int));
    } else {
        assert(s2.subrange(1, s2.len() as int) =~= s.subrange(1, s.len() as int).update(i - 1, r));
        lemma_find_mouse_update_same(s.subrange(1, s.len() as int), i - 1, r, d, button);
    }
}

/// Appending a row changes a `find_mouse` lookup only where nothing matched
/// before and the new row matches.
pub proof fn lemma_find_mouse_push(s: Seq<MouseRec>, r: MouseRec, d: Date, button: Seq<char>)
    ensures
        find_mouse(s.push(r), d, button) == match find_mouse(s, d, button) {
            Some(i) => Some(i),
            None => if r.date == d && r.button == button {
                Some(s.len() as int)
            } else {
                None
            },
        },
{
    let s2 = s.push(r);
    lemma_find_mouse(s, d, button);
    match find_mouse(s, d, button) {
        Some(i) => {
            assert(s2[i] == s[i]);
            assert forall|j: int| 0 <= j < i implies s2[j] == s[j] by {}
            lemma_find_mouse_at(s2, d, button, i);
        },
        None => {
            if r.date == d && r.button == button {
                assert(s2[s.len() as int] == r);
                assert forall|j: int| 0 <= j < s.len() implies s2[j] == s[j] by {}
                lemma_find_mouse_at(s2, d, button, s.len() as int);
            } else {
                assert forall|j: int| 0 <= j < s2.len() implies !((s2[j]).date == d && (s2[j]).button == button) by {
                    if j < s.len() {
                        assert(s2[j] == s[j]);
                    } else {
                        assert(s2[j] == r);
                    }
                }
                lemma_find_mouse_none(s2, d, button);
            }
        },
    }
}

/// Replacing a summary row by one for the same day leaves every `find_sum`
/// lookup unchanged.
pub proof fn lemma_find_sum_update_same(s: Seq<SumRec>, j: int, r: SumRec, d: Date)
    requires
        0 <= j < s.len(),
        r.date == s[j].date,
    ensures
        find_sum(s.update(j, r), d) == find_sum(s, d),
    decreases s.len(),
{
    let s2 = s.update(j, r);
    if j == 0 {
        assert(s2.subrange(1, s2.len() as int) =~= s.subrange(1, s.len() as int));
    } else {
        assert(s2.subrange(1, s2.len() as int) =~= s.subrange(1, s.len() as int).update(j - 1, r));
        lemma_find_sum_update_same(s.subrange(1, s.len() as int), j - 1, r, d);
    }
}

/// Appending a summary row changes a `find_sum` lookup only where no row for
/// that day existed and the new row is for it.
pub proof fn lemma_find_sum_push(s: Seq<SumRec>, r: SumRec, d: Date)
    ensures
        find_sum(s.push(r), d) == match find_sum(s, d) {
            Some(i) => Some(i),
            None => if r.date == d {
                Some(s.len() as int)
            } else {
                None
            },
        },
{
    let s2 = s.push(r);
    lemma_find_sum(s, d);
    match find_sum(s, d) {
        Some(i) => {
            assert(s2[i] == s[i]);
            assert forall|j: int| 0 <= j < i implies s2[j] == s[j] by {}
            lemma_find_sum_at(s2, d, i);
        },
        None => {
            if r.date == d {
                assert(s2[s.len() as int] == r);
                assert forall|j: int| 0 <= j < s.len() implies s2[j] == s[j] by {}
                lemma_find_sum_at(s2, d, s.len() as int);
            } else {
                assert forall|j: int| 0 <= j < s2.len() implies !((s2[j]).date == d) by {
                    if j < s.len() {
                        assert(s2[j] == s[j]);
                    } else {
                        assert(s2[j] == r);
                    }
                }
                lemma_find_sum_none(s2, d);
            }
        },
    }
}

/// Replacing a settings row by one with the same key leaves every
/// `find_setting` lookup unchanged.
pub proof fn lemma_find_setting_update_same(
    s: Seq<SettingRec>,
    j: int,
    r: SettingRec,
    key: Seq<char>,
)
    requires
        0 <= j < s.len(),
        r.key == s[j].key,
    ensures
        find_setting(s.update(j, r), key) == find_setting(s, key),
    decreases s.len(),
{
    let s2 = s.update(j, r);
    if j == 0 {
        assert(s2.subrange(1, s2.len() as int) =~= s.subrange(1, s.len() as int));
    } else {
        assert(s2.subrange(1, s2.len() as int) =~= s.subrange(1, s.len() as int).update(j - 1, r));
        lemma_find_setting_update_same(s.subrange(1, s.len() as int), j - 1, r, key);
    }
}

/// Appending a settings row changes a `find_setting` lookup only where no
/// row with that key existed and the new row carries it.
pub proof fn lemma_find_setting_push(s: Seq<SettingRec>, r: SettingRec, key: Seq<char>)
    ensures
        find_setting(s.push(r), key) == match find_setting(s, key) {
            Some(i) => Some(i),
            None => if r.key == key {
                Some(s.len() as int)
            } else {
                None
            },
        },
{
    let s2 = s.push(r);
    lemma_find_setting(s, key);
    match find_setting(s, key) {
        Some(i) => {
            assert(s2[i] == s[i]);
            assert forall|j: int| 0 <= j < i implies s2[j] == s[j] by {}
            lemma_find_setting_at(s2, key, i);
        },
        None => {
            if r.key == key {
                assert(s2[s.len() as int] == r);
                assert forall|j: int| 0 <= j < s.len() implies s2[j] == s[j] by {}
                lemma_find_setting_at(s2, key, s.len() as int);
            } else {
                assert forall|j: int| 0 <= j < s2.len() implies !((s2[j]).key == key) by {
                    if j < s.len() {
                        assert(s2[j] == s[j]);
                    } else {
                        assert(s2[j] == r);
                    }
                }
                lemma_find_setting_none(s2, key);
            }
        },
    }
}

/// Below counting capacity, a key-press increment preserves the store's
/// consistency, raises the `(d, name)` counter and the day's key total by
/// exactly one whether or not the counter already existed, and touches
/// nothing else. In particular a replayed increment behaves exactly like a
/// fresh one: there is no deduplication, by design.
pub proof fn lemma_key_step_props(m: StoreModel, d: Date, name: Seq<char>, code: Option<i32>)
    requires
        m.wf(),
        d.wf(),
        m.applied < i64::MAX,
    ensures
        key_step(m, d, name, code).wf(),
        key_step(m, d, name, code).applied == m.applied + 1,
        key_count(key_step(m, d, name, code), d, name) == key_count(m, d, name) + 1,
        total_keys_of(key_step(m, d, name, code), d) == total_keys_of(m, d) + 1,
        total_clicks_of(key_step(m, d, name, code), d) == total_clicks_of(m, d),
        sum_keys_date(key_step(m, d, name, code).keys, d) == sum_keys_date(m.keys, d) + 1,
        key_step(m, d, name, code).mouse == m.mouse,
        key_step(m, d, name, code).settings == m.settings,
{
    let m2 = key_step(m, d, name, code);
    let keys2 = m2.keys;
    let sums2 = m2.sums;
    lemma_find_key(m.keys, d, name);
    lemma_find_sum(m.sums, d);
    // The new counter table: the one touched day gains one, others change
    // not at all.
    match find_key(m.keys, d, name) {
        Some(i) => {
            let newrow = KeyRec { date: d, name: name, code: code, count: m.keys[i].count + 1 };
            assert(keys2 == m.keys.update(i, newrow));
            lemma_sum_keys_update(m.keys, i, newrow, d);
            assert forall|d2: Date| d2 != d implies sum_keys_date(keys2, d2) == sum_keys_date(
                m.keys,
                d2,
            ) by {
                lemma_sum_keys_update(m.keys, i, newrow, d2);
            }
            lemma_find_key_update_same(m.keys, i, newrow, d, name);
        },
        None => {
            let newrow = KeyRec { date: d, name: name, code: code, count: 1 };
            assert(keys2 == m.keys.push(newrow));
            assert forall|d2: Date| true implies sum_keys_date(keys2, d2) == sum_keys_date(
                m.keys,
                d2,
            ) + if d2 == d {
                1int
            } else {
                0int
            } by {
                assert(keys2.drop_last() =~= m.keys);
            }
            lemma_find_key_push(m.keys, newrow, d, name);
        },
    }
    assert(sum_keys_date(keys2, d) == sum_keys_date(m.keys, d) + 1);
    assert(key_count(m2, d, name) == key_count(m, d, name) + 1);
    let tk = sum_keys_date(keys2, d);
    // The new summary table.
    match find_sum(m.sums, d) {
        Some(j) => {
            let newsum = SumRec {
                date: d,
                total_keys: tk,
                total_clicks: m.sums[j].total_clicks,
            };
            assert(sums2 == m.sums.update(j, newsum));
            lemma_sum_totals_update(m.sums, j, newsum);
            assert forall|d2: Date| true implies find_sum(sums2, d2) == find_sum(m.sums, d2) by {
                lemma_find_sum_update_same(m.sums, j, newsum, d2);
            }
            assert(sum_totals(sums2) == sum_totals(m.sums) + 1);
        },
        None => {
            // A day with no summary row has no counter rows either.
            assert forall|x: int| 0 <= x < m.keys.len() implies m.keys[x].date != d by {
                assert(find_sum(m.sums, m.keys[x].date) is Some);
            }
            assert forall|x: int| 0 <= x < m.mouse.len() implies m.mouse[x].date != d by {
                assert(find_sum(m.sums, m.mouse[x].date) is Some);
            }
            lemma_sum_keys_absent(m.keys, d);
            lemma_sum_mouse_absent(m.mouse, d);
            let newsum = SumRec { date: d, total_keys: tk, total_clicks: 0 };
            assert(sums2 == m.sums.push(newsum));
            assert(sums2.drop_last() =~= m.sums);
            assert(sum_totals(sums2) == sum_totals(m.sums) + 1);
            assert forall|d2: Date| true implies find_sum(sums2, d2) == (match find_sum(
                m.sums,
                d2,
            ) {
                Some(i) => Some(i),
                None => if d2 == d {
                    Some(m.sums.len() as int)
                } else {
                    None
                },
            }) by {
                lemma_find_sum_push(m.sums, newsum, d2);
            }
        },
    }
    // Consistency of every summary row of the new state.
    assert forall|j2: int| 0 <= j2 < sums2.len() implies sums2[j2].date.wf()
        && sums2[j2].total_keys == sum_keys_date(keys2, sums2[j2].date) && sums2[j2].total_clicks
        == sum_mouse_date(m.mouse, sums2[j2].date) by {
        let d2 = sums2[j2].date;
        match find_sum(m.sums, d) {
            Some(j) => {
                if j2 != j {
                    assert(sums2[j2] == m.sums[j2]);
                    assert(d2 != d);
                }
            },
            None => {
                if j2 < m.sums.len() {
                    assert(sums2[j2] == m.sums[j2]);
                    assert(d2 != d);
                }
            },
        }
    }
    // Every counter row's day still has a summary row.
    assert forall|x: int| 0 <= x < keys2.len() implies find_sum(sums2, keys2[x].date) is Some by {
        if x < m.keys.len() && keys2[x].date == m.keys[x].date {
            assert(find_sum(m.sums, m.keys[x].date) is Some);
        }
    }
    assert forall|x: int| 0 <= x < m.mouse.len() implies find_sum(
        sums2,
        m.mouse[x].date,
    ) is Some by {
        assert(find_sum(m.sums, m.mouse[x].date) is Some);
    }
    assert(m2.wf());
}

/// Below counting capacity, a mouse-click increment preserves the store's
/// consistency, raises the `(d, button)` counter and the day's click total
/// by exactly one whether or not the counter already existed, and touches
/// nothing else. In particular a replayed increment behaves exactly like a
/// fresh one: there is no deduplication, by design.
pub proof fn lemma_mouse_step_props(m: StoreModel, d: Date, button: Seq<char>)
    requires
        m.wf(),
        d.wf(),
        m.applied < i64::MAX,
    ensures
        mouse_step(m, d, button).wf(),
        mouse_step(m, d, button).applied == m.applied + 1,
        mouse_count(mouse_step(m, d, button), d, button) == mouse_count(m, d, button) + 1,
        total_clicks_of(mouse_step(m, d, button), d) == total_clicks_of(m, d) + 1,
        total_keys_of(mouse_step(m, d, button), d) == total_keys_of(m, d),
        sum_mouse_date(mouse_step(m, d, button).mouse, d) == sum_mouse_date(m.mouse, d) + 1,
        mouse_step(m, d, button).keys == m.keys,
        mouse_step(m, d, button).settings == m.settings,
{
    let m2 = mouse_step(m, d, button);
    let mouse2 = m2.mouse;
    let sums2 = m2.sums;
    lemma_find_mouse(m.mouse, d, button);
    lemma_find_sum(m.sums, d);
    // The new counter table: the one touched day gains one, others change
    // not at all.
    match find_mouse(m.mouse, d, button) {
        Some(i) => {
            let newrow = MouseRec { date: d, button: button, count: m.mouse[i].count + 1 };
            assert(mouse2 == m.mouse.update(i, newrow));
            lemma_sum_mouse_update(m.mouse, i, newrow, d);
            assert forall|d2: Date| d2 != d implies sum_mouse_date(mouse2, d2) == sum_mouse_date(
                m.mouse,
                d2,
            ) by {
                lemma_sum_mouse_update(m.mouse, i, newrow, d2);
            }
            lemma_find_mouse_update_same(m.mouse, i, newrow, d, button);
        },
        None => {
            let newrow = MouseRec { date: d, button: button, count: 1 };
            assert(mouse2 == m.mouse.push(newrow));
            assert forall|d2: Date| true implies sum_mouse_date(mouse2, d2) == sum_mouse_date(
                m.mouse,
                d2,
            ) + if d2 == d {
                1int
            } else {
                0int
            } by {
                assert(mouse2.drop_last() =~= m.mouse);
            }
            lemma_find_mouse_push(m.mouse, newrow, d, button);
        },
    }
    assert(sum_mouse_date(mouse2, d) == sum_mouse_date(m.mouse, d) + 1);
    assert(mouse_count(m2, d, button) == mouse_count(m, d, button) + 1);
    let tc = sum_mouse_date(mouse2, d);
    // The new summary table.
    match find_sum(m.sums, d) {
        Some(j) => {
            let newsum = SumRec {
                date: d,
                total_keys: m.sums[j].total_keys,
                total_clicks: tc,
            };
            assert(sums2 == m.sums.update(j, newsum));
            lemma_sum_totals_update(m.sums, j, newsum);
            assert forall|d2: Date| true implies find_sum(sums2, d2) == find_sum(m.sums, d2) by {
                lemma_find_sum_update_same(m.sums, j, newsum, d2);
            }
            assert(sum_totals(sums2) == sum_totals(m.sums) + 1);
        },
        None => {
            // A day with no summary row has no counter rows either.
            assert forall|x: int| 0 <= x < m.keys.len() implies m.keys[x].date != d by {
                assert(find_sum(m.sums, m.keys[x].date) is Some);
            }
            assert forall|x: int| 0 <= x < m.mouse.len() implies m.mouse[x].date != d by {
                assert(find_sum(m.sums, m.mouse[x].date) is Some);
            }
            lemma_sum_keys_absent(m.keys, d);
            lemma_sum_mouse_absent(m.mouse, d);
            let newsum = SumRec { date: d, total_keys: 0, total_clicks: tc };
            assert(sums2 == m.sums.push(newsum));
            assert(sums2.drop_last() =~= m.sums);
            assert(sum_totals(sums2) == sum_totals(m.sums) + 1);
            assert forall|d2: Date| true implies find_sum(sums2, d2) == (match find_sum(
                m.sums,
                d2,
            ) {
                Some(i) => Some(i),
                None => if d2 == d {
                    Some(m.sums.len() as int)
                } else {
                    None
                },
            }) by {
                lemma_find_sum_push(m.sums, newsum, d2);
            }
        },
    }
    // Consistency of every summary row of the new state.
    assert forall|j2: int| 0 <= j2 < sums2.len() implies sums2[j2].date.wf()
        && sums2[j2].total_keys == sum_keys_date(m.keys, sums2[j2].date) && sums2[j2].total_clicks
        == sum_mouse_date(mouse2, sums2[j2].date) by {
        let d2 = sums2[j2].date;
        match find_sum(m.sums, d) {
            Some(j) => {
                if j2 != j {
                    assert(sums2[j2] == m.sums[j2]);
                    assert(d2 != d);
                }
            },
            None => {
                if j2 < m.sums.len() {
                    assert(sums2[j2] == m.sums[j2]);
                    assert(d2 != d);
                }
            },
        }
    }
    // Every counter row's day still has a summary row.
    assert forall|x: int| 0 <= x < mouse2.len() implies find_sum(sums2, mouse2[x].date) is Some by {
        if x < m.mouse.len() && mouse2[x].date == m.mouse[x].date {
            assert(find_sum(m.sums, m.mouse[x].date) is Some);
        }
    }
    assert forall|x: int| 0 <= x < m.keys.len() implies find_sum(
        sums2,
        m.keys[x].date,
    ) is Some by {
        assert(find_sum(m.sums, m.keys[x].date) is Some);
    }
    assert(m2.wf());
}

/// A settings write preserves the store's consistency, stores the given
/// value under the given key, and leaves every other key's value and all
/// counters unchanged: last write wins.
pub proof fn lemma_setting_step_props(m: StoreModel, key: Seq<char>, value: Seq<char>)
    requires
        m.wf(),
    ensures
        setting_step(m, key, value).wf(),
        setting_value(setting_step(m, key, value), key) == Some(value),
        forall|k2: Seq<char>|
            k2 != key ==> #[trigger] setting_value(setting_step(m, key, value), k2)
                == setting_value(m, k2),
        setting_step(m, key, value).keys == m.keys,
        setting_step(m, key, value).mouse == m.mouse,
        setting_step(m, key, value).sums == m.sums,
        setting_step(m, key, value).applied == m.applied,
{
    let m2 = setting_step(m, key, value);
    let settings2 = m2.settings;
    lemma_find_setting(m.settings, key);
    let newrow = SettingRec { key: key, value: value };
    match find_setting(m.settings, key) {
        Some(i) => {
            assert(settings2 == m.settings.update(i, newrow));
            assert forall|k2: Seq<char>| true implies find_setting(settings2, k2) == find_setting(
                m.settings,
                k2,
            ) by {
                lemma_find_setting_update_same(m.settings, i, newrow, k2);
            }
        },
        None => {
            assert(settings2 == m.settings.push(newrow));
            assert forall|k2: Seq<char>| true implies find_setting(settings2, k2) == (match
                find_setting(m.settings, k2) {
                Some(i) => Some(i),
                None => if k2 == key {
                    Some(m.settings.len() as int)
                } else {
                    None
                },
            }) by {
                lemma_find_setting_push(m.settings, newrow, k2);
            }
        },
    }
    assert forall|k2: Seq<char>| k2 != key implies #[trigger] setting_value(m2, k2)
        == setting_value(m, k2) by {
        lemma_find_setting(m.settings, k2);
        assert(find_setting(settings2, k2) == find_setting(m.settings, k2));
        match find_setting(m.settings, k2) {
            Some(i2) => {
                assert(m.settings[i2].key == k2);
                assert(settings2[i2] == m.settings[i2]);
            },
            None => {},
        }
    }
    assert(m2.wf());
}

/// Failure of a single store operation. Incrementing past the store's
/// counting capacity is refused and leaves the store unchanged.
#[derive(Debug, Clone, Copy, PartialEq, Eq, Structural)]
pub enum StoreError {
    CounterOverflow,
}

struct KeyRow {
    date: Date,
    key_name: String,
    key_code: Option<i32>,
    count: i64,
}

struct MouseRow {
    date: Date,
    button: String,
    count: i64,
}

struct SumRow {
    date: Date,
    total_keys: i64,
    total_clicks: i64,
}

struct SettingRow {
    key: String,
    value: String,
}

impl View for KeyRow {
    type V = KeyRec;

    closed spec fn view(&self) -> KeyRec {
        KeyRec {
            date: self.date,
            name: self.key_name@,
            code: self.key_code,
            count: self.count as int,
        }
    }
}

impl View for MouseRow {
    type V = MouseRec;

    closed spec fn view(&self) -> MouseRec {
        MouseRec { date: self.date, button: self.button@, count: self.count as int }
    }
}

impl View for SumRow {
    type V = SumRec;

    closed spec fn view(&self) -> SumRec {
        SumRec {
            date: self.date,
            total_keys: self.total_keys as int,
            total_clicks: self.total_clicks as int,
        }
    }
}

impl View for SettingRow {
    type V = SettingRec;

    closed spec fn view(&self) -> SettingRec {
        SettingRec { key: self.key@, value: self.value@ }
    }
}

/// The keyed counter store: per-day per-key and per-button counters, per-day
/// summaries recomputed on every write, and a last-write-wins settings
/// table.
pub struct CounterStore {
    keys: Vec<KeyRow>,
    mouse: Vec<MouseRow>,
    sums: Vec<SumRow>,
    settings: Vec<SettingRow>,
    applied: i64,
}

impl View for CounterStore {
    type V = StoreModel;

    closed spec fn view(&self) -> StoreModel {
        StoreModel {
            keys: self.keys@.map_values(|r: KeyRow| r@),
            mouse: self.mouse@.map_values(|r: MouseRow| r@),
            sums: self.sums@.map_values(|r: SumRow| r@),
            settings: self.settings@.map_values(|r: SettingRow| r@),
            applied: self.applied as int,
        }
    }
}

/// Character-for-character string comparison.
fn str_eq(a: &str, b: &str) -> (r: bool)
    ensures
        r == (a@ == b@),
{
    let n = a.unicode_len();
    if n != b.unicode_len() {
        return false;
    }
    let mut i: usize = 0;
    while i < n
        invariant
            n == a@.len(),
            n == b@.len(),
            i <= n,
            forall|j: int| 0 <= j < i ==> a@[j] == b@[j],
        decreases n - i,
    {
        if a.get_char(i) != b.get_char(i) {
            return false;
        }
        i += 1;
    }
    proof {
        assert(a@ =~= b@);
    }
    true
}

impl CounterStore {
    /// The store's consistency invariant, in terms of its abstract form.
    pub open spec fn wf(self) -> bool {
        self@.wf()
    }

    /// A fresh, empty store, holding only the default setting the original
    /// schema seeds: minimize to tray, on.
    pub fn new() -> (r: CounterStore)
        ensures
            r.wf(),
            r@.keys == Seq::<KeyRec>::empty(),
            r@.mouse == Seq::<MouseRec>::empty(),
            r@.sums == Seq::<SumRec>::empty(),
            r@.applied == 0,
            r@.settings == seq![SettingRec { key: "minimize_to_tray"@, value: "true"@ }],
    {
        let mut settings: Vec<SettingRow> = Vec::new();
        settings.push(
            SettingRow { key: "minimize_to_tray".to_owned(), value: "true".to_owned() },
        );
        let r = CounterStore {
            keys: Vec::new(),
            mouse: Vec::new(),
            sums: Vec::new(),
            settings: settings,
            applied: 0,
        };
        proof {
            assert(r@.keys =~= Seq::<KeyRec>::empty());
            assert(r@.mouse =~= Seq::<MouseRec>::empty());
            assert(r@.sums =~= Seq::<SumRec>::empty());
            assert(r@.settings =~= seq![
                SettingRec { key: "minimize_to_tray"@, value: "true"@ },
            ]);
        }
        r
    }

    /// Index of the row counting `(date, name)` presses, if one exists.
    fn find_key_index(&self, date: Date, name: &str) -> (r: Option<usize>)
        ensures
            match r {
                Some(i) => i < self@.keys.len() && find_key(self@.keys, date, name@) == Some(i as int),
                None => find_key(self@.keys, date, name@) is None,
            },
    {
        let ghost mk = self@.keys;
        let n = self.keys.len();
        let mut k: usize = 0;
        while k < n
            invariant
                mk == self@.keys,
                n == mk.len(),
                k <= n,
                forall|j: int|
                    #![trigger mk[j]]
                    0 <= j < k ==> !(mk[j].date == date && mk[j].name == name@),
            decreases n - k,
        {
            let row = &self.keys[k];
            proof {
                assert(mk[k as int] == self.keys@[k as int]@);
            }
            if row.date == date && str_eq(row.key_name.as_str(), name) {
                proof {
                    lemma_find_key_at(mk, date, name@, k as int);
                }
                return Some(k);
            }
            k += 1;
        }
        proof {
            lemma_find_key_none(mk, date, name@);
        }
        None
    }

    /// Index of the row counting `(date, button)` clicks, if one exists.
    fn find_mouse_index(&self, date: Date, button: &str) -> (r: Option<usize>)
        ensures
            match r {
                Some(i) => i < self@.mouse.len() && find_mouse(self@.mouse, date, button@) == Some(i as int),
                None => find_mouse(self@.mouse, date, button@) is None,
            },
    {
        let ghost mm = self@.mouse;
        let n = self.mouse.len();
        let mut k: usize = 0;
        while k < n
            invariant
                mm == self@.mouse,
                n == mm.len(),
                k <= n,
                forall|j: int|
                    #![trigger mm[j]]
                    0 <= j < k ==> !(mm[j].date == date && mm[j].button == button@),
            decreases n - k,
        {
            let row = &self.mouse[k];
            proof {
                assert(mm[k as int] == self.mouse@[k as int]@);
            }
            if row.date == date && str_eq(row.button.as_str(), button) {
                proof {
                    lemma_find_mouse_at(mm, date, button@, k as int);
                }
                return Some(k);
            }
            k += 1;
        }
        proof {
            lemma_find_mouse_none(mm, date, button@);
        }
        None
    }

    /// Index of the summary row for `date`, if one exists.
    fn find_sum_index(&self, date: Date) -> (r: Option<usize>)
        ensures
            match r {
                Some(i) => i < self@.sums.len() && find_sum(self@.sums, date) == Some(i as int),
                None => find_sum(self@.sums, date) is None,
            },
    {
        let ghost ms = self@.sums;
        let n = self.sums.len();
        let mut k: usize = 0;
        while k < n
            invariant
                ms == self@.sums,
                n == ms.len(),
                k <= n,
                forall|j: int| #![trigger ms[j]] 0 <= j < k ==> ms[j].date != date,
            decreases n - k,
        {
            let row = &self.sums[k];
            proof {
                assert(ms[k as int] == self.sums@[k as int]@);
            }
            if row.date == date {
                proof {
                    lemma_find_sum_at(ms, date, k as int);
                }
                return Some(k);
            }
            k += 1;
        }
        proof {
            lemma_find_sum_none(ms, date);
        }
        None
    }

    /// Index of the settings row for `key`, if one exists.
    fn find_setting_index(&self, key: &str) -> (r: Option<usize>)
        ensures
            match r {
                Some(i) => i < self@.settings.len() && find_setting(self@.settings, key@) == Some(i as int),
                None => find_setting(self@.settings, key@) is None,
            },
    {
        let ghost ms = self@.settings;
        let n = self.settings.len();
        let mut k: usize = 0;
        while k < n
            invariant
                ms == self@.settings,
                n == ms.len(),
                k <= n,
                forall|j: int| #![trigger ms[j]] 0 <= j < k ==> ms[j].key != key@,
            decreases n - k,
        {
            let row = &self.settings[k];
            proof {
                assert(ms[k as int] == self.settings@[k as int]@);
            }
            if str_eq(row.key.as_str(), key) {
                proof {
                    lemma_find_setting_at(ms, key@, k as int);
                }
                return Some(k);
            }
            k += 1;
        }
        proof {
            lemma_find_setting_none(ms, key@);
        }
        None
    }

    /// Recomputes one day's key total from the per-key counter table.
    fn day_key_total(&self, date: Date) -> (r: i64)
        requires
            forall|i: int|
                #![trigger self@.keys[i]]
                0 <= i < self@.keys.len() ==> self@.keys[i].count >= 0,
            sum_keys_date(self@.keys, date) <= i64::MAX,
        ensures
            r as int == sum_keys_date(self@.keys, date),
    {
        let ghost mk = self@.keys;
        let n = self.keys.len();
        let mut acc: i64 = 0;
        let mut k: usize = 0;
        while k < n
            invariant
                mk == self@.keys,
                n == mk.len(),
                k <= n,
                forall|i: int| #![trigger mk[i]] 0 <= i < n ==> mk[i].count >= 0,
                sum_keys_date(mk, date) <= i64::MAX,
                acc as int == sum_keys_date(mk.take(k as int), date),
                acc >= 0,
            decreases n - k,
        {
            proof {
                assert(mk.take(k as int + 1).drop_last() =~= mk.take(k as int));
                assert(mk.take(k as int + 1).last() == mk[k as int]);
                lemma_sum_keys_take_le(mk, k as int + 1, date);
            }
            let row = &self.keys[k];
            proof {
                assert(mk[k as int] == self.keys@[k as int]@);
            }
            if row.date == date {
                acc = acc + row.count;
            }
            k += 1;
        }
        proof {
            assert(mk.take(n as int) =~= mk);
        }
        acc
    }

    /// Recomputes one day's click total from the per-button counter table.
    fn day_mouse_total(&self, date: Date) -> (r: i64)
        requires
            forall|i: int|
                #![trigger self@.mouse[i]]
                0 <= i < self@.mouse.len() ==> self@.mouse[i].count >= 0,
            sum_mouse_date(self@.mouse, date) <= i64::MAX,
        ensures
            r as int == sum_mouse_date(self@.mouse, date),
    {
        let ghost mm = self@.mouse;
        let n = self.mouse.len();
        let mut acc: i64 = 0;
        let mut k: usize = 0;
        while k < n
            invariant
                mm == self@.mouse,
                n == mm.len(),
                k <= n,
                forall|i: int| #![trigger mm[i]] 0 <= i < n ==> mm[i].count >= 0,
                sum_mouse_date(mm, date) <= i64::MAX,
                acc as int == sum_mouse_date(mm.take(k as int), date),
                acc >= 0,
            decreases n - k,
        {
            proof {
                assert(mm.take(k as int + 1).drop_last() =~= mm.take(k as int));
                assert(mm.take(k as int + 1).last() == mm[k as int]);
                lemma_sum_mouse_take_le(mm, k as int + 1, date);
            }
            let row = &self.mouse[k];
            proof {
                assert(mm[k as int] == self.mouse@[k as int]@);
            }
            if row.date == date {
                acc = acc + row.count;
            }
            k += 1;
        }
        proof {
            assert(mm.take(n as int) =~= mm);
        }
        acc
    }

    /// Applies one key press for `(date, key_name)`: count becomes one if
    /// the counter was absent, one more if present; the key code is the
    /// last seen; the day's key total is recomputed from the counter table.
    /// Fails, leaving the store unchanged, exactly when the store has
    /// reached its counting capacity.
    pub fn increment_key(
        &mut self,
        date: Date,
        key_name: &str,
        key_code: Option<i32>,
    ) -> (r: Result<(), StoreError>)
        requires
            old(self).wf(),
            date.wf(),
        ensures
            final(self).wf(),
            final(self)@ == key_step(old(self)@, date, key_name@, key_code),
            r is Err <==> old(self)@.applied == i64::MAX,
    {
        let ghost m = self@;
        if self.applied == i64::MAX {
            return Err(StoreError::CounterOverflow);
        }
        let ghost m2 = key_step(m, date, key_name@, key_code);
        proof {
            lemma_key_step_props(m, date, key_name@, key_code);
            lemma_find_key(m.keys, date, key_name@);
            lemma_find_sum(m.sums, date);
            assert forall|j: int|
                #![trigger m.sums[j]]
                0 <= j < m.sums.len() implies m.sums[j].total_keys >= 0
                && m.sums[j].total_clicks >= 0 by {
                lemma_sum_keys_nonneg(m.keys, m.sums[j].date);
                lemma_sum_mouse_nonneg(m.mouse, m.sums[j].date);
            }
        }
        let idx = self.find_key_index(date, key_name);
        match idx {
            Some(i) => {
                proof {
                    lemma_sum_keys_elem(m.keys, i as int, date);
                    match find_sum(m.sums, date) {
                        Some(j) => {
                            lemma_sum_totals_elem(m.sums, j);
                        },
                        None => {
                            assert(false);
                        },
                    }
                }
                let c = self.keys[i].count;
                let name_clone = self.keys[i].key_name.clone();
                self.keys[i] = KeyRow {
                    date: date,
                    key_name: name_clone,
                    key_code: key_code,
                    count: c + 1,
                };
                proof {
                    assert(self@.keys =~= m2.keys);
                }
            },
            None => {
                self.keys.push(
                    KeyRow { date: date, key_name: key_name.to_owned(), key_code: key_code, count: 1 },
                );
                proof {
                    assert(self@.keys =~= m2.keys);
                }
            },
        }
        proof {
            // The recomputed total stays within counting capacity: the old
            // day total is bounded by the grand total of the summaries.
            match find_sum(m.sums, date) {
                Some(j) => {
                    lemma_sum_totals_elem(m.sums, j);
                },
                None => {
                    assert forall|x: int|
                        #![trigger m.keys[x]]
                        0 <= x < m.keys.len() implies m.keys[x].date != date by {
                        assert(find_sum(m.sums, m.keys[x].date) is Some);
                    }
                    lemma_sum_keys_absent(m.keys, date);
                },
            }
            assert(self@.mouse =~= m.mouse);
            assert(self@.sums =~= m.sums);
        }
        let tk = self.day_key_total(date);
        let jdx = self.find_sum_index(date);
        match jdx {
            Some(j) => {
                let clicks = self.sums[j].total_clicks;
                self.sums[j] = SumRow { date: date, total_keys: tk, total_clicks: clicks };
            },
            None => {
                self.sums.push(SumRow { date: date, total_keys: tk, total_clicks: 0 });
            },
        }
        self.applied = self.applied + 1;
        proof {
            assert(self@.keys =~= m2.keys);
            assert(self@.mouse =~= m2.mouse);
            assert(self@.sums =~= m2.sums);
            assert(self@.settings =~= m2.settings);
            assert(self@ == m2);
        }
        Ok(())
    }

    /// Applies one mouse click for `(date, button)`: count becomes one if
    /// the counter was absent, one more if present; the day's click total is
    /// recomputed from the counter table. Fails, leaving the store
    /// unchanged, exactly when the store has reached its counting capacity.
    pub fn increment_mouse(&mut self, date: Date, button: &str) -> (r: Result<(), StoreError>)
        requires
            old(self).wf(),
            date.wf(),
        ensures
            final(self).wf(),
            final(self)@ == mouse_step(old(self)@, date, button@),
            r is Err <==> old(self)@.applied == i64::MAX,
    {
        let ghost m = self@;
        if self.applied == i64::MAX {
            return Err(StoreError::CounterOverflow);
        }
        let ghost m2 = mouse_step(m, date, button@);
        proof {
            lemma_mouse_step_props(m, date, button@);
            lemma_find_mouse(m.mouse, date, button@);
            lemma_find_sum(m.sums, date);
            assert forall|j: int|
                #![trigger m.sums[j]]
                0 <= j < m.sums.len() implies m.sums[j].total_keys >= 0
                && m.sums[j].total_clicks >= 0 by {
                lemma_sum_keys_nonneg(m.keys, m.sums[j].date);
                lemma_sum_mouse_nonneg(m.mouse, m.sums[j].date);
            }
        }
        let idx = self.find_mouse_index(date, button);
        match idx {
            Some(i) => {
                proof {
                    lemma_sum_mouse_elem(m.mouse, i as int, date);
                    match find_sum(m.sums, date) {
                        Some(j) => {
                            lemma_sum_totals_elem(m.sums, j);
                        },
                        None => {
                            assert(false);
                        },
                    }
                }
                let c = self.mouse[i].count;
                let button_clone = self.mouse[i].button.clone();
                self.mouse[i] = MouseRow { date: date, button: button_clone, count: c + 1 };
                proof {
                    assert(self@.mouse =~= m2.mouse);
                }
            },
            None => {
                self.mouse.push(MouseRow { date: date, button: button.to_owned(), count: 1 });
                proof {
                    assert(self@.mouse =~= m2.mouse);
                }
            },
        }
        proof {
            match find_sum(m.sums, date) {
                Some(j) => {
                    lemma_sum_totals_elem(m.sums, j);
                },
                None => {
                    assert forall|x: int|
                        #![trigger m.mouse[x]]
                        0 <= x < m.mouse.len() implies m.mouse[x].date != date by {
                        assert(find_sum(m.sums, m.mouse[x].date) is Some);
                    }
                    lemma_sum_mouse_absent(m.mouse, date);
                },
            }
            assert(self@.keys =~= m.keys);
            assert(self@.sums =~= m.sums);
        }
        let tc = self.day_mouse_total(date);
        let jdx = self.find_sum_index(date);
        match jdx {
            Some(j) => {
                let keys_total = self.sums[j].total_keys;
                self.sums[j] = SumRow { date: date, total_keys: keys_total, total_clicks: tc };
            },
            None => {
                self.sums.push(SumRow { date: date, total_keys: 0, total_clicks: tc });
            },
        }
        self.applied = self.applied + 1;
        proof {
            assert(self@.keys =~= m2.keys);
            assert(self@.mouse =~= m2.mouse);
            assert(self@.sums =~= m2.sums);
            assert(self@.settings =~= m2.settings);
            assert(self@ == m2);
        }
        Ok(())
    }

    /// Stores `value` under `key`, replacing any earlier value: last write
    /// wins.
    pub fn set_setting(&mut self, key: &str, value: &str)
        requires
            old(self).wf(),
        ensures
            final(self).wf(),
            final(self)@ == setting_step(old(self)@, key@, value@),
    {
        let ghost m = self@;
        let ghost m2 = setting_step(m, key@, value@);
        proof {
            lemma_setting_step_props(m, key@, value@);
        }
        let idx = self.find_setting_index(key);
        match idx {
            Some(i) => {
                self.settings[i] = SettingRow { key: key.to_owned(), value: value.to_owned() };
            },
            None => {
                self.settings.push(
                    SettingRow { key: key.to_owned(), value: value.to_owned() },
                );
            },
        }
        proof {
            lemma_find_setting(m.settings, key@);
            assert(self@.settings =~= m2.settings);
            assert(self@.keys =~= m2.keys);
            assert(self@.mouse =~= m2.mouse);
            assert(self@.sums =~= m2.sums);
            assert(self@ == m2);
        }
    }

    /// The per-key rows of one day, ordered by count descending, ties in
    /// insertion order.
    fn collect_day_key_stats(&self, date: Date) -> (r: Vec<KeyStat>)
        ensures
            krecs(r@) == sort_desc_key(day_key_stats(self@.keys, date)),
            sorted_desc_key(krecs(r@)),
    {
        let ghost mk = self@.keys;
        let n = self.keys.len();
        let mut v: Vec<KeyStat> = Vec::new();
        proof {
            assert(krecs(v@) =~= Seq::<KeyStatRec>::empty());
            assert(mk.take(0) =~= Seq::<KeyRec>::empty());
        }
        let mut k: usize = 0;
        while k < n
            invariant
                mk == self@.keys,
                n == mk.len(),
                k <= n,
                krecs(v@) == sort_desc_key(day_key_stats(mk.take(k as int), date)),
                sorted_desc_key(krecs(v@)),
            decreases n - k,
        {
            proof {
                assert(mk.take(k as int + 1).drop_last() =~= mk.take(k as int));
                assert(mk.take(k as int + 1).last() == mk[k as int]);
                assert(mk[k as int] == self.keys@[k as int]@);
            }
            let row = &self.keys[k];
            let ghost prev = day_key_stats(mk.take(k as int), date);
            let ghost cur = day_key_stats(mk.take(k as int + 1), date);
            if row.date == date {
                let stat = KeyStat {
                    key_name: row.key_name.clone(),
                    key_code: row.key_code,
                    count: row.count,
                };
                proof {
                    assert(stat@ == key_stat_of(mk[k as int]));
                    assert(cur == prev.push(key_stat_of(mk[k as int])));
                    assert(cur.drop_last() =~= prev);
                    assert(cur.last() == key_stat_of(mk[k as int]));
                    assert(sort_desc_key(cur) == insert_desc_key(
                        sort_desc_key(prev),
                        key_stat_of(mk[k as int]),
                    ));
                }
                insert_key_stat(&mut v, stat);
            } else {
                proof {
                    assert(cur == prev);
                }
            }
            k += 1;
        }
        proof {
            assert(mk.take(n as int) =~= mk);
        }
        v
    }

    /// The per-button rows of one day, ordered by count descending, ties in
    /// insertion order.
    fn collect_day_mouse_stats(&self, date: Date) -> (r: Vec<MouseStat>)
        ensures
            mrecs(r@) == sort_desc_mouse(day_mouse_stats(self@.mouse, date)),
            sorted_desc_mouse(mrecs(r@)),
    {
        let ghost mm = self@.mouse;
        let n = self.mouse.len();
        let mut v: Vec<MouseStat> = Vec::new();
        proof {
            assert(mrecs(v@) =~= Seq::<MouseStatRec>::empty());
            assert(mm.take(0) =~= Seq::<MouseRec>::empty());
        }
        let mut k: usize = 0;
        while k < n
            invariant
                mm == self@.mouse,
                n == mm.len(),
                k <= n,
                mrecs(v@) == sort_desc_mouse(day_mouse_stats(mm.take(k as int), date)),
                sorted_desc_mouse(mrecs(v@)),
            decreases n - k,
        {
            proof {
                assert(mm.take(k as int + 1).drop_last() =~= mm.take(k as int));
                assert(mm.take(k as int + 1).last() == mm[k as int]);
                assert(mm[k as int] == self.mouse@[k as int]@);
            }
            let row = &self.mouse[k];
            let ghost prev = day_mouse_stats(mm.take(k as int), date);
            let ghost cur = day_mouse_stats(mm.take(k as int + 1), date);
            if row.date == date {
                let stat = MouseStat { button: row.button.clone(), count: row.count };
                proof {
                    assert(stat@ == mouse_stat_of(mm[k as int]));
                    assert(cur == prev.push(mouse_stat_of(mm[k as int])));
                    assert(cur.drop_last() =~= prev);
                    assert(cur.last() == mouse_stat_of(mm[k as int]));
                    assert(sort_desc_mouse(cur) == insert_desc_mouse(
                        sort_desc_mouse(prev),
                        mouse_stat_of(mm[k as int]),
                    ));
                }
                insert_mouse_stat(&mut v, stat);
            } else {
                proof {
                    assert(cur == prev);
                }
            }
            k += 1;
        }
        proof {
            assert(mm.take(n as int) =~= mm);
        }
        v
    }

    /// All statistics recorded for one date: the summary totals, zero when
    /// the date has no rows — an empty day is an answer, not an error — and
    /// the per-key and per-button rows ordered by count descending.
    pub fn get_date_stats(&self, date: Date) -> (r: DateStats)
        requires
            self.wf(),
            date.wf(),
        ensures
            r@ == date_stats_rec(self@, date),
    {
        let jdx = self.find_sum_index(date);
        let mut total_keys: i64 = 0;
        let mut total_clicks: i64 = 0;
        match jdx {
            Some(j) => {
                proof {
                    assert(self@.sums[j as int] == self.sums@[j as int]@);
                }
                total_keys = self.sums[j].total_keys;
                total_clicks = self.sums[j].total_clicks;
            },
            None => {},
        }
        let key_stats = self.collect_day_key_stats(date);
        let mouse_stats = self.collect_day_mouse_stats(date);
        let r = DateStats {
            date: date.format(),
            total_keys: total_keys,
            total_clicks: total_clicks,
            key_stats: key_stats,
            mouse_stats: mouse_stats,
        };
        proof {
            assert(r@.key_stats =~= date_stats_rec(self@, date).key_stats);
            assert(r@.mouse_stats =~= date_stats_rec(self@, date).mouse_stats);
            assert(r@ == date_stats_rec(self@, date));
        }
        r
    }

    /// The day's most pressed keys, ordered by count descending. A negative
    /// limit means no limit, as in the original query language.
    pub fn get_top_keys(&self, date: Date, limit: i32) -> (r: Vec<KeyStat>)
        requires
            self.wf(),
            date.wf(),
        ensures
            limit >= 0 ==> krecs(r@) == take_at_most(
                sort_desc_key(day_key_stats(self@.keys, date)),
                limit as int,
            ),
            limit < 0 ==> krecs(r@) == sort_desc_key(day_key_stats(self@.keys, date)),
    {
        let mut v = self.collect_day_key_stats(date);
        let ghost full = krecs(v@);
        if limit >= 0 {
            let lim = limit as usize;
            if lim < v.len() {
                v.truncate(lim);
                proof {
                    assert(krecs(v@) =~= full.take(lim as int));
                }
            } else {
                proof {
                    assert(take_at_most(full, limit as int) =~= full);
                }
            }
        }
        v
    }

    /// The per-day summaries whose date falls in the inclusive range, newest
    /// first.
    pub fn get_date_range_summary(&self, start: Date, end: Date) -> (r: Vec<DaySummary>)
        requires
            self.wf(),
        ensures
            r@.map_values(|x: DaySummary| x@) == sort_date_desc(
                sums_in_range(self@.sums, start, end),
            ).map_values(|x: SumRec| summary_rec_of(x)),
    {
        let ghost ms = self@.sums;
        let n = self.sums.len();
        let mut rows: Vec<SumRow> = Vec::new();
        proof {
            assert(rows@.map_values(|x: SumRow| x@) =~= Seq::<SumRec>::empty());
            assert(ms.take(0) =~= Seq::<SumRec>::empty());
        }
        let mut k: usize = 0;
        while k < n
            invariant
                ms == self@.sums,
                n == ms.len(),
                k <= n,
                self.wf(),
                rows@.map_values(|x: SumRow| x@) == sort_date_desc(
                    sums_in_range(ms.take(k as int), start, end),
                ),
                sorted_date_desc(rows@.map_values(|x: SumRow| x@)),
                forall|i: int|
                    #![trigger rows@[i]]
                    0 <= i < rows@.len() ==> rows@[i]@.date.wf(),
            decreases n - k,
        {
            proof {
                assert(ms.take(k as int + 1).drop_last() =~= ms.take(k as int));
                assert(ms.take(k as int + 1).last() == ms[k as int]);
                assert(ms[k as int] == self.sums@[k as int]@);
            }
            let row = &self.sums[k];
            let ghost prev = sums_in_range(ms.take(k as int), start, end);
            let ghost cur = sums_in_range(ms.take(k as int + 1), start, end);
            if start.is_le(&row.date) && row.date.is_le(&end) {
                let copy = SumRow {
                    date: row.date,
                    total_keys: row.total_keys,
                    total_clicks: row.total_clicks,
                };
                proof {
                    assert(copy@ == ms[k as int]);
                    assert(cur == prev.push(ms[k as int]));
                    assert(cur.drop_last() =~= prev);
                    assert(cur.last() == ms[k as int]);
                    assert(sort_date_desc(cur) == insert_date_desc(
                        sort_date_desc(prev),
                        ms[k as int],
                    ));
                }
                insert_sum_row(&mut rows, copy);
            } else {
                proof {
                    assert(cur == prev);
                }
            }
            k += 1;
        }
        proof {
            assert(ms.take(n as int) =~= ms);
        }
        let ghost target = sort_date_desc(sums_in_range(ms, start, end)).map_values(
            |x: SumRec| summary_rec_of(x),
        );
        let mut out: Vec<DaySummary> = Vec::new();
        proof {
            assert(out@.map_values(|x: DaySummary| x@) =~= target.take(0));
        }
        let rn = rows.len();
        let mut t: usize = 0;
        while t < rn
            invariant
                rn == rows@.len(),
                t <= rn,
                rows@.map_values(|x: SumRow| x@) == sort_date_desc(sums_in_range(ms, start, end)),
                forall|i: int|
                    #![trigger rows@[i]]
                    0 <= i < rows@.len() ==> rows@[i]@.date.wf(),
                target == sort_date_desc(sums_in_range(ms, start, end)).map_values(
                    |x: SumRec| summary_rec_of(x),
                ),
                out@.map_values(|x: DaySummary| x@) == target.take(t as int),
            decreases rn - t,
        {
            let row = &rows[t];
            proof {
                assert(rows@[t as int]@ == rows@.map_values(|x: SumRow| x@)[t as int]);
            }
            let formatted = row.date.format();
            proof {
                assert(target[t as int] == summary_rec_of(
                    rows@.map_values(|x: SumRow| x@)[t as int],
                ));
                assert(rows@.map_values(|x: SumRow| x@)[t as int].date == row.date);
                assert(formatted@ == target[t as int].date);
            }
            let item = DaySummary {
                date: formatted,
                total_keys: row.total_keys,
                total_clicks: row.total_clicks,
            };
            proof {
                assert(item@ == target[t as int]);
            }
            let ghost out_prev = out@;
            let ghost itemg = item@;
            proof {
                assert(target.len() == rn as int);
                assert(target.take(t as int).len() == t as int);
                assert(out_prev.len() == t as int);
            }
            out.push(item);
            proof {
                assert(out@ == out_prev.push(out@[t as int]));
                assert(out@[t as int]@ == itemg);
                assert forall|j: int|
                    0 <= j < out@.len() implies #[trigger] out@[j]@ == target.take(
                        t as int + 1,
                    )[j] by {
                    if j < t as int {
                        assert(out@[j] == out_prev[j]);
                        assert(out_prev.map_values(|x: DaySummary| x@)[j] == target.take(
                            t as int,
                        )[j]);
                    } else {
                        assert(out@[j]@ == target[t as int]);
                    }
                }
                assert(out@.map_values(|x: DaySummary| x@) =~= target.take(t as int + 1));
            }
            t += 1;
        }
        proof {
            assert(target.take(rn as int) =~= target);
        }
        out
    }

    /// The value stored under `key`, or `None` when the key was never set.
    pub fn get_setting(&self, key: &str) -> (r: Option<String>)
        ensures
            r is Some <==> setting_value(self@, key@) is Some,
            r matches Some(v) ==> Some(v@) == setting_value(self@, key@),
    {
        let idx = self.find_setting_index(key);
        match idx {
            Some(i) => {
                proof {
                    assert(self@.settings[i as int] == self.settings@[i as int]@);
                }
                Some(self.settings[i].value.clone())
            },
            None => None,
        }
    }
}

/// What `get_date_stats` answers for day `d`: the summary totals — zero when
/// the day was never touched — and the day's rows ordered by count
/// descending, ties in insertion order.
pub open spec fn date_stats_rec(m: StoreModel, d: Date) -> DateStatsRec {
    DateStatsRec {
        date: date_seq(d),
        total_keys: total_keys_of(m, d),
        total_clicks: total_clicks_of(m, d),
        key_stats: sort_desc_key(day_key_stats(m.keys, d)),
        mouse_stats: sort_desc_mouse(day_mouse_stats(m.mouse, d)),
    }
}

/// The reader-facing form of one summary row.
pub open spec fn summary_rec_of(r: SumRec) -> DaySummaryRec {
    DaySummaryRec {
        date: date_seq(r.date),
        total_keys: r.total_keys,
        total_clicks: r.total_clicks,
    }
}

/// Inserts a key row into a count-descending vector at its stable position.
fn insert_key_stat(v: &mut Vec<KeyStat>, x: KeyStat)
    requires
        sorted_desc_key(krecs(old(v)@)),
    ensures
        krecs(final(v)@) == insert_desc_key(krecs(old(v)@), x@),
        sorted_desc_key(krecs(final(v)@)),
{
    let ghost s = krecs(v@);
    let mut p: usize = v.len();
    while p > 0 && v[p - 1].count < x.count
        invariant
            s == krecs(v@),
            p <= s.len(),
            forall|i: int| #![trigger s[i]] p <= i < s.len() ==> s[i].count < x.count,
        decreases p,
    {
        p -= 1;
        proof {
            assert(s[p as int] == v@[p as int]@);
        }
    }
    proof {
        if p > 0 {
            assert(s[p - 1] == v@[p - 1 as int]@);
        }
        assert forall|i: int| #![trigger s[i]] 0 <= i < p implies s[i].count >= x@.count by {
            assert(s[i].count >= s[p - 1].count);
        }
        lemma_insert_desc_key_split(s, x@, p as int);
    }
    let ghost res = s.subrange(0, p as int) + seq![x@] + s.subrange(p as int, s.len() as int);
    v.insert(p, x);
    proof {
        assert(krecs(v@) =~= res);
        assert forall|i: int, j: int|
            #![trigger res[i], res[j]]
            0 <= i < j < res.len() implies res[i].count >= res[j].count by {
            if i < p {
                assert(res[i] == s[i]);
            } else if i == p {
                assert(res[i] == x@);
            } else {
                assert(res[i] == s[i - 1]);
            }
            if j < p {
                assert(res[j] == s[j]);
            } else if j == p {
                assert(res[j] == x@);
            } else {
                assert(res[j] == s[j - 1]);
            }
        }
    }
}

/// Inserts a button row into a count-descending vector at its stable
/// position.
fn insert_mouse_stat(v: &mut Vec<MouseStat>, x: MouseStat)
    requires
        sorted_desc_mouse(mrecs(old(v)@)),
    ensures
        mrecs(final(v)@) == insert_desc_mouse(mrecs(old(v)@), x@),
        sorted_desc_mouse(mrecs(final(v)@)),
{
    let ghost s = mrecs(v@);
    let mut p: usize = v.len();
    while p > 0 && v[p - 1].count < x.count
        invariant
            s == mrecs(v@),
            p <= s.len(),
            forall|i: int| #![trigger s[i]] p <= i < s.len() ==> s[i].count < x.count,
        decreases p,
    {
        p -= 1;
        proof {
            assert(s[p as int] == v@[p as int]@);
        }
    }
    proof {
        if p > 0 {
            assert(s[p - 1] == v@[p - 1 as int]@);
        }
        assert forall|i: int| #![trigger s[i]] 0 <= i < p implies s[i].count >= x@.count by {
            assert(s[i].count >= s[p - 1].count);
        }
        lemma_insert_desc_mouse_split(s, x@, p as int);
    }
    let ghost res = s.subrange(0, p as int) + seq![x@] + s.subrange(p as int, s.len() as int);
    v.insert(p, x);
    proof {
        assert(mrecs(v@) =~= res);
        assert forall|i: int, j: int|
            #![trigger res[i], res[j]]
            0 <= i < j < res.len() implies res[i].count >= res[j].count by {
            if i < p {
                assert(res[i] == s[i]);
            } else if i == p {
                assert(res[i] == x@);
            } else {
                assert(res[i] == s[i - 1]);
            }
            if j < p {
                assert(res[j] == s[j]);
            } else if j == p {
                assert(res[j] == x@);
            } else {
                assert(res[j] == s[j - 1]);
            }
        }
    }
}

/// Inserts a summary row into a date-descending vector at its position.
fn insert_sum_row(v: &mut Vec<SumRow>, x: SumRow)
    requires
        sorted_date_desc(old(v)@.map_values(|r: SumRow| r@)),
        forall|i: int|
            #![trigger old(v)@[i]]
            0 <= i < old(v)@.len() ==> old(v)@[i]@.date.wf(),
        x@.date.wf(),
    ensures
        final(v)@.map_values(|r: SumRow| r@) == insert_date_desc(
            old(v)@.map_values(|r: SumRow| r@),
            x@,
        ),
        sorted_date_desc(final(v)@.map_values(|r: SumRow| r@)),
        forall|i: int|
            #![trigger final(v)@[i]]
            0 <= i < final(v)@.len() ==> final(v)@[i]@.date.wf(),
{
    let ghost s = v@.map_values(|r: SumRow| r@);
    let mut p: usize = v.len();
    while p > 0 && v[p - 1].date.is_lt(&x.date)
        invariant
            s == v@.map_values(|r: SumRow| r@),
            p <= s.len(),
            forall|i: int| #![trigger s[i]] p <= i < s.len() ==> !x.date.le(s[i].date),
        decreases p,
    {
        p -= 1;
        proof {
            assert(s[p as int] == v@[p as int]@);
        }
    }
    proof {
        if p > 0 {
            assert(s[p - 1] == v@[p - 1 as int]@);
        }
        assert forall|i: int| #![trigger s[i]] 0 <= i < p implies x@.date.le(s[i].date) by {
            assert(s[p - 1].date.le(s[i].date));
        }
        lemma_insert_date_desc_split(s, x@, p as int);
    }
    let ghost res = s.subrange(0, p as int) + seq![x@] + s.subrange(p as int, s.len() as int);
    v.insert(p, x);
    proof {
        assert(final(v)@.map_values(|r: SumRow| r@) =~= res);
        assert forall|i: int, j: int|
            #![trigger res[i], res[j]]
            0 <= i < j < res.len() implies res[j].date.le(res[i].date) by {
            if i < p {
                assert(res[i] == s[i]);
            } else if i == p {
                assert(res[i] == x@);
            } else {
                assert(res[i] == s[i - 1]);
            }
            if j < p {
                assert(res[j] == s[j]);
            } else if j == p {
                assert(res[j] == x@);
            } else {
                assert(res[j] == s[j - 1]);
            }
        }
    }
}


/// The label a range query carries in place of a single date.
pub open spec fn range_label(lo: Date, hi: Date) -> Seq<char> {
    date_seq(lo) + " to "@ + date_seq(hi)
}

/// What `get_range_stats` answers for `[lo, hi]`: totals summed over the
/// range's summary rows, and per-entity aggregates grouped over the range,
/// ordered by aggregate count descending.
pub open spec fn range_stats_rec(m: StoreModel, lo: Date, hi: Date) -> DateStatsRec {
    DateStatsRec {
        date: range_label(lo, hi),
        total_keys: sum_tk_range(m.sums, lo, hi),
        total_clicks: sum_tc_range(m.sums, lo, hi),
        key_stats: sort_desc_key(group_keys_range(m.keys, lo, hi)),
        mouse_stats: sort_desc_mouse(group_mouse_range(m.mouse, lo, hi)),
    }
}

/// The larger of two optional key codes, ignoring absence.
fn max_code_exec(a: Option<i32>, b: Option<i32>) -> (r: Option<i32>)
    ensures
        r == max_code(a, b),
{
    match (a, b) {
        (Option::None, x) => x,
        (Option::Some(av), Option::None) => Some(av),
        (Option::Some(av), Option::Some(bv)) => Some(
            if av >= bv {
                av
            } else {
                bv
            },
        ),
    }
}

/// Index of the aggregate entry for `name`, if one exists.
fn find_group_index(v: &Vec<KeyStat>, name: &str) -> (r: Option<usize>)
    ensures
        match r {
            Some(i) => i < v@.len() && find_group_key(krecs(v@), name@) == Some(i as int),
            None => find_group_key(krecs(v@), name@) is None,
        },
{
    let ghost g = krecs(v@);
    let n = v.len();
    let mut k: usize = 0;
    while k < n
        invariant
            g == krecs(v@),
            n == g.len(),
            k <= n,
            forall|j: int| #![trigger g[j]] 0 <= j < k ==> g[j].name != name@,
        decreases n - k,
    {
        proof {
            assert(g[k as int] == v@[k as int]@);
        }
        if str_eq(v[k].key_name.as_str(), name) {
            proof {
                lemma_find_group_key_at(g, name@, k as int);
            }
            return Some(k);
        }
        k += 1;
    }
    proof {
        lemma_find_group_key_none(g, name@);
    }
    None
}

/// Index of the aggregate entry for `button`, if one exists.
fn find_mouse_group_index(v: &Vec<MouseStat>, button: &str) -> (r: Option<usize>)
    ensures
        match r {
            Some(i) => i < v@.len() && find_group_mouse(mrecs(v@), button@) == Some(i as int),
            None => find_group_mouse(mrecs(v@), button@) is None,
        },
{
    let ghost g = mrecs(v@);
    let n = v.len();
    let mut k: usize = 0;
    while k < n
        invariant
            g == mrecs(v@),
            n == g.len(),
            k <= n,
            forall|j: int| #![trigger g[j]] 0 <= j < k ==> g[j].button != button@,
        decreases n - k,
    {
        proof {
            assert(g[k as int] == v@[k as int]@);
        }
        if str_eq(v[k].button.as_str(), button) {
            proof {
                lemma_find_group_mouse_at(g, button@, k as int);
            }
            return Some(k);
        }
        k += 1;
    }
    proof {
        lemma_find_group_mouse_none(g, button@);
    }
    None
}


impl CounterStore {
    /// Aggregate statistics over the inclusive date range `[start, end]`:
    /// totals summed over the range's summaries, per-key and per-button rows
    /// grouped across the range — counts summed, key codes at their maximum,
    /// entries in order of first appearance — and ordered by aggregate count
    /// descending. The date label is the range descriptor, not a single day.
    pub fn get_range_stats(&self, start: Date, end: Date) -> (r: DateStats)
        requires
            self.wf(),
            start.wf(),
            end.wf(),
        ensures
            r@ == range_stats_rec(self@, start, end),
    {
        let ghost m = self@;
        proof {
            lemma_counts_bounded(m);
            assert forall|j: int|
                #![trigger m.sums[j]]
                0 <= j < m.sums.len() implies m.sums[j].total_keys >= 0 && m.sums[j].total_clicks
                >= 0 by {
                lemma_sum_keys_nonneg(m.keys, m.sums[j].date);
                lemma_sum_mouse_nonneg(m.mouse, m.sums[j].date);
            }
            lemma_sum_tk_range_bounds(m.sums, start, end);
            lemma_sum_keys_range_bounds(m.keys, start, end);
            lemma_sum_mouse_range_bounds(m.mouse, start, end);
        }
        // Totals over the range's summary rows.
        let n = self.sums.len();
        let mut total_keys: i64 = 0;
        let mut total_clicks: i64 = 0;
        let mut k: usize = 0;
        while k < n
            invariant
                m == self@,
                n == m.sums.len(),
                k <= n,
                forall|j: int|
                    #![trigger m.sums[j]]
                    0 <= j < m.sums.len() ==> m.sums[j].total_keys >= 0 && m.sums[j].total_clicks
                        >= 0,
                sum_tk_range(m.sums, start, end) <= i64::MAX,
                sum_tc_range(m.sums, start, end) <= i64::MAX,
                total_keys as int == sum_tk_range(m.sums.take(k as int), start, end),
                total_clicks as int == sum_tc_range(m.sums.take(k as int), start, end),
                total_keys >= 0,
                total_clicks >= 0,
            decreases n - k,
        {
            proof {
                assert(m.sums.take(k as int + 1).drop_last() =~= m.sums.take(k as int));
                assert(m.sums.take(k as int + 1).last() == m.sums[k as int]);
                lemma_sum_tk_range_take_le(m.sums, k as int + 1, start, end);
                assert(m.sums[k as int] == self.sums@[k as int]@);
            }
            let row = &self.sums[k];
            if start.is_le(&row.date) && row.date.is_le(&end) {
                total_keys = total_keys + row.total_keys;
                total_clicks = total_clicks + row.total_clicks;
            }
            k += 1;
        }
        proof {
            assert(m.sums.take(n as int) =~= m.sums);
        }
        // Group the in-range key rows by name.
        let nk = self.keys.len();
        let mut groups: Vec<KeyStat> = Vec::new();
        proof {
            assert(krecs(groups@) =~= Seq::<KeyStatRec>::empty());
            assert(m.keys.take(0) =~= Seq::<KeyRec>::empty());
        }
        let mut t: usize = 0;
        while t < nk
            invariant
                m == self@,
                self.wf(),
                nk == m.keys.len(),
                t <= nk,
                sum_keys_range(m.keys, start, end) <= i64::MAX,
                krecs(groups@) == group_keys_range(m.keys.take(t as int), start, end),
            decreases nk - t,
        {
            let ghost prefix = m.keys.take(t as int);
            let ghost prefix2 = m.keys.take(t as int + 1);
            proof {
                assert(prefix2.drop_last() =~= prefix);
                assert(prefix2.last() == m.keys[t as int]);
                assert(m.keys[t as int] == self.keys@[t as int]@);
                assert forall|i: int| #![trigger prefix[i]] 0 <= i < prefix.len() implies prefix[i].count >= 1 by {
                    assert(prefix[i] == m.keys[i]);
                }
                assert forall|i: int| #![trigger prefix2[i]] 0 <= i < prefix2.len() implies prefix2[i].count >= 1 by {
                    assert(prefix2[i] == m.keys[i]);
                }
                lemma_group_keys_range_shape(prefix, start, end);
                lemma_sum_keys_range_take_le(m.keys, t as int + 1, start, end);
                assert(sum_keys_range(prefix, start, end) <= sum_keys_range(prefix2, start, end));
            }
            let row = &self.keys[t];
            if start.is_le(&row.date) && row.date.is_le(&end) {
                let gi = find_group_index(&groups, row.key_name.as_str());
                match gi {
                    Some(i) => {
                        proof {
                            crate::stats::lemma_find_group_key(krecs(groups@), row.key_name@);
                            assert(krecs(groups@)[i as int].count <= sum_keys_range(
                                prefix,
                                start,
                                end,
                            ));
                            assert(krecs(groups@)[i as int] == groups@[i as int]@);
                        }
                        let old_count = groups[i].count;
                        let old_code = groups[i].key_code;
                        let name_clone = groups[i].key_name.clone();
                        let code = max_code_exec(old_code, row.key_code);
                        groups[i] = KeyStat {
                            key_name: name_clone,
                            key_code: code,
                            count: old_count + row.count,
                        };
                        proof {
                            assert(krecs(groups@) =~= add_key_group(
                                group_keys_range(prefix, start, end),
                                m.keys[t as int],
                            ));
                        }
                    },
                    None => {
                        groups.push(
                            KeyStat {
                                key_name: row.key_name.clone(),
                                key_code: row.key_code,
                                count: row.count,
                            },
                        );
                        proof {
                            assert(krecs(groups@) =~= add_key_group(
                                group_keys_range(prefix, start, end),
                                m.keys[t as int],
                            ));
                        }
                    },
                }
            } else {
                proof {
                    assert(group_keys_range(prefix2, start, end) == group_keys_range(
                        prefix,
                        start,
                        end,
                    ));
                }
            }
            t += 1;
        }
        proof {
            assert(m.keys.take(nk as int) =~= m.keys);
        }
        // Sort the key aggregate by count descending.
        let gn = groups.len();
        let mut key_stats: Vec<KeyStat> = Vec::new();
        proof {
            assert(krecs(key_stats@) =~= Seq::<KeyStatRec>::empty());
            assert(krecs(groups@).take(0) =~= Seq::<KeyStatRec>::empty());
        }
        let mut t2: usize = 0;
        while t2 < gn
            invariant
                gn == groups@.len(),
                t2 <= gn,
                krecs(groups@) == group_keys_range(m.keys, start, end),
                krecs(key_stats@) == sort_desc_key(krecs(groups@).take(t2 as int)),
                sorted_desc_key(krecs(key_stats@)),
            decreases gn - t2,
        {
            let ghost gs = krecs(groups@);
            proof {
                assert(gs.take(t2 as int + 1).drop_last() =~= gs.take(t2 as int));
                assert(gs.take(t2 as int + 1).last() == gs[t2 as int]);
                assert(gs[t2 as int] == groups@[t2 as int]@);
            }
            let row = &groups[t2];
            let copy = KeyStat {
                key_name: row.key_name.clone(),
                key_code: row.key_code,
                count: row.count,
            };
            proof {
                assert(copy@ == gs[t2 as int]);
            }
            insert_key_stat(&mut key_stats, copy);
            t2 += 1;
        }
        proof {
            assert(krecs(groups@).take(gn as int) =~= krecs(groups@));
        }
        // Group the in-range button rows.
        let nm = self.mouse.len();
        let mut mgroups: Vec<MouseStat> = Vec::new();
        proof {
            assert(mrecs(mgroups@) =~= Seq::<MouseStatRec>::empty());
            assert(m.mouse.take(0) =~= Seq::<MouseRec>::empty());
        }
        let mut u: usize = 0;
        while u < nm
            invariant
                m == self@,
                self.wf(),
                nm == m.mouse.len(),
                u <= nm,
                sum_mouse_range(m.mouse, start, end) <= i64::MAX,
                mrecs(mgroups@) == group_mouse_range(m.mouse.take(u as int), start, end),
            decreases nm - u,
        {
            let ghost prefix = m.mouse.take(u as int);
            let ghost prefix2 = m.mouse.take(u as int + 1);
            proof {
                assert(prefix2.drop_last() =~= prefix);
                assert(prefix2.last() == m.mouse[u as int]);
                assert(m.mouse[u as int] == self.mouse@[u as int]@);
                assert forall|i: int| #![trigger prefix[i]] 0 <= i < prefix.len() implies prefix[i].count >= 1 by {
                    assert(prefix[i] == m.mouse[i]);
                }
                assert forall|i: int| #![trigger prefix2[i]] 0 <= i < prefix2.len() implies prefix2[i].count >= 1 by {
                    assert(prefix2[i] == m.mouse[i]);
                }
                lemma_group_mouse_range_shape(prefix, start, end);
                lemma_sum_mouse_range_take_le(m.mouse, u as int + 1, start, end);
                assert(sum_mouse_range(prefix, start, end) <= sum_mouse_range(
                    prefix2,
                    start,
                    end,
                ));
            }
            let row = &self.mouse[u];
            if start.is_le(&row.date) && row.date.is_le(&end) {
                let gi = find_mouse_group_index(&mgroups, row.button.as_str());
                match gi {
                    Some(i) => {
                        proof {
                            crate::stats::lemma_find_group_mouse(mrecs(mgroups@), row.button@);
                            assert(mrecs(mgroups@)[i as int].count <= sum_mouse_range(
                                prefix,
                                start,
                                end,
                            ));
                            assert(mrecs(mgroups@)[i as int] == mgroups@[i as int]@);
                        }
                        let old_count = mgroups[i].count;
                        let button_clone = mgroups[i].button.clone();
                        mgroups[i] = MouseStat {
                            button: button_clone,
                            count: old_count + row.count,
                        };
                        proof {
                            assert(mrecs(mgroups@) =~= add_mouse_group(
                                group_mouse_range(prefix, start, end),
                                m.mouse[u as int],
                            ));
                        }
                    },
                    None => {
                        mgroups.push(MouseStat { button: row.button.clone(), count: row.count });
                        proof {
                            assert(mrecs(mgroups@) =~= add_mouse_group(
                                group_mouse_range(prefix, start, end),
                                m.mouse[u as int],
                            ));
                        }
                    },
                }
            } else {
                proof {
                    assert(group_mouse_range(prefix2, start, end) == group_mouse_range(
                        prefix,
                        start,
                        end,
                    ));
                }
            }
            u += 1;
        }
        proof {
            assert(m.mouse.take(nm as int) =~= m.mouse);
        }
        // Sort the button aggregate by count descending.
        let mn = mgroups.len();
        let mut mouse_stats: Vec<MouseStat> = Vec::new();
        proof {
            assert(mrecs(mouse_stats@) =~= Seq::<MouseStatRec>::empty());
            assert(mrecs(mgroups@).take(0) =~= Seq::<MouseStatRec>::empty());
        }
        let mut u2: usize = 0;
        while u2 < mn
            invariant
                mn == mgroups@.len(),
                u2 <= mn,
                mrecs(mgroups@) == group_mouse_range(m.mouse, start, end),
                mrecs(mouse_stats@) == sort_desc_mouse(mrecs(mgroups@).take(u2 as int)),
                sorted_desc_mouse(mrecs(mouse_stats@)),
            decreases mn - u2,
        {
            let ghost gs = mrecs(mgroups@);
            proof {
                assert(gs.take(u2 as int + 1).drop_last() =~= gs.take(u2 as int));
                assert(gs.take(u2 as int + 1).last() == gs[u2 as int]);
                assert(gs[u2 as int] == mgroups@[u2 as int]@);
            }
            let row = &mgroups[u2];
            let copy = MouseStat { button: row.button.clone(), count: row.count };
            proof {
                assert(copy@ == gs[u2 as int]);
            }
            insert_mouse_stat(&mut mouse_stats, copy);
            u2 += 1;
        }
        proof {
            assert(mrecs(mgroups@).take(mn as int) =~= mrecs(mgroups@));
        }
        // The composite range label.
        let mut label = start.format();
        proof {
            reveal_strlit(" to ");
        }
        label.append(" to ");
        let end_text = end.format();
        label.append(end_text.as_str());
        proof {
            assert(label@ =~= range_label(start, end));
        }
        let r = DateStats {
            date: label,
            total_keys: total_keys,
            total_clicks: total_clicks,
            key_stats: key_stats,
            mouse_stats: mouse_stats,
        };
        proof {
            assert(r@.key_stats =~= range_stats_rec(m, start, end).key_stats);
            assert(r@.mouse_stats =~= range_stats_rec(m, start, end).mouse_stats);
            assert(r@ == range_stats_rec(m, start, end));
        }
        r
    }
}


impl CounterStore {
    /// All statistics recorded for the current day, as the system clock
    /// reports it. `None` only when the clock reports a day outside the
    /// store's four-digit-year calendar.
    pub fn get_today_stats(&self) -> (r: Option<TodayStats>)
        requires
            self.wf(),
        ensures
            r matches Some(t) ==> exists|d: Date| d.wf() && t@ == #[trigger] date_stats_rec(
                self@,
                d,
            ),
    {
        let (year, month, day) = crate::clock::now_ymd();
        match Date::from_ymd(year, month, day) {
            Some(d) => {
                let stats = self.get_date_stats(d);
                let t = TodayStats {
                    date: stats.date,
                    total_keys: stats.total_keys,
                    total_clicks: stats.total_clicks,
                    top_keys: stats.key_stats,
                    mouse_stats: stats.mouse_stats,
                };
                proof {
                    assert(t@ == date_stats_rec(self@, d));
                }
                Some(t)
            },
            None => None,
        }
    }
}

} // verus!
