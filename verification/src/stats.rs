//! Pure specifications behind the read queries: day filters, stable
//! descending sorts, range filters, group-by aggregation and the counting
//! bounds that keep every query total within machine integers.

use vstd::prelude::*;

use crate::date::Date;
use crate::schema::KeyStat;
use crate::schema::KeyStatRec;
use crate::schema::MouseStat;
use crate::schema::MouseStatRec;
use crate::store::KeyRec;
use crate::store::MouseRec;
use crate::store::SumRec;
use crate::store::StoreModel;
use crate::store::lemma_find_sum;
use crate::store::lemma_sum_keys_nonneg;
use crate::store::lemma_sum_mouse_nonneg;
use crate::store::sum_keys_date;
use crate::store::sum_mouse_date;
use crate::store::sum_totals;

verus! {

/// The abstract forms of a vector of key rows.
pub open spec fn krecs(s: Seq<KeyStat>) -> Seq<KeyStatRec> {
    s.map_values(|k: KeyStat| k@)
}

/// The abstract forms of a vector of button rows.
pub open spec fn mrecs(s: Seq<MouseStat>) -> Seq<MouseStatRec> {
    s.map_values(|m: MouseStat| m@)
}

/// The first `n` elements, or all of them when fewer exist.
pub open spec fn take_at_most(s: Seq<KeyStatRec>, n: int) -> Seq<KeyStatRec> {
    if n <= s.len() {
        s.take(n)
    } else {
        s
    }
}

/// Whether `d` lies in the inclusive range `[lo, hi]`.
pub open spec fn in_range(d: Date, lo: Date, hi: Date) -> bool {
    lo.le(d) && d.le(hi)
}

/// The reader-facing form of one per-key counter row.
pub open spec fn key_stat_of(r: KeyRec) -> KeyStatRec {
    KeyStatRec { name: r.name, code: r.code, count: r.count }
}

/// The reader-facing form of one per-button counter row.
pub open spec fn mouse_stat_of(r: MouseRec) -> MouseStatRec {
    MouseStatRec { button: r.button, count: r.count }
}

/// The per-key rows of day `d`, in insertion order.
pub open spec fn day_key_stats(s: Seq<KeyRec>, d: Date) -> Seq<KeyStatRec>
    decreases s.len(),
{
    if s.len() == 0 {
        Seq::<KeyStatRec>::empty()
    } else {
        let rest = day_key_stats(s.drop_last(), d);
        if s.last().date == d {
            rest.push(key_stat_of(s.last()))
        } else {
            rest
        }
    }
}

/// The per-button rows of day `d`, in insertion order.
pub open spec fn day_mouse_stats(s: Seq<MouseRec>, d: Date) -> Seq<MouseStatRec>
    decreases s.len(),
{
    if s.len() == 0 {
        Seq::<MouseStatRec>::empty()
    } else {
        let rest = day_mouse_stats(s.drop_last(), d);
        if s.last().date == d {
            rest.push(mouse_stat_of(s.last()))
        } else {
            rest
        }
    }
}

/// Ordered by count, largest first.
pub open spec fn sorted_desc_key(s: Seq<KeyStatRec>) -> bool {
    forall|i: int, j: int|
        #![trigger s[i], s[j]]
        0 <= i < j < s.len() ==> s[i].count >= s[j].count
}

/// Ordered by count, largest first.
pub open spec fn sorted_desc_mouse(s: Seq<MouseStatRec>) -> bool {
    forall|i: int, j: int|
        #![trigger s[i], s[j]]
        0 <= i < j < s.len() ==> s[i].count >= s[j].count
}

/// Ordered by date, latest first.
pub open spec fn sorted_date_desc(s: Seq<SumRec>) -> bool {
    forall|i: int, j: int|
        #![trigger s[i], s[j]]
        0 <= i < j < s.len() ==> s[j].date.le(s[i].date)
}

/// Inserts `x` after every element counting at least `x.count`: the stable
/// insertion position for a descending sort.
pub open spec fn insert_desc_key(s: Seq<KeyStatRec>, x: KeyStatRec) -> Seq<KeyStatRec>
    decreases s.len(),
{
    if s.len() == 0 {
        seq![x]
    } else if s.last().count >= x.count {
        s.push(x)
    } else {
        insert_desc_key(s.drop_last(), x).push(s.last())
    }
}

/// Stable sort by count, largest first: later arrivals with equal counts
/// stay after earlier ones.
pub open spec fn sort_desc_key(s: Seq<KeyStatRec>) -> Seq<KeyStatRec>
    decreases s.len(),
{
    if s.len() == 0 {
        Seq::<KeyStatRec>::empty()
    } else {
        insert_desc_key(sort_desc_key(s.drop_last()), s.last())
    }
}

/// Inserts `x` after every element counting at least `x.count`: the stable
/// insertion position for a descending sort.
pub open spec fn insert_desc_mouse(s: Seq<MouseStatRec>, x: MouseStatRec) -> Seq<MouseStatRec>
    decreases s.len(),
{
    if s.len() == 0 {
        seq![x]
    } else if s.last().count >= x.count {
        s.push(x)
    } else {
        insert_desc_mouse(s.drop_last(), x).push(s.last())
    }
}

/// Stable sort by count, largest first.
pub open spec fn sort_desc_mouse(s: Seq<MouseStatRec>) -> Seq<MouseStatRec>
    decreases s.len(),
{
    if s.len() == 0 {
        Seq::<MouseStatRec>::empty()
    } else {
        insert_desc_mouse(sort_desc_mouse(s.drop_last()), s.last())
    }
}

/// Inserts `x` after every summary row of a later or equal date.
pub open spec fn insert_date_desc(s: Seq<SumRec>, x: SumRec) -> Seq<SumRec>
    decreases s.len(),
{
    if s.len() == 0 {
        seq![x]
    } else if x.date.le(s.last().date) {
        s.push(x)
    } else {
        insert_date_desc(s.drop_last(), x).push(s.last())
    }
}

/// Sort by date, latest first.
pub open spec fn sort_date_desc(s: Seq<SumRec>) -> Seq<SumRec>
    decreases s.len(),
{
    if s.len() == 0 {
        Seq::<SumRec>::empty()
    } else {
        insert_date_desc(sort_date_desc(s.drop_last()), s.last())
    }
}

/// An insertion at the boundary position `p` is a splice at `p`.
pub proof fn lemma_insert_desc_key_split(s: Seq<KeyStatRec>, x: KeyStatRec, p: int)
    requires
        0 <= p <= s.len(),
        forall|i: int| #![trigger s[i]] 0 <= i < p ==> s[i].count >= x.count,
        forall|i: int| #![trigger s[i]] p <= i < s.len() ==> s[i].count < x.count,
    ensures
        insert_desc_key(s, x) == s.subrange(0, p) + seq![x] + s.subrange(p, s.len() as int),
    decreases s.len(),
{
    if s.len() == 0 {
        assert(insert_desc_key(s, x) =~= s.subrange(0, 0) + seq![x] + s.subrange(0, 0));
    } else if s.last().count >= x.count {
        assert(p == s.len());
        assert(s.push(x) =~= s.subrange(0, p) + seq![x] + s.subrange(p, s.len() as int));
    } else {
        assert(p < s.len());
        let dl = s.drop_last();
        lemma_insert_desc_key_split(dl, x, p);
        assert(insert_desc_key(dl, x).push(s.last()) =~= s.subrange(0, p) + seq![x] + s.subrange(
            p,
            s.len() as int,
        ));
    }
}

/// An insertion at the boundary position `p` is a splice at `p`.
pub proof fn lemma_insert_desc_mouse_split(s: Seq<MouseStatRec>, x: MouseStatRec, p: int)
    requires
        0 <= p <= s.len(),
        forall|i: int| #![trigger s[i]] 0 <= i < p ==> s[i].count >= x.count,
        forall|i: int| #![trigger s[i]] p <= i < s.len() ==> s[i].count < x.count,
    ensures
        insert_desc_mouse(s, x) == s.subrange(0, p) + seq![x] + s.subrange(p, s.len() as int),
    decreases s.len(),
{
    if s.len() == 0 {
        assert(insert_desc_mouse(s, x) =~= s.subrange(0, 0) + seq![x] + s.subrange(0, 0));
    } else if s.last().count >= x.count {
        assert(p == s.len());
        assert(s.push(x) =~= s.subrange(0, p) + seq![x] + s.subrange(p, s.len() as int));
    } else {
        assert(p < s.len());
        let dl = s.drop_last();
        lemma_insert_desc_mouse_split(dl, x, p);
        assert(insert_desc_mouse(dl, x).push(s.last()) =~= s.subrange(0, p) + seq![x]
            + s.subrange(p, s.len() as int));
    }
}

/// An insertion at the boundary position `p` is a splice at `p`.
pub proof fn lemma_insert_date_desc_split(s: Seq<SumRec>, x: SumRec, p: int)
    requires
        0 <= p <= s.len(),
        forall|i: int| #![trigger s[i]] 0 <= i < p ==> x.date.le(s[i].date),
        forall|i: int| #![trigger s[i]] p <= i < s.len() ==> !x.date.le(s[i].date),
    ensures
        insert_date_desc(s, x) == s.subrange(0, p) + seq![x] + s.subrange(p, s.len() as int),
    decreases s.len(),
{
    if s.len() == 0 {
        assert(insert_date_desc(s, x) =~= s.subrange(0, 0) + seq![x] + s.subrange(0, 0));
    } else if x.date.le(s.last().date) {
        assert(p == s.len());
        assert(s.push(x) =~= s.subrange(0, p) + seq![x] + s.subrange(p, s.len() as int));
    } else {
        assert(p < s.len());
        let dl = s.drop_last();
        lemma_insert_date_desc_split(dl, x, p);
        assert(insert_date_desc(dl, x).push(s.last()) =~= s.subrange(0, p) + seq![x] + s.subrange(
            p,
            s.len() as int,
        ));
    }
}

/// The summary rows whose date falls in `[lo, hi]`, in insertion order.
pub open spec fn sums_in_range(s: Seq<SumRec>, lo: Date, hi: Date) -> Seq<SumRec>
    decreases s.len(),
{
    if s.len() == 0 {
        Seq::<SumRec>::empty()
    } else {
        let rest = sums_in_range(s.drop_last(), lo, hi);
        if in_range(s.last().date, lo, hi) {
            rest.push(s.last())
        } else {
            rest
        }
    }
}

/// Sum of the key totals of the summary rows in `[lo, hi]`.
pub open spec fn sum_tk_range(s: Seq<SumRec>, lo: Date, hi: Date) -> int
    decreases s.len(),
{
    if s.len() == 0 {
        0
    } else {
        sum_tk_range(s.drop_last(), lo, hi) + if in_range(s.last().date, lo, hi) {
            s.last().total_keys
        } else {
            0
        }
    }
}

/// Sum of the click totals of the summary rows in `[lo, hi]`.
pub open spec fn sum_tc_range(s: Seq<SumRec>, lo: Date, hi: Date) -> int
    decreases s.len(),
{
    if s.len() == 0 {
        0
    } else {
        sum_tc_range(s.drop_last(), lo, hi) + if in_range(s.last().date, lo, hi) {
            s.last().total_clicks
        } else {
            0
        }
    }
}

/// With no negative totals a range sum lies between zero and the grand
/// total.
pub proof fn lemma_sum_tk_range_bounds(s: Seq<SumRec>, lo: Date, hi: Date)
    requires
        forall|i: int|
            #![trigger s[i]]
            0 <= i < s.len() ==> s[i].total_keys >= 0 && s[i].total_clicks >= 0,
    ensures
        0 <= sum_tk_range(s, lo, hi) <= sum_totals(s),
        0 <= sum_tc_range(s, lo, hi) <= sum_totals(s),
    decreases s.len(),
{
    if s.len() > 0 {
        lemma_sum_tk_range_bounds(s.drop_last(), lo, hi);
    }
}

/// A prefix's range sums are at most the whole sequence's.
pub proof fn lemma_sum_tk_range_take_le(s: Seq<SumRec>, k: int, lo: Date, hi: Date)
    requires
        forall|i: int|
            #![trigger s[i]]
            0 <= i < s.len() ==> s[i].total_keys >= 0 && s[i].total_clicks >= 0,
        0 <= k <= s.len(),
    ensures
        sum_tk_range(s.take(k), lo, hi) <= sum_tk_range(s, lo, hi),
        sum_tc_range(s.take(k), lo, hi) <= sum_tc_range(s, lo, hi),
    decreases s.len() - k,
{
    if k == s.len() {
        assert(s.take(k) =~= s);
    } else {
        assert(s.take(k + 1).drop_last() =~= s.take(k));
        lemma_sum_tk_range_take_le(s, k + 1, lo, hi);
    }
}

/// Sum of every per-key counter in the store.
pub open spec fn sum_all_keys(s: Seq<KeyRec>) -> int
    decreases s.len(),
{
    if s.len() == 0 {
        0
    } else {
        sum_all_keys(s.drop_last()) + s.last().count
    }
}

/// Sum of every per-button counter in the store.
pub open spec fn sum_all_mouse(s: Seq<MouseRec>) -> int
    decreases s.len(),
{
    if s.len() == 0 {
        0
    } else {
        sum_all_mouse(s.drop_last()) + s.last().count
    }
}

/// Sum of the per-key counters with a date in `[lo, hi]`.
pub open spec fn sum_keys_range(s: Seq<KeyRec>, lo: Date, hi: Date) -> int
    decreases s.len(),
{
    if s.len() == 0 {
        0
    } else {
        sum_keys_range(s.drop_last(), lo, hi) + if in_range(s.last().date, lo, hi) {
            s.last().count
        } else {
            0
        }
    }
}

/// Sum of the per-button counters with a date in `[lo, hi]`.
pub open spec fn sum_mouse_range(s: Seq<MouseRec>, lo: Date, hi: Date) -> int
    decreases s.len(),
{
    if s.len() == 0 {
        0
    } else {
        sum_mouse_range(s.drop_last(), lo, hi) + if in_range(s.last().date, lo, hi) {
            s.last().count
        } else {
            0
        }
    }
}

/// With no negative counters a range sum lies between zero and the sum of
/// all counters.
pub proof fn lemma_sum_keys_range_bounds(s: Seq<KeyRec>, lo: Date, hi: Date)
    requires
        forall|i: int| #![trigger s[i]] 0 <= i < s.len() ==> s[i].count >= 0,
    ensures
        0 <= sum_keys_range(s, lo, hi) <= sum_all_keys(s),
    decreases s.len(),
{
    if s.len() > 0 {
        lemma_sum_keys_range_bounds(s.drop_last(), lo, hi);
    }
}

/// With no negative counters a range sum lies between zero and the sum of
/// all counters.
pub proof fn lemma_sum_mouse_range_bounds(s: Seq<MouseRec>, lo: Date, hi: Date)
    requires
        forall|i: int| #![trigger s[i]] 0 <= i < s.len() ==> s[i].count >= 0,
    ensures
        0 <= sum_mouse_range(s, lo, hi) <= sum_all_mouse(s),
    decreases s.len(),
{
    if s.len() > 0 {
        lemma_sum_mouse_range_bounds(s.drop_last(), lo, hi);
    }
}

/// A prefix's range sum is at most the whole sequence's.
pub proof fn lemma_sum_keys_range_take_le(s: Seq<KeyRec>, k: int, lo: Date, hi: Date)
    requires
        forall|i: int| #![trigger s[i]] 0 <= i < s.len() ==> s[i].count >= 0,
        0 <= k <= s.len(),
    ensures
        sum_keys_range(s.take(k), lo, hi) <= sum_keys_range(s, lo, hi),
    decreases s.len() - k,
{
    if k == s.len() {
        assert(s.take(k) =~= s);
    } else {
        assert(s.take(k + 1).drop_last() =~= s.take(k));
        lemma_sum_keys_range_take_le(s, k + 1, lo, hi);
    }
}

/// A prefix's range sum is at most the whole sequence's.
pub proof fn lemma_sum_mouse_range_take_le(s: Seq<MouseRec>, k: int, lo: Date, hi: Date)
    requires
        forall|i: int| #![trigger s[i]] 0 <= i < s.len() ==> s[i].count >= 0,
        0 <= k <= s.len(),
    ensures
        sum_mouse_range(s.take(k), lo, hi) <= sum_mouse_range(s, lo, hi),
    decreases s.len() - k,
{
    if k == s.len() {
        assert(s.take(k) =~= s);
    } else {
        assert(s.take(k + 1).drop_last() =~= s.take(k));
        lemma_sum_mouse_range_take_le(s, k + 1, lo, hi);
    }
}

/// Index of the aggregate entry for `name`, if any.
pub open spec fn find_group_key(g: Seq<KeyStatRec>, name: Seq<char>) -> Option<int>
    decreases g.len(),
{
    if g.len() == 0 {
        None
    } else if g[0].name == name {
        Some(0int)
    } else {
        match find_group_key(g.subrange(1, g.len() as int), name) {
            Some(i) => Some(i + 1),
            None => None,
        }
    }
}

/// Index of the aggregate entry for `button`, if any.
pub open spec fn find_group_mouse(g: Seq<MouseStatRec>, button: Seq<char>) -> Option<int>
    decreases g.len(),
{
    if g.len() == 0 {
        None
    } else if g[0].button == button {
        Some(0int)
    } else {
        match find_group_mouse(g.subrange(1, g.len() as int), button) {
            Some(i) => Some(i + 1),
            None => None,
        }
    }
}

/// What `find_group_key` returns: the first matching index, or `None` when
/// no entry matches.
pub proof fn lemma_find_group_key(g: Seq<KeyStatRec>, name: Seq<char>)
    ensures
        match find_group_key(g, name) {
            Some(i) => 0 <= i < g.len() && g[i].name == name && forall|j: int|
                0 <= j < i ==> g[j].name != name,
            None => forall|j: int| 0 <= j < g.len() ==> g[j].name != name,
        },
    decreases g.len(),
{
    if g.len() > 0 && g[0].name != name {
        let sub = g.subrange(1, g.len() as int);
        lemma_find_group_key(sub, name);
        assert forall|j: int| 1 <= j < g.len() implies g[j] == sub[j - 1] by {}
        match find_group_key(g, name) {
            Some(i) => {
                assert(g[i] == sub[i - 1]);
            },
            None => {},
        }
    }
}

/// What `find_group_mouse` returns: the first matching index, or `None`
/// when no entry matches.
pub proof fn lemma_find_group_mouse(g: Seq<MouseStatRec>, button: Seq<char>)
    ensures
        match find_group_mouse(g, button) {
            Some(i) => 0 <= i < g.len() && g[i].button == button && forall|j: int|
                0 <= j < i ==> g[j].button != button,
            None => forall|j: int| 0 <= j < g.len() ==> g[j].button != button,
        },
    decreases g.len(),
{
    if g.len() > 0 && g[0].button != button {
        let sub = g.subrange(1, g.len() as int);
        lemma_find_group_mouse(sub, button);
        assert forall|j: int| 1 <= j < g.len() implies g[j] == sub[j - 1] by {}
        match find_group_mouse(g, button) {
            Some(i) => {
                assert(g[i] == sub[i - 1]);
            },
            None => {},
        }
    }
}

/// A first match at `k` is what `find_group_key` returns.
pub proof fn lemma_find_group_key_at(g: Seq<KeyStatRec>, name: Seq<char>, k: int)
    requires
        0 <= k < g.len(),
        g[k].name == name,
        forall|j: int| 0 <= j < k ==> g[j].name != name,
    ensures
        find_group_key(g, name) == Some(k),
    decreases g.len(),
{
    if k > 0 {
        lemma_find_group_key_at(g.subrange(1, g.len() as int), name, k - 1);
    }
}

/// A first match at `k` is what `find_group_mouse` returns.
pub proof fn lemma_find_group_mouse_at(g: Seq<MouseStatRec>, button: Seq<char>, k: int)
    requires
        0 <= k < g.len(),
        g[k].button == button,
        forall|j: int| 0 <= j < k ==> g[j].button != button,
    ensures
        find_group_mouse(g, button) == Some(k),
    decreases g.len(),
{
    if k > 0 {
        lemma_find_group_mouse_at(g.subrange(1, g.len() as int), button, k - 1);
    }
}

/// No match anywhere means `find_group_key` returns `None`.
pub proof fn lemma_find_group_key_none(g: Seq<KeyStatRec>, name: Seq<char>)
    requires
        forall|j: int| 0 <= j < g.len() ==> g[j].name != name,
    ensures
        find_group_key(g, name) is None,
    decreases g.len(),
{
    if g.len() > 0 {
        lemma_find_group_key_none(g.subrange(1, g.len() as int), name);
    }
}

/// No match anywhere means `find_group_mouse` returns `None`.
pub proof fn lemma_find_group_mouse_none(g: Seq<MouseStatRec>, button: Seq<char>)
    requires
        forall|j: int| 0 <= j < g.len() ==> g[j].button != button,
    ensures
        find_group_mouse(g, button) is None,
    decreases g.len(),
{
    if g.len() > 0 {
        lemma_find_group_mouse_none(g.subrange(1, g.len() as int), button);
    }
}

/// The larger of two optional key codes, ignoring absence, as the original
/// aggregate did.
pub open spec fn max_code(a: Option<i32>, b: Option<i32>) -> Option<i32> {
    match (a, b) {
        (Option::None, x) => x,
        (Option::Some(av), Option::None) => Some(av),
        (Option::Some(av), Option::Some(bv)) => Some(
            if av >= bv {
                av
            } else {
                bv
            },
        ),
    }
}

/// Folds one in-range key row into the aggregate: a new entry on first
/// sight of the key name, otherwise the counts add and the codes take the
/// maximum.
pub open spec fn add_key_group(g: Seq<KeyStatRec>, r: KeyRec) -> Seq<KeyStatRec> {
    match find_group_key(g, r.name) {
        Some(i) => g.update(
            i,
            KeyStatRec {
                name: r.name,
                code: max_code(g[i].code, r.code),
                count: g[i].count + r.count,
            },
        ),
        None => g.push(key_stat_of(r)),
    }
}

/// Folds one in-range button row into the aggregate.
pub open spec fn add_mouse_group(g: Seq<MouseStatRec>, r: MouseRec) -> Seq<MouseStatRec> {
    match find_group_mouse(g, r.button) {
        Some(i) => g.update(i, MouseStatRec { button: r.button, count: g[i].count + r.count }),
        None => g.push(mouse_stat_of(r)),
    }
}

/// The per-key aggregate over `[lo, hi]`: one entry per key name in order
/// of first appearance, counts summed, codes at their maximum.
pub open spec fn group_keys_range(s: Seq<KeyRec>, lo: Date, hi: Date) -> Seq<KeyStatRec>
    decreases s.len(),
{
    if s.len() == 0 {
        Seq::<KeyStatRec>::empty()
    } else {
        let rest = group_keys_range(s.drop_last(), lo, hi);
        if in_range(s.last().date, lo, hi) {
            add_key_group(rest, s.last())
        } else {
            rest
        }
    }
}

/// The per-button aggregate over `[lo, hi]`.
pub open spec fn group_mouse_range(s: Seq<MouseRec>, lo: Date, hi: Date) -> Seq<MouseStatRec>
    decreases s.len(),
{
    if s.len() == 0 {
        Seq::<MouseStatRec>::empty()
    } else {
        let rest = group_mouse_range(s.drop_last(), lo, hi);
        if in_range(s.last().date, lo, hi) {
            add_mouse_group(rest, s.last())
        } else {
            rest
        }
    }
}

/// The aggregate's shape: entry names are distinct, and every count is at
/// least one and at most the range's total.
pub proof fn lemma_group_keys_range_shape(s: Seq<KeyRec>, lo: Date, hi: Date)
    requires
        forall|i: int| #![trigger s[i]] 0 <= i < s.len() ==> s[i].count >= 1,
    ensures
        forall|i: int, j: int|
            #![trigger group_keys_range(s, lo, hi)[i], group_keys_range(s, lo, hi)[j]]
            0 <= i < j < group_keys_range(s, lo, hi).len() ==> group_keys_range(s, lo, hi)[i].name
                != group_keys_range(s, lo, hi)[j].name,
        forall|i: int|
            #![trigger group_keys_range(s, lo, hi)[i]]
            0 <= i < group_keys_range(s, lo, hi).len() ==> 1 <= group_keys_range(s, lo, hi)[i].count
                <= sum_keys_range(s, lo, hi),
    decreases s.len(),
{
    if s.len() > 0 {
        let dl = s.drop_last();
        let rest = group_keys_range(dl, lo, hi);
        let r = s.last();
        let g2 = group_keys_range(s, lo, hi);
        lemma_group_keys_range_shape(dl, lo, hi);
        lemma_sum_keys_range_bounds(dl, lo, hi);
        if in_range(r.date, lo, hi) {
            lemma_find_group_key(rest, r.name);
            assert(sum_keys_range(s, lo, hi) == sum_keys_range(dl, lo, hi) + r.count);
            match find_group_key(rest, r.name) {
                Some(i) => {
                    assert(g2 == rest.update(
                        i,
                        KeyStatRec {
                            name: r.name,
                            code: max_code(rest[i].code, r.code),
                            count: rest[i].count + r.count,
                        },
                    ));
                    assert forall|x: int| 0 <= x < g2.len() implies #[trigger] g2[x].name
                        == rest[x].name by {}
                    assert forall|x: int| 0 <= x < g2.len() implies 1 <= #[trigger] g2[x].count
                        <= sum_keys_range(s, lo, hi) by {
                        if x != i {
                            assert(g2[x] == rest[x]);
                        }
                    }
                },
                None => {
                    assert(g2 == rest.push(key_stat_of(r)));
                    assert forall|x: int| 0 <= x < g2.len() implies 1 <= #[trigger] g2[x].count
                        <= sum_keys_range(s, lo, hi) by {
                        if x < rest.len() {
                            assert(g2[x] == rest[x]);
                        } else {
                            assert(g2[x] == key_stat_of(r));
                        }
                    }
                    assert forall|x: int, y: int| 0 <= x < y < g2.len() implies #[trigger] g2[x].name
                        != #[trigger] g2[y].name by {
                        if y < rest.len() {
                            assert(g2[x] == rest[x]);
                            assert(g2[y] == rest[y]);
                        } else {
                            if x < rest.len() {
                                assert(g2[x] == rest[x]);
                                assert(g2[y] == key_stat_of(r));
                            }
                        }
                    }
                },
            }
        } else {
            assert(sum_keys_range(s, lo, hi) == sum_keys_range(dl, lo, hi));
            assert(g2 == rest);
        }
    }
}

/// The aggregate's shape: entry names are distinct, and every count is at
/// least one and at most the range's total.
pub proof fn lemma_group_mouse_range_shape(s: Seq<MouseRec>, lo: Date, hi: Date)
    requires
        forall|i: int| #![trigger s[i]] 0 <= i < s.len() ==> s[i].count >= 1,
    ensures
        forall|i: int, j: int|
            #![trigger group_mouse_range(s, lo, hi)[i], group_mouse_range(s, lo, hi)[j]]
            0 <= i < j < group_mouse_range(s, lo, hi).len() ==> group_mouse_range(
                s,
                lo,
                hi,
            )[i].button != group_mouse_range(s, lo, hi)[j].button,
        forall|i: int|
            #![trigger group_mouse_range(s, lo, hi)[i]]
            0 <= i < group_mouse_range(s, lo, hi).len() ==> 1 <= group_mouse_range(
                s,
                lo,
                hi,
            )[i].count <= sum_mouse_range(s, lo, hi),
    decreases s.len(),
{
    if s.len() > 0 {
        let dl = s.drop_last();
        let rest = group_mouse_range(dl, lo, hi);
        let r = s.last();
        let g2 = group_mouse_range(s, lo, hi);
        lemma_group_mouse_range_shape(dl, lo, hi);
        lemma_sum_mouse_range_bounds(dl, lo, hi);
        if in_range(r.date, lo, hi) {
            lemma_find_group_mouse(rest, r.button);
            assert(sum_mouse_range(s, lo, hi) == sum_mouse_range(dl, lo, hi) + r.count);
            match find_group_mouse(rest, r.button) {
                Some(i) => {
                    assert(g2 == rest.update(
                        i,
                        MouseStatRec { button: r.button, count: rest[i].count + r.count },
                    ));
                    assert forall|x: int| 0 <= x < g2.len() implies #[trigger] g2[x].button
                        == rest[x].button by {}
                    assert forall|x: int| 0 <= x < g2.len() implies 1 <= #[trigger] g2[x].count
                        <= sum_mouse_range(s, lo, hi) by {
                        if x != i {
                            assert(g2[x] == rest[x]);
                        }
                    }
                },
                None => {
                    assert(g2 == rest.push(mouse_stat_of(r)));
                    assert forall|x: int| 0 <= x < g2.len() implies 1 <= #[trigger] g2[x].count
                        <= sum_mouse_range(s, lo, hi) by {
                        if x < rest.len() {
                            assert(g2[x] == rest[x]);
                        } else {
                            assert(g2[x] == mouse_stat_of(r));
                        }
                    }
                    assert forall|x: int, y: int| 0 <= x < y < g2.len() implies #[trigger] g2[x].button
                        != #[trigger] g2[y].button by {
                        if y < rest.len() {
                            assert(g2[x] == rest[x]);
                            assert(g2[y] == rest[y]);
                        } else {
                            if x < rest.len() {
                                assert(g2[x] == rest[x]);
                                assert(g2[y] == mouse_stat_of(r));
                            }
                        }
                    }
                },
            }
        } else {
            assert(sum_mouse_range(s, lo, hi) == sum_mouse_range(dl, lo, hi));
            assert(g2 == rest);
        }
    }
}

/// Contribution `c` once for every summary row of day `d`.
pub open spec fn occ_add(sums: Seq<SumRec>, d: Date, c: int) -> int
    decreases sums.len(),
{
    if sums.len() == 0 {
        0
    } else {
        occ_add(sums.drop_last(), d, c) + if sums.last().date == d {
            c
        } else {
            0
        }
    }
}

/// Over summary rows with distinct dates, day `d` contributes `c` once if
/// present and nothing otherwise.
pub proof fn lemma_occ_add_distinct(sums: Seq<SumRec>, d: Date, c: int)
    requires
        forall|i: int, j: int|
            #![trigger sums[i], sums[j]]
            0 <= i < j < sums.len() ==> sums[i].date != sums[j].date,
    ensures
        (exists|j: int| 0 <= j < sums.len() && #[trigger] sums[j].date == d) ==> occ_add(
            sums,
            d,
            c,
        ) == c,
        (forall|j: int| 0 <= j < sums.len() ==> #[trigger] sums[j].date != d) ==> occ_add(
            sums,
            d,
            c,
        ) == 0,
    decreases sums.len(),
{
    if sums.len() > 0 {
        let dl = sums.drop_last();
        lemma_occ_add_distinct(dl, d, c);
        if sums.last().date == d {
            assert forall|j: int| 0 <= j < dl.len() implies #[trigger] dl[j].date != d by {
                assert(dl[j] == sums[j]);
                assert(sums[j].date != sums[sums.len() - 1].date);
            }
        } else {
            if exists|j: int| 0 <= j < sums.len() && #[trigger] sums[j].date == d {
                let j = choose|j: int| 0 <= j < sums.len() && #[trigger] sums[j].date == d;
                assert(dl[j] == sums[j]);
            }
        }
    }
}

/// The per-day key sums walked over a set of summary rows.
pub open spec fn keys_by_day(keys: Seq<KeyRec>, sums: Seq<SumRec>) -> int
    decreases sums.len(),
{
    if sums.len() == 0 {
        0
    } else {
        keys_by_day(keys, sums.drop_last()) + sum_keys_date(keys, sums.last().date)
    }
}

/// The per-day click sums walked over a set of summary rows.
pub open spec fn mouse_by_day(mouse: Seq<MouseRec>, sums: Seq<SumRec>) -> int
    decreases sums.len(),
{
    if sums.len() == 0 {
        0
    } else {
        mouse_by_day(mouse, sums.drop_last()) + sum_mouse_date(mouse, sums.last().date)
    }
}

/// With no counter rows every walk is zero.
pub proof fn lemma_keys_by_day_empty(sums: Seq<SumRec>)
    ensures
        keys_by_day(Seq::<KeyRec>::empty(), sums) == 0,
        mouse_by_day(Seq::<MouseRec>::empty(), sums) == 0,
    decreases sums.len(),
{
    if sums.len() > 0 {
        lemma_keys_by_day_empty(sums.drop_last());
    }
}

/// Appending one key row adds its count once per summary row of its day.
pub proof fn lemma_keys_by_day_push(keys: Seq<KeyRec>, r: KeyRec, sums: Seq<SumRec>)
    ensures
        keys_by_day(keys.push(r), sums) == keys_by_day(keys, sums) + occ_add(
            sums,
            r.date,
            r.count,
        ),
    decreases sums.len(),
{
    if sums.len() > 0 {
        lemma_keys_by_day_push(keys, r, sums.drop_last());
        assert(keys.push(r).drop_last() =~= keys);
    }
}

/// Appending one button row adds its count once per summary row of its day.
pub proof fn lemma_mouse_by_day_push(mouse: Seq<MouseRec>, r: MouseRec, sums: Seq<SumRec>)
    ensures
        mouse_by_day(mouse.push(r), sums) == mouse_by_day(mouse, sums) + occ_add(
            sums,
            r.date,
            r.count,
        ),
    decreases sums.len(),
{
    if sums.len() > 0 {
        lemma_mouse_by_day_push(mouse, r, sums.drop_last());
        assert(mouse.push(r).drop_last() =~= mouse);
    }
}

/// When the summary rows have distinct dates and cover every key row's day,
/// the walk counts each counter exactly once.
pub proof fn lemma_keys_by_day_all(keys: Seq<KeyRec>, sums: Seq<SumRec>)
    requires
        forall|i: int, j: int|
            #![trigger sums[i], sums[j]]
            0 <= i < j < sums.len() ==> sums[i].date != sums[j].date,
        forall|x: int|
            #![trigger keys[x]]
            0 <= x < keys.len() ==> exists|j: int|
                0 <= j < sums.len() && #[trigger] sums[j].date == keys[x].date,
    ensures
        keys_by_day(keys, sums) == sum_all_keys(keys),
    decreases keys.len(),
{
    if keys.len() == 0 {
        assert(keys =~= Seq::<KeyRec>::empty());
        lemma_keys_by_day_empty(sums);
    } else {
        let kd = keys.drop_last();
        let r = keys.last();
        assert forall|x: int| #![trigger kd[x]] 0 <= x < kd.len() implies exists|j: int|
            0 <= j < sums.len() && #[trigger] sums[j].date == kd[x].date by {
            assert(kd[x] == keys[x]);
        }
        lemma_keys_by_day_all(kd, sums);
        assert(keys =~= kd.push(r));
        lemma_keys_by_day_push(kd, r, sums);
        lemma_occ_add_distinct(sums, r.date, r.count);
        assert(exists|j: int| 0 <= j < sums.len() && #[trigger] sums[j].date == r.date);
    }
}

/// When the summary rows have distinct dates and cover every button row's
/// day, the walk counts each counter exactly once.
pub proof fn lemma_mouse_by_day_all(mouse: Seq<MouseRec>, sums: Seq<SumRec>)
    requires
        forall|i: int, j: int|
            #![trigger sums[i], sums[j]]
            0 <= i < j < sums.len() ==> sums[i].date != sums[j].date,
        forall|x: int|
            #![trigger mouse[x]]
            0 <= x < mouse.len() ==> exists|j: int|
                0 <= j < sums.len() && #[trigger] sums[j].date == mouse[x].date,
    ensures
        mouse_by_day(mouse, sums) == sum_all_mouse(mouse),
    decreases mouse.len(),
{
    if mouse.len() == 0 {
        assert(mouse =~= Seq::<MouseRec>::empty());
        lemma_keys_by_day_empty(sums);
    } else {
        let md = mouse.drop_last();
        let r = mouse.last();
        assert forall|x: int| #![trigger md[x]] 0 <= x < md.len() implies exists|j: int|
            0 <= j < sums.len() && #[trigger] sums[j].date == md[x].date by {
            assert(md[x] == mouse[x]);
        }
        lemma_mouse_by_day_all(md, sums);
        assert(mouse =~= md.push(r));
        lemma_mouse_by_day_push(md, r, sums);
        lemma_occ_add_distinct(sums, r.date, r.count);
        assert(exists|j: int| 0 <= j < sums.len() && #[trigger] sums[j].date == r.date);
    }
}

/// Sum of the key totals over all summary rows.
pub open spec fn total_keys_all(sums: Seq<SumRec>) -> int
    decreases sums.len(),
{
    if sums.len() == 0 {
        0
    } else {
        total_keys_all(sums.drop_last()) + sums.last().total_keys
    }
}

/// Sum of the click totals over all summary rows.
pub open spec fn total_clicks_all(sums: Seq<SumRec>) -> int
    decreases sums.len(),
{
    if sums.len() == 0 {
        0
    } else {
        total_clicks_all(sums.drop_last()) + sums.last().total_clicks
    }
}

/// The two per-field totals together are the grand total.
pub proof fn lemma_totals_split(sums: Seq<SumRec>)
    ensures
        total_keys_all(sums) + total_clicks_all(sums) == sum_totals(sums),
    decreases sums.len(),
{
    if sums.len() > 0 {
        lemma_totals_split(sums.drop_last());
    }
}

/// In a consistent store the walk over summary days is the summaries' own
/// totals.
pub proof fn lemma_by_day_eq_totals(keys: Seq<KeyRec>, mouse: Seq<MouseRec>, sums: Seq<SumRec>)
    requires
        forall|j: int|
            #![trigger sums[j]]
            0 <= j < sums.len() ==> sums[j].total_keys == sum_keys_date(keys, sums[j].date)
                && sums[j].total_clicks == sum_mouse_date(mouse, sums[j].date),
    ensures
        keys_by_day(keys, sums) == total_keys_all(sums),
        mouse_by_day(mouse, sums) == total_clicks_all(sums),
    decreases sums.len(),
{
    if sums.len() > 0 {
        let dl = sums.drop_last();
        assert forall|j: int| #![trigger dl[j]] 0 <= j < dl.len() implies dl[j].total_keys
            == sum_keys_date(keys, dl[j].date) && dl[j].total_clicks == sum_mouse_date(
            mouse,
            dl[j].date,
        ) by {
            assert(dl[j] == sums[j]);
        }
        lemma_by_day_eq_totals(keys, mouse, dl);
    }
}

/// In a consistent store no counter, and no sum of counters, exceeds the
/// number of increments ever applied: the bound that keeps every aggregate
/// within machine integers.
pub proof fn lemma_counts_bounded(m: StoreModel)
    requires
        m.wf(),
    ensures
        0 <= sum_all_keys(m.keys) <= m.applied,
        0 <= sum_all_mouse(m.mouse) <= m.applied,
{
    assert forall|x: int| #![trigger m.keys[x]] 0 <= x < m.keys.len() implies exists|j: int|
        0 <= j < m.sums.len() && #[trigger] m.sums[j].date == m.keys[x].date by {
        lemma_find_sum(m.sums, m.keys[x].date);
        match crate::store::find_sum(m.sums, m.keys[x].date) {
            Some(j) => {
                assert(0 <= j < m.sums.len() && m.sums[j].date == m.keys[x].date);
            },
            None => {
                assert(false);
            },
        }
    }
    assert forall|x: int| #![trigger m.mouse[x]] 0 <= x < m.mouse.len() implies exists|j: int|
        0 <= j < m.sums.len() && #[trigger] m.sums[j].date == m.mouse[x].date by {
        lemma_find_sum(m.sums, m.mouse[x].date);
        match crate::store::find_sum(m.sums, m.mouse[x].date) {
            Some(j) => {
                assert(0 <= j < m.sums.len() && m.sums[j].date == m.mouse[x].date);
            },
            None => {
                assert(false);
            },
        }
    }
    lemma_keys_by_day_all(m.keys, m.sums);
    lemma_mouse_by_day_all(m.mouse, m.sums);
    lemma_by_day_eq_totals(m.keys, m.mouse, m.sums);
    lemma_totals_split(m.sums);
    lemma_sum_all_keys_nonneg(m.keys);
    lemma_sum_all_mouse_nonneg(m.mouse);
}

/// With no negative counters the sum of all counters is not negative.
pub proof fn lemma_sum_all_keys_nonneg(s: Seq<KeyRec>)
    requires
        forall|i: int| #![trigger s[i]] 0 <= i < s.len() ==> s[i].count >= 0,
    ensures
        sum_all_keys(s) >= 0,
    decreases s.len(),
{
    if s.len() > 0 {
        lemma_sum_all_keys_nonneg(s.drop_last());
    }
}

/// With no negative counters the sum of all counters is not negative.
pub proof fn lemma_sum_all_mouse_nonneg(s: Seq<MouseRec>)
    requires
        forall|i: int| #![trigger s[i]] 0 <= i < s.len() ==> s[i].count >= 0,
    ensures
        sum_all_mouse(s) >= 0,
    decreases s.len(),
{
    if s.len() > 0 {
        lemma_sum_all_mouse_nonneg(s.drop_last());
    }
}

} // verus!
