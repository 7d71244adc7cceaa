//! Mathematical model of the activity ledger.
//!
//! A group's state is a sequence of `(participant name, count)` pairs; the
//! whole ledger is a sequence of `(group key, counts)` pairs. The spec
//! functions here define totals, lookups, the ranking order (count
//! descending, name ascending) and the rounded percentage arithmetic that
//! the executable code is proved against.

use vstd::prelude::*;

verus! {

// ---------------------------------------------------------------------------
// Counts of one group: Seq<(Seq<char>, u64)>
// ---------------------------------------------------------------------------

/// Sum of all counts in a group's table.
pub open spec fn sum_counts(s: Seq<(Seq<char>, u64)>) -> int
    decreases s.len(),
{
    if s.len() == 0 {
        0
    } else {
        s[0].1 as int + sum_counts(s.drop_first())
    }
}

/// The count recorded for `name`, 0 if absent.
pub open spec fn count_of(s: Seq<(Seq<char>, u64)>, name: Seq<char>) -> int
    decreases s.len(),
{
    if s.len() == 0 {
        0
    } else if s[0].0 == name {
        s[0].1 as int
    } else {
        count_of(s.drop_first(), name)
    }
}

/// Whether `name` has an entry.
pub open spec fn has_name(s: Seq<(Seq<char>, u64)>, name: Seq<char>) -> bool {
    exists|i: int| 0 <= i < s.len() && s[i].0 == name
}

/// Index of the entry for `name`; equals `s.len()` if absent.
pub open spec fn index_of_name(s: Seq<(Seq<char>, u64)>, name: Seq<char>) -> int
    decreases s.len(),
{
    if s.len() == 0 {
        0
    } else if s[0].0 == name {
        0
    } else {
        1 + index_of_name(s.drop_first(), name)
    }
}

/// No two entries share a name.
pub open spec fn distinct_names(s: Seq<(Seq<char>, u64)>) -> bool {
    forall|i: int, j: int| 0 <= i < j < s.len() ==> s[i].0 != s[j].0
}

/// Well-formed group table: distinct, non-empty names, every count >= 1,
/// and the total small enough that one more message still fits in a `u64`.
pub open spec fn wf_counts(s: Seq<(Seq<char>, u64)>) -> bool {
    &&& distinct_names(s)
    &&& forall|i: int| 0 <= i < s.len() ==> (#[trigger] s[i]).1 >= 1 && s[i].0.len() >= 1
}

/// Number of occurrences of `x` in a sequence.
pub open spec fn count_occ<T>(s: Seq<T>, x: T) -> int
    decreases s.len(),
{
    if s.len() == 0 {
        0
    } else {
        (if s[0] == x { 1int } else { 0int }) + count_occ(s.drop_first(), x)
    }
}

/// Number of entries whose name is `name`.
pub open spec fn count_name(s: Seq<(Seq<char>, u64)>, name: Seq<char>) -> int
    decreases s.len(),
{
    if s.len() == 0 {
        0
    } else {
        (if s[0].0 == name { 1int } else { 0int }) + count_name(s.drop_first(), name)
    }
}

// ---------------------------------------------------------------------------
// The whole ledger: Seq<(int, Seq<(Seq<char>, u64)>)>
// ---------------------------------------------------------------------------

/// Whether group `g` has been observed.
pub open spec fn has_group(v: Seq<(int, Seq<(Seq<char>, u64)>)>, g: int) -> bool {
    exists|i: int| 0 <= i < v.len() && v[i].0 == g
}

/// The counts table of group `g`, empty if the group is absent.
pub open spec fn counts_of(v: Seq<(int, Seq<(Seq<char>, u64)>)>, g: int) -> Seq<
    (Seq<char>, u64),
>
    decreases v.len(),
{
    if v.len() == 0 {
        Seq::empty()
    } else if v[0].0 == g {
        v[0].1
    } else {
        counts_of(v.drop_first(), g)
    }
}

/// Total number of messages recorded in group `g`.
pub open spec fn total_of(v: Seq<(int, Seq<(Seq<char>, u64)>)>, g: int) -> int {
    sum_counts(counts_of(v, g))
}

/// No two ledger entries share a group key.
pub open spec fn distinct_groups(v: Seq<(int, Seq<(Seq<char>, u64)>)>) -> bool {
    forall|i: int, j: int| 0 <= i < j < v.len() ==> v[i].0 != v[j].0
}

/// Well-formed ledger: distinct group keys, each group non-empty and
/// well-formed, and each group's total still representable as a `u64`.
pub open spec fn wf_view(v: Seq<(int, Seq<(Seq<char>, u64)>)>) -> bool {
    &&& distinct_groups(v)
    &&& forall|i: int|
        0 <= i < v.len() ==> {
            &&& wf_counts((#[trigger] v[i]).1)
            &&& v[i].1.len() >= 1
            &&& sum_counts(v[i].1) <= u64::MAX as int
        }
}

/// How one recorded message changes a group's table: increment the
/// participant's count, or append a fresh entry with count 1.
pub open spec fn record_one(s: Seq<(Seq<char>, u64)>, name: Seq<char>) -> Seq<
    (Seq<char>, u64),
> {
    if has_name(s, name) {
        let i = index_of_name(s, name);
        s.update(i, (name, (s[i].1 + 1) as u64))
    } else {
        s.push((name, 1u64))
    }
}

// ---------------------------------------------------------------------------
// Ranking order: count descending, then name ascending (lexicographic)
// ---------------------------------------------------------------------------

/// Strict lexicographic order on names, by character value.
pub open spec fn lex_lt(a: Seq<char>, b: Seq<char>) -> bool
    decreases a.len(),
{
    if b.len() == 0 {
        false
    } else if a.len() == 0 {
        true
    } else if a[0] != b[0] {
        a[0] < b[0]
    } else {
        lex_lt(a.drop_first(), b.drop_first())
    }
}

/// `x` strictly precedes `y` in the ranking: larger count first, equal
/// counts broken by ascending name.
pub open spec fn rank_before(x: (Seq<char>, u64), y: (Seq<char>, u64)) -> bool {
    x.1 > y.1 || (x.1 == y.1 && lex_lt(x.0, y.0))
}

/// Non-strict ranking order.
pub open spec fn rank_le(x: (Seq<char>, u64), y: (Seq<char>, u64)) -> bool {
    x.1 > y.1 || (x.1 == y.1 && (x.0 == y.0 || lex_lt(x.0, y.0)))
}

/// The sequence is sorted by count descending, ties by name ascending.
pub open spec fn sorted_ranked(s: Seq<(Seq<char>, u64)>) -> bool {
    forall|i: int, j: int| 0 <= i < j < s.len() ==> rank_le(s[i], s[j])
}

/// Insert `x` in front of the first entry it precedes.
pub open spec fn insert_ranked(x: (Seq<char>, u64), s: Seq<(Seq<char>, u64)>) -> Seq<
    (Seq<char>, u64),
>
    decreases s.len(),
{
    if s.len() == 0 {
        seq![x]
    } else if rank_before(x, s[0]) {
        seq![x] + s
    } else {
        seq![s[0]] + insert_ranked(x, s.drop_first())
    }
}

/// The ranked ordering of a group table: insertion sort under `rank_before`.
pub open spec fn rank_spec(s: Seq<(Seq<char>, u64)>) -> Seq<(Seq<char>, u64)>
    decreases s.len(),
{
    if s.len() == 0 {
        Seq::empty()
    } else {
        insert_ranked(s[0], rank_spec(s.drop_first()))
    }
}

// ---------------------------------------------------------------------------
// Percentage arithmetic: share of the total in hundredths of a percent
// ---------------------------------------------------------------------------

/// `count / total` as a percentage in hundredths of a percent, rounded to
/// the nearest hundredth (half rounds up). 0 when the total is not positive.
pub open spec fn hundredths(count: int, total: int) -> int {
    if total <= 0 {
        0
    } else {
        (count * 10000 + total / 2) / total
    }
}

// ---------------------------------------------------------------------------
// Lemmas about sums
// ---------------------------------------------------------------------------

pub proof fn lemma_sum_nonneg(s: Seq<(Seq<char>, u64)>)
    ensures
        0 <= sum_counts(s),
    decreases s.len(),
{
    if s.len() > 0 {
        lemma_sum_nonneg(s.drop_first());
    }
}

pub proof fn lemma_sum_concat(a: Seq<(Seq<char>, u64)>, b: Seq<(Seq<char>, u64)>)
    ensures
        sum_counts(a + b) == sum_counts(a) + sum_counts(b),
    decreases a.len(),
{
    if a.len() == 0 {
        assert(a + b =~= b);
    } else {
        assert((a + b).drop_first() =~= a.drop_first() + b);
        lemma_sum_concat(a.drop_first(), b);
    }
}

pub proof fn lemma_sum_push(s: Seq<(Seq<char>, u64)>, e: (Seq<char>, u64))
    ensures
        sum_counts(s.push(e)) == sum_counts(s) + e.1 as int,
{
    assert(s.push(e) =~= s + seq![e]);
    lemma_sum_concat(s, seq![e]);
    assert(seq![e].drop_first() =~= Seq::<(Seq<char>, u64)>::empty());
    assert(sum_counts(Seq::<(Seq<char>, u64)>::empty()) == 0);
}

pub proof fn lemma_sum_entry_le(s: Seq<(Seq<char>, u64)>, i: int)
    requires
        0 <= i < s.len(),
    ensures
        s[i].1 as int <= sum_counts(s),
    decreases s.len(),
{
    if i == 0 {
        lemma_sum_nonneg(s.drop_first());
    } else {
        lemma_sum_entry_le(s.drop_first(), i - 1);
    }
}

pub proof fn lemma_sum_update(s: Seq<(Seq<char>, u64)>, i: int, e: (Seq<char>, u64))
    requires
        0 <= i < s.len(),
    ensures
        sum_counts(s.update(i, e)) == sum_counts(s) - s[i].1 + e.1,
    decreases s.len(),
{
    if i == 0 {
        assert(s.update(0, e).drop_first() =~= s.drop_first());
    } else {
        assert(s.update(i, e).drop_first() =~= s.drop_first().update(i - 1, e));
        lemma_sum_update(s.drop_first(), i - 1, e);
    }
}

// ---------------------------------------------------------------------------
// Lemmas about name lookup
// ---------------------------------------------------------------------------

pub proof fn lemma_index_of_name(s: Seq<(Seq<char>, u64)>, name: Seq<char>)
    requires
        has_name(s, name),
    ensures
        0 <= index_of_name(s, name) < s.len(),
        s[index_of_name(s, name)].0 == name,
        forall|k: int| 0 <= k < index_of_name(s, name) ==> (#[trigger] s[k]).0 != name,
    decreases s.len(),
{
    if s.len() > 0 && s[0].0 != name {
        assert(has_name(s.drop_first(), name)) by {
            let i = choose|i: int| 0 <= i < s.len() && s[i].0 == name;
            assert(s.drop_first()[i - 1].0 == name);
        }
        lemma_index_of_name(s.drop_first(), name);
        assert forall|k: int| 0 <= k < index_of_name(s, name) implies (#[trigger] s[k]).0
            != name by {
            if k > 0 {
                assert(s.drop_first()[k - 1].0 != name);
            }
        }
    }
}

pub proof fn lemma_count_of_at_index(s: Seq<(Seq<char>, u64)>, name: Seq<char>, i: int)
    requires
        distinct_names(s),
        0 <= i < s.len(),
        s[i].0 == name,
    ensures
        count_of(s, name) == s[i].1 as int,
        index_of_name(s, name) == i,
    decreases s.len(),
{
    if i > 0 {
        lemma_count_of_at_index(s.drop_first(), name, i - 1);
    }
}

pub proof fn lemma_count_of_absent(s: Seq<(Seq<char>, u64)>, name: Seq<char>)
    requires
        !has_name(s, name),
    ensures
        count_of(s, name) == 0,
        index_of_name(s, name) == s.len(),
    decreases s.len(),
{
    if s.len() > 0 {
        assert(s[0].0 != name);
        assert(!has_name(s.drop_first(), name)) by {
            if has_name(s.drop_first(), name) {
                let i = choose|i: int|
                    0 <= i < s.drop_first().len() && s.drop_first()[i].0 == name;
                assert(s[i + 1].0 == name);
            }
        }
        lemma_count_of_absent(s.drop_first(), name);
    }
}

// ---------------------------------------------------------------------------
// Lemmas about recording one message
// ---------------------------------------------------------------------------

/// One recorded message raises the group's sum by exactly one and keeps the
/// table well formed; every other participant's count is unchanged.
pub proof fn lemma_record_one(s: Seq<(Seq<char>, u64)>, name: Seq<char>)
    requires
        wf_counts(s),
        name.len() >= 1,
        sum_counts(s) < u64::MAX as int,
    ensures
        wf_counts(record_one(s, name)),
        sum_counts(record_one(s, name)) == sum_counts(s) + 1,
        count_of(record_one(s, name), name) == count_of(s, name) + 1,
        has_name(record_one(s, name), name),
        record_one(s, name).len() >= 1,
        forall|n: Seq<char>|
            n != name ==> #[trigger] count_of(record_one(s, name), n) == count_of(s, n),
        forall|n: Seq<char>| n != name ==> (has_name(record_one(s, name), n) == has_name(s, n)),
{
    let r = record_one(s, name);
    if has_name(s, name) {
        let i = index_of_name(s, name);
        lemma_index_of_name(s, name);
        lemma_sum_entry_le(s, i);
        lemma_sum_nonneg(s);
        lemma_sum_update(s, i, (name, (s[i].1 + 1) as u64));
        lemma_count_of_at_index(s, name, i);
        assert(distinct_names(r));
        lemma_count_of_at_index(r, name, i);
        assert forall|n: Seq<char>| n != name implies #[trigger] count_of(r, n) == count_of(
            s,
            n,
        ) by {
            lemma_count_unchanged_update(s, i, (name, (s[i].1 + 1) as u64), n);
        }
        assert forall|n: Seq<char>| n != name implies (has_name(r, n) == has_name(s, n)) by {
            if has_name(r, n) {
                let k = choose|k: int| 0 <= k < r.len() && r[k].0 == n;
                assert(s[k].0 == n);
            }
            if has_name(s, n) {
                let k = choose|k: int| 0 <= k < s.len() && s[k].0 == n;
                assert(r[k].0 == n);
            }
        }
    } else {
        lemma_count_of_absent(s, name);
        lemma_sum_push(s, (name, 1u64));
        assert(r[s.len() as int].0 == name);
        assert(distinct_names(r)) by {
            assert forall|a: int, b: int| 0 <= a < b < r.len() implies r[a].0 != r[b].0 by {
                if b == s.len() as int {
                    assert(r[a].0 == s[a].0);
                }
            }
        }
        lemma_count_of_at_index(r, name, s.len() as int);
        assert forall|n: Seq<char>| n != name implies #[trigger] count_of(r, n) == count_of(
            s,
            n,
        ) by {
            lemma_count_of_push_other(s, (name, 1u64), n);
        }
        assert forall|n: Seq<char>| n != name implies (has_name(r, n) == has_name(s, n)) by {
            if has_name(r, n) {
                let k = choose|k: int| 0 <= k < r.len() && r[k].0 == n;
                assert(k < s.len());
                assert(s[k].0 == n);
            }
            if has_name(s, n) {
                let k = choose|k: int| 0 <= k < s.len() && s[k].0 == n;
                assert(r[k].0 == n);
            }
        }
    }
}

pub proof fn lemma_count_unchanged_update(
    s: Seq<(Seq<char>, u64)>,
    i: int,
    e: (Seq<char>, u64),
    n: Seq<char>,
)
    requires
        0 <= i < s.len(),
        s[i].0 != n,
        e.0 != n,
    ensures
        count_of(s.update(i, e), n) == count_of(s, n),
    decreases s.len(),
{
    if i == 0 {
        assert(s.update(0, e).drop_first() =~= s.drop_first());
    } else {
        assert(s.update(i, e).drop_first() =~= s.drop_first().update(i - 1, e));
        lemma_count_unchanged_update(s.drop_first(), i - 1, e, n);
    }
}

// ---------------------------------------------------------------------------
// Lemmas about group lookup in the whole ledger
// ---------------------------------------------------------------------------

pub proof fn lemma_counts_of_at_index(v: Seq<(int, Seq<(Seq<char>, u64)>)>, g: int, i: int)
    requires
        distinct_groups(v),
        0 <= i < v.len(),
        v[i].0 == g,
    ensures
        counts_of(v, g) == v[i].1,
        has_group(v, g),
    decreases v.len(),
{
    if i > 0 {
        assert(distinct_groups(v.drop_first())) by {
            assert forall|a: int, b: int|
                0 <= a < b < v.drop_first().len() implies v.drop_first()[a].0
                != v.drop_first()[b].0 by {
                assert(v[a + 1].0 != v[b + 1].0);
            }
        }
        lemma_counts_of_at_index(v.drop_first(), g, i - 1);
    }
}

pub proof fn lemma_counts_of_absent_group(v: Seq<(int, Seq<(Seq<char>, u64)>)>, g: int)
    requires
        !has_group(v, g),
    ensures
        counts_of(v, g) == Seq::<(Seq<char>, u64)>::empty(),
    decreases v.len(),
{
    if v.len() > 0 {
        assert(v[0].0 != g);
        assert(!has_group(v.drop_first(), g)) by {
            if has_group(v.drop_first(), g) {
                let i = choose|i: int| 0 <= i < v.drop_first().len() && v.drop_first()[i].0 == g;
                assert(v[i + 1].0 == g);
            }
        }
        lemma_counts_of_absent_group(v.drop_first(), g);
    }
}

pub proof fn lemma_counts_group_update(
    v: Seq<(int, Seq<(Seq<char>, u64)>)>,
    i: int,
    e: (int, Seq<(Seq<char>, u64)>),
    h: int,
)
    requires
        distinct_groups(v),
        0 <= i < v.len(),
        e.0 == v[i].0,
    ensures
        counts_of(v.update(i, e), h) == (if h == e.0 {
            e.1
        } else {
            counts_of(v, h)
        }),
        has_group(v.update(i, e), h) == has_group(v, h),
        distinct_groups(v.update(i, e)),
    decreases v.len(),
{
    let w = v.update(i, e);
    assert(distinct_groups(w)) by {
        assert forall|a: int, b: int| 0 <= a < b < w.len() implies w[a].0 != w[b].0 by {
            assert(v[a].0 != v[b].0);
        }
    }
    assert(has_group(w, h) == has_group(v, h)) by {
        if has_group(w, h) {
            let k = choose|k: int| 0 <= k < w.len() && w[k].0 == h;
            assert(v[k].0 == h);
        }
        if has_group(v, h) {
            let k = choose|k: int| 0 <= k < v.len() && v[k].0 == h;
            assert(w[k].0 == h);
        }
    }
    if i == 0 {
        if h != e.0 {
            assert(w.drop_first() =~= v.drop_first());
        }
    } else {
        assert(distinct_groups(v.drop_first())) by {
            assert forall|a: int, b: int|
                0 <= a < b < v.drop_first().len() implies v.drop_first()[a].0
                != v.drop_first()[b].0 by {
                assert(v[a + 1].0 != v[b + 1].0);
            }
        }
        assert(w.drop_first() =~= v.drop_first().update(i - 1, e));
        lemma_counts_group_update(v.drop_first(), i - 1, e, h);
        assert(v[0].0 != e.0);
    }
}

pub proof fn lemma_counts_group_push(
    v: Seq<(int, Seq<(Seq<char>, u64)>)>,
    e: (int, Seq<(Seq<char>, u64)>),
    h: int,
)
    ensures
        counts_of(v.push(e), h) == (if !has_group(v, h) && h == e.0 {
            e.1
        } else {
            counts_of(v, h)
        }),
        has_group(v.push(e), h) == (has_group(v, h) || h == e.0),
    decreases v.len(),
{
    let w = v.push(e);
    assert(has_group(w, h) == (has_group(v, h) || h == e.0)) by {
        if has_group(w, h) {
            let k = choose|k: int| 0 <= k < w.len() && w[k].0 == h;
            if k < v.len() {
                assert(v[k].0 == h);
            }
        }
        if has_group(v, h) {
            let k = choose|k: int| 0 <= k < v.len() && v[k].0 == h;
            assert(w[k].0 == h);
        }
        if h == e.0 {
            assert(w[v.len() as int].0 == h);
        }
    }
    if v.len() == 0 {
        assert(w.drop_first() =~= Seq::<(int, Seq<(Seq<char>, u64)>)>::empty());
        assert(counts_of(Seq::<(int, Seq<(Seq<char>, u64)>)>::empty(), h) =~= Seq::<
            (Seq<char>, u64),
        >::empty());
        if h != e.0 {
            assert(counts_of(v, h) =~= Seq::<(Seq<char>, u64)>::empty());
        }
    } else {
        assert(w.drop_first() =~= v.drop_first().push(e));
        lemma_counts_group_push(v.drop_first(), e, h);
        if v[0].0 != h {
            assert(has_group(v, h) == has_group(v.drop_first(), h)) by {
                if has_group(v, h) {
                    let k = choose|k: int| 0 <= k < v.len() && v[k].0 == h;
                    assert(v.drop_first()[k - 1].0 == h);
                }
                if has_group(v.drop_first(), h) {
                    let k = choose|k: int|
                        0 <= k < v.drop_first().len() && v.drop_first()[k].0 == h;
                    assert(v[k + 1].0 == h);
                }
            }
        }
    }
}

// ---------------------------------------------------------------------------
// Lemmas about occurrence counting
// ---------------------------------------------------------------------------

pub proof fn lemma_count_occ_bounds<T>(s: Seq<T>, x: T)
    ensures
        0 <= count_occ(s, x) <= s.len(),
    decreases s.len(),
{
    if s.len() > 0 {
        lemma_count_occ_bounds(s.drop_first(), x);
    }
}

pub proof fn lemma_count_occ_push<T>(s: Seq<T>, e: T, x: T)
    ensures
        count_occ(s.push(e), x) == count_occ(s, x) + (if e == x {
            1int
        } else {
            0int
        }),
    decreases s.len(),
{
    if s.len() == 0 {
        assert(s.push(e).drop_first() =~= Seq::<T>::empty());
        assert(count_occ(Seq::<T>::empty(), x) == 0);
    } else {
        assert(s.push(e).drop_first() =~= s.drop_first().push(e));
        lemma_count_occ_push(s.drop_first(), e, x);
    }
}

pub proof fn lemma_count_occ_exists<T>(s: Seq<T>, x: T)
    ensures
        (count_occ(s, x) > 0) <==> (exists|i: int| 0 <= i < s.len() && s[i] == x),
    decreases s.len(),
{
    if s.len() > 0 {
        lemma_count_occ_exists(s.drop_first(), x);
        lemma_count_occ_bounds(s.drop_first(), x);
        if s[0] == x {
            assert(s[0] == x && 0 < s.len());
        } else {
            if count_occ(s, x) > 0 {
                let i = choose|i: int| 0 <= i < s.drop_first().len() && s.drop_first()[i] == x;
                assert(s[i + 1] == x);
            }
            if exists|i: int| 0 <= i < s.len() && s[i] == x {
                let i = choose|i: int| 0 <= i < s.len() && s[i] == x;
                assert(s.drop_first()[i - 1] == x);
            }
        }
    }
}

pub proof fn lemma_count_name_nonneg(s: Seq<(Seq<char>, u64)>, n: Seq<char>)
    ensures
        0 <= count_name(s, n),
    decreases s.len(),
{
    if s.len() > 0 {
        lemma_count_name_nonneg(s.drop_first(), n);
    }
}

pub proof fn lemma_has_name_count_name(s: Seq<(Seq<char>, u64)>, n: Seq<char>)
    ensures
        has_name(s, n) <==> count_name(s, n) > 0,
    decreases s.len(),
{
    if s.len() > 0 {
        lemma_has_name_count_name(s.drop_first(), n);
        lemma_count_name_nonneg(s.drop_first(), n);
        if s[0].0 == n {
        } else {
            if count_name(s, n) > 0 {
                let i = choose|i: int| 0 <= i < s.drop_first().len() && s.drop_first()[i].0 == n;
                assert(s[i + 1].0 == n);
            }
            if has_name(s, n) {
                let i = choose|i: int| 0 <= i < s.len() && s[i].0 == n;
                assert(s.drop_first()[i - 1].0 == n);
            }
        }
    }
}

pub proof fn lemma_distinct_count_name(s: Seq<(Seq<char>, u64)>, n: Seq<char>)
    requires
        distinct_names(s),
    ensures
        count_name(s, n) <= 1,
    decreases s.len(),
{
    if s.len() > 0 {
        assert(distinct_names(s.drop_first())) by {
            assert forall|a: int, b: int|
                0 <= a < b < s.drop_first().len() implies s.drop_first()[a].0 != s.drop_first()[b].0 by {
                assert(s[a + 1].0 != s[b + 1].0);
            }
        }
        lemma_distinct_count_name(s.drop_first(), n);
        if s[0].0 == n {
            assert(!has_name(s.drop_first(), n)) by {
                if has_name(s.drop_first(), n) {
                    let i = choose|i: int|
                        0 <= i < s.drop_first().len() && s.drop_first()[i].0 == n;
                    assert(s[0].0 != s[i + 1].0);
                }
            }
            lemma_has_name_count_name(s.drop_first(), n);
        }
    }
}

proof fn lemma_count_name_two_indices(s: Seq<(Seq<char>, u64)>, i: int, j: int)
    requires
        0 <= i < j < s.len(),
        s[i].0 == s[j].0,
    ensures
        count_name(s, s[i].0) >= 2,
    decreases s.len(),
{
    if i == 0 {
        assert(s.drop_first()[j - 1].0 == s[0].0);
        lemma_has_name_count_name(s.drop_first(), s[0].0);
    } else {
        lemma_count_name_two_indices(s.drop_first(), i - 1, j - 1);
    }
}

/// If no name occurs twice by count, the names are distinct.
pub proof fn lemma_counts_give_distinct(s: Seq<(Seq<char>, u64)>)
    requires
        forall|n: Seq<char>| #[trigger] count_name(s, n) <= 1,
    ensures
        distinct_names(s),
{
    if !distinct_names(s) {
        let (i, j) = choose|i: int, j: int| 0 <= i < j < s.len() && s[i].0 == s[j].0;
        lemma_count_name_two_indices(s, i, j);
        assert(count_name(s, s[i].0) <= 1);
    }
}

// ---------------------------------------------------------------------------
// Lemmas about sums over prefixes
// ---------------------------------------------------------------------------

pub proof fn lemma_sum_split(s: Seq<(Seq<char>, u64)>, k: int)
    requires
        0 <= k <= s.len(),
    ensures
        sum_counts(s.subrange(0, k)) + sum_counts(s.subrange(k, s.len() as int)) == sum_counts(s),
{
    assert(s =~= s.subrange(0, k) + s.subrange(k, s.len() as int));
    lemma_sum_concat(s.subrange(0, k), s.subrange(k, s.len() as int));
}

// ---------------------------------------------------------------------------
// Lemmas about the lexicographic order
// ---------------------------------------------------------------------------

/// Any two names are lexicographically comparable.
pub proof fn lemma_lex_trichotomy(a: Seq<char>, b: Seq<char>)
    ensures
        lex_lt(a, b) || lex_lt(b, a) || a == b,
    decreases a.len(),
{
    if a.len() == 0 && b.len() == 0 {
        assert(a =~= b);
    } else if a.len() > 0 && b.len() > 0 && a[0] == b[0] {
        lemma_lex_trichotomy(a.drop_first(), b.drop_first());
        if a.drop_first() == b.drop_first() {
            assert(a =~= seq![a[0]] + a.drop_first());
            assert(b =~= seq![b[0]] + b.drop_first());
        }
    }
}

/// The lexicographic order is transitive.
pub proof fn lemma_lex_trans(a: Seq<char>, b: Seq<char>, c: Seq<char>)
    requires
        lex_lt(a, b),
        lex_lt(b, c),
    ensures
        lex_lt(a, c),
    decreases a.len(),
{
    if a.len() > 0 && b.len() > 0 && c.len() > 0 && a[0] == b[0] && b[0] == c[0] {
        lemma_lex_trans(a.drop_first(), b.drop_first(), c.drop_first());
    }
}

/// The lexicographic order is irreflexive and asymmetric.
pub proof fn lemma_lex_asymm(a: Seq<char>, b: Seq<char>)
    requires
        lex_lt(a, b),
    ensures
        !lex_lt(b, a),
        a != b,
    decreases a.len(),
{
    if a.len() > 0 && b.len() > 0 && a[0] == b[0] {
        lemma_lex_asymm(a.drop_first(), b.drop_first());
        assert(a != b) by {
            if a == b {
                assert(a.drop_first() =~= b.drop_first());
            }
        }
    }
}

/// `rank_before` strictly precedes, `rank_le` tolerates equal keys; they
/// cover all cases between them.
pub proof fn lemma_rank_order(x: (Seq<char>, u64), y: (Seq<char>, u64))
    ensures
        !rank_before(y, x) ==> rank_le(x, y),
        rank_before(x, y) ==> rank_le(x, y),
        rank_le(x, y) ==> !rank_before(y, x),
{
    lemma_lex_trichotomy(x.0, y.0);
    if lex_lt(x.0, y.0) {
        lemma_lex_asymm(x.0, y.0);
    }
    if lex_lt(y.0, x.0) {
        lemma_lex_asymm(y.0, x.0);
    }
}

/// Mixed transitivity used by the insertion-sort proof.
pub proof fn lemma_rank_le_trans(x: (Seq<char>, u64), y: (Seq<char>, u64), z: (Seq<char>, u64))
    requires
        rank_le(x, y),
        rank_le(y, z),
    ensures
        rank_le(x, z),
{
    if x.1 == y.1 && y.1 == z.1 && lex_lt(x.0, y.0) && lex_lt(y.0, z.0) {
        lemma_lex_trans(x.0, y.0, z.0);
    }
}

// ---------------------------------------------------------------------------
// Lemmas about the ranked ordering
// ---------------------------------------------------------------------------

pub proof fn lemma_insert_ranked_len(x: (Seq<char>, u64), s: Seq<(Seq<char>, u64)>)
    ensures
        insert_ranked(x, s).len() == s.len() + 1,
    decreases s.len(),
{
    if s.len() > 0 && !rank_before(x, s[0]) {
        lemma_insert_ranked_len(x, s.drop_first());
    }
}

/// Every element of `insert_ranked(x, s)` is `x` or an element of `s`.
pub proof fn lemma_insert_ranked_elems(x: (Seq<char>, u64), s: Seq<(Seq<char>, u64)>, i: int)
    requires
        0 <= i < insert_ranked(x, s).len(),
    ensures
        insert_ranked(x, s)[i] == x || exists|k: int|
            0 <= k < s.len() && s[k] == insert_ranked(x, s)[i],
    decreases s.len(),
{
    let r = insert_ranked(x, s);
    if s.len() == 0 {
    } else if rank_before(x, s[0]) {
        if i > 0 {
            assert(s[i - 1] == r[i]);
        }
    } else {
        if i > 0 {
            lemma_insert_ranked_elems(x, s.drop_first(), i - 1);
            let t = insert_ranked(x, s.drop_first());
            if t[i - 1] != x {
                let k = choose|k: int| 0 <= k < s.drop_first().len() && s.drop_first()[k] == t[i
                    - 1];
                assert(s[k + 1] == r[i]);
            }
        }
    }
}

pub proof fn lemma_insert_ranked_count_occ(
    x: (Seq<char>, u64),
    s: Seq<(Seq<char>, u64)>,
    y: (Seq<char>, u64),
)
    ensures
        count_occ(insert_ranked(x, s), y) == count_occ(s, y) + (if y == x {
            1int
        } else {
            0int
        }),
    decreases s.len(),
{
    let r = insert_ranked(x, s);
    if s.len() == 0 {
        assert(r.drop_first() =~= Seq::<(Seq<char>, u64)>::empty());
        assert(count_occ(Seq::<(Seq<char>, u64)>::empty(), y) == 0);
    } else if rank_before(x, s[0]) {
        assert(r.drop_first() =~= s);
    } else {
        assert(r.drop_first() =~= insert_ranked(x, s.drop_first()));
        lemma_insert_ranked_count_occ(x, s.drop_first(), y);
    }
}

pub proof fn lemma_insert_ranked_count_name(
    x: (Seq<char>, u64),
    s: Seq<(Seq<char>, u64)>,
    n: Seq<char>,
)
    ensures
        count_name(insert_ranked(x, s), n) == count_name(s, n) + (if x.0 == n {
            1int
        } else {
            0int
        }),
    decreases s.len(),
{
    let r = insert_ranked(x, s);
    if s.len() == 0 {
        assert(r.drop_first() =~= Seq::<(Seq<char>, u64)>::empty());
        assert(count_name(Seq::<(Seq<char>, u64)>::empty(), n) == 0);
    } else if rank_before(x, s[0]) {
        assert(r.drop_first() =~= s);
    } else {
        assert(r.drop_first() =~= insert_ranked(x, s.drop_first()));
        lemma_insert_ranked_count_name(x, s.drop_first(), n);
    }
}

pub proof fn lemma_insert_ranked_sum(x: (Seq<char>, u64), s: Seq<(Seq<char>, u64)>)
    ensures
        sum_counts(insert_ranked(x, s)) == sum_counts(s) + x.1 as int,
    decreases s.len(),
{
    let r = insert_ranked(x, s);
    if s.len() == 0 {
        assert(r.drop_first() =~= Seq::<(Seq<char>, u64)>::empty());
        assert(sum_counts(Seq::<(Seq<char>, u64)>::empty()) == 0);
    } else if rank_before(x, s[0]) {
        assert(r.drop_first() =~= s);
    } else {
        assert(r.drop_first() =~= insert_ranked(x, s.drop_first()));
        lemma_insert_ranked_sum(x, s.drop_first());
    }
}

pub proof fn lemma_insert_ranked_sorted(x: (Seq<char>, u64), s: Seq<(Seq<char>, u64)>)
    requires
        sorted_ranked(s),
    ensures
        sorted_ranked(insert_ranked(x, s)),
    decreases s.len(),
{
    let r = insert_ranked(x, s);
    if s.len() == 0 {
    } else if rank_before(x, s[0]) {
        assert forall|i: int, j: int| 0 <= i < j < r.len() implies rank_le(r[i], r[j]) by {
            if i == 0 {
                lemma_rank_order(x, s[0]);
                if j > 1 {
                    lemma_rank_le_trans(x, s[0], s[j - 1]);
                }
            } else {
                assert(rank_le(s[i - 1], s[j - 1]));
            }
        }
    } else {
        let t = insert_ranked(x, s.drop_first());
        assert(sorted_ranked(s.drop_first())) by {
            assert forall|i: int, j: int|
                0 <= i < j < s.drop_first().len() implies rank_le(
                s.drop_first()[i],
                s.drop_first()[j],
            ) by {
                assert(rank_le(s[i + 1], s[j + 1]));
            }
        }
        lemma_insert_ranked_sorted(x, s.drop_first());
        lemma_insert_ranked_len(x, s.drop_first());
        assert forall|i: int, j: int| 0 <= i < j < r.len() implies rank_le(r[i], r[j]) by {
            if i == 0 {
                assert(r[j] == t[j - 1]);
                lemma_insert_ranked_elems(x, s.drop_first(), j - 1);
                if t[j - 1] == x {
                    lemma_rank_order(x, s[0]);
                } else {
                    let k = choose|k: int|
                        0 <= k < s.drop_first().len() && s.drop_first()[k] == t[j - 1];
                    assert(rank_le(s[0], s[k + 1]));
                }
            } else {
                assert(rank_le(t[i - 1], t[j - 1]));
            }
        }
    }
}

/// Where the executable insertion lands: in front of the first entry that
/// `x` strictly precedes.
pub proof fn lemma_insert_ranked_split(x: (Seq<char>, u64), s: Seq<(Seq<char>, u64)>, p: int)
    requires
        0 <= p <= s.len(),
        forall|k: int| 0 <= k < p ==> !rank_before(x, #[trigger] s[k]),
        p == s.len() || rank_before(x, s[p]),
    ensures
        insert_ranked(x, s) == s.subrange(0, p) + seq![x] + s.subrange(p, s.len() as int),
    decreases s.len(),
{
    if s.len() == 0 {
        assert(insert_ranked(x, s) =~= s.subrange(0, p) + seq![x] + s.subrange(
            p,
            s.len() as int,
        ));
    } else if p == 0 {
        assert(rank_before(x, s[0]));
        assert(seq![x] + s =~= s.subrange(0, 0) + seq![x] + s.subrange(0, s.len() as int));
    } else {
        assert(!rank_before(x, s[0]));
        assert forall|k: int| 0 <= k < p - 1 implies !rank_before(
            x,
            #[trigger] s.drop_first()[k],
        ) by {
            assert(!rank_before(x, s[k + 1]));
        }
        if p < s.len() {
            assert(s.drop_first()[p - 1] == s[p]);
        }
        lemma_insert_ranked_split(x, s.drop_first(), p - 1);
        assert(seq![s[0]] + insert_ranked(x, s.drop_first()) =~= s.subrange(0, p) + seq![x]
            + s.subrange(p, s.len() as int)) by {
            assert(insert_ranked(x, s.drop_first()) == s.drop_first().subrange(0, p - 1)
                + seq![x] + s.drop_first().subrange(p - 1, s.drop_first().len() as int));
        }
    }
}

/// The ranked ordering of a table is sorted: percentage (count) descending,
/// ties broken by ascending participant name.
pub proof fn lemma_rank_spec_sorted(s: Seq<(Seq<char>, u64)>)
    ensures
        sorted_ranked(rank_spec(s)),
    decreases s.len(),
{
    if s.len() > 0 {
        lemma_rank_spec_sorted(s.drop_first());
        lemma_insert_ranked_sorted(s[0], rank_spec(s.drop_first()));
    }
}

/// The ranked ordering is a permutation: every entry keeps its multiplicity.
pub proof fn lemma_rank_spec_count_occ(s: Seq<(Seq<char>, u64)>, y: (Seq<char>, u64))
    ensures
        count_occ(rank_spec(s), y) == count_occ(s, y),
    decreases s.len(),
{
    if s.len() > 0 {
        lemma_rank_spec_count_occ(s.drop_first(), y);
        lemma_insert_ranked_count_occ(s[0], rank_spec(s.drop_first()), y);
    }
}

pub proof fn lemma_rank_spec_count_name(s: Seq<(Seq<char>, u64)>, n: Seq<char>)
    ensures
        count_name(rank_spec(s), n) == count_name(s, n),
    decreases s.len(),
{
    if s.len() > 0 {
        lemma_rank_spec_count_name(s.drop_first(), n);
        lemma_insert_ranked_count_name(s[0], rank_spec(s.drop_first()), n);
    }
}

pub proof fn lemma_rank_spec_len(s: Seq<(Seq<char>, u64)>)
    ensures
        rank_spec(s).len() == s.len(),
    decreases s.len(),
{
    if s.len() > 0 {
        lemma_rank_spec_len(s.drop_first());
        lemma_insert_ranked_len(s[0], rank_spec(s.drop_first()));
    }
}

/// Ranking preserves the sum of the counts: the shares of a ranked
/// distribution still cover the whole total, so the exact percentages
/// `100 * count / total` sum to exactly 100 percent.
pub proof fn lemma_rank_spec_sum(s: Seq<(Seq<char>, u64)>)
    ensures
        sum_counts(rank_spec(s)) == sum_counts(s),
    decreases s.len(),
{
    if s.len() > 0 {
        lemma_rank_spec_sum(s.drop_first());
        lemma_insert_ranked_sum(s[0], rank_spec(s.drop_first()));
    }
}


// ---------------------------------------------------------------------------
// Laws about reading
// ---------------------------------------------------------------------------

/// Read operations are idempotent: without an intervening record, two
/// ranked distributions computed from the same ledger state are equal,
/// because the ranking is a function of the state alone.
pub proof fn lemma_reads_idempotent(
    v: Seq<(int, Seq<(Seq<char>, u64)>)>,
    g: int,
    r1: Seq<(Seq<char>, u64)>,
    r2: Seq<(Seq<char>, u64)>,
)
    requires
        r1 == rank_spec(counts_of(v, g)),
        r2 == rank_spec(counts_of(v, g)),
    ensures
        r1 == r2,
{
}

/// A ranked distribution is determined by the counts it reports: two
/// sorted tables with distinct names, the same names, and the same count
/// per name are identical. Running a ranking twice on identical state
/// therefore yields identical output.
pub proof fn lemma_sorted_counts_unique(a: Seq<(Seq<char>, u64)>, b: Seq<(Seq<char>, u64)>)
    requires
        sorted_ranked(a),
        distinct_names(a),
        sorted_ranked(b),
        distinct_names(b),
        forall|n: Seq<char>| has_name(a, n) <==> has_name(b, n),
        forall|n: Seq<char>|
            has_name(a, n) ==> #[trigger] count_of(a, n) == count_of(b, n),
    ensures
        a == b,
    decreases a.len(),
{
    if a.len() == 0 {
        if b.len() > 0 {
            assert(has_name(b, b[0].0));
        }
        assert(a =~= b);
    } else if b.len() == 0 {
        assert(has_name(a, a[0].0));
        assert(a =~= b);
    } else {
        assert(has_name(a, a[0].0));
        assert(has_name(b, b[0].0));
        let i = choose|i: int| 0 <= i < a.len() && a[i].0 == b[0].0;
        let j = choose|j: int| 0 <= j < b.len() && b[j].0 == a[0].0;
        lemma_count_of_at_index(a, b[0].0, i);
        lemma_count_of_at_index(b, b[0].0, 0);
        lemma_count_of_at_index(b, a[0].0, j);
        lemma_count_of_at_index(a, a[0].0, 0);
        assert(a[i].1 == b[0].1);
        assert(b[j].1 == a[0].1);
        if i > 0 {
            assert(rank_le(a[0], a[i]));
        }
        if j > 0 {
            assert(rank_le(b[0], b[j]));
        }
        assert(a[0] == b[0]) by {
            lemma_rank_order(a[0], b[0]);
            lemma_rank_order(b[0], a[0]);
            if a[0].0 != b[0].0 {
                lemma_lex_trichotomy(a[0].0, b[0].0);
                if lex_lt(a[0].0, b[0].0) {
                    lemma_lex_asymm(a[0].0, b[0].0);
                } else {
                    lemma_lex_asymm(b[0].0, a[0].0);
                }
                assert(false);
            }
            assert(a[0].1 == b[0].1);
        }
        let ta = a.drop_first();
        let tb = b.drop_first();
        assert(sorted_ranked(ta) && distinct_names(ta)) by {
            assert forall|p: int, q: int| 0 <= p < q < ta.len() implies rank_le(ta[p], ta[q])
                && ta[p].0 != ta[q].0 by {
                assert(rank_le(a[p + 1], a[q + 1]) && a[p + 1].0 != a[q + 1].0);
            }
        }
        assert(sorted_ranked(tb) && distinct_names(tb)) by {
            assert forall|p: int, q: int| 0 <= p < q < tb.len() implies rank_le(tb[p], tb[q])
                && tb[p].0 != tb[q].0 by {
                assert(rank_le(b[p + 1], b[q + 1]) && b[p + 1].0 != b[q + 1].0);
            }
        }
        assert forall|n: Seq<char>| has_name(ta, n) <==> has_name(tb, n) by {
            lemma_tail_has_name(a, n);
            lemma_tail_has_name(b, n);
        }
        assert forall|n: Seq<char>|
            has_name(ta, n) implies #[trigger] count_of(ta, n) == count_of(tb, n) by {
            lemma_tail_has_name(a, n);
            lemma_tail_has_name(b, n);
            assert(a[0].0 != n);
            assert(count_of(a, n) == count_of(ta, n));
            assert(count_of(b, n) == count_of(tb, n));
            assert(has_name(a, n)) by {
                let k = choose|k: int| 0 <= k < ta.len() && ta[k].0 == n;
                assert(a[k + 1].0 == n);
            }
        }
        lemma_sorted_counts_unique(ta, tb);
        assert(a =~= b) by {
            assert forall|k: int| 0 <= k < a.len() implies a[k] == b[k] by {
                if k > 0 {
                    assert(ta[k - 1] == tb[k - 1]);
                }
            }
        }
    }
}

/// Membership in a table's tail, given distinct names: a name other than
/// the head's occurs in the tail exactly when it occurs at all.
proof fn lemma_tail_has_name(s: Seq<(Seq<char>, u64)>, n: Seq<char>)
    requires
        s.len() > 0,
        distinct_names(s),
    ensures
        has_name(s.drop_first(), n) ==> s[0].0 != n && has_name(s, n),
        has_name(s, n) && s[0].0 != n ==> has_name(s.drop_first(), n),
{
    if has_name(s.drop_first(), n) {
        let k = choose|k: int| 0 <= k < s.drop_first().len() && s.drop_first()[k].0 == n;
        assert(s[k + 1].0 == n);
        assert(s[0].0 != s[k + 1].0);
    }
    if has_name(s, n) && s[0].0 != n {
        let k = choose|k: int| 0 <= k < s.len() && s[k].0 == n;
        assert(s.drop_first()[k - 1].0 == n);
    }
}

pub proof fn lemma_count_of_push_other(s: Seq<(Seq<char>, u64)>, e: (Seq<char>, u64), n: Seq<char>)
    requires
        e.0 != n,
    ensures
        count_of(s.push(e), n) == count_of(s, n),
    decreases s.len(),
{
    if s.len() == 0 {
        assert(s.push(e).drop_first() =~= Seq::<(Seq<char>, u64)>::empty());
        assert(count_of(Seq::<(Seq<char>, u64)>::empty(), n) == 0);
    } else {
        assert(s.push(e).drop_first() =~= s.drop_first().push(e));
        lemma_count_of_push_other(s.drop_first(), e, n);
    }
}

} // verus!
