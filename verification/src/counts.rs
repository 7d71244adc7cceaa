//! Executable counting-table primitives shared by both storage variants:
//! character-exact string comparison, per-participant tallying of raw
//! events, and the ranked (insertion) sort proved equal to `rank_spec`.

use vstd::prelude::*;

use crate::format::{Data, data_pairs};
use crate::model::{
    count_occ, count_of, distinct_names, has_name, insert_ranked, lemma_count_occ_bounds,
    lemma_count_occ_exists, lemma_count_occ_push, lemma_count_of_absent, lemma_count_of_at_index,
    lemma_count_of_push_other, lemma_count_unchanged_update, lemma_insert_ranked_split,
    lemma_sum_nonneg, lemma_sum_push, lemma_sum_split, lemma_sum_update, lex_lt, rank_before,
    rank_spec, sum_counts,
};

verus! {

/// One participant's tally within one group.
pub struct ParticipantCount {
    pub name: String,
    pub count: u64,
}

impl View for ParticipantCount {
    type V = (Seq<char>, u64);

    open spec fn view(&self) -> (Seq<char>, u64) {
        (self.name@, self.count)
    }
}

/// The abstract `(name, count)` pairs of a tally vector.
pub open spec fn pc_pairs(s: Seq<ParticipantCount>) -> Seq<(Seq<char>, u64)> {
    Seq::new(s.len(), |i: int| s[i]@)
}

/// The abstract names of a vector of raw event rows.
pub open spec fn name_seq(rows: Seq<String>) -> Seq<Seq<char>> {
    Seq::new(rows.len(), |i: int| rows[i]@)
}

/// Character-exact string equality.
pub fn str_eq_check(a: &str, b: &str) -> (r: bool)
    ensures
        r == (a@ == b@),
{
    let la = a.unicode_len();
    let lb = b.unicode_len();
    if la != lb {
        return false;
    }
    let mut i: usize = 0;
    while i < la
        invariant
            i <= la,
            la == a@.len(),
            lb == b@.len(),
            la == lb,
            forall|k: int| 0 <= k < i ==> a@[k] == b@[k],
        decreases la - i,
    {
        if a.get_char(i) != b.get_char(i) {
            return false;
        }
        i += 1;
    }
    proof {
        assert(a@ =~= b@);
    }
    true
}

/// Character-exact lexicographic comparison, matching `lex_lt`.
pub fn str_lex_lt(a: &str, b: &str) -> (r: bool)
    ensures
        r == lex_lt(a@, b@),
{
    let la = a.unicode_len();
    let lb = b.unicode_len();
    let mut i: usize = 0;
    proof {
        assert(a@.skip(0) =~= a@);
        assert(b@.skip(0) =~= b@);
    }
    while i < la && i < lb
        invariant
            i <= la,
            i <= lb,
            la == a@.len(),
            lb == b@.len(),
            lex_lt(a@, b@) == lex_lt(a@.skip(i as int), b@.skip(i as int)),
        decreases la - i,
    {
        let ca = a.get_char(i);
        let cb = b.get_char(i);
        proof {
            let sa = a@.skip(i as int);
            let sb = b@.skip(i as int);
            assert(sa[0] == a@[i as int]);
            assert(sb[0] == b@[i as int]);
            assert(sa.drop_first() =~= a@.skip(i as int + 1));
            assert(sb.drop_first() =~= b@.skip(i as int + 1));
        }
        if ca != cb {
            return (ca as u32) < (cb as u32);
        }
        i += 1;
    }
    if i < lb {
        proof {
            assert(a@.skip(i as int).len() == 0);
            assert(b@.skip(i as int).len() > 0);
        }
        true
    } else {
        proof {
            assert(b@.skip(i as int).len() == 0);
        }
        false
    }
}

/// Index of `name` in the tally, if present.
pub fn find_name(v: &Vec<ParticipantCount>, name: &str) -> (r: Option<usize>)
    ensures
        match r {
            Some(j) => j < v@.len() && pc_pairs(v@)[j as int].0 == name@,
            None => !has_name(pc_pairs(v@), name@),
        },
{
    let mut j: usize = 0;
    while j < v.len()
        invariant
            j <= v@.len(),
            forall|k: int| 0 <= k < j ==> pc_pairs(v@)[k].0 != name@,
        decreases v@.len() - j,
    {
        if str_eq_check(v[j].name.as_str(), name) {
            return Some(j);
        }
        j += 1;
    }
    None
}

/// Sum of the tallied counts; the caller knows it fits in a `u64`.
pub fn sum_tallies(v: &Vec<ParticipantCount>) -> (r: u64)
    requires
        sum_counts(pc_pairs(v@)) <= u64::MAX as int,
    ensures
        r as int == sum_counts(pc_pairs(v@)),
{
    let ghost s = pc_pairs(v@);
    let mut acc: u64 = 0;
    let mut k: usize = 0;
    proof {
        assert(s.subrange(0, 0) =~= Seq::<(Seq<char>, u64)>::empty());
    }
    while k < v.len()
        invariant
            k <= v@.len(),
            s == pc_pairs(v@),
            sum_counts(s) <= u64::MAX as int,
            acc as int == sum_counts(s.subrange(0, k as int)),
        decreases v@.len() - k,
    {
        proof {
            lemma_sum_split(s, k as int + 1);
            lemma_sum_nonneg(s.subrange(k as int + 1, s.len() as int));
            assert(s.subrange(0, k as int + 1) =~= s.subrange(0, k as int).push(s[k as int]));
            lemma_sum_push(s.subrange(0, k as int), s[k as int]);
        }
        acc = acc + v[k].count;
        k += 1;
    }
    proof {
        assert(s.subrange(0, s.len() as int) =~= s);
    }
    acc
}

/// Tally raw event rows into one count per distinct participant name.
///
/// The result is exact: each name's count equals its number of occurrences
/// among the rows, names are distinct, and the counts sum to the number of
/// rows.
pub fn tally(rows: &Vec<String>) -> (out: Vec<ParticipantCount>)
    ensures
        distinct_names(pc_pairs(out@)),
        forall|n: Seq<char>| #[trigger]
            count_of(pc_pairs(out@), n) == count_occ(name_seq(rows@), n),
        forall|i: int| 0 <= i < out@.len() ==> (#[trigger] pc_pairs(out@)[i]).1 >= 1,
        sum_counts(pc_pairs(out@)) == rows@.len() as int,
        forall|n: Seq<char>|
            has_name(pc_pairs(out@), n) <==> count_occ(name_seq(rows@), n) > 0,
{
    let ghost names = name_seq(rows@);
    let mut out: Vec<ParticipantCount> = Vec::new();
    let mut r: usize = 0;
    proof {
        assert(names.subrange(0, 0) =~= Seq::<Seq<char>>::empty());
        assert(pc_pairs(out@) =~= Seq::<(Seq<char>, u64)>::empty());
    }
    while r < rows.len()
        invariant
            r <= rows@.len(),
            names == name_seq(rows@),
            distinct_names(pc_pairs(out@)),
            forall|n: Seq<char>| #[trigger]
                count_of(pc_pairs(out@), n) == count_occ(names.subrange(0, r as int), n),
            forall|i: int| 0 <= i < out@.len() ==> (#[trigger] pc_pairs(out@)[i]).1 >= 1,
            sum_counts(pc_pairs(out@)) == r as int,
        decreases rows@.len() - r,
    {
        let ghost pre = names.subrange(0, r as int);
        let ghost old_pairs = pc_pairs(out@);
        let nm = &rows[r];
        proof {
            assert(names.subrange(0, r as int + 1) =~= pre.push(nm@));
        }
        match find_name(&out, nm.as_str()) {
            Some(j) => {
                proof {
                    lemma_count_of_at_index(old_pairs, nm@, j as int);
                    lemma_count_occ_bounds(pre, nm@);
                }
                let pc = out.remove(j);
                let newc = pc.count + 1;
                out.insert(j, ParticipantCount { name: pc.name, count: newc });
                proof {
                    assert(pc_pairs(out@) =~= old_pairs.update(j as int, (nm@, newc)));
                    lemma_sum_update(old_pairs, j as int, (nm@, newc));
                    assert(distinct_names(pc_pairs(out@)));
                    lemma_count_of_at_index(pc_pairs(out@), nm@, j as int);
                    assert forall|n: Seq<char>| #[trigger] count_of(pc_pairs(out@), n)
                        == count_occ(names.subrange(0, r as int + 1), n) by {
                        lemma_count_occ_push(pre, nm@, n);
                        if n != nm@ {
                            lemma_count_unchanged_update(old_pairs, j as int, (nm@, newc), n);
                        }
                    }
                }
            },
            None => {
                proof {
                    lemma_count_occ_exists(pre, nm@);
                    if count_occ(pre, nm@) > 0 {
                        let i = choose|i: int| 0 <= i < pre.len() && pre[i] == nm@;
                        assert(count_of(old_pairs, nm@) == count_occ(pre, nm@));
                        lemma_count_of_absent(old_pairs, nm@);
                    }
                }
                let fresh = nm.clone();
                out.push(ParticipantCount { name: fresh, count: 1 });
                proof {
                    assert(pc_pairs(out@) =~= old_pairs.push((nm@, 1u64)));
                    lemma_sum_push(old_pairs, (nm@, 1u64));
                    assert(distinct_names(pc_pairs(out@))) by {
                        assert forall|a: int, b: int|
                            0 <= a < b < pc_pairs(out@).len() implies pc_pairs(out@)[a].0
                            != pc_pairs(out@)[b].0 by {
                            if b == old_pairs.len() as int {
                                assert(pc_pairs(out@)[a].0 == old_pairs[a].0);
                                if pc_pairs(out@)[a].0 == nm@ {
                                    assert(has_name(old_pairs, nm@));
                                }
                            }
                        }
                    }
                    lemma_count_of_at_index(pc_pairs(out@), nm@, old_pairs.len() as int);
                    lemma_count_of_absent(old_pairs, nm@);
                    assert forall|n: Seq<char>| #[trigger] count_of(pc_pairs(out@), n)
                        == count_occ(names.subrange(0, r as int + 1), n) by {
                        lemma_count_occ_push(pre, nm@, n);
                        if n != nm@ {
                            lemma_count_of_push_other(old_pairs, (nm@, 1u64), n);
                        }
                    }
                }
            },
        }
        r += 1;
    }
    proof {
        assert(names.subrange(0, names.len() as int) =~= names);
        assert forall|n: Seq<char>|
            has_name(pc_pairs(out@), n) <==> count_occ(names, n) > 0 by {
            if has_name(pc_pairs(out@), n) {
                let i = choose|i: int| 0 <= i < pc_pairs(out@).len() && pc_pairs(out@)[i].0 == n;
                lemma_count_of_at_index(pc_pairs(out@), n, i);
            }
            if !has_name(pc_pairs(out@), n) {
                lemma_count_of_absent(pc_pairs(out@), n);
            }
        }
    }
    out
}

/// Insert one tally into an already ranked vector, keeping it equal to the
/// specification-level insertion.
fn insert_entry(out: &mut Vec<ParticipantCount>, pc: ParticipantCount)
    ensures
        pc_pairs(final(out)@) == insert_ranked(pc@, pc_pairs(old(out)@)),
{
    let ghost s = pc_pairs(out@);
    let ghost x = pc@;
    let mut place: usize = 0;
    let mut done = false;
    while !done
        invariant
            place <= out@.len(),
            s == pc_pairs(out@),
            x == pc@,
            forall|k: int| 0 <= k < place ==> !rank_before(x, #[trigger] s[k]),
            done ==> place == out@.len() || rank_before(x, s[place as int]),
        decreases out@.len() - place + (if done {
            0int
        } else {
            1int
        }),
    {
        if place == out.len() {
            done = true;
        } else {
            let e = &out[place];
            let precede = if pc.count > e.count {
                true
            } else if pc.count == e.count {
                str_lex_lt(pc.name.as_str(), e.name.as_str())
            } else {
                false
            };
            if precede {
                done = true;
            } else {
                place += 1;
            }
        }
    }
    proof {
        lemma_insert_ranked_split(x, s, place as int);
    }
    out.insert(place, pc);
    proof {
        assert(pc_pairs(out@) =~= s.subrange(0, place as int) + seq![x] + s.subrange(
            place as int,
            s.len() as int,
        ));
    }
}

/// Sort a tally by count descending, ties by name ascending; the result is
/// exactly the model's `rank_spec` ordering.
pub fn rank_entries(v: Vec<ParticipantCount>) -> (out: Vec<ParticipantCount>)
    ensures
        pc_pairs(out@) == rank_spec(pc_pairs(v@)),
{
    let ghost s = pc_pairs(v@);
    let mut src = v;
    let mut out: Vec<ParticipantCount> = Vec::new();
    proof {
        assert(pc_pairs(src@) =~= s);
        assert(s.subrange(s.len() as int, s.len() as int) =~= Seq::<(Seq<char>, u64)>::empty());
        assert(pc_pairs(out@) =~= Seq::<(Seq<char>, u64)>::empty());
    }
    while src.len() > 0
        invariant
            src@.len() <= s.len(),
            pc_pairs(src@) == s.subrange(0, src@.len() as int),
            pc_pairs(out@) == rank_spec(s.subrange(src@.len() as int, s.len() as int)),
        decreases src@.len(),
    {
        let ghost old_src = src@;
        let ghost i = src@.len() as int;
        let pc = src.pop().unwrap();
        proof {
            assert(pc == old_src.last());
            assert(pc@ == pc_pairs(old_src)[i - 1]);
            assert(pc@ == s[i - 1]);
            assert(pc_pairs(src@) =~= s.subrange(0, i - 1));
            let tail = s.subrange(i, s.len() as int);
            let ext = s.subrange(i - 1, s.len() as int);
            assert(ext[0] == s[i - 1]);
            assert(ext.drop_first() =~= tail);
            assert(rank_spec(ext) == insert_ranked(s[i - 1], rank_spec(tail)));
        }
        insert_entry(&mut out, pc);
    }
    proof {
        assert(s.subrange(0, s.len() as int) =~= s);
    }
    out
}

/// Turn tallies into distribution entries that all carry the same total.
pub fn entries_with_total(src: &Vec<ParticipantCount>, total: u64) -> (out: Vec<Data>)
    ensures
        out@.len() == src@.len(),
        forall|i: int|
            0 <= i < out@.len() ==> (#[trigger] out@[i])@ == (
                src@[i]@.0,
                src@[i]@.1,
                total,
            ),
        data_pairs(out@) == pc_pairs(src@),
{
    let mut out: Vec<Data> = Vec::new();
    let mut k: usize = 0;
    while k < src.len()
        invariant
            k <= src@.len(),
            out@.len() == k,
            forall|i: int|
                0 <= i < k ==> (#[trigger] out@[i])@ == (src@[i]@.0, src@[i]@.1, total),
        decreases src@.len() - k,
    {
        let e = &src[k];
        out.push(Data { username: e.name.clone(), count: e.count, total });
        k += 1;
    }
    proof {
        assert(data_pairs(out@) =~= pc_pairs(src@));
    }
    out
}

} // verus!
