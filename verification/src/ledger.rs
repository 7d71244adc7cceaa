//! The in-memory storage variant: an explicitly owned nested counting
//! table (group key, then participant name) behind the ledger facade.
//!
//! Every operation's contract is stated over the abstract view: a sequence
//! of `(group, (name, count) table)` pairs (see [`crate::model`]).

use vstd::prelude::*;

use crate::LedgerError;
use crate::counts::{ParticipantCount, entries_with_total, find_name, pc_pairs, rank_entries, sum_tallies};
use crate::format::{Data, data_pairs, percent2, render_decorated, render_ranked, with_total};
use crate::model::{
    count_of, counts_of, distinct_groups, has_group, has_name, hundredths, lemma_count_of_absent,
    lemma_count_of_at_index, lemma_counts_group_push, lemma_counts_group_update,
    lemma_counts_of_absent_group, lemma_counts_of_at_index, lemma_record_one,
    lemma_sum_entry_le, rank_spec, record_one, sum_counts, total_of, wf_counts, wf_view,
};

verus! {

struct GroupCounts {
    group: i64,
    counts: Vec<ParticipantCount>,
}

/// The in-memory activity ledger: one owned counting table per process,
/// constructed once and handed to whatever component records or queries
/// message activity.
pub struct Ledger {
    groups: Vec<GroupCounts>,
}

impl View for Ledger {
    type V = Seq<(int, Seq<(Seq<char>, u64)>)>;

    closed spec fn view(&self) -> Seq<(int, Seq<(Seq<char>, u64)>)> {
        Seq::new(
            self.groups@.len(),
            |i: int| (self.groups@[i].group as int, pc_pairs(self.groups@[i].counts@)),
        )
    }
}

impl Ledger {
    /// Structural invariant: distinct groups, distinct participants with
    /// positive counts, every group total within `u64` range.
    pub closed spec fn wf(&self) -> bool {
        wf_view(self@)
    }

    /// A fresh ledger with no recorded activity.
    pub fn new() -> (r: Ledger)
        ensures
            r.wf(),
            r@ == Seq::<(int, Seq<(Seq<char>, u64)>)>::empty(),
    {
        let r = Ledger { groups: Vec::new() };
        proof {
            assert(r@ =~= Seq::<(int, Seq<(Seq<char>, u64)>)>::empty());
        }
        r
    }

    fn find_group(&self, group: i64) -> (r: Option<usize>)
        ensures
            match r {
                Some(j) => j < self@.len() && self@[j as int].0 == group as int,
                None => !has_group(self@, group as int),
            },
    {
        let mut j: usize = 0;
        while j < self.groups.len()
            invariant
                j <= self@.len(),
                self@.len() == self.groups@.len(),
                forall|k: int| 0 <= k < j ==> (#[trigger] self@[k]).0 != group as int,
            decreases self@.len() - j,
        {
            if self.groups[j].group == group {
                return Some(j);
            }
            j += 1;
        }
        None
    }

    /// Record one message from `participant` in `group`.
    ///
    /// Rejects an empty participant identity with `InvalidInput` and leaves
    /// the ledger unchanged; otherwise the participant's count (and only
    /// that count) grows by exactly one, so the group total grows by
    /// exactly one and every other group is untouched.
    pub fn record_message(&mut self, group: i64, participant: &str) -> (r: Result<
        (),
        LedgerError,
    >)
        requires
            old(self).wf(),
            total_of(old(self)@, group as int) < u64::MAX as int,
        ensures
            final(self).wf(),
            r is Ok <==> participant@.len() > 0,
            match r {
                Ok(()) => {
                    &&& counts_of(final(self)@, group as int) == record_one(
                        counts_of(old(self)@, group as int),
                        participant@,
                    )
                    &&& total_of(final(self)@, group as int) == total_of(
                        old(self)@,
                        group as int,
                    ) + 1
                    &&& has_group(final(self)@, group as int)
                    &&& forall|h: int|
                        h != group as int ==> #[trigger] counts_of(final(self)@, h) == counts_of(
                            old(self)@,
                            h,
                        )
                    &&& forall|h: int|
                        h != group as int ==> #[trigger] has_group(final(self)@, h) == has_group(
                            old(self)@,
                            h,
                        )
                },
                Err(e) => e == LedgerError::InvalidInput && final(self)@ == old(self)@,
            },
    {
        if participant.is_empty() {
            return Err(LedgerError::InvalidInput);
        }
        let ghost v0 = self@;
        let ghost g = group as int;
        let ghost cs = counts_of(v0, g);
        match self.find_group(group) {
            Some(j) => {
                proof {
                    lemma_counts_of_at_index(v0, g, j as int);
                    assert(wf_counts(cs));
                }
                let mut gc = self.groups.remove(j);
                proof {
                    assert(pc_pairs(gc.counts@) == cs);
                }
                match find_name(&gc.counts, participant) {
                    Some(k) => {
                        proof {
                            lemma_count_of_at_index(cs, participant@, k as int);
                            lemma_sum_entry_le(cs, k as int);
                        }
                        let pc = gc.counts.remove(k);
                        let newc = pc.count + 1;
                        gc.counts.insert(k, ParticipantCount { name: pc.name, count: newc });
                        proof {
                            assert(pc_pairs(gc.counts@) =~= cs.update(
                                k as int,
                                (participant@, newc),
                            ));
                            assert(record_one(cs, participant@) == cs.update(
                                k as int,
                                (participant@, newc),
                            ));
                        }
                    },
                    None => {
                        proof {
                            lemma_count_of_absent(cs, participant@);
                        }
                        gc.counts.push(ParticipantCount { name: participant.to_owned(), count: 1 });
                        proof {
                            assert(pc_pairs(gc.counts@) =~= cs.push((participant@, 1u64)));
                        }
                    },
                }
                proof {
                    lemma_record_one(cs, participant@);
                }
                self.groups.insert(j, gc);
                proof {
                    let e = (g, record_one(cs, participant@));
                    assert(self@ =~= v0.update(j as int, e));
                    assert forall|h: int|
                        h != g implies #[trigger] counts_of(self@, h) == counts_of(v0, h) by {
                        lemma_counts_group_update(v0, j as int, e, h);
                    }
                    assert forall|h: int|
                        h != g implies #[trigger] has_group(self@, h) == has_group(v0, h) by {
                        lemma_counts_group_update(v0, j as int, e, h);
                    }
                    lemma_counts_group_update(v0, j as int, e, g);
                    assert(counts_of(self@, g) == record_one(cs, participant@));
                    assert(has_group(self@, g));
                    assert(wf_view(self@)) by {
                        assert forall|i: int| 0 <= i < self@.len() implies {
                            &&& wf_counts((#[trigger] self@[i]).1)
                            &&& self@[i].1.len() >= 1
                            &&& sum_counts(self@[i].1) <= u64::MAX as int
                        } by {
                            if i != j as int {
                                assert(self@[i] == v0[i]);
                            }
                        }
                    }
                }
                Ok(())
            },
            None => {
                proof {
                    lemma_counts_of_absent_group(v0, g);
                    assert(sum_counts(Seq::<(Seq<char>, u64)>::empty()) == 0);
                }
                let mut counts: Vec<ParticipantCount> = Vec::new();
                counts.push(ParticipantCount { name: participant.to_owned(), count: 1 });
                proof {
                    assert(pc_pairs(counts@) =~= seq![(participant@, 1u64)]);
                }
                self.groups.push(GroupCounts { group, counts });
                proof {
                    let e = (g, seq![(participant@, 1u64)]);
                    assert(self@ =~= v0.push(e));
                    assert(record_one(cs, participant@) =~= seq![(participant@, 1u64)]);
                    assert forall|h: int|
                        h != g implies #[trigger] counts_of(self@, h) == counts_of(v0, h) by {
                        lemma_counts_group_push(v0, e, h);
                    }
                    assert forall|h: int|
                        h != g implies #[trigger] has_group(self@, h) == has_group(v0, h) by {
                        lemma_counts_group_push(v0, e, h);
                    }
                    lemma_counts_group_push(v0, e, g);
                    assert(counts_of(self@, g) == record_one(cs, participant@));
                    assert(has_group(self@, g));
                    assert(sum_counts(seq![(participant@, 1u64)]) == 1) by {
                        assert(seq![(participant@, 1u64)].drop_first() =~= Seq::<
                            (Seq<char>, u64),
                        >::empty());
                        assert(sum_counts(Seq::<(Seq<char>, u64)>::empty()) == 0);
                    }
                    assert(wf_view(self@)) by {
                        assert(distinct_groups(self@)) by {
                            assert forall|a: int, b: int|
                                0 <= a < b < self@.len() implies self@[a].0 != self@[b].0 by {
                                if b == v0.len() as int {
                                    assert(self@[a] == v0[a]);
                                    if self@[a].0 == g {
                                        assert(has_group(v0, g));
                                    }
                                } else {
                                    assert(self@[a] == v0[a] && self@[b] == v0[b]);
                                }
                            }
                        }
                        assert forall|i: int| 0 <= i < self@.len() implies {
                            &&& wf_counts((#[trigger] self@[i]).1)
                            &&& self@[i].1.len() >= 1
                            &&& sum_counts(self@[i].1) <= u64::MAX as int
                        } by {
                            if i < v0.len() as int {
                                assert(self@[i] == v0[i]);
                            } else {
                                assert(self@[i].1 =~= seq![(participant@, 1u64)]);
                            }
                        }
                    }
                }
                Ok(())
            },
        }
    }

    /// Sum of all counts in `group`; `NotFound` (never zero) when the group
    /// has no recorded activity.
    pub fn group_total(&self, group: i64) -> (r: Result<u64, LedgerError>)
        requires
            self.wf(),
        ensures
            match r {
                Ok(t) => has_group(self@, group as int) && t as int == total_of(
                    self@,
                    group as int,
                ) && t >= 1,
                Err(e) => e == LedgerError::NotFound && !has_group(self@, group as int)
                    && total_of(self@, group as int) == 0,
            },
    {
        match self.find_group(group) {
            Some(j) => {
                proof {
                    lemma_counts_of_at_index(self@, group as int, j as int);
                    lemma_sum_entry_le(counts_of(self@, group as int), 0);
                }
                let t = sum_tallies(&self.groups[j].counts);
                Ok(t)
            },
            None => {
                proof {
                    lemma_counts_of_absent_group(self@, group as int);
                    assert(sum_counts(Seq::<(Seq<char>, u64)>::empty()) == 0);
                }
                Err(LedgerError::NotFound)
            },
        }
    }

    /// The percentage distribution of `group`, one entry per participant in
    /// table order; `NotFound` when the group has no recorded activity, so
    /// a share is never computed against a zero total.
    pub fn percent_distribution(&self, group: i64) -> (r: Result<Vec<Data>, LedgerError>)
        requires
            self.wf(),
        ensures
            r is Ok <==> has_group(self@, group as int),
            match r {
                Ok(v) => {
                    &&& data_pairs(v@) == counts_of(self@, group as int)
                    &&& forall|i: int|
                        0 <= i < v@.len() ==> (#[trigger] v@[i])@.2 as int == total_of(
                            self@,
                            group as int,
                        )
                    &&& sum_counts(data_pairs(v@)) == total_of(self@, group as int)
                },
                Err(e) => e == LedgerError::NotFound,
            },
    {
        match self.find_group(group) {
            Some(j) => {
                proof {
                    lemma_counts_of_at_index(self@, group as int, j as int);
                }
                let total = sum_tallies(&self.groups[j].counts);
                let v = entries_with_total(&self.groups[j].counts, total);
                proof {
                    assert(data_pairs(v@) =~= counts_of(self@, group as int));
                }
                Ok(v)
            },
            None => Err(LedgerError::NotFound),
        }
    }

    /// The ranked distribution of `group`: percentage (count) descending,
    /// ties broken by ascending participant name; `NotFound` when the group
    /// has no recorded activity.
    pub fn ranked(&self, group: i64) -> (r: Result<Vec<Data>, LedgerError>)
        requires
            self.wf(),
        ensures
            r is Ok <==> has_group(self@, group as int),
            match r {
                Ok(v) => {
                    &&& data_pairs(v@) == rank_spec(counts_of(self@, group as int))
                    &&& forall|i: int|
                        0 <= i < v@.len() ==> (#[trigger] v@[i])@.2 as int == total_of(
                            self@,
                            group as int,
                        )
                },
                Err(e) => e == LedgerError::NotFound,
            },
    {
        match self.find_group(group) {
            Some(j) => {
                proof {
                    lemma_counts_of_at_index(self@, group as int, j as int);
                }
                let total = sum_tallies(&self.groups[j].counts);
                let copy = copy_tallies(&self.groups[j].counts);
                let sorted = rank_entries(copy);
                let v = entries_with_total(&sorted, total);
                proof {
                    assert(data_pairs(v@) =~= rank_spec(counts_of(self@, group as int)));
                }
                Ok(v)
            },
            None => Err(LedgerError::NotFound),
        }
    }

    /// One participant's share of `group`; `NotFound` when the group is
    /// absent or the participant has no messages in it.
    pub fn percent_for(&self, group: i64, participant: &str) -> (r: Result<Data, LedgerError>)
        requires
            self.wf(),
        ensures
            r is Ok <==> has_group(self@, group as int) && has_name(
                counts_of(self@, group as int),
                participant@,
            ),
            match r {
                Ok(d) => {
                    &&& d@.0 == participant@
                    &&& d@.1 as int == count_of(counts_of(self@, group as int), participant@)
                    &&& d@.2 as int == total_of(self@, group as int)
                },
                Err(e) => e == LedgerError::NotFound,
            },
    {
        match self.find_group(group) {
            Some(j) => {
                proof {
                    lemma_counts_of_at_index(self@, group as int, j as int);
                }
                match find_name(&self.groups[j].counts, participant) {
                    Some(k) => {
                        proof {
                            lemma_count_of_at_index(
                                counts_of(self@, group as int),
                                participant@,
                                k as int,
                            );
                        }
                        let total = sum_tallies(&self.groups[j].counts);
                        let e = &self.groups[j].counts[k];
                        Ok(Data { username: e.name.clone(), count: e.count, total })
                    },
                    None => Err(LedgerError::NotFound),
                }
            },
            None => Err(LedgerError::NotFound),
        }
    }

    /// The decorated ranked rendering of `group` (medal markers on the top
    /// three, closing tag line); `NotFound` when the group is absent.
    pub fn group_distribution_text(&self, group: i64) -> (r: Result<String, LedgerError>)
        requires
            self.wf(),
        ensures
            r is Ok <==> has_group(self@, group as int),
            match r {
                Ok(s) => s@ == render_decorated(
                    with_total(
                        rank_spec(counts_of(self@, group as int)),
                        total_of(self@, group as int),
                    ),
                ),
                Err(e) => e == LedgerError::NotFound,
            },
    {
        match self.ranked(group) {
            Ok(v) => {
                let s = render_ranked(&v);
                proof {
                    assert(crate::format::data_views(v@) =~= with_total(
                        rank_spec(counts_of(self@, group as int)),
                        total_of(self@, group as int),
                    ));
                }
                Ok(s)
            },
            Err(e) => Err(e),
        }
    }

    /// One participant's share of `group` as a percentage string with two
    /// decimal places and a percent sign, e.g. `14.29%`.
    pub fn participant_share_text(&self, group: i64, participant: &str) -> (r: Result<
        String,
        LedgerError,
    >)
        requires
            self.wf(),
        ensures
            r is Ok <==> has_group(self@, group as int) && has_name(
                counts_of(self@, group as int),
                participant@,
            ),
            match r {
                Ok(s) => s@ == percent2(
                    hundredths(
                        count_of(counts_of(self@, group as int), participant@),
                        total_of(self@, group as int),
                    ),
                ) + "%"@,
                Err(e) => e == LedgerError::NotFound,
            },
    {
        match self.percent_for(group, participant) {
            Ok(d) => {
                proof {
                    let k = choose|k: int| 0 <= k < self@.len() && self@[k].0 == group as int;
                    lemma_counts_of_at_index(self@, group as int, k);
                    let cs = counts_of(self@, group as int);
                    assert(wf_counts(cs));
                    let i = choose|i: int| 0 <= i < cs.len() && cs[i].0 == participant@;
                    lemma_count_of_at_index(cs, participant@, i);
                    lemma_sum_entry_le(cs, i);
                    lemma_sum_entry_le(cs, 0);
                    assert(crate::format::share_of(d@) == hundredths(
                        d@.1 as int,
                        d@.2 as int,
                    ));
                }
                let mut s = d.percent_str();
                s.append("%");
                Ok(s)
            },
            Err(e) => Err(e),
        }
    }

    /// A stable snapshot of `group`'s raw `(participant, count)` rows, for
    /// bulk export; entries recorded after the snapshot are not reflected.
    pub fn export_rows(&self, group: i64) -> (r: Result<Vec<(String, u64)>, LedgerError>)
        requires
            self.wf(),
        ensures
            r is Ok <==> has_group(self@, group as int),
            match r {
                Ok(v) => v@.len() == counts_of(self@, group as int).len() && forall|i: int|
                    0 <= i < v@.len() ==> ((#[trigger] v@[i]).0@, v@[i].1) == counts_of(
                        self@,
                        group as int,
                    )[i],
                Err(e) => e == LedgerError::NotFound,
            },
    {
        match self.find_group(group) {
            Some(j) => {
                proof {
                    lemma_counts_of_at_index(self@, group as int, j as int);
                }
                let src = &self.groups[j].counts;
                let mut v: Vec<(String, u64)> = Vec::new();
                let mut k: usize = 0;
                while k < src.len()
                    invariant
                        k <= src@.len(),
                        v@.len() == k,
                        forall|i: int|
                            0 <= i < k ==> ((#[trigger] v@[i]).0@, v@[i].1) == pc_pairs(src@)[i],
                    decreases src@.len() - k,
                {
                    let e = &src[k];
                    v.push((e.name.clone(), e.count));
                    k += 1;
                }
                Ok(v)
            },
            None => Err(LedgerError::NotFound),
        }
    }
}

/// Copy a tally vector (names cloned, counts kept).
fn copy_tallies(src: &Vec<ParticipantCount>) -> (out: Vec<ParticipantCount>)
    ensures
        pc_pairs(out@) == pc_pairs(src@),
{
    let mut out: Vec<ParticipantCount> = Vec::new();
    let mut k: usize = 0;
    while k < src.len()
        invariant
            k <= src@.len(),
            out@.len() == k,
            forall|i: int| 0 <= i < k ==> (#[trigger] out@[i])@ == src@[i]@,
        decreases src@.len() - k,
    {
        let e = &src[k];
        out.push(ParticipantCount { name: e.name.clone(), count: e.count });
        k += 1;
    }
    proof {
        assert(pc_pairs(out@) =~= pc_pairs(src@));
    }
    out
}

} // verus!
