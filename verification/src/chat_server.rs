//! The durable storage variant: an append-only SQLite event log (one row
//! per observed message), with statistics derived from the rows at read
//! time. Only the SQL calls themselves are trusted; tallying, ranking and
//! rendering run through the same verified engine as the in-memory ledger.

use vstd::prelude::*;

use crate::LedgerError;
use crate::counts::{
    ParticipantCount, entries_with_total, find_name, name_seq, pc_pairs, rank_entries, tally,
};
use crate::format::{
    Data, data_views, percent2, render_decorated, render_ranked, share_of,
};
use crate::model::{
    count_occ, count_of, distinct_names, has_name, hundredths, lemma_count_occ_bounds,
    lemma_count_occ_exists, lemma_count_of_absent, lemma_count_of_at_index,
    lemma_counts_give_distinct, lemma_distinct_count_name, lemma_has_name_count_name,
    lemma_rank_spec_count_name, lemma_rank_spec_count_occ, lemma_rank_spec_len,
    lemma_rank_spec_sorted, lemma_rank_spec_sum, lemma_sorted_counts_unique, sorted_ranked,
    sum_counts,
};
use vstd::multiset::Multiset;

verus! {

#[verifier::external_type_specification]
#[verifier::external_body]
pub struct ExConnection(rusqlite::Connection);

#[verifier::external_type_specification]
#[verifier::external_body]
pub struct ExSqlError(rusqlite::Error);

/// The contents of a connection's `message_records` table, as a multiset
/// of `(group, participant)` events (empty if the table does not exist).
/// SQLite reports rows in no promised order, so no sequence is claimed.
pub uninterp spec fn log_of(c: rusqlite::Connection) -> Multiset<(int, Seq<char>)>;

/// The predicate that an event belongs to group `g`.
pub open spec fn group_pred(g: int) -> spec_fn((int, Seq<char>)) -> bool {
    |p: (int, Seq<char>)| p.0 == g
}

/// Number of logged events of group `g`.
pub open spec fn group_size(m: Multiset<(int, Seq<char>)>, g: int) -> int {
    m.filter(group_pred(g)).len() as int
}

/// An empty log holds no events of any group.
pub proof fn lemma_group_size_empty(g: int)
    ensures
        group_size(Multiset::<(int, Seq<char>)>::empty(), g) == 0,
{
    broadcast use vstd::multiset::group_multiset_axioms;

    let f = group_pred(g);
    let m = Multiset::<(int, Seq<char>)>::empty();
    assert(m.filter(f) =~= m);
}

/// One appended event grows exactly its own group's size by one: this
/// connects `store_msg`'s log update to every total and distribution a
/// caller reads afterwards.
pub proof fn lemma_group_size_insert(m: Multiset<(int, Seq<char>)>, e: (int, Seq<char>), g: int)
    ensures
        group_size(m.insert(e), g) == group_size(m, g) + (if e.0 == g {
            1int
        } else {
            0int
        }),
{
    broadcast use vstd::multiset::group_multiset_axioms;

    let f = group_pred(g);
    if e.0 == g {
        assert(m.insert(e).filter(f) =~= m.filter(f).insert(e));
        assert(m.filter(f).insert(e).len() == m.filter(f).len() + 1);
    } else {
        assert(m.insert(e).filter(f) =~= m.filter(f));
    }
}

/// Relies on rusqlite::Connection::open_in_memory: a fresh in-memory
/// database holds no tables, hence no logged events.
#[verifier::external_body]
fn open_memory_conn() -> (r: Result<rusqlite::Connection, rusqlite::Error>)
    ensures
        r matches Ok(c) ==> log_of(c) == Multiset::<(int, Seq<char>)>::empty(),
{
    rusqlite::Connection::open_in_memory()
}

/// Relies on rusqlite::Connection::open: the database file at `path` is
/// opened (or created); its prior contents are whatever is on disk, so
/// nothing is claimed about the log.
#[verifier::external_body]
fn open_file_conn(path: &str) -> (r: Result<rusqlite::Connection, rusqlite::Error>) {
    rusqlite::Connection::open(path)
}

/// Relies on rusqlite::Connection::execute running `CREATE TABLE IF NOT
/// EXISTS`: creating an (empty) event table adds no rows, and on failure
/// SQLite leaves the database unchanged.
#[verifier::external_body]
fn create_event_table(conn: &mut rusqlite::Connection) -> (r: Result<(), rusqlite::Error>)
    ensures
        log_of(*final(conn)) == log_of(*old(conn)),
{
    let sql = "CREATE TABLE IF NOT EXISTS message_records (
        group_id INTEGER NOT NULL,
        username TEXT NOT NULL,
        observed_at TEXT NOT NULL DEFAULT CURRENT_TIMESTAMP)";
    match conn.execute(sql, ()) {
        Ok(_) => Ok(()),
        Err(e) => Err(e),
    }
}

/// Relies on rusqlite::Connection::execute running a single-row INSERT:
/// on success exactly the one event row is added; a failed statement
/// changes nothing (SQLite statements are atomic).
#[verifier::external_body]
fn insert_event(conn: &mut rusqlite::Connection, group: i64, user: &str) -> (r: Result<
    (),
    rusqlite::Error,
>)
    ensures
        r is Ok ==> log_of(*final(conn)) == log_of(*old(conn)).insert((group as int, user@)),
        r is Err ==> log_of(*final(conn)) == log_of(*old(conn)),
{
    let sql = "INSERT INTO message_records(group_id, username) VALUES (?1, ?2)";
    match conn.execute(sql, (group, user)) {
        Ok(_) => Ok(()),
        Err(e) => Err(e),
    }
}

/// Relies on rusqlite::Connection::query_row running `SELECT count(*)`
/// with a group filter: the result is the number of rows of that group.
#[verifier::external_body]
fn count_events(conn: &rusqlite::Connection, group: i64) -> (r: Result<i64, rusqlite::Error>)
    ensures
        r matches Ok(n) ==> n as int == group_size(log_of(*conn), group as int) && n >= 0,
{
    let sql = "SELECT count(*) FROM message_records WHERE group_id = ?1";
    conn.query_row(sql, (group,), |row| row.get(0))
}

/// Relies on rusqlite::Statement::query_map running `SELECT username`
/// with a group filter: one row comes back per logged event of the group
/// (in no promised order), so each name occurs exactly as often as the
/// log holds events for it.
#[verifier::external_body]
fn select_group_events(conn: &rusqlite::Connection, group: i64) -> (r: Result<
    Vec<String>,
    rusqlite::Error,
>)
    ensures
        r matches Ok(v) ==> {
            &&& forall|n: Seq<char>| #[trigger]
                count_occ(name_seq(v@), n) == log_of(*conn).count((group as int, n))
            &&& v@.len() as int == group_size(log_of(*conn), group as int)
        },
{
    let sql = "SELECT username FROM message_records WHERE group_id = ?1";
    let mut stmt = conn.prepare(sql)?;
    let rows = stmt.query_map((group,), |row| row.get::<usize, String>(0))?;
    let mut out: Vec<String> = Vec::new();
    for r in rows {
        out.push(r?);
    }
    Ok(out)
}

/// A ranked distribution view of group `g` of event log `m`: sorted by
/// count descending (ties by ascending name), one entry per participant
/// with at least one event, each entry carrying its exact event count and
/// the group size as its total. These conditions determine the view
/// uniquely.
pub open spec fn ranked_view_of(
    dv: Seq<(Seq<char>, u64, u64)>,
    m: Multiset<(int, Seq<char>)>,
    g: int,
) -> bool {
    let pairs = Seq::new(dv.len(), |i: int| ((dv[i].0, dv[i].1)));
    &&& sorted_ranked(pairs)
    &&& distinct_names(pairs)
    &&& forall|i: int|
        0 <= i < dv.len() ==> {
            &&& (#[trigger] dv[i]).1 as int == m.count((g, dv[i].0))
            &&& dv[i].1 >= 1
            &&& dv[i].2 as int == group_size(m, g)
        }
    &&& forall|n: Seq<char>| m.count((g, n)) > 0 ==> has_name(pairs, n)
    &&& sum_counts(pairs) == group_size(m, g)
}

/// Ranked read-outs of the durable store are deterministic: any two
/// ranked distribution views of the same event log and group are equal,
/// whatever order the store reported the rows in. Reading twice without
/// an intervening write therefore yields identical output.
pub proof fn lemma_ranked_view_deterministic(
    dv1: Seq<(Seq<char>, u64, u64)>,
    dv2: Seq<(Seq<char>, u64, u64)>,
    m: Multiset<(int, Seq<char>)>,
    g: int,
)
    requires
        ranked_view_of(dv1, m, g),
        ranked_view_of(dv2, m, g),
    ensures
        dv1 == dv2,
{
    let p1 = Seq::new(dv1.len(), |i: int| ((dv1[i].0, dv1[i].1)));
    let p2 = Seq::new(dv2.len(), |i: int| ((dv2[i].0, dv2[i].1)));
    assert forall|n: Seq<char>| has_name(p1, n) <==> has_name(p2, n) by {
        if has_name(p1, n) {
            let i = choose|i: int| 0 <= i < p1.len() && p1[i].0 == n;
            assert(dv1[i].1 as int == m.count((g, n)) && dv1[i].1 >= 1);
        }
        if has_name(p2, n) {
            let i = choose|i: int| 0 <= i < p2.len() && p2[i].0 == n;
            assert(dv2[i].1 as int == m.count((g, n)) && dv2[i].1 >= 1);
        }
    }
    assert forall|n: Seq<char>|
        has_name(p1, n) implies #[trigger] count_of(p1, n) == count_of(p2, n) by {
        let i = choose|i: int| 0 <= i < p1.len() && p1[i].0 == n;
        lemma_count_of_at_index(p1, n, i);
        assert(dv1[i].1 as int == m.count((g, n)));
        assert(has_name(p2, n));
        let j = choose|j: int| 0 <= j < p2.len() && p2[j].0 == n;
        lemma_count_of_at_index(p2, n, j);
        assert(dv2[j].1 as int == m.count((g, n)));
    }
    lemma_sorted_counts_unique(p1, p2);
    assert(dv1 =~= dv2) by {
        assert forall|i: int| 0 <= i < dv1.len() implies dv1[i] == dv2[i] by {
            assert(p1[i] == p2[i]);
            assert(dv1[i].2 as int == group_size(m, g) && dv2[i].2 as int == group_size(m, g));
        }
    }
}

/// The durable chat activity store: statistics over an append-only
/// SQLite event log.
pub struct ChatServer {
    conn: rusqlite::Connection,
}

impl ChatServer {
    /// The abstract event log behind this store.
    pub closed spec fn log(&self) -> Multiset<(int, Seq<char>)> {
        log_of(self.conn)
    }

    /// Open (or create) the database file at `db_path` and make sure the
    /// event table exists. The file's prior events are kept.
    pub fn new(db_path: String) -> (r: Result<ChatServer, LedgerError>)
        ensures
            r is Err ==> r == Err::<ChatServer, LedgerError>(LedgerError::StorageFailure),
    {
        match open_file_conn(db_path.as_str()) {
            Ok(mut conn) => match create_event_table(&mut conn) {
                Ok(()) => Ok(ChatServer { conn }),
                Err(_) => Err(LedgerError::StorageFailure),
            },
            Err(_) => Err(LedgerError::StorageFailure),
        }
    }

    /// A fresh in-memory store with an empty event log.
    pub fn in_memory() -> (r: Result<ChatServer, LedgerError>)
        ensures
            match r {
                Ok(cs) => cs.log() == Multiset::<(int, Seq<char>)>::empty(),
                Err(e) => e == LedgerError::StorageFailure,
            },
    {
        match open_memory_conn() {
            Ok(mut conn) => match create_event_table(&mut conn) {
                Ok(()) => Ok(ChatServer { conn }),
                Err(_) => Err(LedgerError::StorageFailure),
            },
            Err(_) => Err(LedgerError::StorageFailure),
        }
    }

    /// Append one message event from `username` in `chat_id`.
    ///
    /// Rejects an empty identity with `InvalidInput`; on success exactly
    /// one event is added to the log, and a failed write changes nothing.
    pub fn store_msg(&mut self, chat_id: i64, username: &String) -> (r: Result<(), LedgerError>)
        ensures
            r == Err::<(), LedgerError>(LedgerError::InvalidInput) <==> username@.len() == 0,
            match r {
                Ok(()) => final(self).log() == old(self).log().insert(
                    (chat_id as int, username@),
                ),
                Err(e) => final(self).log() == old(self).log() && (e
                    == LedgerError::InvalidInput || e == LedgerError::StorageFailure),
            },
    {
        if username.as_str().is_empty() {
            return Err(LedgerError::InvalidInput);
        }
        match insert_event(&mut self.conn, chat_id, username.as_str()) {
            Ok(()) => Ok(()),
            Err(_) => Err(LedgerError::StorageFailure),
        }
    }

    /// Total number of messages observed in `chat_id`; `NotFound` (never
    /// zero) when the group has no events.
    pub fn get_tot_msg(&self, chat_id: i64) -> (r: Result<i64, LedgerError>)
        ensures
            match r {
                Ok(t) => t as int == group_size(self.log(), chat_id as int) && t >= 1,
                Err(e) => {
                    &&& e == LedgerError::NotFound ==> group_size(self.log(), chat_id as int)
                        == 0
                    &&& e != LedgerError::InvalidInput
                },
            },
    {
        match count_events(&self.conn, chat_id) {
            Ok(n) => {
                if n == 0 {
                    Err(LedgerError::NotFound)
                } else {
                    Ok(n)
                }
            },
            Err(_) => Err(LedgerError::StorageFailure),
        }
    }

    /// The ranked percentage distribution of `chat_id`: count descending,
    /// ties by ascending name, exactly one entry per active participant;
    /// `NotFound` when the group has no events, so a share is never
    /// computed against a zero total.
    pub fn get_group_percent(&self, chat_id: i64) -> (r: Result<Vec<Data>, LedgerError>)
        ensures
            match r {
                Ok(v) => ranked_view_of(data_views(v@), self.log(), chat_id as int)
                    && group_size(self.log(), chat_id as int) >= 1,
                Err(e) => {
                    &&& e == LedgerError::NotFound ==> group_size(self.log(), chat_id as int)
                        == 0
                    &&& e != LedgerError::InvalidInput
                },
            },
    {
        let ghost m = self.log();
        let ghost g = chat_id as int;
        let rows = match select_group_events(&self.conn, chat_id) {
            Ok(rows) => rows,
            Err(_) => {
                return Err(LedgerError::StorageFailure);
            },
        };
        if rows.is_empty() {
            return Err(LedgerError::NotFound);
        }
        let counts = tally(&rows);
        let ghost tp = pc_pairs(counts@);
        let total: u64 = rows.len() as u64;
        let sorted = rank_entries(counts);
        let ghost rp = pc_pairs(sorted@);
        let v = entries_with_total(&sorted, total);
        proof {
            lemma_rank_spec_sorted(tp);
            lemma_rank_spec_sum(tp);
            lemma_rank_spec_len(tp);
            let dv = data_views(v@);
            let pairs = Seq::new(dv.len(), |i: int| ((dv[i].0, dv[i].1)));
            assert(pairs =~= rp);
            assert forall|n: Seq<char>| #[trigger] crate::model::count_name(rp, n) <= 1 by {
                lemma_rank_spec_count_name(tp, n);
                lemma_distinct_count_name(tp, n);
            }
            lemma_counts_give_distinct(rp);
            assert forall|i: int| 0 <= i < rp.len() implies (#[trigger] rp[i]).1 as int
                == m.count((g, rp[i].0)) && rp[i].1 >= 1 by {
                lemma_count_occ_exists(rp, rp[i]);
                lemma_rank_spec_count_occ(tp, rp[i]);
                lemma_count_occ_exists(tp, rp[i]);
                lemma_count_occ_bounds(tp, rp[i]);
                let k = choose|k: int| 0 <= k < tp.len() && tp[k] == rp[i];
                lemma_count_of_at_index(tp, rp[i].0, k);
            }
            assert(total as int == group_size(m, g));
            assert forall|i: int| 0 <= i < dv.len() implies {
                &&& (#[trigger] dv[i]).1 as int == m.count((g, dv[i].0))
                &&& dv[i].1 >= 1
                &&& dv[i].2 as int == group_size(m, g)
            } by {
                assert(pairs[i] == rp[i]);
                assert(rp[i].1 as int == m.count((g, rp[i].0)) && rp[i].1 >= 1);
                assert(dv[i] == v@[i]@);
            }
            assert forall|n: Seq<char>| m.count((g, n)) > 0 implies has_name(pairs, n) by {
                assert(count_occ(name_seq(rows@), n) == m.count((g, n)));
                assert(has_name(tp, n));
                lemma_has_name_count_name(tp, n);
                lemma_rank_spec_count_name(tp, n);
                lemma_has_name_count_name(rp, n);
            }
            assert(sorted_ranked(pairs));
            assert(distinct_names(pairs));
            assert(sum_counts(pairs) == group_size(m, g));
            assert(ranked_view_of(dv, m, g));
        }
        Ok(v)
    }

    /// The decorated ranked rendering of `chat_id` (medal markers on the
    /// top three, closing tag line); `NotFound` when the group is absent.
    pub fn get_group_percent_str(&self, chat_id: i64) -> (r: Result<String, LedgerError>)
        ensures
            match r {
                Ok(s) => {
                    &&& group_size(self.log(), chat_id as int) >= 1
                    &&& exists|dv: Seq<(Seq<char>, u64, u64)>|
                        ranked_view_of(dv, self.log(), chat_id as int) && s@
                            == render_decorated(dv)
                },
                Err(e) => {
                    &&& e == LedgerError::NotFound ==> group_size(self.log(), chat_id as int)
                        == 0
                    &&& e != LedgerError::InvalidInput
                },
            },
    {
        let ghost m = self.log();
        let ghost g = chat_id as int;
        match self.get_group_percent(chat_id) {
            Ok(v) => {
                let s = render_ranked(&v);
                proof {
                    assert(ranked_view_of(data_views(v@), m, g) && s@ == render_decorated(
                        data_views(v@),
                    ));
                }
                Ok(s)
            },
            Err(e) => Err(e),
        }
    }

    /// A stable snapshot of `chat_id`'s `(participant, count)` rows for
    /// bulk export: one row per active participant, each with its exact
    /// event count; `NotFound` when the group has no events.
    pub fn export_rows(&self, chat_id: i64) -> (r: Result<Vec<(String, u64)>, LedgerError>)
        ensures
            match r {
                Ok(v) => {
                    &&& group_size(self.log(), chat_id as int) >= 1
                    &&& forall|i: int, j: int|
                        0 <= i < j < v@.len() ==> (#[trigger] v@[i]).0@ != (#[trigger] v@[j]).0@
                    &&& forall|i: int|
                        0 <= i < v@.len() ==> (#[trigger] v@[i]).1 as int == self.log().count(
                            (chat_id as int, v@[i].0@),
                        ) && v@[i].1 >= 1
                    &&& forall|n: Seq<char>|
                        self.log().count((chat_id as int, n)) > 0 ==> exists|i: int|
                            0 <= i < v@.len() && (#[trigger] v@[i]).0@ == n
                },
                Err(e) => {
                    &&& e == LedgerError::NotFound ==> group_size(self.log(), chat_id as int)
                        == 0
                    &&& e != LedgerError::InvalidInput
                },
            },
    {
        let ghost m = self.log();
        let ghost g = chat_id as int;
        let rows = match select_group_events(&self.conn, chat_id) {
            Ok(rows) => rows,
            Err(_) => {
                return Err(LedgerError::StorageFailure);
            },
        };
        if rows.is_empty() {
            return Err(LedgerError::NotFound);
        }
        let counts = tally(&rows);
        let ghost tp = pc_pairs(counts@);
        let mut v: Vec<(String, u64)> = Vec::new();
        let mut k: usize = 0;
        while k < counts.len()
            invariant
                k <= counts@.len(),
                v@.len() == k,
                tp == pc_pairs(counts@),
                forall|i: int| 0 <= i < k ==> ((#[trigger] v@[i]).0@, v@[i].1) == tp[i],
            decreases counts@.len() - k,
        {
            let e = &counts[k];
            v.push((e.name.clone(), e.count));
            k += 1;
        }
        proof {
            assert forall|i: int|
                0 <= i < v@.len() implies (#[trigger] v@[i]).1 as int == m.count((g, v@[i].0@))
                && v@[i].1 >= 1 by {
                lemma_count_of_at_index(tp, tp[i].0, i);
            }
            assert forall|n: Seq<char>| m.count((g, n)) > 0 implies exists|i: int|
                0 <= i < v@.len() && (#[trigger] v@[i]).0@ == n by {
                assert(has_name(tp, n));
                let i = choose|i: int| 0 <= i < tp.len() && tp[i].0 == n;
                assert(v@[i].0@ == n);
            }
        }
        Ok(v)
    }

    /// One participant's share of `chat_id` as a percentage string with
    /// two decimal places and a percent sign, e.g. `14.29%`; `NotFound`
    /// when the participant has no events in the group.
    pub fn get_user_percent_str(&self, chat_id: i64, username: &String) -> (r: Result<
        String,
        LedgerError,
    >)
        ensures
            match r {
                Ok(s) => {
                    &&& self.log().count((chat_id as int, username@)) > 0
                    &&& s@ == percent2(
                        hundredths(
                            self.log().count((chat_id as int, username@)) as int,
                            group_size(self.log(), chat_id as int),
                        ),
                    ) + "%"@
                },
                Err(e) => {
                    &&& e == LedgerError::NotFound ==> self.log().count(
                        (chat_id as int, username@),
                    ) == 0
                    &&& e != LedgerError::InvalidInput
                },
            },
    {
        let ghost m = self.log();
        let ghost g = chat_id as int;
        let rows = match select_group_events(&self.conn, chat_id) {
            Ok(rows) => rows,
            Err(_) => {
                return Err(LedgerError::StorageFailure);
            },
        };
        let counts = tally(&rows);
        let ghost tp = pc_pairs(counts@);
        match find_name(&counts, username.as_str()) {
            Some(k) => {
                proof {
                    lemma_count_of_at_index(tp, username@, k as int);
                    lemma_count_occ_bounds(name_seq(rows@), username@);
                }
                let e = &counts[k];
                let total: u64 = rows.len() as u64;
                let d = Data { username: username.clone(), count: e.count, total };
                proof {
                    assert(share_of(d@) == hundredths(
                        m.count((g, username@)) as int,
                        group_size(m, g),
                    ));
                }
                let mut s = d.percent_str();
                s.append("%");
                Ok(s)
            },
            None => {
                proof {
                    lemma_count_of_absent(tp, username@);
                }
                Err(LedgerError::NotFound)
            },
        }
    }
}

} // verus!
