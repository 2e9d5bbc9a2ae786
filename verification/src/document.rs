//! The causal document engine: the canonical store of records, the per-author
//! logs derived from them, and the causal frontier ("tips").

use vstd::prelude::*;

use crate::identity::PublicKey;
use crate::operation::{clone_hashes, hash_views, OpView, Operation};

verus! {

// ---------------------------------------------------------------------------
// Author logs
// ---------------------------------------------------------------------------

/// The mathematical value of one author-log entry.
pub ghost struct LogEntryView {
    pub seq_num: u64,
    pub hash: Seq<u8>,
}

/// One entry of an author log: a sequence number and the hash of the record
/// that holds it.
#[derive(Debug)]
pub struct LogEntry {
    pub seq_num: u64,
    pub hash: crate::hash::Hash,
}

impl View for LogEntry {
    type V = LogEntryView;

    open spec fn view(&self) -> LogEntryView {
        LogEntryView { seq_num: self.seq_num, hash: self.hash@ }
    }
}

impl Clone for LogEntry {
    fn clone(&self) -> (r: Self)
        ensures
            r@ == self@,
    {
        LogEntry { seq_num: self.seq_num, hash: self.hash.clone() }
    }
}

/// The mathematical value of an author log.
pub ghost struct AuthorLogView {
    pub public_key: Seq<u8>,
    pub entries: Seq<LogEntryView>,
}

/// One author's chain of record hashes, ordered by strictly increasing
/// sequence number.
#[derive(Debug)]
pub struct AuthorLog {
    pub public_key: PublicKey,
    pub entries: Vec<LogEntry>,
}

impl View for AuthorLog {
    type V = AuthorLogView;

    open spec fn view(&self) -> AuthorLogView {
        AuthorLogView {
            public_key: self.public_key@,
            entries: self.entries@.map_values(|e: LogEntry| e@),
        }
    }
}

impl Clone for AuthorLog {
    fn clone(&self) -> (r: Self)
        ensures
            r@ == self@,
    {
        let mut entries: Vec<LogEntry> = Vec::new();
        let mut i: usize = 0;
        while i < self.entries.len()
            invariant
                i <= self.entries.len(),
                entries@.len() == i,
                forall|j: int| 0 <= j < i ==> entries@[j]@ == self.entries@[j]@,
            decreases self.entries.len() - i,
        {
            entries.push(self.entries[i].clone());
            i = i + 1;
        }
        let r = AuthorLog { public_key: self.public_key.clone(), entries };
        proof {
            assert(r@.entries =~= self@.entries);
        }
        r
    }
}

impl AuthorLog {
    /// Whether the entries are ordered by strictly increasing sequence
    /// number.
    pub open spec fn wf(&self) -> bool {
        forall|i: int, j: int|
            0 <= i < j < self@.entries.len() ==> self@.entries[i].seq_num
                < self@.entries[j].seq_num
    }

    /// The number of entries in the log.
    pub fn len(&self) -> (r: usize)
        ensures
            r == self@.entries.len(),
    {
        self.entries.len()
    }

    /// The entry that carries the given sequence number, if any.
    pub fn get(&self, seq_num: u64) -> (r: Option<LogEntry>)
        ensures
            match r {
                Option::Some(e) => self@.entries.contains(e@) && e@.seq_num == seq_num,
                Option::None => forall|k: int|
                    0 <= k < self@.entries.len() ==> (#[trigger] self@.entries[k]).seq_num
                        != seq_num,
            },
    {
        let mut i: usize = 0;
        while i < self.entries.len()
            invariant
                i <= self.entries.len(),
                forall|k: int| 0 <= k < i ==> (#[trigger] self@.entries[k]).seq_num != seq_num,
            decreases self.entries.len() - i,
        {
            if self.entries[i].seq_num == seq_num {
                let e = self.entries[i].clone();
                proof {
                    assert(self@.entries[i as int] == e@);
                    assert(self@.entries.contains(e@));
                }
                return Option::Some(e);
            }
            i = i + 1;
        }
        Option::None
    }

    /// The most recent entry: the one with the highest sequence number.
    pub fn first(&self) -> (r: Option<LogEntry>)
        ensures
            match r {
                Option::Some(e) => self@.entries.len() > 0 && e@ == self@.entries.last(),
                Option::None => self@.entries.len() == 0,
            },
    {
        if self.entries.len() == 0 {
            Option::None
        } else {
            Option::Some(self.entries[self.entries.len() - 1].clone())
        }
    }

    /// Inserts an entry at its sequence-number position; an entry whose
    /// sequence number is already present is left as it is.
    pub fn append(&mut self, seq_num: u64, hash: crate::hash::Hash)
        requires
            old(self).wf(),
        ensures
            final(self).wf(),
            final(self)@.public_key == old(self)@.public_key,
            final(self)@.entries == place_entry(
                old(self)@.entries,
                LogEntryView { seq_num, hash: hash@ },
            ),
            forall|e: LogEntryView|
                #[trigger] final(self)@.entries.contains(e) ==> old(self)@.entries.contains(e)
                    || e == (LogEntryView { seq_num, hash: hash@ }),
            forall|e: LogEntryView|
                #[trigger] old(self)@.entries.contains(e) ==> final(self)@.entries.contains(e),
            exists|k: int|
                0 <= k < final(self)@.entries.len() && (#[trigger] final(self)@.entries[k]).seq_num
                    == seq_num,
    {
        let mut i: usize = 0;
        while i < self.entries.len()
            invariant
                i <= self.entries.len(),
                forall|k: int| 0 <= k < i ==> (#[trigger] self@.entries[k]).seq_num < seq_num,
                self == old(self),
            decreases self.entries.len() - i,
        {
            if self.entries[i].seq_num >= seq_num {
                break ;
            }
            i = i + 1;
        }
        if i < self.entries.len() && self.entries[i].seq_num == seq_num {
            proof {
                assert(final(self)@.entries =~= old(self)@.entries);
                assert((final(self)@.entries[i as int]).seq_num == seq_num);
                lemma_place_entry_skip(
                    old(self)@.entries,
                    LogEntryView { seq_num, hash: hash@ },
                    i as int,
                );
            }
            return ;
        }
        let ghost pre = self@.entries;
        self.entries.insert(i, LogEntry { seq_num, hash });
        proof {
            let post = self@.entries;
            assert(post =~= pre.insert(i as int, LogEntryView { seq_num, hash: hash@ }));
            lemma_place_entry_insert(pre, LogEntryView { seq_num, hash: hash@ }, i as int);
            assert forall|k: int| 0 <= k < post.len() implies post[k] == (if k < i {
                pre[k]
            } else if k == i {
                LogEntryView { seq_num, hash: hash@ }
            } else {
                pre[k - 1]
            }) by {}
            assert forall|a: int, b: int| 0 <= a < b < post.len() implies post[a].seq_num
                < post[b].seq_num by {
                if a < i && b > i {
                    assert(pre[a].seq_num < seq_num);
                }
                if b == i {
                    assert(pre[a].seq_num < seq_num);
                }
                if a == i && b > i {
                    assert(pre[b - 1].seq_num >= seq_num);
                    assert(pre[b - 1].seq_num != seq_num);
                }
            }
            assert forall|e: LogEntryView| post.contains(e) implies pre.contains(e) || e == (
            LogEntryView { seq_num, hash: hash@ }) by {
                let k = choose|k: int| 0 <= k < post.len() && post[k] == e;
                if k < i {
                    assert(pre[k] == e);
                } else if k > i {
                    assert(pre[k - 1] == e);
                }
            }
            assert forall|e: LogEntryView| pre.contains(e) implies post.contains(e) by {
                let k = choose|k: int| 0 <= k < pre.len() && pre[k] == e;
                if k < i {
                    assert(post[k] == e);
                } else {
                    assert(post[k + 1] == e);
                }
            }
            assert(post[i as int].seq_num == seq_num);
        }
    }
}

// ---------------------------------------------------------------------------
// Spec-level graph predicates
// ---------------------------------------------------------------------------

/// The views of a sequence of log entries.
/// The log entry that a stored record contributes to its author's log.
pub open spec fn entry_of(r: OpView) -> LogEntryView {
    LogEntryView { seq_num: r.seq_num, hash: r.hash }
}

/// A log ordered by strictly increasing sequence number, after one entry is
/// offered to it: inserted at its position, or left out when its sequence
/// number is already taken.
pub open spec fn place_entry(es: Seq<LogEntryView>, e: LogEntryView) -> Seq<LogEntryView>
    decreases es.len(),
{
    if es.len() == 0 {
        seq![e]
    } else if es.last().seq_num < e.seq_num {
        es.push(e)
    } else if es.last().seq_num == e.seq_num {
        es
    } else {
        place_entry(es.drop_last(), e).push(es.last())
    }
}

/// The author logs after one stored record is entered: the record's entry is
/// placed in its author's log, or a new single-entry log is opened for an
/// author not seen before.
pub open spec fn upsert_log(logs: Seq<AuthorLogView>, r: OpView) -> Seq<AuthorLogView>
    decreases logs.len(),
{
    if logs.len() == 0 {
        seq![AuthorLogView { public_key: r.public_key, entries: seq![entry_of(r)] }]
    } else if logs[0].public_key == r.public_key {
        seq![
            AuthorLogView {
                public_key: logs[0].public_key,
                entries: place_entry(logs[0].entries, entry_of(r)),
            },
        ] + logs.skip(1)
    } else {
        seq![logs[0]] + upsert_log(logs.skip(1), r)
    }
}

/// The author logs after a batch of records is offered to the store, in the
/// given order: each record that is stored (not a duplicate) enters its
/// author's log.
pub open spec fn add_logs(
    rs: Seq<OpView>,
    logs: Seq<AuthorLogView>,
    recs: Seq<OpView>,
) -> Seq<AuthorLogView>
    decreases recs.len(),
{
    if recs.len() == 0 {
        logs
    } else if has_hash(add_ops(rs, recs.drop_last()), recs.last().hash) {
        add_logs(rs, logs, recs.drop_last())
    } else {
        upsert_log(add_logs(rs, logs, recs.drop_last()), recs.last())
    }
}

/// Whether the given author's log holds the given entry.
pub open spec fn log_entry_in(logs: Seq<AuthorLogView>, pk: Seq<u8>, e: LogEntryView) -> bool {
    exists|l: int, k: int|
        0 <= l < logs.len() && 0 <= k < logs[l].entries.len() && (#[trigger] logs[l].entries[k])
            == e && logs[l].public_key == pk
}

/// Whether the given author's log holds an entry with the given sequence
/// number.
pub open spec fn log_seq_in(logs: Seq<AuthorLogView>, pk: Seq<u8>, seq_num: u64) -> bool {
    exists|l: int, k: int|
        0 <= l < logs.len() && 0 <= k < logs[l].entries.len() && (#[trigger] logs[l].entries[
        k]).seq_num == seq_num && logs[l].public_key == pk
}

/// Whether the given author has a log with at least one entry.
pub open spec fn key_has_entries(logs: Seq<AuthorLogView>, pk: Seq<u8>) -> bool {
    exists|l: int|
        0 <= l < logs.len() && (#[trigger] logs[l]).public_key == pk && logs[l].entries.len() > 0
}

/// On a strictly ascending log whose first entry at or above the new
/// sequence number carries exactly that number, placing the entry changes
/// nothing.
proof fn lemma_place_entry_skip(es: Seq<LogEntryView>, e: LogEntryView, i: int)
    requires
        forall|a: int, b: int| 0 <= a < b < es.len() ==> es[a].seq_num < es[b].seq_num,
        0 <= i < es.len(),
        forall|k: int| 0 <= k < i ==> (#[trigger] es[k]).seq_num < e.seq_num,
        es[i].seq_num == e.seq_num,
    ensures
        place_entry(es, e) == es,
    decreases es.len(),
{
    if es.last().seq_num < e.seq_num {
        assert(false);
    } else if es.last().seq_num == e.seq_num {
    } else {
        assert(i < es.len() - 1);
        lemma_place_entry_skip(es.drop_last(), e, i);
        assert(place_entry(es, e) =~= es);
    }
}

/// On a strictly ascending log, placing an entry whose sequence number is
/// not yet taken inserts it at its ordered position.
proof fn lemma_place_entry_insert(es: Seq<LogEntryView>, e: LogEntryView, i: int)
    requires
        forall|a: int, b: int| 0 <= a < b < es.len() ==> es[a].seq_num < es[b].seq_num,
        0 <= i <= es.len(),
        forall|k: int| 0 <= k < i ==> (#[trigger] es[k]).seq_num < e.seq_num,
        i < es.len() ==> es[i].seq_num > e.seq_num,
    ensures
        place_entry(es, e) == es.insert(i, e),
    decreases es.len(),
{
    if es.len() == 0 {
        assert(place_entry(es, e) =~= es.insert(0, e));
    } else if es.last().seq_num < e.seq_num {
        assert(i == es.len());
        assert(place_entry(es, e) =~= es.insert(i, e));
    } else if es.last().seq_num == e.seq_num {
        assert(false);
    } else {
        assert(i < es.len());
        lemma_place_entry_insert(es.drop_last(), e, i);
        assert(place_entry(es, e) =~= es.insert(i, e));
    }
}

/// When the first log of the given author stands at position `l`, entering a
/// record of that author updates exactly that log.
proof fn lemma_upsert_log_hit(logs: Seq<AuthorLogView>, r: OpView, l: int)
    requires
        0 <= l < logs.len(),
        logs[l].public_key == r.public_key,
        forall|k: int| 0 <= k < l ==> (#[trigger] logs[k]).public_key != r.public_key,
    ensures
        upsert_log(logs, r) == logs.update(
            l,
            AuthorLogView {
                public_key: logs[l].public_key,
                entries: place_entry(logs[l].entries, entry_of(r)),
            },
        ),
    decreases logs.len(),
{
    if l == 0 {
        assert(upsert_log(logs, r) =~= logs.update(
            0,
            AuthorLogView {
                public_key: logs[0].public_key,
                entries: place_entry(logs[0].entries, entry_of(r)),
            },
        ));
    } else {
        assert(logs[0].public_key != r.public_key);
        assert forall|k: int| 0 <= k < l - 1 implies (#[trigger] logs.skip(1)[k]).public_key
            != r.public_key by {
            assert(logs.skip(1)[k] == logs[k + 1]);
        }
        lemma_upsert_log_hit(logs.skip(1), r, l - 1);
        assert(upsert_log(logs, r) =~= logs.update(
            l,
            AuthorLogView {
                public_key: logs[l].public_key,
                entries: place_entry(logs[l].entries, entry_of(r)),
            },
        ));
    }
}

/// When no log carries the record's author, entering the record opens a new
/// single-entry log at the end.
proof fn lemma_upsert_log_miss(logs: Seq<AuthorLogView>, r: OpView)
    requires
        forall|k: int| 0 <= k < logs.len() ==> (#[trigger] logs[k]).public_key != r.public_key,
    ensures
        upsert_log(logs, r) == logs.push(
            AuthorLogView { public_key: r.public_key, entries: seq![entry_of(r)] },
        ),
    decreases logs.len(),
{
    if logs.len() == 0 {
        assert(upsert_log(logs, r) =~= logs.push(
            AuthorLogView { public_key: r.public_key, entries: seq![entry_of(r)] },
        ));
    } else {
        assert forall|k: int| 0 <= k < logs.skip(1).len() implies (#[trigger] logs.skip(
            1,
        )[k]).public_key != r.public_key by {
            assert(logs.skip(1)[k] == logs[k + 1]);
        }
        lemma_upsert_log_miss(logs.skip(1), r);
        assert(upsert_log(logs, r) =~= logs.push(
            AuthorLogView { public_key: r.public_key, entries: seq![entry_of(r)] },
        ));
    }
}

pub open spec fn entry_views(s: Seq<LogEntry>) -> Seq<LogEntryView> {
    s.map_values(|e: LogEntry| e@)
}

/// The views of a sequence of records.
pub open spec fn views_of_ops(s: Seq<Operation>) -> Seq<OpView> {
    s.map_values(|o: Operation| o@)
}

/// Whether some record in `rs` has the hash `h`.
pub open spec fn has_hash(rs: Seq<OpView>, h: Seq<u8>) -> bool {
    exists|i: int| 0 <= i < rs.len() && (#[trigger] rs[i]).hash == h
}

/// Whether some record in `rs` names `h` among its causal predecessors.
pub open spec fn referenced(rs: Seq<OpView>, h: Seq<u8>) -> bool {
    exists|i: int| 0 <= i < rs.len() && (#[trigger] rs[i]).previous.contains(h)
}

/// Whether `h` is a frontier tip of `rs`: stored, and named by no stored
/// record's `previous` set.
pub open spec fn is_tip(rs: Seq<OpView>, h: Seq<u8>) -> bool {
    has_hash(rs, h) && !referenced(rs, h)
}

/// Whether some record in `rs` carries the given author, sequence number and
/// hash.
pub open spec fn entry_matches(rs: Seq<OpView>, author: Seq<u8>, e: LogEntryView) -> bool {
    exists|i: int|
        0 <= i < rs.len() && (#[trigger] rs[i]).hash == e.hash && rs[i].public_key == author
            && rs[i].seq_num == e.seq_num
}

/// The store after one record is offered to it: unchanged for a duplicate
/// hash, extended otherwise.
pub open spec fn add_step(rs: Seq<OpView>, r: OpView) -> Seq<OpView> {
    if has_hash(rs, r.hash) {
        rs
    } else {
        rs.push(r)
    }
}

/// The store after a batch of records is offered to it, in the given order.
pub open spec fn add_ops(rs: Seq<OpView>, recs: Seq<OpView>) -> Seq<OpView>
    decreases recs.len(),
{
    if recs.len() == 0 {
        rs
    } else {
        add_step(add_ops(rs, recs.drop_last()), recs.last())
    }
}

/// The records of a batch that are rejected as duplicates, in batch order.
pub open spec fn add_ignored(rs: Seq<OpView>, recs: Seq<OpView>) -> Seq<OpView>
    decreases recs.len(),
{
    if recs.len() == 0 {
        Seq::<OpView>::empty()
    } else {
        let prior = add_ignored(rs, recs.drop_last());
        if has_hash(add_ops(rs, recs.drop_last()), recs.last().hash) {
            prior.push(recs.last())
        } else {
            prior
        }
    }
}

// ---------------------------------------------------------------------------
// The engine
// ---------------------------------------------------------------------------

/// The causal document: the canonical store of records, the per-author logs,
/// and the causal frontier.
#[derive(Debug)]
pub struct CausalDocument {
    pub operations: Vec<Operation>,
    pub logs: Vec<AuthorLog>,
    pub tips: Vec<crate::hash::Hash>,
}

impl CausalDocument {
    /// The stored records, in insertion order.
    pub open spec fn ops(&self) -> Seq<OpView> {
        views_of_ops(self.operations@)
    }

    /// The frontier hashes.
    pub open spec fn tip_hashes(&self) -> Seq<Seq<u8>> {
        hash_views(self.tips@)
    }

    /// The per-author logs.
    pub open spec fn logs_view(&self) -> Seq<AuthorLogView> {
        self.logs@.map_values(|l: AuthorLog| l@)
    }

    /// No two stored records share a hash.
    pub open spec fn hashes_distinct(&self) -> bool {
        forall|i: int, j: int|
            0 <= i < j < self.ops().len() ==> (#[trigger] self.ops()[i]).hash
                != (#[trigger] self.ops()[j]).hash
    }

    /// The frontier holds exactly the stored hashes that no stored record
    /// names among its predecessors, each once.
    pub open spec fn tips_ok(&self) -> bool {
        &&& forall|h: Seq<u8>| #[trigger] self.tip_hashes().contains(h) ==> is_tip(self.ops(), h)
        &&& forall|h: Seq<u8>| #[trigger] is_tip(self.ops(), h) ==> self.tip_hashes().contains(h)
        &&& forall|i: int, j: int|
            0 <= i < j < self.tip_hashes().len() ==> self.tip_hashes()[i] != self.tip_hashes()[j]
    }

    /// The logs are keyed by distinct authors, ordered by strictly increasing
    /// sequence number, and every entry names a stored record of that author.
    pub open spec fn logs_ok(&self) -> bool {
        &&& forall|i: int, j: int|
            0 <= i < j < self.logs_view().len() ==> (#[trigger] self.logs_view()[i]).public_key
                != (#[trigger] self.logs_view()[j]).public_key
        &&& forall|l: int| 0 <= l < self.logs@.len() ==> (#[trigger] self.logs@[l]).wf()
        &&& forall|l: int, k: int|
            0 <= l < self.logs_view().len() && 0 <= k < self.logs_view()[l].entries.len()
                ==> entry_matches(
                self.ops(),
                self.logs_view()[l].public_key,
                #[trigger] self.logs_view()[l].entries[k],
            )
    }

    /// The engine's invariant, maintained by every operation.
    pub open spec fn wf(&self) -> bool {
        self.hashes_distinct() && self.logs_ok() && self.tips_ok()
    }

    /// Builds a document from a prior snapshot of records, rebuilding every
    /// index from scratch.
    pub fn new(initial: Vec<Operation>) -> (r: CausalDocument)
        ensures
            r.wf(),
            r.ops() == add_ops(Seq::<OpView>::empty(), views_of_ops(initial@)),
            r.logs_view() == add_logs(
                Seq::<OpView>::empty(),
                Seq::<AuthorLogView>::empty(),
                views_of_ops(initial@),
            ),
    {
        let mut d = CausalDocument { operations: Vec::new(), logs: Vec::new(), tips: Vec::new() };
        proof {
            assert(d.ops() =~= Seq::<OpView>::empty());
            assert(d.logs_view() =~= Seq::<AuthorLogView>::empty());
            assert(d.tip_hashes() =~= Seq::<Seq<u8>>::empty());
        }
        let _ignored = d.add(&initial);
        d
    }

    /// Offers a batch of records to the store, in order. A record whose hash
    /// is already present changes nothing and is returned among the ignored;
    /// any other record is stored, enters its author's log, and the frontier
    /// is brought back to the stored hashes that no stored record names.
    pub fn add(&mut self, records: &Vec<Operation>) -> (ignored: Vec<Operation>)
        requires
            old(self).wf(),
        ensures
            final(self).wf(),
            final(self).ops() == add_ops(old(self).ops(), views_of_ops(records@)),
            views_of_ops(ignored@) == add_ignored(old(self).ops(), views_of_ops(records@)),
            final(self).logs_view() == add_logs(
                old(self).ops(),
                old(self).logs_view(),
                views_of_ops(records@),
            ),
    {
        let ghost rs0 = self.ops();
        let ghost logs0 = self.logs_view();
        let ghost recs = views_of_ops(records@);
        let mut ignored: Vec<Operation> = Vec::new();
        let mut i: usize = 0;
        while i < records.len()
            invariant
                i <= records.len(),
                recs == views_of_ops(records@),
                recs.len() == records@.len(),
                self.hashes_distinct(),
                self.logs_ok(),
                self.ops() == add_ops(rs0, recs.take(i as int)),
                views_of_ops(ignored@) == add_ignored(rs0, recs.take(i as int)),
                self.logs_view() == add_logs(rs0, logs0, recs.take(i as int)),
            decreases records.len() - i,
        {
            proof {
                assert(recs.take(i + 1).drop_last() =~= recs.take(i as int));
                assert(recs.take(i + 1).last() == recs[i as int]);
                assert(recs[i as int] == records@[i as int]@);
            }
            let dup = find_index_of_hash(&self.operations, &records[i].hash);
            match dup {
                Option::Some(_) => {
                    ignored.push(records[i].clone());
                    proof {
                        assert(views_of_ops(ignored@) =~= add_ignored(rs0, recs.take(i + 1)));
                        assert(self.logs_view() == add_logs(rs0, logs0, recs.take(i + 1)));
                    }
                },
                Option::None => {
                    self.store_one(&records[i]);
                    proof {
                        assert(views_of_ops(ignored@) =~= add_ignored(rs0, recs.take(i + 1)));
                        assert(self.logs_view() == add_logs(rs0, logs0, recs.take(i + 1)));
                    }
                },
            }
            i = i + 1;
        }
        proof {
            assert(recs.take(records@.len() as int) =~= recs);
        }
        self.recompute_tips();
        proof {
            assert(self.logs_view() =~= add_logs(rs0, logs0, recs));
        }
        ignored
    }

    /// Brings the frontier back to the stored hashes that no stored record
    /// names, leaving the store and the logs as they are.
    fn recompute_tips(&mut self)
        requires
            old(self).hashes_distinct(),
            old(self).logs_ok(),
        ensures
            final(self).wf(),
            final(self).operations@ == old(self).operations@,
            final(self).logs@ == old(self).logs@,
    {
        let new_tips = compute_tips(&self.operations);
        let ghost tv = hash_views(new_tips@);
        self.tips = new_tips;
        proof {
            assert(self.logs@ == old(self).logs@);
            assert(self.operations@ == old(self).operations@);
            assert(self.logs_view() == old(self).logs_view());
            assert(self.ops() == old(self).ops());
            assert forall|i0: int, j0: int|
                0 <= i0 < j0 < self.logs_view().len() implies (#[trigger] self.logs_view()[
                i0]).public_key != (#[trigger] self.logs_view()[j0]).public_key by {
                assert(old(self).logs_view()[i0].public_key != old(self).logs_view()[j0].public_key);
            }
            assert forall|l: int| 0 <= l < self.logs@.len() implies (#[trigger] self.logs@[
            l]).wf() by {
                assert(old(self).logs@[l].wf());
            }
            assert forall|l: int, k: int|
                0 <= l < self.logs_view().len() && 0 <= k
                    < self.logs_view()[l].entries.len() implies entry_matches(
                self.ops(),
                self.logs_view()[l].public_key,
                #[trigger] self.logs_view()[l].entries[k],
            ) by {
                assert(entry_matches(
                    old(self).ops(),
                    old(self).logs_view()[l].public_key,
                    old(self).logs_view()[l].entries[k],
                ));
            }
            assert forall|i0: int, j0: int|
                0 <= i0 < j0 < self.ops().len() implies (#[trigger] self.ops()[i0]).hash
                != (#[trigger] self.ops()[j0]).hash by {
                assert(old(self).ops()[i0].hash != old(self).ops()[j0].hash);
            }
            assert(self.tip_hashes() == tv);
            assert forall|h: Seq<u8>| #[trigger] self.tip_hashes().contains(h) implies is_tip(
                self.ops(),
                h,
            ) by {
                assert(tv.contains(h));
            }
            assert forall|h: Seq<u8>| #[trigger] is_tip(self.ops(), h) implies self.tip_hashes()
                .contains(h) by {
                assert(tv.contains(h));
            }
            assert forall|i0: int, j0: int|
                0 <= i0 < j0 < self.tip_hashes().len() implies self.tip_hashes()[i0]
                != self.tip_hashes()[j0] by {
                assert(tv[i0] != tv[j0]);
            }
        }
    }

    /// Stores one record whose hash is new, and enters it into its author's
    /// log. The frontier is not touched.
    fn store_one(&mut self, op: &Operation)
        requires
            old(self).hashes_distinct(),
            old(self).logs_ok(),
            !has_hash(old(self).ops(), op@.hash),
        ensures
            final(self).hashes_distinct(),
            final(self).logs_ok(),
            final(self).ops() == old(self).ops().push(op@),
            final(self).logs_view() == upsert_log(old(self).logs_view(), op@),
            final(self).tips == old(self).tips,
    {
        let ghost rs0 = self.ops();
        self.operations.push(op.clone());
        proof {
            assert(self.ops() =~= rs0.push(op@));
            assert forall|l: int, k: int|
                0 <= l < self.logs_view().len() && 0 <= k
                    < self.logs_view()[l].entries.len() implies entry_matches(
                self.ops(),
                self.logs_view()[l].public_key,
                #[trigger] self.logs_view()[l].entries[k],
            ) by {
                assert(self.logs@ == old(self).logs@);
                assert(self.logs_view() == old(self).logs_view());
                let e = self.logs_view()[l].entries[k];
                let a = self.logs_view()[l].public_key;
                assert(old(self).logs_view()[l].entries[k] == e);
                assert(entry_matches(rs0, a, e));
                let w = choose|w: int|
                    0 <= w < rs0.len() && (#[trigger] rs0[w]).hash == e.hash && rs0[w].public_key
                        == a && rs0[w].seq_num == e.seq_num;
                assert(self.ops()[w] == rs0[w]);
            }
        }
        let li = find_log_index(&self.logs, &op.public_key);
        match li {
            Option::Some(l) => {
                let ghost logs0 = self.logs_view();
                proof {
                    assert(logs0 == old(self).logs_view());
                    assert forall|x: int, k: int|
                        0 <= x < logs0.len() && 0 <= k < logs0[x].entries.len() implies
                        entry_matches(rs0, logs0[x].public_key, #[trigger] logs0[x].entries[k]) by {
                        assert(old(self).logs_view()[x].entries[k] == logs0[x].entries[k]);
                    }
                }
                let mut log = self.logs.remove(l);
                log.append(op.seq_num, op.hash.clone());
                self.logs.insert(l, log);
                proof {
                    let logs1 = self.logs_view();
                    assert(logs1.len() == logs0.len());
                    assert forall|x: int| 0 <= x < logs1.len() && x != l implies logs1[x]
                        == logs0[x] by {
                        if x < l {
                            assert(self.logs@[x] == old(self).logs@[x]);
                        } else {
                            assert(self.logs@[x] == old(self).logs@[x]);
                        }
                    }
                    assert(logs1[l as int].public_key == logs0[l as int].public_key);
                    assert forall|x: int, k: int|
                        0 <= x < logs1.len() && 0 <= k < logs1[x].entries.len() implies
                        entry_matches(
                        self.ops(),
                        logs1[x].public_key,
                        #[trigger] logs1[x].entries[k],
                    ) by {
                        let e = logs1[x].entries[k];
                        if x == l {
                            assert(logs1[x].entries.contains(e));
                            if logs0[x].entries.contains(e) {
                                let k0 = choose|k0: int|
                                    0 <= k0 < logs0[x].entries.len() && logs0[x].entries[k0] == e;
                                assert(entry_matches(rs0, logs0[x].public_key, e));
                                let w = choose|w: int|
                                    0 <= w < rs0.len() && (#[trigger] rs0[w]).hash == e.hash
                                        && rs0[w].public_key == logs0[x].public_key && rs0[w].seq_num
                                        == e.seq_num;
                                assert(self.ops()[w] == rs0[w]);
                            } else {
                                assert(e == (LogEntryView { seq_num: op.seq_num, hash: op.hash@ }));
                                assert(logs1[x].public_key == op.public_key@);
                                assert(self.ops().last() == op@);
                            }
                        } else {
                            assert(entry_matches(rs0, logs0[x].public_key, e));
                            let w = choose|w: int|
                                0 <= w < rs0.len() && (#[trigger] rs0[w]).hash == e.hash
                                    && rs0[w].public_key == logs0[x].public_key && rs0[w].seq_num
                                    == e.seq_num;
                            assert(self.ops()[w] == rs0[w]);
                        }
                    }
                    assert forall|k: int| 0 <= k < l implies (#[trigger] logs0[k]).public_key
                        != op@.public_key by {
                        assert(old(self).logs@[k]@.public_key != op.public_key@);
                    }
                    lemma_upsert_log_hit(logs0, op@, l as int);
                    assert(self.logs_view() =~= logs0.update(
                        l as int,
                        AuthorLogView {
                            public_key: logs0[l as int].public_key,
                            entries: place_entry(logs0[l as int].entries, entry_of(op@)),
                        },
                    ));
                    assert(self.logs_view() == upsert_log(old(self).logs_view(), op@));
                }
            },
            Option::None => {
                let ghost logs0 = self.logs_view();
                proof {
                    assert(logs0 == old(self).logs_view());
                    assert forall|x: int, k: int|
                        0 <= x < logs0.len() && 0 <= k < logs0[x].entries.len() implies
                        entry_matches(rs0, logs0[x].public_key, #[trigger] logs0[x].entries[k]) by {
                        assert(old(self).logs_view()[x].entries[k] == logs0[x].entries[k]);
                    }
                }
                let mut entries: Vec<LogEntry> = Vec::new();
                entries.push(LogEntry { seq_num: op.seq_num, hash: op.hash.clone() });
                let new_log = AuthorLog { public_key: op.public_key.clone(), entries };
                proof {
                    assert(new_log.wf());
                }
                self.logs.push(new_log);
                proof {
                    let logs1 = self.logs_view();
                    assert(logs1 =~= logs0.push(new_log@));
                    assert(logs1.last().public_key == op.public_key@);
                    assert forall|x: int, k: int|
                        0 <= x < logs1.len() && 0 <= k < logs1[x].entries.len() implies
                        entry_matches(
                        self.ops(),
                        logs1[x].public_key,
                        #[trigger] logs1[x].entries[k],
                    ) by {
                        let e = logs1[x].entries[k];
                        if x < logs0.len() {
                            assert(logs1[x] == logs0[x]);
                            assert(entry_matches(rs0, logs0[x].public_key, e));
                            let w = choose|w: int|
                                0 <= w < rs0.len() && (#[trigger] rs0[w]).hash == e.hash
                                    && rs0[w].public_key == logs0[x].public_key && rs0[w].seq_num
                                    == e.seq_num;
                            assert(self.ops()[w] == rs0[w]);
                        } else {
                            assert(e == (LogEntryView { seq_num: op.seq_num, hash: op.hash@ }));
                            assert(self.ops().last() == op@);
                        }
                    }
                    assert forall|k: int| 0 <= k < logs0.len() implies (#[trigger] logs0[
                    k]).public_key != op@.public_key by {
                        assert(old(self).logs@[k]@.public_key != op.public_key@);
                    }
                    lemma_upsert_log_miss(logs0, op@);
                    assert(new_log@.entries =~= seq![entry_of(op@)]);
                    assert(self.logs_view() =~= logs0.push(
                        AuthorLogView { public_key: op@.public_key, entries: seq![entry_of(op@)] },
                    ));
                    assert(self.logs_view() == upsert_log(old(self).logs_view(), op@));
                }
            },
        }
    }

    /// The current frontier: the stored hashes with no known causal
    /// descendant, each exactly once.
    pub fn tips(&self) -> (r: Vec<crate::hash::Hash>)
        requires
            self.wf(),
        ensures
            hash_views(r@) == self.tip_hashes(),
            forall|h: Seq<u8>| #[trigger] hash_views(r@).contains(h) <==> is_tip(self.ops(), h),
    {
        let r = clone_hashes(&self.tips);
        proof {
            assert forall|h: Seq<u8>| #[trigger] hash_views(r@).contains(h) <==> is_tip(
                self.ops(),
                h,
            ) by {
                assert(hash_views(r@) == self.tip_hashes());
                if hash_views(r@).contains(h) {
                    assert(self.tip_hashes().contains(h));
                }
                if is_tip(self.ops(), h) {
                    assert(self.tip_hashes().contains(h));
                }
            }
        }
        r
    }

    /// Looks a record up by its hash; absence is an empty result.
    pub fn get(&self, hash: &crate::hash::Hash) -> (r: Option<Operation>)
        ensures
            match r {
                Option::Some(op) => self.ops().contains(op@) && op@.hash == hash@,
                Option::None => !has_hash(self.ops(), hash@),
            },
    {
        let found = find_index_of_hash(&self.operations, hash);
        match found {
            Option::Some(i) => {
                let op = self.operations[i].clone();
                proof {
                    assert(self.ops()[i as int] == op@);
                    assert(self.ops().contains(op@));
                }
                Option::Some(op)
            },
            Option::None => Option::None,
        }
    }

    /// Every stored record, in a topological order consistent with
    /// `previous`: whenever the graph is acyclic, no record precedes any of
    /// its stored predecessors; causally incomparable records keep a fixed,
    /// repeatable order.
    pub fn operations(&self) -> (r: Vec<Operation>)
        requires
            self.wf(),
        ensures
            r@.len() == self.operations@.len(),
            forall|k: int|
                0 <= k < views_of_ops(r@).len() ==> self.ops().contains(
                    #[trigger] views_of_ops(r@)[k],
                ),
            forall|j: int|
                0 <= j < self.ops().len() ==> has_hash(
                    views_of_ops(r@),
                    (#[trigger] self.ops()[j]).hash,
                ),
            forall|i: int, j: int|
                0 <= i < j < views_of_ops(r@).len() ==> (#[trigger] views_of_ops(r@)[i]).hash
                    != (#[trigger] views_of_ops(r@)[j]).hash,
            acyclic(self.ops()) ==> topo_sorted(views_of_ops(r@), self.ops()),
            views_of_ops(r@) == topo_view(self.ops()),
    {
        let ghost rs = self.ops();
        let n = self.operations.len();
        let mut result: Vec<Operation> = Vec::new();
        let mut emitted: Vec<bool> = Vec::new();
        let mut i: usize = 0;
        while i < n
            invariant
                i <= n,
                emitted@.len() == i,
                forall|k: int| 0 <= k < i ==> !(#[trigger] emitted@[k]),
            decreases n - i,
        {
            emitted.push(false);
            i = i + 1;
        }
        let ghost full = emit_all(rs, Seq::new(rs.len(), |q: int| false), rs.len());
        let done_main = self.emit_phase(&mut result, &mut emitted);
        let ghost mut done = done_main@;
        proof {
            if acyclic(rs) {
                lemma_acyclic_all_emitted(rs, emitted@);
            }
        }
        let ghost rv_main = views_of_ops(result@);
        let ghost em_main = emitted@;
        proof {
            assert(topo_positions(rs) =~= done + leftover_from(rs, em_main, 0));
        }
        let done_all = self.leftover_phase(&mut result, &mut emitted, Ghost(done));
        proof {
            done = done_all@;
            if acyclic(rs) {
                lemma_leftover_empty(rs, em_main, 0);
                assert(views_of_ops(result@) =~= rv_main);
            }
        }
        proof {
            lemma_all_emitted_coverage(rs, views_of_ops(result@), emitted@);
            assert(topo_positions(rs) =~= done);
            assert(views_of_ops(result@) =~= topo_view(rs));
        }
        result
    }

    /// Appends, in store order, the records the emission phase could not
    /// order, and reports the full position order.
    fn leftover_phase(
        &self,
        result: &mut Vec<Operation>,
        emitted: &mut Vec<bool>,
        done0: Ghost<Seq<int>>,
    ) -> (done: Ghost<Seq<int>>)
        requires
            self.wf(),
            emit_state_ok(self.ops(), views_of_ops(old(result)@), old(emitted)@),
            views_of_ops(old(result)@) == done0@.map_values(|q: int| self.ops()[q]),
        ensures
            emit_state_ok(self.ops(), views_of_ops(final(result)@), final(emitted)@),
            forall|k: int| 0 <= k < self.ops().len() ==> #[trigger] final(emitted)@[k],
            done@ == done0@ + leftover_from(self.ops(), old(emitted)@, 0),
            views_of_ops(final(result)@) == done@.map_values(|q: int| self.ops()[q]),
            (forall|k: int| 0 <= k < self.ops().len() ==> #[trigger] old(emitted)@[k])
                ==> views_of_ops(final(result)@) == views_of_ops(old(result)@),
    {
        let ghost rs = self.ops();
        let n = self.operations.len();
        let ghost em_main = emitted@;
        let ghost mut done = done0@;
        let mut i2: usize = 0;
        while i2 < n
            invariant
                self.wf(),
                rs == self.ops(),
                n == self.operations@.len(),
                i2 <= n,
                emit_state_ok(rs, views_of_ops(result@), emitted@),
                forall|k: int| 0 <= k < i2 ==> #[trigger] emitted@[k],
                forall|k: int| i2 <= k < n ==> emitted@[k] == em_main[k],
                views_of_ops(result@) == done.map_values(|q: int| rs[q]),
                done0@ + leftover_from(rs, em_main, 0) == done + leftover_from(
                    rs,
                    em_main,
                    i2 as int,
                ),
            decreases n - i2,
        {
            if !emitted[i2] {
                let ghost em_old = emitted@;
                self.emit_one(i2, result, emitted);
                proof {
                    assert(!em_main[i2 as int]);
                    assert(leftover_from(rs, em_main, i2 as int) == seq![i2 as int]
                        + leftover_from(rs, em_main, i2 as int + 1));
                    done = done.push(i2 as int);
                    assert(done0@ + leftover_from(rs, em_main, 0) =~= done + leftover_from(
                        rs,
                        em_main,
                        i2 as int + 1,
                    ));
                    assert(views_of_ops(result@) =~= done.map_values(|q: int| rs[q]));
                    assert(emitted@ == em_old.update(i2 as int, true));
                }
            } else {
                proof {
                    assert(em_main[i2 as int]);
                    assert(leftover_from(rs, em_main, i2 as int) == leftover_from(
                        rs,
                        em_main,
                        i2 as int + 1,
                    ));
                }
            }
            i2 = i2 + 1;
        }
        proof {
            assert(leftover_from(rs, em_main, n as int) =~= Seq::<int>::empty());
            assert(done =~= done0@ + leftover_from(rs, em_main, 0));
            if forall|k: int| 0 <= k < rs.len() ==> #[trigger] em_main[k] {
                lemma_leftover_empty(rs, em_main, 0);
                assert(done =~= done0@);
                assert(views_of_ops(result@) =~= views_of_ops(old(result)@));
            }
        }
        Ghost(done)
    }

    /// The emission phase of the ordered traversal: repeatedly emits the
    /// first record whose stored predecessors are all emitted, and reports
    /// the emitted positions in order.
    fn emit_phase(&self, result: &mut Vec<Operation>, emitted: &mut Vec<bool>) -> (done: Ghost<
        Seq<int>,
    >)
        requires
            self.wf(),
            old(result)@.len() == 0,
            old(emitted)@.len() == self.operations@.len(),
            forall|k: int| 0 <= k < old(emitted)@.len() ==> !(#[trigger] old(emitted)@[k]),
        ensures
            emit_state_ok(self.ops(), views_of_ops(final(result)@), final(emitted)@),
            topo_sorted(views_of_ops(final(result)@), self.ops()),
            views_of_ops(final(result)@) == done@.map_values(|q: int| self.ops()[q]),
            emit_all(self.ops(), Seq::new(self.ops().len(), |q: int| false), self.ops().len()).0
                == done@,
            emit_all(self.ops(), Seq::new(self.ops().len(), |q: int| false), self.ops().len()).1
                == final(emitted)@,
            forall|j0: int|
                0 <= j0 < self.ops().len() && !(#[trigger] final(emitted)@[j0]) ==> blocked(
                    self.ops(),
                    final(emitted)@,
                    j0,
                ),
    {
        let ghost rs = self.ops();
        let n = self.operations.len();
        proof {
            lemma_count_all_false(emitted@);
            assert(views_of_ops(result@) =~= Seq::<OpView>::empty());
            assert(emitted@ =~= Seq::new(rs.len(), |q: int| false));
        }
        let ghost full = emit_all(rs, Seq::new(rs.len(), |q: int| false), rs.len());
        let ghost mut done = Seq::<int>::empty();
        proof {
            assert(count_unemitted(emitted@) == rs.len());
            assert(full.0 =~= done + emit_all(rs, emitted@, count_unemitted(emitted@)).0);
        }
        let mut go = true;
        while go
            invariant
                self.wf(),
                rs == self.ops(),
                n == self.operations@.len(),
                emit_state_ok(rs, views_of_ops(result@), emitted@),
                topo_sorted(views_of_ops(result@), rs),
                views_of_ops(result@) == done.map_values(|q: int| rs[q]),
                full.0 == done + emit_all(rs, emitted@, count_unemitted(emitted@)).0,
                full.1 == emit_all(rs, emitted@, count_unemitted(emitted@)).1,
                !go ==> (forall|j0: int|
                    0 <= j0 < n && !(#[trigger] emitted@[j0]) ==> blocked(rs, emitted@, j0)),
                !go ==> full.0 == done && full.1 == emitted@,
            decreases count_unemitted(emitted@) + (if go {
                1int
            } else {
                0int
            }),
        {
            let next = self.find_eligible(emitted);
            match next {
                Option::Some(j) => {
                    let ghost em_old = emitted@;
                    let ghost rv_old = views_of_ops(result@);
                    self.emit_one(j, result, emitted);
                    proof {
                        lemma_emit_chain(rs, em_old, j as int);
                        lemma_emit_topo(rs, rv_old, em_old, j as int);
                        assert(emitted@ == em_old.update(j as int, true));
                        done = done.push(j as int);
                        assert(full.0 =~= done + emit_all(
                            rs,
                            emitted@,
                            count_unemitted(emitted@),
                        ).0);
                        assert(views_of_ops(result@) =~= done.map_values(|q: int| rs[q]));
                    }
                },
                Option::None => {
                    go = false;
                    proof {
                        lemma_first_eligible(rs, emitted@, 0, rs.len() as int);
                        assert(emit_all(rs, emitted@, count_unemitted(emitted@)).0
                            =~= Seq::<int>::empty());
                        assert(full.0 =~= done);
                    }
                },
            }
        }
        Ghost(done)
    }

    /// Finds the first record that can be emitted next, if any; with none
    /// left, every unemitted record has an unemitted stored predecessor.
    fn find_eligible(&self, emitted: &Vec<bool>) -> (r: Option<usize>)
        requires
            self.wf(),
            emitted@.len() == self.operations@.len(),
        ensures
            match r {
                Option::Some(j) => j < self.operations@.len() && eligible(
                    self.ops(),
                    emitted@,
                    j as int,
                ) && (forall|k: int|
                    0 <= k < j ==> !(#[trigger] eligible(self.ops(), emitted@, k))),
                Option::None => (forall|k: int|
                    0 <= k < self.operations@.len() ==> !(#[trigger] eligible(
                        self.ops(),
                        emitted@,
                        k,
                    ))) && (forall|k: int|
                    0 <= k < self.operations@.len() && !(#[trigger] emitted@[k]) ==> blocked(
                        self.ops(),
                        emitted@,
                        k,
                    )),
            },
    {
        let ghost rs = self.ops();
        let n = self.operations.len();
        let mut j: usize = 0;
        while j < n
            invariant
                self.wf(),
                rs == self.ops(),
                n == self.operations@.len(),
                emitted@.len() == n,
                j <= n,
                forall|k: int| 0 <= k < j ==> !(#[trigger] eligible(rs, emitted@, k)),
                forall|k: int|
                    0 <= k < j && !(#[trigger] emitted@[k]) ==> blocked(rs, emitted@, k),
            decreases n - j,
        {
            if !emitted[j] {
                let ok = self.preds_emitted(j, emitted);
                if ok {
                    proof {
                        assert(eligible(rs, emitted@, j as int));
                    }
                    return Option::Some(j);
                }
                proof {
                    assert(blocked(rs, emitted@, j as int));
                    let (q, w): (int, int) = choose|q: int, w: int|
                        0 <= q < rs[j as int].previous.len() && 0 <= w < rs.len() && (#[trigger] rs[
                        w]).hash == (#[trigger] rs[j as int].previous[q]) && !emitted@[w];
                    assert(!eligible(rs, emitted@, j as int));
                }
            } else {
                proof {
                    assert(!eligible(rs, emitted@, j as int));
                }
            }
            j = j + 1;
        }
        Option::None
    }

    /// Whether every stored causal predecessor of record `j` is already
    /// emitted.
    fn preds_emitted(&self, j: usize, emitted: &Vec<bool>) -> (ok: bool)
        requires
            self.wf(),
            j < self.operations@.len(),
            emitted@.len() == self.operations@.len(),
        ensures
            ok ==> (forall|q0: int, w: int|
                0 <= q0 < self.ops()[j as int].previous.len() && 0 <= w < self.ops().len() && (
                #[trigger] self.ops()[w]).hash == (#[trigger] self.ops()[j as int].previous[q0])
                    ==> emitted@[w]),
            !ok ==> blocked(self.ops(), emitted@, j as int),
    {
        let ghost rs = self.ops();
        let ghost n = self.operations@.len();
        let prev_len = self.operations[j].previous.len();
        proof {
            assert(rs[j as int] == self.operations@[j as int]@);
        }
        let mut q: usize = 0;
        while q < prev_len
            invariant
                self.wf(),
                rs == self.ops(),
                n == self.operations@.len(),
                emitted@.len() == n,
                j < n,
                q <= prev_len,
                prev_len == rs[j as int].previous.len(),
                forall|q0: int, w: int|
                    0 <= q0 < q && 0 <= w < n && (#[trigger] rs[w]).hash == (#[trigger] rs[
                    j as int].previous[q0]) ==> emitted@[w],
            decreases prev_len - q,
        {
            proof {
                assert(rs[j as int].previous[q as int] == self.operations@[
                j as int]@.previous[q as int]);
            }
            let found = find_index_of_hash(&self.operations, &self.operations[j].previous[q]);
            match found {
                Option::Some(w) => {
                    if !emitted[w] {
                        proof {
                            assert(rs[w as int].hash == rs[j as int].previous[q as int]);
                            assert(blocked(rs, emitted@, j as int));
                        }
                        return false;
                    }
                    proof {
                        assert forall|w2: int|
                            0 <= w2 < n && (#[trigger] rs[w2]).hash == rs[j as int].previous[
                        q as int] implies emitted@[w2] by {
                            if w2 != w {
                                assert(rs[w2].hash == rs[w as int].hash);
                                assert(false);
                            }
                        }
                    }
                },
                Option::None => {
                    proof {
                        assert forall|w2: int|
                            0 <= w2 < n && (#[trigger] rs[w2]).hash == rs[j as int].previous[
                        q as int] implies emitted@[w2] by {
                            assert(has_hash(rs, rs[w2].hash));
                            assert(false);
                        }
                    }
                },
            }
            q = q + 1;
        }
        true
    }

    /// Emits record `j`: appends it to the output and marks it.
    fn emit_one(&self, j: usize, result: &mut Vec<Operation>, emitted: &mut Vec<bool>)
        requires
            self.wf(),
            j < self.operations@.len(),
            !old(emitted)@[j as int],
            emit_state_ok(self.ops(), views_of_ops(old(result)@), old(emitted)@),
        ensures
            emit_state_ok(self.ops(), views_of_ops(final(result)@), final(emitted)@),
            views_of_ops(final(result)@) == views_of_ops(old(result)@).push(
                self.ops()[j as int],
            ),
            final(emitted)@ == old(emitted)@.update(j as int, true),
            count_unemitted(final(emitted)@) < count_unemitted(old(emitted)@),
    {
        let ghost rs = self.ops();
        let ghost n = self.operations@.len();
        let ghost rv_old = views_of_ops(result@);
        let ghost em_old = emitted@;
        proof {
            assert(rs[j as int] == self.operations@[j as int]@);
        }
        result.push(self.operations[j].clone());
        emitted.set(j, true);
        proof {
            let rv_new = views_of_ops(result@);
            assert(rv_new =~= rv_old.push(rs[j as int]));
            assert(emitted@ =~= em_old.update(j as int, true));
            lemma_count_update(em_old, j as int);
            if has_hash(rv_old, rs[j as int].hash) {
                let k = choose|k: int|
                    0 <= k < rv_old.len() && (#[trigger] rv_old[k]).hash == rs[j as int].hash;
                let j2 = choose|j2: int|
                    0 <= j2 < n && (#[trigger] em_old[j2]) && rs[j2] == rv_old[k];
                assert(rs[j2].hash == rs[j as int].hash);
                if j2 != j {
                    assert(false);
                }
                assert(false);
            }
            assert forall|j0: int|
                0 <= j0 < n && (#[trigger] emitted@[j0]) implies has_hash(
                rv_new,
                rs[j0].hash,
            ) by {
                if j0 != j {
                    assert(em_old[j0]);
                    assert(has_hash(rv_old, rs[j0].hash));
                    let k = choose|k: int|
                        0 <= k < rv_old.len() && (#[trigger] rv_old[k]).hash == rs[j0].hash;
                    assert(rv_new[k].hash == rs[j0].hash);
                } else {
                    assert(rv_new[rv_new.len() - 1].hash == rs[j as int].hash);
                }
            }
            assert forall|k: int| #![trigger rv_new[k]]
                0 <= k < rv_new.len() implies exists|j0: int|
                0 <= j0 < n && (#[trigger] emitted@[j0]) && rs[j0] == rv_new[k] by {
                if k < rv_old.len() {
                    let j0 = choose|j0: int|
                        0 <= j0 < n && (#[trigger] em_old[j0]) && rs[j0] == rv_old[k];
                    assert(emitted@[j0] && rs[j0] == rv_new[k]);
                } else {
                    assert(emitted@[j as int] && rs[j as int] == rv_new[k]);
                }
            }
        }
    }

    /// The stored records, keyed by nothing: insertion order, no ordering
    /// guarantee.
    pub fn operations_unsorted(&self) -> (r: &Vec<Operation>)
        ensures
            r@ == self.operations@,
    {
        &self.operations
    }

    /// The per-author logs, read-only.
    pub fn logs(&self) -> (r: &Vec<AuthorLog>)
        ensures
            r@ == self.logs@,
    {
        &self.logs
    }

    /// The given author's log, if that author has one.
    pub fn author_log(&self, public_key: &PublicKey) -> (r: Option<&AuthorLog>)
        ensures
            match r {
                Option::Some(log) => log@.public_key == public_key@ && exists|l: int|
                    0 <= l < self.logs@.len() && (#[trigger] self.logs@[l])@ == log@,
                Option::None => forall|l: int|
                    0 <= l < self.logs@.len() ==> (#[trigger] self.logs@[l]@).public_key
                        != public_key@,
            },
    {
        let idx = find_log_index(&self.logs, public_key);
        match idx {
            Option::Some(l) => Option::Some(&self.logs[l]),
            Option::None => Option::None,
        }
    }

    /// Removes the records with the given hashes from the store and from the
    /// logs, and brings the frontier back to the invariant.
    fn apply_removal(&mut self, removed: &Vec<crate::hash::Hash>)
        requires
            old(self).wf(),
        ensures
            final(self).wf(),
            forall|o: OpView|
                #[trigger] final(self).ops().contains(o) <==> (old(self).ops().contains(o)
                    && !hash_views(removed@).contains(o.hash)),
            final(self).logs@.len() == old(self).logs@.len(),
            forall|l: int|
                0 <= l < final(self).logs@.len() ==> (#[trigger] final(self).logs_view()[
                l]).public_key == old(self).logs_view()[l].public_key,
            forall|l: int, e: LogEntryView|
                0 <= l < final(self).logs@.len() ==> ((#[trigger] final(self).logs_view()[
                l].entries.contains(e)) <==> (old(self).logs_view()[l].entries.contains(e)
                    && !hash_views(removed@).contains(e.hash))),
    {
        let ghost rs0 = self.ops();
        let new_ops = filter_ops(&self.operations, removed);
        let ghost nv = views_of_ops(new_ops@);
        let mut new_logs: Vec<AuthorLog> = Vec::new();
        let mut l: usize = 0;
        while l < self.logs.len()
            invariant
                self == old(self),
                l <= self.logs.len(),
                new_logs@.len() == l,
                forall|x: int| 0 <= x < l ==> (#[trigger] new_logs@[x]).wf(),
                forall|x: int|
                    0 <= x < l ==> (#[trigger] new_logs@[x])@.public_key == self.logs_view()[
                    x].public_key,
                forall|x: int, e: LogEntryView|
                    0 <= x < l ==> ((#[trigger] new_logs@[x]@.entries.contains(e)) <==> (
                    self.logs_view()[x].entries.contains(e) && !hash_views(removed@).contains(
                        e.hash,
                    ))),
            decreases self.logs.len() - l,
        {
            proof {
                assert(self.logs@[l as int].wf());
                assert(self.logs_view()[l as int] == self.logs@[l as int]@);
            }
            let fl = filter_log(&self.logs[l], removed);
            new_logs.push(fl);
            l = l + 1;
        }
        self.operations = new_ops;
        self.logs = new_logs;
        proof {
            assert(self.ops() == nv);
            assert forall|i0: int, j0: int|
                0 <= i0 < j0 < self.ops().len() implies (#[trigger] self.ops()[i0]).hash
                != (#[trigger] self.ops()[j0]).hash by {
                assert(nv[i0].hash != nv[j0].hash);
            }
            assert forall|i0: int, j0: int|
                0 <= i0 < j0 < self.logs_view().len() implies (#[trigger] self.logs_view()[
                i0]).public_key != (#[trigger] self.logs_view()[j0]).public_key by {
                assert(self.logs_view()[i0] == new_logs@[i0]@);
                assert(self.logs_view()[j0] == new_logs@[j0]@);
                assert(old(self).logs_view()[i0].public_key != old(self).logs_view()[
                j0].public_key);
            }
            assert forall|x: int| 0 <= x < self.logs@.len() implies (#[trigger] self.logs@[
            x]).wf() by {
                assert(self.logs@[x] == new_logs@[x]);
            }
            assert forall|x: int, k: int|
                0 <= x < self.logs_view().len() && 0 <= k
                    < self.logs_view()[x].entries.len() implies entry_matches(
                self.ops(),
                self.logs_view()[x].public_key,
                #[trigger] self.logs_view()[x].entries[k],
            ) by {
                let e = self.logs_view()[x].entries[k];
                assert(self.logs_view()[x] == new_logs@[x]@);
                assert(new_logs@[x]@.entries.contains(e));
                assert(old(self).logs_view()[x].entries.contains(e) && !hash_views(
                    removed@,
                ).contains(e.hash));
                let k0 = choose|k0: int|
                    0 <= k0 < old(self).logs_view()[x].entries.len() && old(self).logs_view()[
                    x].entries[k0] == e;
                assert(entry_matches(rs0, old(self).logs_view()[x].public_key, e));
                let w = choose|w: int|
                    0 <= w < rs0.len() && (#[trigger] rs0[w]).hash == e.hash && rs0[w].public_key
                        == old(self).logs_view()[x].public_key && rs0[w].seq_num == e.seq_num;
                assert(rs0.contains(rs0[w]));
                assert(old(self).ops().contains(rs0[w]));
                assert(nv.contains(rs0[w]));
                let w2 = choose|w2: int| 0 <= w2 < nv.len() && nv[w2] == rs0[w];
                assert(self.ops()[w2] == rs0[w]);
            }
        }
        self.recompute_tips();
        proof {
            assert(self.ops() == nv);
            assert forall|o: OpView| #[trigger] self.ops().contains(o) implies (old(
                self,
            ).ops().contains(o) && !hash_views(removed@).contains(o.hash)) by {
                assert(nv.contains(o));
            }
            assert forall|o: OpView|
                old(self).ops().contains(o) && !hash_views(removed@).contains(o.hash) implies #[
            trigger] self.ops().contains(o) by {
                assert(nv.contains(o));
            }
            assert forall|l2: int|
                0 <= l2 < self.logs@.len() implies (#[trigger] self.logs_view()[l2]).public_key
                == old(self).logs_view()[l2].public_key by {
                assert(self.logs@[l2] == new_logs@[l2]);
                assert(new_logs@[l2]@.public_key == old(self).logs_view()[l2].public_key);
            }
            assert forall|l2: int, e: LogEntryView|
                0 <= l2 < self.logs@.len() implies ((#[trigger] self.logs_view()[
            l2].entries.contains(e)) <==> (old(self).logs_view()[l2].entries.contains(e)
                && !hash_views(removed@).contains(e.hash))) by {
                assert(self.logs@[l2] == new_logs@[l2]);
                assert(self.logs_view()[l2] == new_logs@[l2]@);
            }
        }
    }

    /// Removes every record whose timestamp is before the given one, from
    /// the store and from its author's log; references to removed records
    /// that survive in retained records are accepted as holes. Returns the
    /// hashes of the removed records.
    pub fn prune_before_timestamp(&mut self, timestamp: u64) -> (removed: Vec<
        crate::hash::Hash,
    >)
        requires
            old(self).wf(),
        ensures
            final(self).wf(),
            forall|o: OpView|
                #[trigger] final(self).ops().contains(o) <==> (old(self).ops().contains(o) && (
                o.timestamp as u64) >= timestamp),
            forall|h: Seq<u8>|
                #[trigger] hash_views(removed@).contains(h) <==> exists|k: int|
                    0 <= k < old(self).ops().len() && (#[trigger] old(self).ops()[k]).hash == h
                        && (old(self).ops()[k].timestamp as u64) < timestamp,
            final(self).logs@.len() == old(self).logs@.len(),
            forall|l: int|
                0 <= l < final(self).logs@.len() ==> (#[trigger] final(self).logs_view()[
                l]).public_key == old(self).logs_view()[l].public_key,
            forall|l: int, e: LogEntryView|
                0 <= l < final(self).logs@.len() ==> ((#[trigger] final(self).logs_view()[
                l].entries.contains(e)) <==> (old(self).logs_view()[l].entries.contains(e)
                    && !hash_views(removed@).contains(e.hash))),
    {
        let ghost rs0 = self.ops();
        let mut removed: Vec<crate::hash::Hash> = Vec::new();
        let mut i: usize = 0;
        while i < self.operations.len()
            invariant
                self == old(self),
                rs0 == self.ops(),
                i <= self.operations.len(),
                forall|h: Seq<u8>|
                    #[trigger] hash_views(removed@).contains(h) ==> exists|k: int|
                        0 <= k < i && (#[trigger] rs0[k]).hash == h && (rs0[k].timestamp as u64)
                            < timestamp,
                forall|k: int|
                    0 <= k < i && ((#[trigger] rs0[k]).timestamp as u64) < timestamp ==> hash_views(
                        removed@,
                    ).contains(rs0[k].hash),
            decreases self.operations.len() - i,
        {
            proof {
                assert(rs0[i as int] == self.operations@[i as int]@);
            }
            if (self.operations[i].timestamp as u64) < timestamp {
                let ghost pre = hash_views(removed@);
                removed.push(self.operations[i].hash.clone());
                proof {
                    assert(hash_views(removed@) =~= pre.push(rs0[i as int].hash));
                    assert forall|h: Seq<u8>| pre.contains(h) implies #[trigger] hash_views(
                        removed@,
                    ).contains(h) by {
                        let k = choose|k: int| 0 <= k < pre.len() && pre[k] == h;
                        assert(hash_views(removed@)[k] == h);
                    }
                    assert(hash_views(removed@)[hash_views(removed@).len() - 1] == rs0[
                    i as int].hash);
                    assert(hash_views(removed@).contains(rs0[i as int].hash));
                    assert forall|h: Seq<u8>| #[trigger] hash_views(removed@).contains(h) implies
                        exists|k: int|
                        0 <= k < i + 1 && (#[trigger] rs0[k]).hash == h && (rs0[k].timestamp
                            as u64) < timestamp by {
                        if pre.contains(h) {
                            let k = choose|k: int|
                                0 <= k < i && (#[trigger] rs0[k]).hash == h && (rs0[k].timestamp
                                    as u64) < timestamp;
                            assert(0 <= k < i + 1 && rs0[k].hash == h);
                        } else {
                            assert(h == rs0[i as int].hash);
                        }
                    }
                }
            }
            i = i + 1;
        }
        self.apply_removal(&removed);
        proof {
            assert forall|o: OpView| #[trigger] final(self).ops().contains(o) implies (old(
                self,
            ).ops().contains(o) && (o.timestamp as u64) >= timestamp) by {
                assert(!hash_views(removed@).contains(o.hash));
                let k = choose|k: int| 0 <= k < rs0.len() && rs0[k] == o;
                if (o.timestamp as u64) < timestamp {
                    assert((rs0[k].timestamp as u64) < timestamp);
                    assert(hash_views(removed@).contains(rs0[k].hash));
                    assert(false);
                }
            }
            assert forall|o: OpView|
                old(self).ops().contains(o) && (o.timestamp as u64) >= timestamp implies #[
            trigger] final(self).ops().contains(o) by {
                let k = choose|k: int| 0 <= k < rs0.len() && rs0[k] == o;
                if hash_views(removed@).contains(o.hash) {
                    let k2 = choose|k2: int|
                        0 <= k2 < rs0.len() && (#[trigger] rs0[k2]).hash == o.hash && (rs0[
                        k2].timestamp as u64) < timestamp;
                    if k != k2 {
                        assert(rs0[k].hash == rs0[k2].hash);
                        assert(false);
                    }
                    assert(false);
                }
            }
        }
        removed
    }

    /// In a well-formed document, an entry hash determines its log and its
    /// position in that log.
    proof fn lemma_entry_hash_unique(&self, l1: int, k1: int, l2: int, k2: int)
        requires
            self.hashes_distinct(),
            self.logs_ok(),
            0 <= l1 < self.logs_view().len(),
            0 <= k1 < self.logs_view()[l1].entries.len(),
            0 <= l2 < self.logs_view().len(),
            0 <= k2 < self.logs_view()[l2].entries.len(),
            self.logs_view()[l1].entries[k1].hash == self.logs_view()[l2].entries[k2].hash,
        ensures
            l1 == l2,
            k1 == k2,
    {
        let e1 = self.logs_view()[l1].entries[k1];
        let e2 = self.logs_view()[l2].entries[k2];
        assert(entry_matches(self.ops(), self.logs_view()[l1].public_key, e1));
        assert(entry_matches(self.ops(), self.logs_view()[l2].public_key, e2));
        let w1 = choose|w: int|
            0 <= w < self.ops().len() && (#[trigger] self.ops()[w]).hash == e1.hash && self.ops()[
            w].public_key == self.logs_view()[l1].public_key && self.ops()[w].seq_num == e1.seq_num;
        let w2 = choose|w: int|
            0 <= w < self.ops().len() && (#[trigger] self.ops()[w]).hash == e2.hash && self.ops()[
            w].public_key == self.logs_view()[l2].public_key && self.ops()[w].seq_num == e2.seq_num;
        if w1 != w2 {
            assert(self.ops()[w1].hash == self.ops()[w2].hash);
            assert(false);
        }
        assert(self.logs_view()[l1].public_key == self.logs_view()[l2].public_key);
        if l1 != l2 {
            assert(false);
        }
        assert(e1.seq_num == e2.seq_num);
        assert(self.logs@[l1].wf());
        if k1 < k2 {
            assert(self.logs@[l1]@.entries[k1].seq_num < self.logs@[l1]@.entries[k2].seq_num);
            assert(false);
        }
        if k2 < k1 {
            assert(self.logs@[l1]@.entries[k2].seq_num < self.logs@[l1]@.entries[k1].seq_num);
            assert(false);
        }
    }

    /// Removes the records with the given hashes from the store, leaving the
    /// logs as they are; no surviving log entry may name a removed hash.
    fn apply_removal_ops(&mut self, removed: &Vec<crate::hash::Hash>)
        requires
            old(self).hashes_distinct(),
            old(self).logs_ok(),
            forall|l: int, k: int|
                0 <= l < old(self).logs_view().len() && 0 <= k < old(self).logs_view()[
                l].entries.len() ==> !hash_views(removed@).contains(
                    (#[trigger] old(self).logs_view()[l].entries[k]).hash,
                ),
        ensures
            final(self).wf(),
            forall|o: OpView|
                #[trigger] final(self).ops().contains(o) <==> (old(self).ops().contains(o)
                    && !hash_views(removed@).contains(o.hash)),
            final(self).logs@ == old(self).logs@,
    {
        let ghost rs0 = self.ops();
        let new_ops = filter_ops(&self.operations, removed);
        let ghost nv = views_of_ops(new_ops@);
        self.operations = new_ops;
        proof {
            assert(self.ops() == nv);
            assert(self.logs_view() == old(self).logs_view());
            assert forall|i0: int, j0: int|
                0 <= i0 < j0 < self.ops().len() implies (#[trigger] self.ops()[i0]).hash
                != (#[trigger] self.ops()[j0]).hash by {
                assert(nv[i0].hash != nv[j0].hash);
            }
            assert forall|i0: int, j0: int|
                0 <= i0 < j0 < self.logs_view().len() implies (#[trigger] self.logs_view()[
                i0]).public_key != (#[trigger] self.logs_view()[j0]).public_key by {
                assert(old(self).logs_view()[i0].public_key != old(self).logs_view()[
                j0].public_key);
            }
            assert forall|x: int| 0 <= x < self.logs@.len() implies (#[trigger] self.logs@[
            x]).wf() by {
                assert(old(self).logs@[x].wf());
            }
            assert forall|x: int, k: int|
                0 <= x < self.logs_view().len() && 0 <= k
                    < self.logs_view()[x].entries.len() implies entry_matches(
                self.ops(),
                self.logs_view()[x].public_key,
                #[trigger] self.logs_view()[x].entries[k],
            ) by {
                let e = self.logs_view()[x].entries[k];
                assert(old(self).logs_view()[x].entries[k] == e);
                assert(!hash_views(removed@).contains(e.hash));
                assert(entry_matches(rs0, old(self).logs_view()[x].public_key, e));
                let w = choose|w: int|
                    0 <= w < rs0.len() && (#[trigger] rs0[w]).hash == e.hash && rs0[w].public_key
                        == old(self).logs_view()[x].public_key && rs0[w].seq_num == e.seq_num;
                assert(rs0.contains(rs0[w]));
                assert(old(self).ops().contains(rs0[w]));
                assert(nv.contains(rs0[w]));
                let w2 = choose|w2: int| 0 <= w2 < nv.len() && nv[w2] == rs0[w];
                assert(self.ops()[w2] == rs0[w]);
            }
        }
        self.recompute_tips();
        proof {
            assert(self.ops() == nv);
            assert forall|o: OpView| #[trigger] self.ops().contains(o) implies (old(
                self,
            ).ops().contains(o) && !hash_views(removed@).contains(o.hash)) by {
                assert(nv.contains(o));
            }
            assert forall|o: OpView|
                old(self).ops().contains(o) && !hash_views(removed@).contains(o.hash) implies #[
            trigger] self.ops().contains(o) by {
                assert(nv.contains(o));
            }
        }
    }

    /// Keeps only the newest `depth` entries of every author's log, by
    /// sequence number, and removes the records the dropped entries named
    /// from the store. Local recency is prioritized over global graph
    /// completeness. Returns the hashes of the removed records.
    pub fn prune_before_depth_per_log(&mut self, depth: usize) -> (removed: Vec<crate::hash::Hash>)
        requires
            old(self).wf(),
        ensures
            final(self).wf(),
            final(self).logs@.len() == old(self).logs@.len(),
            forall|l: int|
                0 <= l < final(self).logs@.len() ==> (#[trigger] final(self).logs_view()[
                l]).public_key == old(self).logs_view()[l].public_key,
            forall|l: int|
                0 <= l < final(self).logs@.len() ==> (#[trigger] final(self).logs_view()[
                l]).entries == old(self).logs_view()[l].entries.skip(
                    cut_of(old(self).logs_view()[l].entries.len() as int, depth as int),
                ),
            forall|l: int|
                0 <= l < final(self).logs@.len() ==> (#[trigger] final(self).logs_view()[
                l]).entries.len() <= depth,
            forall|h: Seq<u8>|
                #[trigger] hash_views(removed@).contains(h) <==> exists|l: int, k: int|
                    0 <= l < old(self).logs_view().len() && 0 <= k < cut_of(
                        old(self).logs_view()[l].entries.len() as int,
                        depth as int,
                    ) && (#[trigger] old(self).logs_view()[l].entries[k]).hash == h,
            forall|o: OpView|
                #[trigger] final(self).ops().contains(o) <==> (old(self).ops().contains(o)
                    && !hash_views(removed@).contains(o.hash)),
    {
        let mut removed: Vec<crate::hash::Hash> = Vec::new();
        let mut new_logs: Vec<AuthorLog> = Vec::new();
        let mut l: usize = 0;
        while l < self.logs.len()
            invariant
                self == old(self),
                old(self).wf(),
                l <= self.logs.len(),
                new_logs@.len() == l,
                forall|x: int|
                    0 <= x < l ==> (#[trigger] new_logs@[x])@.public_key == self.logs_view()[
                    x].public_key,
                forall|x: int|
                    0 <= x < l ==> (#[trigger] new_logs@[x])@.entries == self.logs_view()[
                    x].entries.skip(cut_of(self.logs_view()[x].entries.len() as int, depth as int)),
                forall|h: Seq<u8>|
                    #[trigger] hash_views(removed@).contains(h) ==> exists|x: int, k: int|
                        0 <= x < l && 0 <= k < cut_of(
                            self.logs_view()[x].entries.len() as int,
                            depth as int,
                        ) && (#[trigger] self.logs_view()[x].entries[k]).hash == h,
                forall|x: int, k: int|
                    0 <= x < l && 0 <= k < cut_of(
                        self.logs_view()[x].entries.len() as int,
                        depth as int,
                    ) ==> hash_views(removed@).contains(
                        (#[trigger] self.logs_view()[x].entries[k]).hash,
                    ),
            decreases self.logs.len() - l,
        {
            let log_len = self.logs[l].entries.len();
            let cut: usize = if log_len > depth {
                log_len - depth
            } else {
                0
            };
            proof {
                assert(self.logs_view()[l as int] == self.logs@[l as int]@);
                assert(cut == cut_of(self.logs_view()[l as int].entries.len() as int, depth as int));
            }
            let mut k: usize = 0;
            while k < cut
                invariant
                    self == old(self),
                    old(self).wf(),
                    l < self.logs.len(),
                    k <= cut,
                    cut <= self.logs@[l as int]@.entries.len(),
                    cut == cut_of(self.logs_view()[l as int].entries.len() as int, depth as int),
                    new_logs@.len() == l,
                    forall|x: int|
                        0 <= x < l ==> (#[trigger] new_logs@[x])@.public_key == self.logs_view()[
                        x].public_key,
                    forall|x: int|
                        0 <= x < l ==> (#[trigger] new_logs@[x])@.entries == self.logs_view()[
                        x].entries.skip(
                            cut_of(self.logs_view()[x].entries.len() as int, depth as int),
                        ),
                    forall|h: Seq<u8>|
                        #[trigger] hash_views(removed@).contains(h) ==> (exists|x: int, k0: int|
                            0 <= x < l && 0 <= k0 < cut_of(
                                self.logs_view()[x].entries.len() as int,
                                depth as int,
                            ) && (#[trigger] self.logs_view()[x].entries[k0]).hash == h) || (exists|
                            k0: int|
                            0 <= k0 < k && (#[trigger] self.logs_view()[l as int].entries[k0]).hash
                                == h),
                    forall|x: int, k0: int|
                        0 <= x < l && 0 <= k0 < cut_of(
                            self.logs_view()[x].entries.len() as int,
                            depth as int,
                        ) ==> hash_views(removed@).contains(
                            (#[trigger] self.logs_view()[x].entries[k0]).hash,
                        ),
                    forall|k0: int|
                        0 <= k0 < k ==> hash_views(removed@).contains(
                            (#[trigger] self.logs_view()[l as int].entries[k0]).hash,
                        ),
                decreases cut - k,
            {
                let ghost pre = hash_views(removed@);
                removed.push(self.logs[l].entries[k].hash.clone());
                proof {
                    assert(self.logs_view()[l as int].entries[k as int] == self.logs@[
                    l as int].entries@[k as int]@);
                    assert(hash_views(removed@) =~= pre.push(
                        self.logs_view()[l as int].entries[k as int].hash,
                    ));
                    assert forall|h: Seq<u8>| pre.contains(h) implies #[trigger] hash_views(
                        removed@,
                    ).contains(h) by {
                        let q = choose|q: int| 0 <= q < pre.len() && pre[q] == h;
                        assert(hash_views(removed@)[q] == h);
                    }
                    assert(hash_views(removed@)[hash_views(removed@).len() - 1] == self.logs_view()[
                    l as int].entries[k as int].hash);
                    assert(hash_views(removed@).contains(
                        self.logs_view()[l as int].entries[k as int].hash,
                    ));
                    assert forall|h: Seq<u8>| #[trigger] hash_views(removed@).contains(h) implies (
                    exists|x: int, k0: int|
                        0 <= x < l && 0 <= k0 < cut_of(
                            self.logs_view()[x].entries.len() as int,
                            depth as int,
                        ) && (#[trigger] self.logs_view()[x].entries[k0]).hash == h) || (exists|
                        k0: int|
                        0 <= k0 < k + 1 && (#[trigger] self.logs_view()[l as int].entries[k0]).hash
                            == h) by {
                        if pre.contains(h) {
                        } else {
                            assert(h == self.logs_view()[l as int].entries[k as int].hash);
                        }
                    }
                }
                k = k + 1;
            }
            let mut kept: Vec<LogEntry> = Vec::new();
            let mut k2: usize = cut;
            while k2 < log_len
                invariant
                    self == old(self),
                    l < self.logs.len(),
                    log_len == self.logs@[l as int]@.entries.len(),
                    cut <= k2 <= log_len,
                    kept@.len() == k2 - cut,
                    forall|q: int|
                        0 <= q < kept@.len() ==> (#[trigger] kept@[q])@ == self.logs_view()[
                        l as int].entries[cut + q],
                decreases log_len - k2,
            {
                kept.push(self.logs[l].entries[k2].clone());
                k2 = k2 + 1;
            }
            let nl = AuthorLog { public_key: self.logs[l].public_key.clone(), entries: kept };
            proof {
                assert(nl@.entries =~= self.logs_view()[l as int].entries.skip(cut as int));
            }
            new_logs.push(nl);
            l = l + 1;
        }
        let ghost final_removed = hash_views(removed@);
        let ghost old_logs_view = self.logs_view();
        proof {
            assert forall|x: int, k: int|
                0 <= x < new_logs@.len() && 0 <= k
                    < new_logs@[x]@.entries.len() implies !final_removed.contains(
                (#[trigger] new_logs@[x]@.entries[k]).hash,
            ) by {
                let cutx = cut_of(old_logs_view[x].entries.len() as int, depth as int);
                assert(new_logs@[x]@.entries == old_logs_view[x].entries.skip(cutx));
                assert(new_logs@[x]@.entries[k] == old_logs_view[x].entries[cutx + k]);
                if final_removed.contains(new_logs@[x]@.entries[k].hash) {
                    let (y, q): (int, int) = choose|y: int, q: int|
                        0 <= y < old_logs_view.len() && 0 <= q < cut_of(
                            old_logs_view[y].entries.len() as int,
                            depth as int,
                        ) && (#[trigger] old_logs_view[y].entries[q]).hash == new_logs@[
                        x]@.entries[k].hash;
                    old(self).lemma_entry_hash_unique(x, cutx + k, y, q);
                    assert(false);
                }
            }
        }
        self.logs = new_logs;
        proof {
            assert(self.ops() == old(self).ops());
            assert forall|i0: int, j0: int|
                0 <= i0 < j0 < self.logs_view().len() implies (#[trigger] self.logs_view()[
                i0]).public_key != (#[trigger] self.logs_view()[j0]).public_key by {
                assert(self.logs_view()[i0] == new_logs@[i0]@);
                assert(self.logs_view()[j0] == new_logs@[j0]@);
                assert(old_logs_view[i0].public_key != old_logs_view[j0].public_key);
            }
            assert forall|x: int| 0 <= x < self.logs@.len() implies (#[trigger] self.logs@[
            x]).wf() by {
                assert(self.logs@[x] == new_logs@[x]);
                let cutx = cut_of(old_logs_view[x].entries.len() as int, depth as int);
                assert(new_logs@[x]@.entries == old_logs_view[x].entries.skip(cutx));
                assert(old(self).logs@[x].wf());
                assert forall|a: int, b: int|
                    0 <= a < b < new_logs@[x]@.entries.len() implies new_logs@[
                x]@.entries[a].seq_num < new_logs@[x]@.entries[b].seq_num by {
                    assert(new_logs@[x]@.entries[a] == old_logs_view[x].entries[cutx + a]);
                    assert(new_logs@[x]@.entries[b] == old_logs_view[x].entries[cutx + b]);
                }
            }
            assert forall|x: int, k: int|
                0 <= x < self.logs_view().len() && 0 <= k
                    < self.logs_view()[x].entries.len() implies entry_matches(
                self.ops(),
                self.logs_view()[x].public_key,
                #[trigger] self.logs_view()[x].entries[k],
            ) by {
                let e = self.logs_view()[x].entries[k];
                let cutx = cut_of(old_logs_view[x].entries.len() as int, depth as int);
                assert(self.logs_view()[x] == new_logs@[x]@);
                assert(e == old_logs_view[x].entries[cutx + k]);
                assert(entry_matches(old(self).ops(), old_logs_view[x].public_key, e));
            }
        }
        self.apply_removal_ops(&removed);
        proof {
            assert forall|x: int|
                0 <= x < final(self).logs@.len() implies (#[trigger] final(self).logs_view()[
            x]).entries.len() <= depth by {
                let cutx = cut_of(old_logs_view[x].entries.len() as int, depth as int);
                assert(final(self).logs_view()[x] == new_logs@[x]@);
                assert(new_logs@[x]@.entries == old_logs_view[x].entries.skip(cutx));
            }
            assert forall|x: int|
                0 <= x < final(self).logs@.len() implies (#[trigger] final(self).logs_view()[
            x]).public_key == old_logs_view[x].public_key by {
                assert(final(self).logs_view()[x] == new_logs@[x]@);
            }
            assert forall|x: int|
                0 <= x < final(self).logs@.len() implies (#[trigger] final(self).logs_view()[
            x]).entries == old_logs_view[x].entries.skip(
                cut_of(old_logs_view[x].entries.len() as int, depth as int),
            ) by {
                assert(final(self).logs_view()[x] == new_logs@[x]@);
            }
        }
        removed
    }

    /// Removes every record that lies more than `depth` hops from the
    /// nearest frontier tip, irrespective of author. Returns the hashes of
    /// the removed records.
    pub fn prune_before_depth(&mut self, depth: u64) -> (removed: Vec<crate::hash::Hash>)
        requires
            old(self).wf(),
        ensures
            final(self).wf(),
            forall|o: OpView|
                #[trigger] final(self).ops().contains(o) <==> (old(self).ops().contains(o)
                    && within_depth(old(self).ops(), o.hash, depth as nat)),
            forall|h: Seq<u8>|
                #[trigger] hash_views(removed@).contains(h) <==> (has_hash(old(self).ops(), h)
                    && !within_depth(old(self).ops(), h, depth as nat)),
            final(self).logs@.len() == old(self).logs@.len(),
            forall|l: int|
                0 <= l < final(self).logs@.len() ==> (#[trigger] final(self).logs_view()[
                l]).public_key == old(self).logs_view()[l].public_key,
            forall|l: int, e: LogEntryView|
                0 <= l < final(self).logs@.len() ==> ((#[trigger] final(self).logs_view()[
                l].entries.contains(e)) <==> (old(self).logs_view()[l].entries.contains(e)
                    && !hash_views(removed@).contains(e.hash))),
    {
        let ghost rs = self.ops();
        let n = self.operations.len();
        let mut marked: Vec<bool> = Vec::new();
        let mut i: usize = 0;
        while i < n
            invariant
                self == old(self),
                rs == self.ops(),
                n == self.operations@.len(),
                i <= n,
                marked@.len() == i,
                forall|k: int|
                    0 <= k < i ==> ((#[trigger] marked@[k]) <==> within_depth(
                        rs,
                        rs[k].hash,
                        0,
                    )),
            decreases n - i,
        {
            proof {
                assert(rs[i as int] == self.operations@[i as int]@);
            }
            let tip = !any_references(&self.operations, &self.operations[i].hash);
            proof {
                assert(has_hash(rs, rs[i as int].hash));
                assert(tip == is_tip(rs, rs[i as int].hash));
            }
            marked.push(tip);
            i = i + 1;
        }
        let mut round: u64 = 0;
        while round < depth
            invariant
                self == old(self),
                rs == self.ops(),
                n == self.operations@.len(),
                marked@.len() == n,
                round <= depth,
                forall|k: int|
                    0 <= k < n ==> ((#[trigger] marked@[k]) <==> within_depth(
                        rs,
                        rs[k].hash,
                        round as nat,
                    )),
            decreases depth - round,
        {
            let mut next: Vec<bool> = Vec::new();
            let mut c: usize = 0;
            while c < n
                invariant
                    c <= n,
                    marked@.len() == n,
                    next@.len() == c,
                    forall|k: int| 0 <= k < c ==> next@[k] == marked@[k],
                decreases n - c,
            {
                next.push(marked[c]);
                c = c + 1;
            }
            proof {
                assert forall|k: int| 0 <= k < n && next@[k] implies within_depth(
                    rs,
                    rs[k].hash,
                    round as nat + 1,
                ) by {
                    assert(marked@[k]);
                    lemma_within_depth_monotone(rs, rs[k].hash, round as nat, round as nat + 1);
                }
            }
            let mut j: usize = 0;
            while j < n
                invariant
                    self == old(self),
                    rs == self.ops(),
                    n == self.operations@.len(),
                    marked@.len() == n,
                    next@.len() == n,
                    j <= n,
                    round < depth,
                    forall|k: int|
                        0 <= k < n ==> ((#[trigger] marked@[k]) <==> within_depth(
                            rs,
                            rs[k].hash,
                            round as nat,
                        )),
                    forall|k: int| 0 <= k < n ==> (marked@[k] ==> #[trigger] next@[k]),
                    forall|k: int|
                        0 <= k < n ==> ((#[trigger] next@[k]) ==> within_depth(
                            rs,
                            rs[k].hash,
                            round as nat + 1,
                        )),
                    forall|j0: int, q: int, w: int|
                        0 <= j0 < j && marked@[j0] && 0 <= q < rs[j0].previous.len() && 0 <= w < n
                            && (#[trigger] rs[w]).hash == (#[trigger] rs[j0].previous[q])
                            ==> next@[w],
                decreases n - j,
            {
                proof {
                    assert(rs[j as int] == self.operations@[j as int]@);
                }
                if marked[j] {
                    let prev_len = self.operations[j].previous.len();
                    let mut q: usize = 0;
                    while q < prev_len
                        invariant
                            self == old(self),
                            rs == self.ops(),
                            n == self.operations@.len(),
                            marked@.len() == n,
                            next@.len() == n,
                            j < n,
                            round < depth,
                            marked@[j as int],
                            prev_len == rs[j as int].previous.len(),
                            q <= prev_len,
                            forall|k: int|
                                0 <= k < n ==> ((#[trigger] marked@[k]) <==> within_depth(
                                    rs,
                                    rs[k].hash,
                                    round as nat,
                                )),
                            forall|k: int| 0 <= k < n ==> (marked@[k] ==> #[trigger] next@[k]),
                            forall|k: int|
                                0 <= k < n ==> ((#[trigger] next@[k]) ==> within_depth(
                                    rs,
                                    rs[k].hash,
                                    round as nat + 1,
                                )),
                            forall|j0: int, q0: int, w: int|
                                0 <= j0 < j && marked@[j0] && 0 <= q0 < rs[j0].previous.len() && 0
                                    <= w < n && (#[trigger] rs[w]).hash == (#[trigger] rs[
                                j0].previous[q0]) ==> next@[w],
                            forall|q0: int, w: int|
                                0 <= q0 < q && 0 <= w < n && (#[trigger] rs[w]).hash == (#[trigger]
                                rs[j as int].previous[q0]) ==> next@[w],
                        decreases prev_len - q,
                    {
                        proof {
                            assert(rs[j as int].previous[q as int] == self.operations@[
                            j as int]@.previous[q as int]);
                        }
                        let found = find_index_of_hash(
                            &self.operations,
                            &self.operations[j].previous[q],
                        );
                        match found {
                            Option::Some(w) => {
                                proof {
                                    assert(rs[w as int].hash == rs[j as int].previous[q as int]);
                                    assert(rs[j as int].previous.contains(rs[w as int].hash));
                                    assert(within_depth(rs, rs[j as int].hash, round as nat));
                                    assert(within_depth(
                                        rs,
                                        rs[w as int].hash,
                                        round as nat + 1,
                                    ));
                                }
                                let ghost pre_next = next@;
                                next.set(w, true);
                                proof {
                                    assert(next@ =~= pre_next.update(w as int, true));
                                }
                            },
                            Option::None => {
                                proof {
                                    assert forall|w: int|
                                        0 <= w < n && (#[trigger] rs[w]).hash == rs[
                                    j as int].previous[q as int] implies next@[w] by {
                                        assert(has_hash(rs, rs[w].hash));
                                        assert(false);
                                    }
                                }
                            },
                        }
                        q = q + 1;
                    }
                }
                j = j + 1;
            }
            proof {
                assert forall|k: int|
                    0 <= k < n && within_depth(rs, (#[trigger] rs[k]).hash, round as nat
                        + 1) implies next@[k] by {
                    if is_tip(rs, rs[k].hash) {
                        assert(within_depth(rs, rs[k].hash, round as nat));
                        assert(marked@[k]);
                    } else {
                        let j0 = choose|j0: int|
                            0 <= j0 < rs.len() && (#[trigger] rs[j0]).previous.contains(rs[k].hash)
                                && within_depth(rs, rs[j0].hash, round as nat);
                        assert(marked@[j0]);
                        let q0 = choose|q0: int|
                            0 <= q0 < rs[j0].previous.len() && rs[j0].previous[q0] == rs[k].hash;
                        assert(next@[k]);
                    }
                }
            }
            let same = flags_equal(&next, &marked);
            if same {
                proof {
                    lemma_within_depth_saturated(rs, marked@, round as nat, depth as nat);
                    assert forall|k: int|
                        0 <= k < n implies ((#[trigger] marked@[k]) <==> within_depth(
                        rs,
                        rs[k].hash,
                        depth as nat,
                    )) by {
                        if marked@[k] {
                            lemma_within_depth_monotone(
                                rs,
                                rs[k].hash,
                                round as nat,
                                depth as nat,
                            );
                        }
                    }
                }
                round = depth;
            } else {
                marked = next;
                proof {
                    assert forall|k: int|
                        0 <= k < n implies ((#[trigger] marked@[k]) <==> within_depth(
                        rs,
                        rs[k].hash,
                        round as nat + 1,
                    )) by {}
                }
                round = round + 1;
            }
        }
        let mut removed: Vec<crate::hash::Hash> = Vec::new();
        let mut i2: usize = 0;
        while i2 < n
            invariant
                self == old(self),
                rs == self.ops(),
                n == self.operations@.len(),
                marked@.len() == n,
                i2 <= n,
                forall|k: int|
                    0 <= k < n ==> ((#[trigger] marked@[k]) <==> within_depth(
                        rs,
                        rs[k].hash,
                        depth as nat,
                    )),
                forall|h: Seq<u8>|
                    #[trigger] hash_views(removed@).contains(h) ==> exists|k: int|
                        0 <= k < i2 && (#[trigger] rs[k]).hash == h && !within_depth(
                            rs,
                            h,
                            depth as nat,
                        ),
                forall|k: int|
                    0 <= k < i2 && !within_depth(rs, (#[trigger] rs[k]).hash, depth as nat)
                        ==> hash_views(removed@).contains(rs[k].hash),
            decreases n - i2,
        {
            proof {
                assert(rs[i2 as int] == self.operations@[i2 as int]@);
            }
            if !marked[i2] {
                let ghost pre = hash_views(removed@);
                removed.push(self.operations[i2].hash.clone());
                proof {
                    assert(hash_views(removed@) =~= pre.push(rs[i2 as int].hash));
                    assert forall|h: Seq<u8>| pre.contains(h) implies #[trigger] hash_views(
                        removed@,
                    ).contains(h) by {
                        let k = choose|k: int| 0 <= k < pre.len() && pre[k] == h;
                        assert(hash_views(removed@)[k] == h);
                    }
                    assert(hash_views(removed@)[hash_views(removed@).len() - 1] == rs[
                    i2 as int].hash);
                    assert(hash_views(removed@).contains(rs[i2 as int].hash));
                    assert forall|h: Seq<u8>| #[trigger] hash_views(removed@).contains(h) implies
                        exists|k: int|
                        0 <= k < i2 + 1 && (#[trigger] rs[k]).hash == h && !within_depth(
                            rs,
                            h,
                            depth as nat,
                        ) by {
                        if pre.contains(h) {
                            let k = choose|k: int|
                                0 <= k < i2 && (#[trigger] rs[k]).hash == h && !within_depth(
                                    rs,
                                    h,
                                    depth as nat,
                                );
                            assert(0 <= k < i2 + 1 && rs[k].hash == h);
                        } else {
                            assert(h == rs[i2 as int].hash);
                        }
                    }
                }
            }
            i2 = i2 + 1;
        }
        self.apply_removal(&removed);
        proof {
            assert forall|o: OpView| #[trigger] final(self).ops().contains(o) implies (old(
                self,
            ).ops().contains(o) && within_depth(old(self).ops(), o.hash, depth as nat)) by {
                assert(!hash_views(removed@).contains(o.hash));
                let k = choose|k: int| 0 <= k < rs.len() && rs[k] == o;
                if !within_depth(rs, o.hash, depth as nat) {
                    assert(hash_views(removed@).contains(rs[k].hash));
                    assert(false);
                }
            }
            assert forall|o: OpView|
                old(self).ops().contains(o) && within_depth(old(self).ops(), o.hash, depth as nat)
                    implies #[trigger] final(self).ops().contains(o) by {
                let k = choose|k: int| 0 <= k < rs.len() && rs[k] == o;
                if hash_views(removed@).contains(o.hash) {
                    let k2 = choose|k2: int|
                        0 <= k2 < rs.len() && (#[trigger] rs[k2]).hash == o.hash && !within_depth(
                            rs,
                            o.hash,
                            depth as nat,
                        );
                    assert(false);
                }
            }
            assert forall|h: Seq<u8>| #[trigger] hash_views(removed@).contains(h) implies (
            has_hash(old(self).ops(), h) && !within_depth(old(self).ops(), h, depth as nat)) by {
                let k = choose|k: int|
                    0 <= k < rs.len() && (#[trigger] rs[k]).hash == h && !within_depth(
                        rs,
                        h,
                        depth as nat,
                    );
            }
            assert forall|h: Seq<u8>|
                has_hash(old(self).ops(), h) && !within_depth(old(self).ops(), h, depth as nat)
                    implies #[trigger] hash_views(removed@).contains(h) by {
                let k = choose|k: int| 0 <= k < rs.len() && (#[trigger] rs[k]).hash == h;
            }
        }
        removed
    }
}

/// Law: offering an already-stored record to the store leaves the stored
/// records unchanged and reports the record among the ignored.
pub proof fn lemma_add_duplicate_ignored(rs: Seq<OpView>, logs: Seq<AuthorLogView>, r: OpView)
    requires
        has_hash(rs, r.hash),
    ensures
        add_ops(rs, seq![r]) == rs,
        add_ignored(rs, seq![r]) == seq![r],
        add_logs(rs, logs, seq![r]) == logs,
{
    let s = seq![r];
    assert(s.len() == 1);
    assert(s.drop_last() =~= Seq::<OpView>::empty());
    assert(s.last() == r);
    assert(add_ops(rs, s.drop_last()) == rs);
    assert(add_ignored(rs, s.drop_last()) =~= Seq::<OpView>::empty());
    assert(add_ignored(rs, s) =~= Seq::<OpView>::empty().push(r));
    assert(Seq::<OpView>::empty().push(r) =~= seq![r]);
    assert(add_logs(rs, logs, s.drop_last()) == logs);
    assert(add_logs(rs, logs, s) == logs);
}

/// Law: in every well-formed document the frontier holds exactly the stored
/// hashes that no stored record names among its causal predecessors.
pub proof fn lemma_frontier_invariant(d: &CausalDocument)
    requires
        d.wf(),
    ensures
        forall|h: Seq<u8>| #[trigger] d.tip_hashes().contains(h) <==> is_tip(d.ops(), h),
{
}

/// The position where the kept suffix of a log of the given length starts,
/// when the newest `depth` entries are kept.
pub open spec fn cut_of(len: int, depth: int) -> int {
    if len > depth {
        len - depth
    } else {
        0
    }
}

/// Whether a rank assignment orders every record strictly above each of its
/// stored causal predecessors.
pub open spec fn rank_orders(rs: Seq<OpView>, rank: Map<Seq<u8>, nat>) -> bool {
    forall|i: int, j: int|
        #![trigger rs[i].previous.contains(rs[j].hash)]
        0 <= i < rs.len() && 0 <= j < rs.len() && rs[i].previous.contains(rs[j].hash) ==> rank[
            rs[j].hash] < rank[rs[i].hash]
}

/// Whether the stored dependency graph is acyclic: some rank assignment
/// places every record strictly above its stored predecessors.
pub open spec fn acyclic(rs: Seq<OpView>) -> bool {
    exists|rank: Map<Seq<u8>, nat>| #[trigger] rank_orders(rs, rank)
}

/// Whether `rv` lists records in an order consistent with `previous`: every
/// predecessor hash that is stored in `rs` appears before the record that
/// names it.
pub open spec fn topo_sorted(rv: Seq<OpView>, rs: Seq<OpView>) -> bool {
    forall|k: int, h: Seq<u8>|
        #![trigger rv[k].previous.contains(h)]
        0 <= k < rv.len() && rv[k].previous.contains(h) && has_hash(rs, h) ==> exists|k2: int|
            0 <= k2 < k && (#[trigger] rv[k2]).hash == h
}

/// Law: when every predecessor hash resolves to a stored record, an order
/// that is topological over the stored hashes places every hash of a
/// record's `previous` set strictly before that record.
pub proof fn lemma_topological_validity(rv: Seq<OpView>, rs: Seq<OpView>)
    requires
        topo_sorted(rv, rs),
        forall|k: int| 0 <= k < rv.len() ==> rs.contains(#[trigger] rv[k]),
        forall|j: int, h: Seq<u8>|
            #![trigger rs[j].previous.contains(h)]
            0 <= j < rs.len() && rs[j].previous.contains(h) ==> has_hash(rs, h),
    ensures
        forall|k: int, h: Seq<u8>|
            #![trigger rv[k].previous.contains(h)]
            0 <= k < rv.len() && rv[k].previous.contains(h) ==> exists|k2: int|
                0 <= k2 < k && (#[trigger] rv[k2]).hash == h,
{
    assert forall|k: int, h: Seq<u8>|
        0 <= k < rv.len() && #[trigger] rv[k].previous.contains(h) implies exists|k2: int|
        0 <= k2 < k && (#[trigger] rv[k2]).hash == h by {
        let j = choose|j: int| 0 <= j < rs.len() && rs[j] == rv[k];
        assert(rs[j].previous.contains(h));
        assert(has_hash(rs, h));
    }
}

/// Among the unemitted records there is one of minimal rank.
proof fn lemma_min_rank(rs: Seq<OpView>, emitted: Seq<bool>, rank: Map<Seq<u8>, nat>, i0: int)
    requires
        emitted.len() == rs.len(),
        0 <= i0 < rs.len(),
        !emitted[i0],
    ensures
        exists|m: int|
            0 <= m < rs.len() && !(#[trigger] emitted[m]) && (forall|j: int|
                0 <= j < rs.len() && !(#[trigger] emitted[j]) ==> rank[rs[m].hash] <= rank[
                    rs[j].hash]),
    decreases rank[rs[i0].hash],
{
    if forall|j: int|
        0 <= j < rs.len() && !(#[trigger] emitted[j]) ==> rank[rs[i0].hash] <= rank[rs[j].hash] {
        assert(!emitted[i0] && (forall|j: int|
            0 <= j < rs.len() && !(#[trigger] emitted[j]) ==> rank[rs[i0].hash] <= rank[
                rs[j].hash]));
    } else {
        let j = choose|j: int|
            0 <= j < rs.len() && !(#[trigger] emitted[j]) && !(rank[rs[i0].hash] <= rank[
                rs[j].hash]);
        lemma_min_rank(rs, emitted, rank, j);
    }
}

/// The number of unemitted flags.
pub open spec fn count_unemitted(s: Seq<bool>) -> nat
    decreases s.len(),
{
    if s.len() == 0 {
        0
    } else {
        count_unemitted(s.drop_last()) + (if s.last() {
            0nat
        } else {
            1nat
        })
    }
}

/// Setting one unemitted flag lowers the unemitted count by one.
proof fn lemma_count_update(s: Seq<bool>, i: int)
    requires
        0 <= i < s.len(),
        !s[i],
    ensures
        count_unemitted(s.update(i, true)) + 1 == count_unemitted(s),
    decreases s.len(),
{
    if i == s.len() - 1 {
        assert(s.update(i, true).drop_last() =~= s.drop_last());
        assert(s.update(i, true).last());
    } else {
        assert(s.update(i, true).drop_last() =~= s.drop_last().update(i, true));
        lemma_count_update(s.drop_last(), i);
        assert(s.update(i, true).last() == s.last());
    }
}

/// When no flag is set, the unemitted count is the length.
proof fn lemma_count_all_false(s: Seq<bool>)
    requires
        forall|i: int| 0 <= i < s.len() ==> !s[i],
    ensures
        count_unemitted(s) == s.len(),
    decreases s.len(),
{
    if s.len() > 0 {
        assert(forall|i: int| 0 <= i < s.drop_last().len() ==> !s.drop_last()[i]);
        lemma_count_all_false(s.drop_last());
    }
}

/// The bookkeeping of a partial topological emission: every emitted record's
/// hash is in the output, every output record is an emitted stored record,
/// output hashes are distinct, and the output and the unemitted flags
/// together account for the whole store.
pub open spec fn emit_state_ok(rs: Seq<OpView>, rv: Seq<OpView>, emitted: Seq<bool>) -> bool {
    &&& emitted.len() == rs.len()
    &&& forall|j: int|
        0 <= j < rs.len() && (#[trigger] emitted[j]) ==> has_hash(rv, rs[j].hash)
    &&& forall|k: int|
        #![trigger rv[k]]
        0 <= k < rv.len() ==> exists|j: int|
            0 <= j < rs.len() && (#[trigger] emitted[j]) && rs[j] == rv[k]
    &&& forall|i0: int, j0: int|
        0 <= i0 < j0 < rv.len() ==> (#[trigger] rv[i0]).hash != (#[trigger] rv[j0]).hash
    &&& rv.len() + count_unemitted(emitted) == rs.len()
}

/// Whether record `j` has a stored causal predecessor that is not yet
/// emitted.
pub open spec fn blocked(rs: Seq<OpView>, emitted: Seq<bool>, j: int) -> bool {
    exists|q: int, w: int|
        0 <= q < rs[j].previous.len() && 0 <= w < rs.len() && (#[trigger] rs[w]).hash == (
        #[trigger] rs[j].previous[q]) && !emitted[w]
}

/// Whether record `j` can be emitted next: not yet emitted, with every
/// stored causal predecessor already emitted.
pub open spec fn eligible(rs: Seq<OpView>, emitted: Seq<bool>, j: int) -> bool {
    &&& 0 <= j < rs.len()
    &&& !emitted[j]
    &&& forall|q: int, w: int|
        0 <= q < rs[j].previous.len() && 0 <= w < rs.len() && (#[trigger] rs[w]).hash == (
        #[trigger] rs[j].previous[q]) ==> emitted[w]
}

/// The position of the first record that can be emitted next, or the length
/// when none can.
pub open spec fn first_eligible_from(rs: Seq<OpView>, emitted: Seq<bool>, j: int) -> int
    decreases rs.len() - j,
    when 0 <= j <= rs.len()
{
    if j >= rs.len() {
        rs.len() as int
    } else if eligible(rs, emitted, j) {
        j
    } else {
        first_eligible_from(rs, emitted, j + 1)
    }
}

/// The emission order of the ordered traversal: repeatedly the first record
/// whose stored predecessors are all emitted, until none is left to pick.
pub open spec fn emit_all(rs: Seq<OpView>, emitted: Seq<bool>, fuel: nat) -> (Seq<int>, Seq<
    bool,
>)
    decreases fuel,
{
    if fuel == 0 {
        (Seq::<int>::empty(), emitted)
    } else {
        let f = first_eligible_from(rs, emitted, 0);
        if f >= rs.len() {
            (Seq::<int>::empty(), emitted)
        } else {
            let rest = emit_all(rs, emitted.update(f, true), (fuel - 1) as nat);
            (seq![f] + rest.0, rest.1)
        }
    }
}

/// The positions the emission order never reached, in position order.
pub open spec fn leftover_from(rs: Seq<OpView>, emitted: Seq<bool>, j: int) -> Seq<int>
    decreases rs.len() - j,
    when 0 <= j <= rs.len()
{
    if j >= rs.len() {
        Seq::<int>::empty()
    } else if emitted[j] {
        leftover_from(rs, emitted, j + 1)
    } else {
        seq![j] + leftover_from(rs, emitted, j + 1)
    }
}

/// The one traversal order of a store: the emission order, followed by the
/// positions it could not order. A function of the store alone, so repeated
/// traversals of an unchanged store agree.
pub open spec fn topo_positions(rs: Seq<OpView>) -> Seq<int> {
    let main = emit_all(rs, Seq::new(rs.len(), |q: int| false), rs.len());
    main.0 + leftover_from(rs, main.1, 0)
}

/// The records of a store in its fixed traversal order.
pub open spec fn topo_view(rs: Seq<OpView>) -> Seq<OpView> {
    topo_positions(rs).map_values(|q: int| rs[q])
}

/// An unemitted flag keeps the unemitted count positive.
proof fn lemma_count_positive(s: Seq<bool>, j: int)
    requires
        0 <= j < s.len(),
        !s[j],
    ensures
        count_unemitted(s) > 0,
    decreases s.len(),
{
    if j < s.len() - 1 {
        lemma_count_positive(s.drop_last(), j);
    }
}

/// The first eligible position from the start is the one a scan finds after
/// rejecting everything before it.
proof fn lemma_first_eligible(rs: Seq<OpView>, emitted: Seq<bool>, a: int, j: int)
    requires
        0 <= a <= j <= rs.len(),
        forall|k: int| a <= k < j ==> !(#[trigger] eligible(rs, emitted, k)),
        j < rs.len() ==> eligible(rs, emitted, j),
    ensures
        first_eligible_from(rs, emitted, a) == (if j < rs.len() {
            j
        } else {
            rs.len() as int
        }),
    decreases j - a,
{
    if a < j {
        lemma_first_eligible(rs, emitted, a + 1, j);
    }
}

/// Emitting an eligible record keeps the output topologically sorted: its
/// stored predecessors are all emitted, hence already in the output.
proof fn lemma_emit_topo(rs: Seq<OpView>, rv_old: Seq<OpView>, em_old: Seq<bool>, j: int)
    requires
        emit_state_ok(rs, rv_old, em_old),
        eligible(rs, em_old, j),
        topo_sorted(rv_old, rs),
    ensures
        topo_sorted(rv_old.push(rs[j]), rs),
{
    let rv_new = rv_old.push(rs[j]);
    assert forall|k: int, h: Seq<u8>|
        #![trigger rv_new[k].previous.contains(h)]
        0 <= k < rv_new.len() && rv_new[k].previous.contains(h) && has_hash(rs, h) implies exists|
        k2: int|
        0 <= k2 < k && (#[trigger] rv_new[k2]).hash == h by {
        if k < rv_old.len() {
            assert(rv_old[k].previous.contains(h));
            let k2 = choose|k2: int| 0 <= k2 < k && (#[trigger] rv_old[k2]).hash == h;
            assert(rv_new[k2].hash == h);
        } else {
            assert(rv_new[k] == rs[j]);
            let q0 = choose|q0: int|
                0 <= q0 < rs[j].previous.len() && rs[j].previous[q0] == h;
            let w = choose|w: int| 0 <= w < rs.len() && (#[trigger] rs[w]).hash == h;
            assert(em_old[w]);
            assert(has_hash(rv_old, rs[w].hash));
            let k2 = choose|k2: int|
                0 <= k2 < rv_old.len() && (#[trigger] rv_old[k2]).hash == rs[w].hash;
            assert(rv_new[k2].hash == h);
        }
    }
}

/// One emission extends the spec-level emission order by exactly the first
/// eligible position.
proof fn lemma_emit_chain(rs: Seq<OpView>, em_old: Seq<bool>, j: int)
    requires
        em_old.len() == rs.len(),
        eligible(rs, em_old, j),
        forall|k: int| 0 <= k < j ==> !(#[trigger] eligible(rs, em_old, k)),
    ensures
        emit_all(rs, em_old, count_unemitted(em_old)).0 == seq![j] + emit_all(
            rs,
            em_old.update(j, true),
            count_unemitted(em_old.update(j, true)),
        ).0,
        emit_all(rs, em_old, count_unemitted(em_old)).1 == emit_all(
            rs,
            em_old.update(j, true),
            count_unemitted(em_old.update(j, true)),
        ).1,
{
    lemma_first_eligible(rs, em_old, 0, j);
    lemma_count_positive(em_old, j);
    lemma_count_update(em_old, j);
}

/// In an acyclic store, a state where every unemitted record is blocked has
/// no unemitted record at all.
#[verifier::rlimit(100)]
proof fn lemma_acyclic_all_emitted(rs: Seq<OpView>, emitted: Seq<bool>)
    requires
        emitted.len() == rs.len(),
        acyclic(rs),
        forall|j0: int|
            0 <= j0 < rs.len() && !(#[trigger] emitted[j0]) ==> blocked(rs, emitted, j0),
    ensures
        forall|j0: int| 0 <= j0 < rs.len() ==> #[trigger] emitted[j0],
{
    let rank = choose|rank: Map<Seq<u8>, nat>| #[trigger] rank_orders(rs, rank);
    assert forall|j0: int| 0 <= j0 < rs.len() implies #[trigger] emitted[j0] by {
        if !emitted[j0] {
            lemma_min_rank(rs, emitted, rank, j0);
            let m = choose|m: int|
                0 <= m < rs.len() && !(#[trigger] emitted[m]) && (forall|j1: int|
                    0 <= j1 < rs.len() && !(#[trigger] emitted[j1]) ==> rank[rs[m].hash] <= rank[
                        rs[j1].hash]);
            assert(blocked(rs, emitted, m));
            let (q, w): (int, int) = choose|q: int, w: int|
                0 <= q < rs[m].previous.len() && 0 <= w < rs.len() && (#[trigger] rs[w]).hash == (
                #[trigger] rs[m].previous[q]) && !emitted[w];
            assert(rs[m].previous.contains(rs[w].hash));
            assert(rank[rs[w].hash] < rank[rs[m].hash]);
            assert(rank[rs[m].hash] <= rank[rs[w].hash]);
            assert(false);
        }
    }
}

/// A fully emitted bookkeeping state covers the store exactly.
proof fn lemma_all_emitted_coverage(rs: Seq<OpView>, rv: Seq<OpView>, emitted: Seq<bool>)
    requires
        emit_state_ok(rs, rv, emitted),
        forall|k: int| 0 <= k < rs.len() ==> #[trigger] emitted[k],
    ensures
        rv.len() == rs.len(),
        forall|k: int| 0 <= k < rv.len() ==> rs.contains(#[trigger] rv[k]),
        forall|j: int| 0 <= j < rs.len() ==> has_hash(rv, (#[trigger] rs[j]).hash),
{
    lemma_count_all_true(emitted);
    assert forall|k: int| 0 <= k < rv.len() implies rs.contains(#[trigger] rv[k]) by {
        let j0 = choose|j0: int|
            0 <= j0 < rs.len() && (#[trigger] emitted[j0]) && rs[j0] == rv[k];
        assert(rs.contains(rs[j0]));
    }
    assert forall|j: int| 0 <= j < rs.len() implies has_hash(rv, (#[trigger] rs[j]).hash) by {
        assert(emitted[j]);
    }
}

/// When every flag is set, nothing is left over.
proof fn lemma_leftover_empty(rs: Seq<OpView>, emitted: Seq<bool>, j: int)
    requires
        0 <= j <= rs.len(),
        forall|k: int| 0 <= k < rs.len() ==> #[trigger] emitted[k],
    ensures
        leftover_from(rs, emitted, j) == Seq::<int>::empty(),
    decreases rs.len() - j,
{
    if j < rs.len() {
        lemma_leftover_empty(rs, emitted, j + 1);
    }
}

/// When every flag is set, the unemitted count is zero.
proof fn lemma_count_all_true(s: Seq<bool>)
    requires
        forall|i: int| 0 <= i < s.len() ==> s[i],
    ensures
        count_unemitted(s) == 0,
    decreases s.len(),
{
    if s.len() > 0 {
        assert(forall|i: int| 0 <= i < s.drop_last().len() ==> s.drop_last()[i]);
        lemma_count_all_true(s.drop_last());
    }
}

/// Whether the record with hash `h` lies at most `d` hops from the frontier
/// of `rs`: a tip is at distance zero, and a hash named in the `previous`
/// set of a record at distance `k` is at distance `k + 1`.
pub open spec fn within_depth(rs: Seq<OpView>, h: Seq<u8>, d: nat) -> bool
    decreases d,
{
    is_tip(rs, h) || (d > 0 && exists|i: int|
        0 <= i < rs.len() && (#[trigger] rs[i]).previous.contains(h) && within_depth(
            rs,
            rs[i].hash,
            (d - 1) as nat,
        ))
}

/// A hash within a given distance of the frontier is within every larger
/// distance.
pub proof fn lemma_within_depth_monotone(rs: Seq<OpView>, h: Seq<u8>, d1: nat, d2: nat)
    requires
        d1 <= d2,
        within_depth(rs, h, d1),
    ensures
        within_depth(rs, h, d2),
    decreases d1,
{
    if is_tip(rs, h) {
    } else {
        let i = choose|i: int|
            0 <= i < rs.len() && (#[trigger] rs[i]).previous.contains(h) && within_depth(
                rs,
                rs[i].hash,
                (d1 - 1) as nat,
            );
        lemma_within_depth_monotone(rs, rs[i].hash, (d1 - 1) as nat, (d2 - 1) as nat);
    }
}

/// Once one more round of frontier expansion marks nothing new, the marking
/// is complete for every larger distance.
proof fn lemma_within_depth_saturated(rs: Seq<OpView>, marked: Seq<bool>, r: nat, d: nat)
    requires
        marked.len() == rs.len(),
        forall|i: int|
            0 <= i < rs.len() ==> ((#[trigger] marked[i]) <==> within_depth(rs, rs[i].hash, r)),
        forall|i: int|
            0 <= i < rs.len() ==> (within_depth(rs, (#[trigger] rs[i]).hash, r + 1) ==> marked[i]),
        r <= d,
    ensures
        forall|i: int|
            0 <= i < rs.len() ==> (within_depth(rs, (#[trigger] rs[i]).hash, d) ==> marked[i]),
    decreases d - r,
{
    if d == r {
    } else {
        lemma_within_depth_saturated(rs, marked, r, (d - 1) as nat);
        assert forall|i: int|
            0 <= i < rs.len() && within_depth(rs, (#[trigger] rs[i]).hash, d) implies marked[i] by {
            if is_tip(rs, rs[i].hash) {
                assert(within_depth(rs, rs[i].hash, r));
            } else {
                let j = choose|j: int|
                    0 <= j < rs.len() && (#[trigger] rs[j]).previous.contains(rs[i].hash)
                        && within_depth(rs, rs[j].hash, (d - 1) as nat);
                assert(marked[j]);
                assert(within_depth(rs, rs[j].hash, r));
                assert(within_depth(rs, rs[i].hash, r + 1));
            }
        }
    }
}

/// Whether two flag vectors hold the same flags.
fn flags_equal(a: &Vec<bool>, b: &Vec<bool>) -> (r: bool)
    ensures
        r == (a@ == b@),
{
    if a.len() != b.len() {
        return false;
    }
    let mut i: usize = 0;
    while i < a.len()
        invariant
            i <= a.len(),
            a@.len() == b@.len(),
            forall|j: int| 0 <= j < i ==> a@[j] == b@[j],
        decreases a.len() - i,
    {
        if a[i] != b[i] {
            return false;
        }
        i = i + 1;
    }
    proof {
        assert(a@ =~= b@);
    }
    true
}

// ---------------------------------------------------------------------------
// Search helpers
// ---------------------------------------------------------------------------

/// Finds the position of the record with the given hash, if any.
fn find_index_of_hash(ops: &Vec<Operation>, h: &crate::hash::Hash) -> (r: Option<usize>)
    ensures
        match r {
            Option::Some(i) => i < ops@.len() && views_of_ops(ops@)[i as int].hash == h@,
            Option::None => !has_hash(views_of_ops(ops@), h@),
        },
{
    let mut i: usize = 0;
    while i < ops.len()
        invariant
            i <= ops.len(),
            forall|k: int| 0 <= k < i ==> (#[trigger] views_of_ops(ops@)[k]).hash != h@,
        decreases ops.len() - i,
    {
        if ops[i].hash.equals(h) {
            return Option::Some(i);
        }
        i = i + 1;
    }
    Option::None
}

/// Finds the position of the given author's log, if any.
fn find_log_index(logs: &Vec<AuthorLog>, pk: &PublicKey) -> (r: Option<usize>)
    ensures
        match r {
            Option::Some(l) => l < logs@.len() && logs@[l as int]@.public_key == pk@ && (forall|
                k: int,
            |
                0 <= k < l ==> (#[trigger] logs@[k]@).public_key != pk@),
            Option::None => forall|l: int|
                0 <= l < logs@.len() ==> (#[trigger] logs@[l]@).public_key != pk@,
        },
{
    let mut i: usize = 0;
    while i < logs.len()
        invariant
            i <= logs.len(),
            forall|l: int| 0 <= l < i ==> (#[trigger] logs@[l]@).public_key != pk@,
        decreases logs.len() - i,
    {
        if logs[i].public_key.equals(pk) {
            return Option::Some(i);
        }
        i = i + 1;
    }
    Option::None
}

/// Whether the record names the hash among its causal predecessors.
fn op_references(op: &Operation, h: &crate::hash::Hash) -> (r: bool)
    ensures
        r == op@.previous.contains(h@),
{
    let mut i: usize = 0;
    while i < op.previous.len()
        invariant
            i <= op.previous.len(),
            forall|k: int| 0 <= k < i ==> op@.previous[k] != h@,
        decreases op.previous.len() - i,
    {
        if op.previous[i].equals(h) {
            proof {
                assert(op@.previous[i as int] == h@);
                assert(op@.previous.contains(h@));
            }
            return true;
        }
        i = i + 1;
    }
    proof {
        if op@.previous.contains(h@) {
            let k = choose|k: int| 0 <= k < op@.previous.len() && op@.previous[k] == h@;
            assert(false);
        }
    }
    false
}

/// Whether any record in the store names the hash among its predecessors.
fn any_references(ops: &Vec<Operation>, h: &crate::hash::Hash) -> (r: bool)
    ensures
        r == referenced(views_of_ops(ops@), h@),
{
    let mut i: usize = 0;
    while i < ops.len()
        invariant
            i <= ops.len(),
            forall|k: int| 0 <= k < i ==> !(#[trigger] views_of_ops(ops@)[k]).previous.contains(h@),
        decreases ops.len() - i,
    {
        if op_references(&ops[i], h) {
            proof {
                assert(views_of_ops(ops@)[i as int].previous.contains(h@));
            }
            return true;
        }
        i = i + 1;
    }
    false
}

/// Whether the hash occurs in the list.
fn hash_in(list: &Vec<crate::hash::Hash>, h: &crate::hash::Hash) -> (r: bool)
    ensures
        r == hash_views(list@).contains(h@),
{
    let mut i: usize = 0;
    while i < list.len()
        invariant
            i <= list.len(),
            forall|k: int| 0 <= k < i ==> hash_views(list@)[k] != h@,
        decreases list.len() - i,
    {
        if list[i].equals(h) {
            proof {
                assert(hash_views(list@)[i as int] == h@);
                assert(hash_views(list@).contains(h@));
            }
            return true;
        }
        i = i + 1;
    }
    proof {
        if hash_views(list@).contains(h@) {
            let k = choose|k: int|
                0 <= k < hash_views(list@).len() && hash_views(list@)[k] == h@;
            assert(false);
        }
    }
    false
}

/// Keeps exactly the records whose hash is not among the removed hashes,
/// in store order.
fn filter_ops(ops: &Vec<Operation>, removed: &Vec<crate::hash::Hash>) -> (r: Vec<Operation>)
    requires
        forall|i: int, j: int|
            0 <= i < j < views_of_ops(ops@).len() ==> (#[trigger] views_of_ops(ops@)[i]).hash
                != (#[trigger] views_of_ops(ops@)[j]).hash,
    ensures
        forall|o: OpView|
            #[trigger] views_of_ops(r@).contains(o) ==> views_of_ops(ops@).contains(o)
                && !hash_views(removed@).contains(o.hash),
        forall|o: OpView|
            #[trigger] views_of_ops(ops@).contains(o) && !hash_views(removed@).contains(o.hash)
                ==> views_of_ops(r@).contains(o),
        forall|i: int, j: int|
            0 <= i < j < views_of_ops(r@).len() ==> (#[trigger] views_of_ops(r@)[i]).hash
                != (#[trigger] views_of_ops(r@)[j]).hash,
{
    let ghost rs = views_of_ops(ops@);
    let mut r: Vec<Operation> = Vec::new();
    let mut i: usize = 0;
    while i < ops.len()
        invariant
            i <= ops.len(),
            rs == views_of_ops(ops@),
            forall|i0: int, j0: int|
                0 <= i0 < j0 < rs.len() ==> (#[trigger] rs[i0]).hash != (#[trigger] rs[j0]).hash,
            forall|o: OpView|
                #[trigger] views_of_ops(r@).contains(o) ==> exists|k: int|
                    0 <= k < i && rs[k] == o,
            forall|o: OpView|
                #[trigger] views_of_ops(r@).contains(o) ==> !hash_views(removed@).contains(o.hash),
            forall|k: int|
                0 <= k < i && !hash_views(removed@).contains((#[trigger] rs[k]).hash)
                    ==> views_of_ops(r@).contains(rs[k]),
            forall|i0: int, j0: int|
                0 <= i0 < j0 < views_of_ops(r@).len() ==> (#[trigger] views_of_ops(r@)[i0]).hash
                    != (#[trigger] views_of_ops(r@)[j0]).hash,
        decreases ops.len() - i,
    {
        proof {
            assert(rs[i as int] == ops@[i as int]@);
        }
        let keep = !hash_in(removed, &ops[i].hash);
        if keep {
            let ghost pre = views_of_ops(r@);
            r.push(ops[i].clone());
            proof {
                assert(views_of_ops(r@) =~= pre.push(rs[i as int]));
                assert forall|o: OpView| pre.contains(o) implies #[trigger] views_of_ops(
                    r@,
                ).contains(o) by {
                    let k = choose|k: int| 0 <= k < pre.len() && pre[k] == o;
                    assert(views_of_ops(r@)[k] == o);
                }
                assert(views_of_ops(r@).last() == rs[i as int]);
                assert(views_of_ops(r@).contains(rs[i as int]));
                assert forall|o: OpView| #[trigger] views_of_ops(r@).contains(o) implies (exists|
                    k: int|
                    0 <= k < i + 1 && rs[k] == o) && !hash_views(removed@).contains(o.hash) by {
                    let k = choose|k: int|
                        0 <= k < views_of_ops(r@).len() && views_of_ops(r@)[k] == o;
                    if k < pre.len() {
                        assert(pre[k] == o);
                        assert(pre.contains(o));
                    } else {
                        assert(o == rs[i as int]);
                    }
                }
                assert forall|i0: int, j0: int|
                    0 <= i0 < j0 < views_of_ops(r@).len() implies (#[trigger] views_of_ops(
                    r@,
                )[i0]).hash != (#[trigger] views_of_ops(r@)[j0]).hash by {
                    if j0 == views_of_ops(r@).len() - 1 {
                        assert(pre.contains(pre[i0]));
                        let k = choose|k: int| 0 <= k < i && rs[k] == pre[i0];
                        assert(rs[k].hash != rs[i as int].hash);
                    }
                }
            }
        } else {
            proof {
                assert(hash_views(removed@).contains(rs[i as int].hash));
            }
        }
        i = i + 1;
    }
    r
}

/// Keeps exactly the entries of one log whose hash is not among the removed
/// hashes, in log order.
fn filter_log(log: &AuthorLog, removed: &Vec<crate::hash::Hash>) -> (r: AuthorLog)
    requires
        log.wf(),
    ensures
        r.wf(),
        r@.public_key == log@.public_key,
        forall|e: LogEntryView|
            #[trigger] r@.entries.contains(e) ==> log@.entries.contains(e) && !hash_views(
                removed@,
            ).contains(e.hash),
        forall|e: LogEntryView|
            #[trigger] log@.entries.contains(e) && !hash_views(removed@).contains(e.hash)
                ==> r@.entries.contains(e),
{
    let ghost es = log@.entries;
    let mut entries: Vec<LogEntry> = Vec::new();
    let mut i: usize = 0;
    while i < log.entries.len()
        invariant
            i <= log.entries.len(),
            es == log@.entries,
            forall|k: int|
                0 <= k < entries@.len() ==> exists|j: int|
                    0 <= j < i && (#[trigger] entry_views(entries@)[k]) == es[j],
            forall|a: int, b: int|
                0 <= a < b < entries@.len() ==> entries@[a]@.seq_num < entries@[b]@.seq_num,
            forall|e: LogEntryView|
                #[trigger] entry_views(entries@).contains(e) ==> !hash_views(
                    removed@,
                ).contains(e.hash),
            forall|j: int|
                0 <= j < i && !hash_views(removed@).contains((#[trigger] es[j]).hash)
                    ==> entry_views(entries@).contains(es[j]),
        decreases log.entries.len() - i,
    {
        proof {
            assert(es[i as int] == log.entries@[i as int]@);
        }
        let keep = !hash_in(removed, &log.entries[i].hash);
        if keep {
            let ghost pre = entry_views(entries@);
            entries.push(log.entries[i].clone());
            proof {
                let post = entry_views(entries@);
                assert(post =~= pre.push(es[i as int]));
                assert forall|k: int| 0 <= k < post.len() implies exists|j: int|
                    0 <= j < i + 1 && (#[trigger] post[k]) == es[j] by {
                    if k < pre.len() {
                        let j = choose|j: int| 0 <= j < i && pre[k] == es[j];
                        assert(post[k] == es[j]);
                    } else {
                        assert(post[k] == es[i as int]);
                    }
                }
                assert forall|a: int, b: int|
                    0 <= a < b < entries@.len() implies entries@[a]@.seq_num
                    < entries@[b]@.seq_num by {
                    if b == entries@.len() - 1 {
                        let j = choose|j: int| 0 <= j < i && pre[a] == es[j];
                        assert(entries@[a]@ == es[j]);
                        assert(es[j].seq_num < es[i as int].seq_num);
                    }
                }
                assert forall|e: LogEntryView| #[trigger] post.contains(e) implies !hash_views(
                    removed@,
                ).contains(e.hash) by {
                    let k = choose|k: int| 0 <= k < post.len() && post[k] == e;
                    if k < pre.len() {
                        assert(pre.contains(e));
                    } else {
                        assert(e == es[i as int]);
                    }
                }
                assert forall|j: int|
                    0 <= j < i + 1 && !hash_views(removed@).contains((#[trigger] es[j]).hash)
                        implies post.contains(es[j]) by {
                    if j < i {
                        assert(pre.contains(es[j]));
                        let k = choose|k: int| 0 <= k < pre.len() && pre[k] == es[j];
                        assert(post[k] == es[j]);
                    } else {
                        assert(post.last() == es[i as int]);
                    }
                }
            }
        } else {
            proof {
                assert(hash_views(removed@).contains(es[i as int].hash));
            }
        }
        i = i + 1;
    }
    let r = AuthorLog { public_key: log.public_key.clone(), entries };
    proof {
        assert(r@.entries =~= entry_views(entries@));
        assert forall|e: LogEntryView| #[trigger] r@.entries.contains(e) implies log@.entries
            .contains(e) && !hash_views(removed@).contains(e.hash) by {
            let k = choose|k: int| 0 <= k < r@.entries.len() && r@.entries[k] == e;
            assert(entry_views(entries@)[k] == e);
            assert(entry_views(entries@).contains(e));
            let j = choose|j: int| 0 <= j < i && entry_views(entries@)[k] == es[j];
            assert(log@.entries[j] == e);
            assert(log@.entries.contains(e));
        }
        assert forall|e: LogEntryView|
            #[trigger] log@.entries.contains(e) && !hash_views(removed@).contains(e.hash) implies r@
            .entries.contains(e) by {
            let j = choose|j: int| 0 <= j < log@.entries.len() && log@.entries[j] == e;
            assert(es[j] == e);
            assert(entry_views(entries@).contains(e));
        }
    }
    r
}

/// Computes the frontier of a store whose hashes are distinct: the stored
/// hashes that no stored record names, each exactly once, in store order.
fn compute_tips(ops: &Vec<Operation>) -> (r: Vec<crate::hash::Hash>)
    requires
        forall|i: int, j: int|
            0 <= i < j < views_of_ops(ops@).len() ==> (#[trigger] views_of_ops(ops@)[i]).hash
                != (#[trigger] views_of_ops(ops@)[j]).hash,
    ensures
        forall|h: Seq<u8>| #[trigger] hash_views(r@).contains(h) ==> is_tip(views_of_ops(ops@), h),
        forall|h: Seq<u8>| #[trigger] is_tip(views_of_ops(ops@), h) ==> hash_views(r@).contains(h),
        forall|i: int, j: int|
            0 <= i < j < hash_views(r@).len() ==> hash_views(r@)[i] != hash_views(r@)[j],
{
    let ghost rs = views_of_ops(ops@);
    let mut r: Vec<crate::hash::Hash> = Vec::new();
    let mut i: usize = 0;
    while i < ops.len()
        invariant
            i <= ops.len(),
            rs == views_of_ops(ops@),
            forall|i0: int, j0: int|
                0 <= i0 < j0 < rs.len() ==> (#[trigger] rs[i0]).hash != (#[trigger] rs[j0]).hash,
            forall|h: Seq<u8>| #[trigger] hash_views(r@).contains(h) ==> is_tip(rs, h),
            forall|h: Seq<u8>|
                #[trigger] hash_views(r@).contains(h) ==> exists|k: int|
                    0 <= k < i && rs[k].hash == h,
            forall|k: int|
                0 <= k < i && is_tip(rs, (#[trigger] rs[k]).hash) ==> hash_views(r@).contains(
                    rs[k].hash,
                ),
            forall|i0: int, j0: int|
                0 <= i0 < j0 < hash_views(r@).len() ==> hash_views(r@)[i0] != hash_views(r@)[j0],
        decreases ops.len() - i,
    {
        proof {
            assert(rs[i as int] == ops@[i as int]@);
        }
        let referenced_here = any_references(ops, &ops[i].hash);
        if !referenced_here {
            let ghost pre = hash_views(r@);
            r.push(ops[i].hash.clone());
            proof {
                assert forall|h: Seq<u8>| pre.contains(h) implies #[trigger] hash_views(
                    r@,
                ).contains(h) by {
                    let k = choose|k: int| 0 <= k < pre.len() && pre[k] == h;
                    assert(hash_views(r@)[k] == h);
                }
                assert(hash_views(r@) =~= pre.push(rs[i as int].hash));
                assert(rs[i as int].hash == views_of_ops(ops@)[i as int].hash);
                assert(has_hash(rs, rs[i as int].hash));
                assert forall|h: Seq<u8>| #[trigger] hash_views(r@).contains(h) implies is_tip(
                    rs,
                    h,
                ) && exists|k: int| 0 <= k < i + 1 && rs[k].hash == h by {
                    if pre.contains(h) {
                        let k = choose|k: int| 0 <= k < i && rs[k].hash == h;
                        assert(0 <= k < i + 1 && rs[k].hash == h);
                    } else {
                        assert(h == rs[i as int].hash);
                        assert(0 <= i < i + 1 && rs[i as int].hash == h);
                    }
                }
                assert forall|i0: int, j0: int|
                    0 <= i0 < j0 < hash_views(r@).len() implies hash_views(r@)[i0] != hash_views(
                    r@,
                )[j0] by {
                    if j0 == hash_views(r@).len() - 1 {
                        assert(pre.contains(pre[i0]));
                        let k = choose|k: int| 0 <= k < i && rs[k].hash == pre[i0];
                    }
                }
                assert forall|k: int|
                    0 <= k < i + 1 && is_tip(rs, (#[trigger] rs[k]).hash) implies hash_views(
                    r@,
                ).contains(rs[k].hash) by {
                    if k < i {
                        assert(pre.contains(rs[k].hash));
                        assert(hash_views(r@).contains(rs[k].hash));
                    } else {
                        assert(hash_views(r@)[hash_views(r@).len() - 1] == rs[i as int].hash);
                        assert(hash_views(r@).contains(rs[k].hash));
                    }
                }
            }
        } else {
            proof {
                assert(referenced(rs, rs[i as int].hash));
                assert(!is_tip(rs, rs[i as int].hash));
                assert forall|k: int|
                    0 <= k < i + 1 && is_tip(rs, (#[trigger] rs[k]).hash) implies hash_views(
                    r@,
                ).contains(rs[k].hash) by {}
            }
        }
        i = i + 1;
    }
    proof {
        assert forall|h: Seq<u8>| #[trigger] is_tip(rs, h) implies hash_views(r@).contains(h) by {
            let k = choose|k: int| 0 <= k < rs.len() && (#[trigger] rs[k]).hash == h;
            assert(is_tip(rs, rs[k].hash));
        }
    }
    r
}

} // verus!
