//! The host-facing document: an author directory (human-readable names to
//! identities) layered over the causal engine.

use vstd::prelude::*;

use crate::document::{
    add_ignored, add_logs, add_ops, cut_of, has_hash, key_has_entries, log_entry_in, log_seq_in,
    within_depth, AuthorLogView, CausalDocument, LogEntryView,
};
use crate::hash::{digest_of, hex_decode, is_hex_encoding};
use crate::identity::{PrivateKey, PublicKey};
use crate::operation::{hash_views, OpView, Operation};

verus! {

/// One entry of the author directory: a human-readable name and the identity
/// that records under that name carry.
#[derive(Debug)]
pub struct Author {
    pub name: String,
    pub public_key: PublicKey,
}

/// The caller of the convenience constructor asked for a sequence-number
/// context that the named author does not own yet.
#[derive(Debug, PartialEq, Eq, Clone, Copy)]
pub struct CreateError;

/// The bytes that a record's hash is computed over: the author's identity
/// followed by the big-endian sequence number.
pub open spec fn create_content(public_key: Seq<u8>, seq_num: u32) -> Seq<u8> {
    public_key + seq![
        (seq_num >> 24u32) as u8,
        (seq_num >> 16u32) as u8,
        (seq_num >> 8u32) as u8,
        seq_num as u8,
    ]
}

/// A causal document together with the directory of named authors that the
/// convenience constructor draws identities from.
#[derive(Debug)]
pub struct Document {
    pub authors: Vec<Author>,
    pub document: CausalDocument,
}

impl Document {
    /// Whether some directory entry carries the given name.
    pub open spec fn has_author(&self, name: Seq<char>) -> bool {
        exists|i: int| 0 <= i < self.authors@.len() && (#[trigger] self.authors@[i]).name@ == name
    }

    /// Whether the directory maps the given name to the given identity.
    pub open spec fn author_key(&self, name: Seq<char>, public_key: Seq<u8>) -> bool {
        exists|i: int|
            0 <= i < self.authors@.len() && (#[trigger] self.authors@[i]).name@ == name
                && self.authors@[i].public_key@ == public_key
    }

    /// The invariant: the engine is well formed and no author name is listed
    /// twice.
    pub open spec fn wf(&self) -> bool {
        &&& self.document.wf()
        &&& forall|i: int, j: int|
            0 <= i < j < self.authors@.len() ==> (#[trigger] self.authors@[i]).name@
                != (#[trigger] self.authors@[j]).name@
    }

    /// Builds an empty document.
    pub fn new() -> (r: Document)
        ensures
            r.wf(),
            r.document.ops() == Seq::<OpView>::empty(),
            r.authors@.len() == 0,
    {
        let d = Document { authors: Vec::new(), document: CausalDocument::new(Vec::new()) };
        proof {
            assert(crate::document::views_of_ops(Seq::<Operation>::empty()) =~= Seq::<
                OpView,
            >::empty());
        }
        d
    }

    /// Offers one record to the store: a duplicate hash changes nothing and
    /// is returned among the ignored.
    pub fn add(&mut self, operation: &Operation) -> (ignored: Vec<Operation>)
        requires
            old(self).wf(),
        ensures
            final(self).wf(),
            final(self).document.ops() == add_ops(old(self).document.ops(), seq![operation@]),
            crate::document::views_of_ops(ignored@) == add_ignored(
                old(self).document.ops(),
                seq![operation@],
            ),
            final(self).document.logs_view() == add_logs(
                old(self).document.ops(),
                old(self).document.logs_view(),
                seq![operation@],
            ),
            final(self).authors@ == old(self).authors@,
    {
        let mut batch: Vec<Operation> = Vec::new();
        batch.push(operation.clone());
        proof {
            assert(crate::document::views_of_ops(batch@) =~= seq![operation@]);
        }
        self.document.add(&batch)
    }

    /// Builds the next record for the named author: a fresh identity is
    /// drawn for an unknown name, the record's `previous` set is the current
    /// frontier, its backlink is the author's entry at the preceding
    /// sequence number, and the record is stored. Asking for a sequence
    /// number above zero for an author with no log yet is the caller's
    /// error and is reported, never a panic.
    pub fn create(&mut self, author_name: String, seq_num: u32, timestamp: u32) -> (r: Result<
        Operation,
        CreateError,
    >)
        requires
            old(self).wf(),
        ensures
            final(self).wf(),
            seq_num == 0 ==> r is Ok,
            forall|k: Seq<u8>|
                old(self).author_key(author_name@, k) ==> ((r is Err) <==> (seq_num > 0
                    && !key_has_entries(old(self).document.logs_view(), k))),
            match r {
                Ok(op) => {
                    &&& op@.author_name == author_name@
                    &&& op@.seq_num == seq_num as u64
                    &&& op@.timestamp == timestamp
                    &&& op@.previous == old(self).document.tip_hashes()
                    &&& op@.hash == digest_of(create_content(op@.public_key, seq_num))
                    &&& op@.hash.len() == crate::hash::HASH_LEN
                    &&& final(self).author_key(author_name@, op@.public_key)
                    &&& (old(self).has_author(author_name@) ==> old(self).author_key(
                        author_name@,
                        op@.public_key,
                    ))
                    &&& final(self).document.ops() == add_ops(
                        old(self).document.ops(),
                        seq![op@],
                    )
                    &&& final(self).document.logs_view() == add_logs(
                        old(self).document.ops(),
                        old(self).document.logs_view(),
                        seq![op@],
                    )
                    &&& (match op@.backlink {
                        Option::Some(h) => seq_num > 0 && log_entry_in(
                            old(self).document.logs_view(),
                            op@.public_key,
                            LogEntryView { seq_num: (seq_num - 1) as u64, hash: h },
                        ),
                        Option::None => seq_num == 0 || !log_seq_in(
                            old(self).document.logs_view(),
                            op@.public_key,
                            (seq_num - 1) as u64,
                        ),
                    })
                },
                Err(_) => {
                    &&& seq_num > 0
                    &&& final(self).document == old(self).document
                },
            },
    {
        let idx = find_author(&self.authors, &author_name);
        let public_key: PublicKey;
        match idx {
            Option::Some(i) => {
                public_key = self.authors[i].public_key.clone();
                proof {
                    assert(self.authors@[i as int].name@ == author_name@);
                    assert(self.author_key(author_name@, public_key@));
                    assert forall|k: Seq<u8>| old(self).author_key(author_name@, k) implies k
                        == public_key@ by {
                        let j = choose|j: int|
                            0 <= j < old(self).authors@.len() && (#[trigger] old(self).authors@[
                            j]).name@ == author_name@ && old(self).authors@[j].public_key@ == k;
                        if j != i {
                            assert(old(self).authors@[j].name@ != old(self).authors@[
                            i as int].name@);
                            assert(false);
                        }
                    }
                }
            },
            Option::None => {
                let fresh = PrivateKey::new().public_key();
                public_key = fresh.clone();
                self.authors.push(Author { name: author_name.clone(), public_key: fresh });
                proof {
                    assert(self.authors@.last().name@ == author_name@);
                    assert(self.author_key(author_name@, public_key@));
                    assert forall|i0: int, j0: int|
                        0 <= i0 < j0 < self.authors@.len() implies (#[trigger] self.authors@[
                    i0]).name@ != (#[trigger] self.authors@[j0]).name@ by {
                        if j0 == self.authors@.len() - 1 {
                            assert(old(self).authors@[i0].name@ != author_name@);
                        } else {
                            assert(old(self).authors@[i0].name@ != old(self).authors@[j0].name@);
                        }
                    }
                    assert forall|k: Seq<u8>| old(self).author_key(author_name@, k) implies k
                        == public_key@ by {
                        let j = choose|j: int|
                            0 <= j < old(self).authors@.len() && (#[trigger] old(self).authors@[
                            j]).name@ == author_name@ && old(self).authors@[j].public_key@ == k;
                        assert(false);
                    }
                }
            },
        }
        let ghost widx = choose|i: int|
            0 <= i < self.authors@.len() && (#[trigger] self.authors@[i]).name@ == author_name@
                && self.authors@[i].public_key@ == public_key@;
        let backlink: Option<crate::hash::Hash>;
        if seq_num == 0 {
            backlink = Option::None;
        } else {
            let ghost logsv = old(self).document.logs_view();
            proof {
                assert(self.document.logs_view() == logsv);
            }
            let log = self.document.author_log(&public_key);
            match log {
                Option::Some(found) => {
                    proof {
                        let lv = found@;
                        let l0 = choose|l: int|
                            0 <= l < self.document.logs@.len() && (#[trigger] self.document.logs@[
                            l])@ == lv;
                        assert(logsv[l0] == lv);
                        assert forall|l: int, l2: int|
                            0 <= l < logsv.len() && 0 <= l2 < logsv.len() && l != l2 implies (
                            #[trigger] logsv[l]).public_key != (#[trigger] logsv[l2]).public_key by {
                            assert(old(self).document.logs_view()[l].public_key != old(
                                self,
                            ).document.logs_view()[l2].public_key || old(
                                self,
                            ).document.logs_view()[l2].public_key != old(
                                self,
                            ).document.logs_view()[l].public_key);
                        }
                    }
                    if found.len() == 0 {
                        proof {
                            let lv = found@;
                            let l0 = choose|l: int|
                                0 <= l < self.document.logs@.len() && (
                                #[trigger] self.document.logs@[l])@ == lv;
                            if key_has_entries(logsv, public_key@) {
                                let l = choose|l: int|
                                    0 <= l < logsv.len() && (#[trigger] logsv[l]).public_key
                                        == public_key@ && logsv[l].entries.len() > 0;
                                assert(logsv[l0] == lv);
                                assert(l != l0);
                                assert(false);
                            }
                        }
                        return Err(CreateError);
                    }
                    proof {
                        let lv = found@;
                        let l0 = choose|l: int|
                            0 <= l < self.document.logs@.len() && (#[trigger] self.document.logs@[
                            l])@ == lv;
                        assert(logsv[l0].public_key == public_key@ && logsv[l0].entries.len() > 0);
                        assert(key_has_entries(logsv, public_key@));
                    }
                    let entry = found.get(seq_num as u64 - 1);
                    match entry {
                        Option::Some(e) => {
                            proof {
                                let lv = found@;
                                let l = choose|l: int|
                                    0 <= l < self.document.logs@.len() && (
                                    #[trigger] self.document.logs@[l])@ == lv;
                                let k = choose|k: int|
                                    0 <= k < lv.entries.len() && lv.entries[k] == e@;
                                assert(logsv[l].entries[k] == e@);
                                assert(logsv[l].public_key == public_key@);
                                assert(log_entry_in(
                                    logsv,
                                    public_key@,
                                    LogEntryView { seq_num: (seq_num - 1) as u64, hash: e@.hash },
                                ));
                            }
                            backlink = Option::Some(e.hash);
                        },
                        Option::None => {
                            proof {
                                let lv = found@;
                                let l0 = choose|l: int|
                                    0 <= l < self.document.logs@.len() && (
                                    #[trigger] self.document.logs@[l])@ == lv;
                                if log_seq_in(logsv, public_key@, (seq_num - 1) as u64) {
                                    let (l, k): (int, int) = choose|l: int, k: int|
                                        0 <= l < logsv.len() && 0 <= k < logsv[l].entries.len()
                                            && (#[trigger] logsv[l].entries[k]).seq_num == (seq_num
                                            - 1) as u64 && logsv[l].public_key == public_key@;
                                    assert(l == l0);
                                    assert(lv.entries[k].seq_num == (seq_num - 1) as u64);
                                    assert(false);
                                }
                            }
                            backlink = Option::None;
                        },
                    }
                },
                Option::None => {
                    proof {
                        if key_has_entries(logsv, public_key@) {
                            let l = choose|l: int|
                                0 <= l < logsv.len() && (#[trigger] logsv[l]).public_key
                                    == public_key@ && logsv[l].entries.len() > 0;
                            assert(self.document.logs@[l]@.public_key == public_key@);
                            assert(false);
                        }
                    }
                    return Err(CreateError);
                },
            }
        }
        let mut content: Vec<u8> = crate::hash::clone_bytes(&public_key.bytes);
        content.push(#[verifier::truncate] ((seq_num >> 24u32) as u8));
        content.push(#[verifier::truncate] ((seq_num >> 16u32) as u8));
        content.push(#[verifier::truncate] ((seq_num >> 8u32) as u8));
        content.push(#[verifier::truncate] (seq_num as u8));
        proof {
            assert(content@ =~= create_content(public_key@, seq_num));
        }
        let hash = crate::hash::Hash::new(content.as_slice());
        let previous = self.document.tips();
        let operation = Operation {
            hash,
            public_key,
            author_name,
            seq_num: seq_num as u64,
            timestamp,
            backlink,
            previous,
        };
        let mut batch: Vec<Operation> = Vec::new();
        batch.push(operation.clone());
        proof {
            assert(crate::document::views_of_ops(batch@) =~= seq![operation@]);
        }
        let _ignored = self.document.add(&batch);
        proof {
            assert(self.authors@[widx].name@ == author_name@ && self.authors@[
            widx].public_key@ == operation@.public_key);
            assert(self.author_key(author_name@, operation@.public_key));
            assert(self.document.logs_view() == add_logs(
                old(self).document.ops(),
                old(self).document.logs_view(),
                seq![operation@],
            ));
        }
        Ok(operation)
    }

    /// Removes every record with a timestamp before the given one; returns
    /// the removed hashes.
    pub fn prune_before_timestamp(&mut self, timestamp: u32) -> (removed: Vec<crate::hash::Hash>)
        requires
            old(self).wf(),
        ensures
            final(self).wf(),
            final(self).authors@ == old(self).authors@,
            forall|o: OpView|
                #[trigger] final(self).document.ops().contains(o) <==> (old(
                    self,
                ).document.ops().contains(o) && (o.timestamp as u64) >= timestamp as u64),
            forall|h: Seq<u8>|
                #[trigger] hash_views(removed@).contains(h) <==> exists|k: int|
                    0 <= k < old(self).document.ops().len() && (#[trigger] old(
                        self,
                    ).document.ops()[k]).hash == h && (old(self).document.ops()[k].timestamp
                        as u64) < timestamp as u64,
            final(self).document.logs@.len() == old(self).document.logs@.len(),
            forall|l: int|
                0 <= l < final(self).document.logs@.len() ==> (#[trigger] final(self).document.logs_view()[l]).public_key == old(
                    self,
                ).document.logs_view()[l].public_key,
            forall|l: int, e: LogEntryView|
                0 <= l < final(self).document.logs@.len() ==> ((#[trigger] final(self).document.logs_view()[l].entries.contains(e))
                    <==> (old(self).document.logs_view()[l].entries.contains(e) && !hash_views(
                    removed@,
                ).contains(e.hash))),
    {
        self.document.prune_before_timestamp(timestamp as u64)
    }

    /// Keeps only the newest `depth` entries of every author's log; returns
    /// the removed hashes.
    pub fn prune_before_depth_per_log(&mut self, depth: u32) -> (removed: Vec<crate::hash::Hash>)
        requires
            old(self).wf(),
        ensures
            final(self).wf(),
            final(self).authors@ == old(self).authors@,
            final(self).document.logs@.len() == old(self).document.logs@.len(),
            forall|l: int|
                0 <= l < final(self).document.logs@.len()
                    ==> (#[trigger] final(self).document.logs_view()[l]).entries.len() <= depth,
            forall|l: int|
                0 <= l < final(self).document.logs@.len()
                    ==> (#[trigger] final(self).document.logs_view()[l]).entries == old(
                    self,
                ).document.logs_view()[l].entries.skip(
                    cut_of(old(self).document.logs_view()[l].entries.len() as int, depth as int),
                ),
            forall|l: int|
                0 <= l < final(self).document.logs@.len() ==> (#[trigger] final(self).document.logs_view()[l]).public_key == old(
                    self,
                ).document.logs_view()[l].public_key,
            forall|h: Seq<u8>|
                #[trigger] hash_views(removed@).contains(h) <==> exists|l: int, k: int|
                    0 <= l < old(self).document.logs_view().len() && 0 <= k < cut_of(
                        old(self).document.logs_view()[l].entries.len() as int,
                        depth as int,
                    ) && (#[trigger] old(self).document.logs_view()[l].entries[k]).hash == h,
            forall|o: OpView|
                #[trigger] final(self).document.ops().contains(o) <==> (old(
                    self,
                ).document.ops().contains(o) && !hash_views(removed@).contains(o.hash)),
    {
        self.document.prune_before_depth_per_log(depth as usize)
    }

    /// Removes every record more than `depth` hops from the nearest frontier
    /// tip; returns the removed hashes.
    pub fn prune_before_depth(&mut self, depth: u32) -> (removed: Vec<crate::hash::Hash>)
        requires
            old(self).wf(),
        ensures
            final(self).wf(),
            final(self).authors@ == old(self).authors@,
            forall|o: OpView|
                #[trigger] final(self).document.ops().contains(o) <==> (old(
                    self,
                ).document.ops().contains(o) && within_depth(
                    old(self).document.ops(),
                    o.hash,
                    depth as nat,
                )),
            forall|h: Seq<u8>|
                #[trigger] hash_views(removed@).contains(h) <==> (has_hash(
                    old(self).document.ops(),
                    h,
                ) && !within_depth(old(self).document.ops(), h, depth as nat)),
            final(self).document.logs@.len() == old(self).document.logs@.len(),
            forall|l: int|
                0 <= l < final(self).document.logs@.len() ==> (#[trigger] final(self).document.logs_view()[l]).public_key == old(
                    self,
                ).document.logs_view()[l].public_key,
            forall|l: int, e: LogEntryView|
                0 <= l < final(self).document.logs@.len() ==> ((#[trigger] final(self).document.logs_view()[l].entries.contains(e))
                    <==> (old(self).document.logs_view()[l].entries.contains(e) && !hash_views(
                    removed@,
                ).contains(e.hash))),
    {
        self.document.prune_before_depth(depth as u64)
    }

    /// Every stored record, in a topological order consistent with
    /// `previous`, with a fixed tie-break.
    pub fn operations(&self) -> (r: Vec<Operation>)
        requires
            self.wf(),
        ensures
            r@.len() == self.document.operations@.len(),
            forall|k: int|
                0 <= k < crate::document::views_of_ops(r@).len() ==> self.document.ops().contains(
                    #[trigger] crate::document::views_of_ops(r@)[k],
                ),
            forall|j: int|
                0 <= j < self.document.ops().len() ==> has_hash(
                    crate::document::views_of_ops(r@),
                    (#[trigger] self.document.ops()[j]).hash,
                ),
            forall|i: int, j: int|
                0 <= i < j < crate::document::views_of_ops(r@).len() ==> (
                #[trigger] crate::document::views_of_ops(r@)[i]).hash != (
                #[trigger] crate::document::views_of_ops(r@)[j]).hash,
            crate::document::acyclic(self.document.ops()) ==> crate::document::topo_sorted(
                crate::document::views_of_ops(r@),
                self.document.ops(),
            ),
            crate::document::views_of_ops(r@) == crate::document::topo_view(self.document.ops()),
    {
        self.document.operations()
    }

    /// Looks a record up by the string form of its hash; a malformed string
    /// or an absent record is an empty result, never a failure.
    pub fn get(&self, hash: String) -> (r: Option<Operation>)
        ensures
            match r {
                Option::Some(op) => self.document.ops().contains(op@) && is_hex_encoding(hash@)
                    && op@.hash == hex_decode(hash@),
                Option::None => !(is_hex_encoding(hash@) && has_hash(
                    self.document.ops(),
                    hex_decode(hash@),
                )),
            },
    {
        let parsed = crate::hash::Hash::from_string(hash.as_str());
        match parsed {
            Ok(h) => self.document.get(&h),
            Err(_) => Option::None,
        }
    }

    /// The current frontier, each stored-and-unreferenced hash exactly once.
    pub fn tips(&self) -> (r: Vec<crate::hash::Hash>)
        requires
            self.wf(),
        ensures
            hash_views(r@) == self.document.tip_hashes(),
            forall|h: Seq<u8>|
                #[trigger] hash_views(r@).contains(h) <==> crate::document::is_tip(
                    self.document.ops(),
                    h,
                ),
    {
        self.document.tips()
    }
}

/// Finds the directory position of the author with the given name, if any.
fn find_author(authors: &Vec<Author>, name: &String) -> (r: Option<usize>)
    ensures
        match r {
            Option::Some(i) => i < authors@.len() && authors@[i as int].name@ == name@,
            Option::None => forall|i: int|
                0 <= i < authors@.len() ==> (#[trigger] authors@[i]).name@ != name@,
        },
{
    let mut i: usize = 0;
    while i < authors.len()
        invariant
            i <= authors.len(),
            forall|k: int| 0 <= k < i ==> (#[trigger] authors@[k]).name@ != name@,
        decreases authors.len() - i,
    {
        if authors[i].name == *name {
            return Option::Some(i);
        }
        i = i + 1;
    }
    Option::None
}

} // verus!
