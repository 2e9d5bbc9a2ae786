//! Records ("operations"): the immutable, content-addressed events that the
//! causal document stores.

use vstd::prelude::*;

use crate::hash::{clone_bytes, encode_hex, hex_str_of};
use crate::identity::PublicKey;

verus! {

/// The mathematical value of a record: its digest, author, author-local
/// sequence number, timestamp, same-author backlink and causal predecessors,
/// all as plain values.
pub ghost struct OpView {
    pub hash: Seq<u8>,
    pub public_key: Seq<u8>,
    pub author_name: Seq<char>,
    pub seq_num: u64,
    pub timestamp: u32,
    pub backlink: Option<Seq<u8>>,
    pub previous: Seq<Seq<u8>>,
}

/// The view of an optional hash.
pub open spec fn opt_hash_view(o: Option<crate::hash::Hash>) -> Option<Seq<u8>> {
    match o {
        Option::Some(h) => Option::Some(h@),
        Option::None => Option::None,
    }
}

/// The views of a sequence of hashes.
pub open spec fn hash_views(hs: Seq<crate::hash::Hash>) -> Seq<Seq<u8>> {
    hs.map_values(|h: crate::hash::Hash| h@)
}

/// One record of the store. A record is created once and is immutable
/// thereafter; `hash` addresses it, `public_key` and `seq_num` place it in
/// its author's log, `previous` holds the hashes it causally depends on.
#[derive(Debug, PartialEq, Eq, PartialOrd, Ord, Hash)]
pub struct Operation {
    pub hash: crate::hash::Hash,
    pub public_key: PublicKey,
    pub author_name: String,
    pub seq_num: u64,
    pub timestamp: u32,
    pub backlink: Option<crate::hash::Hash>,
    pub previous: Vec<crate::hash::Hash>,
}

impl View for Operation {
    type V = OpView;

    open spec fn view(&self) -> OpView {
        OpView {
            hash: self.hash@,
            public_key: self.public_key@,
            author_name: self.author_name@,
            seq_num: self.seq_num,
            timestamp: self.timestamp,
            backlink: opt_hash_view(self.backlink),
            previous: hash_views(self.previous@),
        }
    }
}

/// Copies a vector of hashes.
pub fn clone_hashes(v: &Vec<crate::hash::Hash>) -> (r: Vec<crate::hash::Hash>)
    ensures
        hash_views(r@) == hash_views(v@),
        r@.len() == v@.len(),
{
    let mut r: Vec<crate::hash::Hash> = Vec::new();
    let mut i: usize = 0;
    while i < v.len()
        invariant
            i <= v.len(),
            r@.len() == i,
            forall|j: int| 0 <= j < i ==> r@[j]@ == v@[j]@,
        decreases v.len() - i,
    {
        r.push(v[i].clone());
        i = i + 1;
    }
    proof {
        assert(hash_views(r@) =~= hash_views(v@));
    }
    r
}

impl Clone for Operation {
    fn clone(&self) -> (r: Self)
        ensures
            r@ == self@,
    {
        let backlink = match &self.backlink {
            Option::Some(h) => Option::Some(h.clone()),
            Option::None => Option::None,
        };
        Operation {
            hash: self.hash.clone(),
            public_key: self.public_key.clone(),
            author_name: self.author_name.clone(),
            seq_num: self.seq_num,
            timestamp: self.timestamp,
            backlink,
            previous: clone_hashes(&self.previous),
        }
    }
}

impl Operation {
    /// Builds a record from its parts, for callers that source records
    /// externally.
    pub fn new(
        hash: crate::hash::Hash,
        public_key: PublicKey,
        author_name: String,
        seq_num: u64,
        timestamp: u32,
        backlink: Option<crate::hash::Hash>,
        previous: Vec<crate::hash::Hash>,
    ) -> (r: Operation)
        ensures
            r@.hash == hash@,
            r@.public_key == public_key@,
            r@.author_name == author_name@,
            r@.seq_num == seq_num,
            r@.timestamp == timestamp,
            r@.backlink == opt_hash_view(backlink),
            r@.previous == hash_views(previous@),
    {
        Operation { hash, public_key, author_name, seq_num, timestamp, backlink, previous }
    }

    /// The hexadecimal string form of the record's own hash.
    pub fn hash(&self) -> (r: String)
        ensures
            r@ == hex_str_of(self@.hash),
    {
        self.hash.to_string()
    }

    /// The hexadecimal string form of the author's public key.
    pub fn public_key(&self) -> (r: String)
        ensures
            r@ == hex_str_of(self@.public_key),
    {
        self.public_key.to_string()
    }

    /// The author's human-readable name.
    pub fn author_name(&self) -> (r: String)
        ensures
            r@ == self@.author_name,
    {
        self.author_name.clone()
    }

    /// The author-local sequence number, narrowed for a host boundary.
    pub fn seq_num(&self) -> (r: i32)
        ensures
            r == self@.seq_num as i32,
    {
        #[verifier::truncate]
        (self.seq_num as i32)
    }

    /// The record's timestamp, narrowed for a host boundary.
    pub fn timestamp(&self) -> (r: i32)
        ensures
            r == self@.timestamp as i32,
    {
        #[verifier::truncate]
        (self.timestamp as i32)
    }

    /// The hexadecimal string form of the same-author backlink, if any.
    pub fn backlink(&self) -> (r: Option<String>)
        ensures
            match r {
                Option::Some(s) => self@.backlink is Some && s@ == hex_str_of(
                    self@.backlink->Some_0,
                ),
                Option::None => self@.backlink is None,
            },
    {
        match &self.backlink {
            Option::Some(h) => Option::Some(h.to_string()),
            Option::None => Option::None,
        }
    }

    /// The hexadecimal string forms of the causal predecessors, in order.
    pub fn previous(&self) -> (r: Vec<String>)
        ensures
            r@.len() == self@.previous.len(),
            forall|i: int| 0 <= i < r@.len() ==> r@[i]@ == hex_str_of(self@.previous[i]),
    {
        let mut r: Vec<String> = Vec::new();
        let mut i: usize = 0;
        while i < self.previous.len()
            invariant
                i <= self.previous.len(),
                r@.len() == i,
                forall|j: int| 0 <= j < i ==> r@[j]@ == hex_str_of(self@.previous[j]),
            decreases self.previous.len() - i,
        {
            r.push(self.previous[i].to_string());
            i = i + 1;
        }
        r
    }
}

/// A batch of records, as handed across the library boundary.
pub struct Operations(pub Vec<Operation>);

} // verus!
