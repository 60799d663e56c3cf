//! Content addressing and the content-addressed block store.
//!
//! This module is the crate's whole trusted boundary.  A [`Commitment`] is a
//! content reference: the byte form of a CID, carried beside the parsed CID
//! value it was derived from.  A [`Store`] owns an in-memory content-addressed
//! block store together with the array-mapped-trie (AMT) codec used to persist
//! a peaks list under a single handle.  What a store observably holds is
//! described by three uninterpreted views — raw blocks, pair nodes and peaks
//! lists — and every operation below states how it reads or extends them.
//!
//! Everything a store holds is immutable once written: each block sits under
//! the digest of its own bytes, so a write can only add blocks (re-putting
//! identical bytes is a no-op), never change one.  That is what lets every
//! operation promise [`store_extends`].

use vstd::prelude::*;

use cid::Cid;
use fvm_ipld_amt::Amt;
use fvm_ipld_blockstore::{Blockstore, MemoryBlockstore};
use fvm_ipld_encoding::{to_vec, CborStore, DAG_CBOR};
use multihash_codetable::{Code, MultihashDigest};

use crate::error::Error;

verus! {

#[verifier::external_type_specification]
#[verifier::external_body]
pub struct ExCidGeneric<const S: usize>(cid::CidGeneric<S>);

/// Branching factor of the persisted peaks list: each trie node holds
/// `2^3 = 8` slots.
const PEAKS_BIT_WIDTH: u32 = 3;

/// A content reference.  Its mathematical value is the canonical byte form of
/// the CID; the parsed CID is carried beside it so that store operations need
/// never re-parse the bytes.
pub struct Commitment {
    cid: Cid,
    bytes: Vec<u8>,
}

impl View for Commitment {
    type V = Seq<u8>;

    closed spec fn view(&self) -> Seq<u8> {
        self.bytes@
    }
}

/// The byte form of the sequence of commitments `s`.
pub open spec fn seq_view(s: Seq<Commitment>) -> Seq<Seq<u8>> {
    Seq::new(s.len(), |i: int| s[i]@)
}

/// The null commitment: the byte form of the default CID (version 1, codec
/// zero, empty multihash).  It is shorter than any digest-bearing reference,
/// so it is distinguishable from every real one.
pub open spec fn null_commitment() -> Seq<u8> {
    seq![1u8, 0u8, 0u8, 0u8]
}

/// The content reference of a block holding exactly the bytes `data`:
/// the DAG-CBOR CID over the Blake2b-256 digest of `data`.
pub uninterp spec fn block_commitment(data: Seq<u8>) -> Seq<u8>;

/// The content reference of a pair node with children `left` and `right`:
/// the DAG-CBOR CID over the Blake2b-256 digest of the canonical encoding of
/// the two references.
pub uninterp spec fn pair_commitment(left: Seq<u8>, right: Seq<u8>) -> Seq<u8>;

/// The handle of a persisted peaks list holding exactly `items`: the CID of
/// the root of the AMT built from `items` in order.
pub uninterp spec fn peaks_commitment(items: Seq<Seq<u8>>) -> Seq<u8>;

/// The raw block bytes a store holds under `key`, if any.
pub uninterp spec fn block_at(s: Store, key: Seq<u8>) -> Option<Seq<u8>>;

/// The pair node a store holds under `key`: `Some` exactly where the block at
/// `key` exists and decodes as a pair of references.
pub uninterp spec fn pair_at(s: Store, key: Seq<u8>) -> Option<(Seq<u8>, Seq<u8>)>;

/// The peaks list a store resolves under `key`: `Some` exactly where loading
/// the AMT rooted at `key` succeeds, with the held references in index order.
pub uninterp spec fn peaks_at(s: Store, key: Seq<u8>) -> Option<Seq<Seq<u8>>>;

/// `post` holds everything `pre` holds: nothing a store ever holds is changed
/// or removed, it can only gain blocks.
pub open spec fn store_extends(post: Store, pre: Store) -> bool {
    &&& forall|k: Seq<u8>| #![trigger block_at(post, k)]
        block_at(pre, k) is Some ==> block_at(post, k) == block_at(pre, k)
    &&& forall|k: Seq<u8>| #![trigger pair_at(post, k)]
        pair_at(pre, k) is Some ==> pair_at(post, k) == pair_at(pre, k)
    &&& forall|k: Seq<u8>| #![trigger peaks_at(post, k)]
        peaks_at(pre, k) is Some ==> peaks_at(post, k) == peaks_at(pre, k)
}

/// Nothing observable distinguishes `post` from `pre`: all three views are
/// the same at every key.  This is what a content-addressed re-put of an
/// already-present block leaves behind.
pub open spec fn unchanged(post: Store, pre: Store) -> bool {
    &&& forall|k: Seq<u8>| #![trigger block_at(post, k)]
        block_at(post, k) == block_at(pre, k)
    &&& forall|k: Seq<u8>| #![trigger pair_at(post, k)]
        pair_at(post, k) == pair_at(pre, k)
    &&& forall|k: Seq<u8>| #![trigger peaks_at(post, k)]
        peaks_at(post, k) == peaks_at(pre, k)
}

/// An in-memory content-addressed block store.  Hidden from the verifier; its
/// observable contents are given by the views above through the trusted
/// operations below.
#[verifier::external_body]
pub struct Store {
    mem: MemoryBlockstore,
}

impl Commitment {
    /// The canonical byte form of this reference.
    pub fn as_bytes(&self) -> (r: &Vec<u8>)
        ensures
            r@ == self@,
    {
        &self.bytes
    }

    /// An owned copy of this reference.
    pub fn dup(&self) -> (r: Commitment)
        ensures
            r@ == self@,
    {
        let mut bytes: Vec<u8> = Vec::new();
        let mut i: usize = 0;
        while i < self.bytes.len()
            invariant
                i <= self.bytes.len(),
                bytes@ == self.bytes@.take(i as int),
            decreases self.bytes.len() - i,
        {
            bytes.push(self.bytes[i]);
            i = i + 1;
        }
        proof {
            assert(bytes@ =~= self.bytes@);
        }
        Commitment { cid: self.cid, bytes }
    }
}

/// The null commitment as a value.
///
/// Relies on `Cid::default` and `Cid::to_bytes` of the `cid` crate: the
/// default CID is version 1 with codec zero and the empty multihash, and its
/// byte form is one varint byte each for version, codec, hash code and hash
/// length.
#[verifier::external_body]
pub(crate) fn null_ref() -> (c: Commitment)
    ensures
        c@ == null_commitment(),
{
    let cid = Cid::default();
    Commitment { bytes: cid.to_bytes(), cid }
}

/// The content reference of a pair node, computed without touching any store.
///
/// Relies on `fvm_ipld_encoding::to_vec` (canonical DAG-CBOR encoding of the
/// two references) and `multihash_codetable::Code::Blake2b256` with
/// `Cid::new_v1`: the result is a function of the two byte strings alone.
#[verifier::external_body]
pub(crate) fn pair_ref(left: &Commitment, right: &Commitment) -> (c: Commitment)
    ensures
        c@ == pair_commitment(left@, right@),
{
    let data = to_vec(&[&left.cid, &right.cid]).expect("encoding two CIDs cannot fail");
    let cid = Cid::new_v1(DAG_CBOR, Code::Blake2b256.digest(&data));
    Commitment { bytes: cid.to_bytes(), cid }
}

impl Store {
    /// A store holding nothing.
    ///
    /// Relies on `MemoryBlockstore::default` of `fvm_ipld_blockstore`: the
    /// fresh store has no blocks, so nothing resolves in it.
    #[verifier::external_body]
    pub fn new() -> (s: Store)
        ensures
            forall|k: Seq<u8>| #[trigger] block_at(s, k) is None,
            forall|k: Seq<u8>| #[trigger] pair_at(s, k) is None,
            forall|k: Seq<u8>| #[trigger] peaks_at(s, k) is None,
    {
        Store { mem: MemoryBlockstore::default() }
    }

    /// Writes `data` as one content-addressed block and returns its reference.
    ///
    /// Relies on `Blockstore::put_keyed` of `fvm_ipld_blockstore` keyed by the
    /// Blake2b-256 DAG-CBOR CID of `data`: the write is keyed by content, so
    /// it adds exactly this block and removes nothing, and re-putting a block
    /// that is already present performs no observable write at all.  The
    /// in-memory store cannot fail to write.
    #[verifier::external_body]
    pub(crate) fn put_block(&mut self, data: &Vec<u8>) -> (c: Commitment)
        ensures
            c@ == block_commitment(data@),
            block_at(*final(self), c@) == Some(data@),
            forall|k: Seq<u8>| #![trigger block_at(*final(self), k)]
                k != block_commitment(data@)
                    ==> block_at(*final(self), k) == block_at(*old(self), k),
            forall|k: Seq<u8>| #![trigger pair_at(*final(self), k)]
                k != block_commitment(data@)
                    ==> pair_at(*final(self), k) == pair_at(*old(self), k),
            store_extends(*final(self), *old(self)),
            block_at(*old(self), block_commitment(data@)) is Some ==> unchanged(
                *final(self),
                *old(self),
            ),
    {
        let cid = Cid::new_v1(DAG_CBOR, Code::Blake2b256.digest(data.as_slice()));
        self.mem
            .put_keyed(&cid, data.as_slice())
            .expect("in-memory store write cannot fail");
        Commitment { bytes: cid.to_bytes(), cid }
    }

    /// Writes a pair node for `left` and `right` and returns its reference.
    ///
    /// Relies on `CborStore::put_cbor` of `fvm_ipld_encoding` with
    /// `Code::Blake2b256`: the pair is stored under the digest of its
    /// canonical encoding and decodes back to exactly the two references;
    /// re-putting a pair whose block is already present performs no
    /// observable write at all.  The in-memory store cannot fail to write.
    #[verifier::external_body]
    pub(crate) fn put_pair(&mut self, left: &Commitment, right: &Commitment) -> (c: Commitment)
        ensures
            c@ == pair_commitment(left@, right@),
            pair_at(*final(self), c@) == Some((left@, right@)),
            block_at(*final(self), c@) is Some,
            forall|k: Seq<u8>| #![trigger block_at(*final(self), k)]
                k != pair_commitment(left@, right@)
                    ==> block_at(*final(self), k) == block_at(*old(self), k),
            forall|k: Seq<u8>| #![trigger pair_at(*final(self), k)]
                k != pair_commitment(left@, right@)
                    ==> pair_at(*final(self), k) == pair_at(*old(self), k),
            store_extends(*final(self), *old(self)),
            block_at(*old(self), pair_commitment(left@, right@)) is Some ==> unchanged(
                *final(self),
                *old(self),
            ),
    {
        let cid = self
            .mem
            .put_cbor(&[&left.cid, &right.cid], Code::Blake2b256)
            .expect("in-memory store write cannot fail");
        Commitment { bytes: cid.to_bytes(), cid }
    }

    /// Reads the pair node under `c`.
    ///
    /// Relies on `CborStore::get_cbor` of `fvm_ipld_encoding` decoding a pair
    /// of CIDs: an absent block reports [`Error::NotFound`], a block of the
    /// wrong shape [`Error::Corrupt`].
    #[verifier::external_body]
    pub(crate) fn get_pair(&self, c: &Commitment) -> (r: Result<(Commitment, Commitment), Error>)
        ensures
            r matches Ok(pr) ==> pair_at(*self, c@) == Some((pr.0@, pr.1@)),
            r matches Err(e) ==> pair_at(*self, c@) is None
                && (e == Error::Corrupt || e == Error::NotFound)
                && (e == Error::Corrupt ==> block_at(*self, c@) is Some)
                && (e == Error::NotFound ==> block_at(*self, c@) is None),
    {
        match self.mem.get(&c.cid) {
            Ok(Some(_)) => {}
            Ok(None) => return Err(Error::NotFound),
            Err(_) => return Err(Error::StoreFailure),
        }
        match self.mem.get_cbor::<[Cid; 2]>(&c.cid) {
            Ok(Some([l, r])) => Ok((
                Commitment { bytes: l.to_bytes(), cid: l },
                Commitment { bytes: r.to_bytes(), cid: r },
            )),
            Ok(None) => Err(Error::NotFound),
            Err(_) => Err(Error::Corrupt),
        }
    }

    /// Reads the raw block under `c`.
    ///
    /// Relies on `Blockstore::get` of `fvm_ipld_blockstore`: it returns the
    /// bytes held under the reference, or reports their absence.
    #[verifier::external_body]
    pub(crate) fn get_block(&self, c: &Commitment) -> (r: Result<Vec<u8>, Error>)
        ensures
            r matches Ok(v) ==> block_at(*self, c@) == Some(v@),
            r matches Err(e) ==> block_at(*self, c@) is None && e == Error::NotFound,
    {
        match self.mem.get(&c.cid) {
            Ok(Some(v)) => Ok(v),
            Ok(None) => Err(Error::NotFound),
            Err(_) => Err(Error::StoreFailure),
        }
    }

    /// Persists `items` as a fresh peaks list and returns its handle.
    ///
    /// Relies on `Amt::new_with_bit_width`, `Amt::set` and `Amt::flush` of
    /// `fvm_ipld_amt`: the flushed handle is the CID of the trie built from
    /// `items` in order, a function of the contents alone, and loading it from
    /// this store afterwards yields the same contents.  For any list whose
    /// indices stay far below the trie's maximum, nothing can fail: the trie
    /// is freshly built (no link is ever re-read), its nodes encode into
    /// plain byte buffers, and the in-memory store cannot fail to write.
    #[verifier::external_body]
    pub(crate) fn flush_peaks(&mut self, items: &Vec<Commitment>) -> (r: Result<Commitment, Error>)
        ensures
            items@.len() <= 4096 ==> r is Ok,
            r matches Ok(c) ==> c@ == peaks_commitment(seq_view(items@))
                && peaks_at(*final(self), c@) == Some(seq_view(items@)),
            store_extends(*final(self), *old(self)),
            forall|k: Seq<u8>| #![trigger pair_at(*final(self), k)]
                pair_at(*final(self), k) == pair_at(*old(self), k),
    {
        let mut amt: Amt<Cid, _> = Amt::new_with_bit_width(&self.mem, PEAKS_BIT_WIDTH);
        let mut i: u64 = 0;
        for item in items.iter() {
            if amt.set(i, item.cid).is_err() {
                return Err(Error::StoreFailure);
            }
            i += 1;
        }
        match amt.flush() {
            Ok(cid) => Ok(Commitment { bytes: cid.to_bytes(), cid }),
            Err(_) => Err(Error::StoreFailure),
        }
    }

    /// Loads the peaks list under `handle`.
    ///
    /// Relies on `Amt::load` and `Amt::for_each` of `fvm_ipld_amt`: loading
    /// succeeds exactly where the store resolves a peaks list under the
    /// handle, and the traversal hands the held references out in index
    /// order.
    #[verifier::external_body]
    pub(crate) fn load_peaks(&self, handle: &Commitment) -> (r: Result<Vec<Commitment>, Error>)
        ensures
            r matches Ok(v) ==> peaks_at(*self, handle@) == Some(seq_view(v@)),
            r is Err ==> peaks_at(*self, handle@) is None,
    {
        let amt: Amt<Cid, _> = match Amt::load(&handle.cid, &self.mem) {
            Ok(amt) => amt,
            Err(fvm_ipld_amt::Error::CidNotFound(_)) => return Err(Error::NotFound),
            Err(_) => return Err(Error::Corrupt),
        };
        let mut out: Vec<Commitment> = Vec::new();
        let walked = amt.for_each(|_, c: &Cid| {
            out.push(Commitment { bytes: c.to_bytes(), cid: *c });
            Ok(())
        });
        match walked {
            Ok(()) => Ok(out),
            Err(_) => Err(Error::Corrupt),
        }
    }
}

} // verus!
