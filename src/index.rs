//! An index of votes by the composite key `(poll id, voter)`, held in a
//! stable-structures B-tree map: membership is a logarithmic lookup.
//!
//! A key is the poll id in eight big-endian bytes followed by the voter's
//! bytes, so that the byte order of keys is the order of poll ids first.
use vstd::prelude::*;
use ic_stable_structures::{StableBTreeMap, VectorMemory};
use crate::principal::Principal;

verus! {

/// The eight bytes of `x`, most significant first.
pub open spec fn be_bytes(x: u64) -> Seq<u8> {
    seq![
        (x >> 56u64) as u8,
        (x >> 48u64) as u8,
        (x >> 40u64) as u8,
        (x >> 32u64) as u8,
        (x >> 24u64) as u8,
        (x >> 16u64) as u8,
        (x >> 8u64) as u8,
        x as u8,
    ]
}

/// The index key of a vote by `voter` in poll `poll_id`.
pub open spec fn composite_key(poll_id: u64, voter: Seq<u8>) -> Seq<u8> {
    be_bytes(poll_id) + voter
}

proof fn lemma_be_bytes_injective(a: u64, b: u64)
    requires
        be_bytes(a) == be_bytes(b),
    ensures
        a == b,
{
    assert(be_bytes(a)[0] == be_bytes(b)[0]);
    assert(be_bytes(a)[1] == be_bytes(b)[1]);
    assert(be_bytes(a)[2] == be_bytes(b)[2]);
    assert(be_bytes(a)[3] == be_bytes(b)[3]);
    assert(be_bytes(a)[4] == be_bytes(b)[4]);
    assert(be_bytes(a)[5] == be_bytes(b)[5]);
    assert(be_bytes(a)[6] == be_bytes(b)[6]);
    assert(be_bytes(a)[7] == be_bytes(b)[7]);
    assert(((a >> 56u64) as u8 == (b >> 56u64) as u8 && (a >> 48u64) as u8 == (b >> 48u64) as u8
        && (a >> 40u64) as u8 == (b >> 40u64) as u8 && (a >> 32u64) as u8 == (b >> 32u64) as u8
        && (a >> 24u64) as u8 == (b >> 24u64) as u8 && (a >> 16u64) as u8 == (b >> 16u64) as u8
        && (a >> 8u64) as u8 == (b >> 8u64) as u8 && a as u8 == b as u8) ==> a == b) by (bit_vector);
}

/// Distinct `(poll id, voter)` pairs have distinct keys.
pub proof fn lemma_composite_key_injective(p: u64, v: Seq<u8>, q: u64, w: Seq<u8>)
    requires
        composite_key(p, v) == composite_key(q, w),
    ensures
        p == q,
        v == w,
{
    let k = composite_key(p, v);
    assert(k.subrange(0, 8) =~= be_bytes(p));
    assert(composite_key(q, w).subrange(0, 8) =~= be_bytes(q));
    lemma_be_bytes_injective(p, q);
    assert(k.subrange(8, k.len() as int) =~= v);
    assert(composite_key(q, w).subrange(8, k.len() as int) =~= w);
}

/// The index key of a vote by `voter` in poll `poll_id`.
pub fn vote_key(poll_id: u64, voter: &Principal) -> (r: Vec<u8>)
    ensures
        r@ == composite_key(poll_id, voter@),
{
    let mut r: Vec<u8> = Vec::new();
    r.push(#[verifier::truncate] ((poll_id >> 56u64) as u8));
    r.push(#[verifier::truncate] ((poll_id >> 48u64) as u8));
    r.push(#[verifier::truncate] ((poll_id >> 40u64) as u8));
    r.push(#[verifier::truncate] ((poll_id >> 32u64) as u8));
    r.push(#[verifier::truncate] ((poll_id >> 24u64) as u8));
    r.push(#[verifier::truncate] ((poll_id >> 16u64) as u8));
    r.push(#[verifier::truncate] ((poll_id >> 8u64) as u8));
    r.push(#[verifier::truncate] (poll_id as u8));
    assert(r@ =~= be_bytes(poll_id));
    let mut i: usize = 0;
    while i < voter.bytes.len()
        invariant
            i <= voter@.len(),
            r@ == be_bytes(poll_id) + voter@.take(i as int),
        decreases voter@.len() - i,
    {
        r.push(voter.bytes[i]);
        assert(voter@.take(i + 1) =~= voter@.take(i as int).push(voter@[i as int]));
        i = i + 1;
        assert(r@ =~= be_bytes(poll_id) + voter@.take(i as int));
    }
    assert(voter@.take(voter@.len() as int) =~= voter@);
    r
}

/// A B-tree map from vote keys to `(option index, time cast)`. The map's
/// memory handle is not something Verus can describe, so the map is held in a
/// field that Verus does not see; `index_entries` names what it holds.
#[verifier::external_body]
pub struct VoteIndex {
    map: StableBTreeMap<Vec<u8>, (u32, u64), VectorMemory>,
}

/// The entries of a vote index.
pub uninterp spec fn index_entries(ix: VoteIndex) -> Map<Seq<u8>, (u32, u64)>;

impl VoteIndex {
    /// Relies on `BTreeMap::new`: a map made on fresh memory holds nothing.
    #[verifier::external_body]
    pub fn new() -> (r: VoteIndex)
        ensures
            forall|k: Seq<u8>| !#[trigger] index_entries(r).contains_key(k),
    {
        VoteIndex { map: StableBTreeMap::new(VectorMemory::default()) }
    }

    /// Relies on `BTreeMap::contains_key`: whether the key has an entry.
    #[verifier::external_body]
    pub fn contains(&self, key: &Vec<u8>) -> (r: bool)
        ensures
            r == index_entries(*self).contains_key(key@),
    {
        self.map.contains_key(key)
    }

    /// Relies on `BTreeMap::insert`: the key is bound to the value, every
    /// other entry stays.
    #[verifier::external_body]
    pub fn insert(&mut self, key: Vec<u8>, option_index: u32, voted_at: u64)
        ensures
            index_entries(*final(self)) == index_entries(*old(self)).insert(key@, (option_index, voted_at)),
    {
        self.map.insert(key, (option_index, voted_at));
    }
}

} // verus!
