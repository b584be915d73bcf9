//! Caller identities.
use vstd::prelude::*;

verus! {

/// Largest number of bytes in a principal.
pub const PRINCIPAL_MAX_LEN: usize = 29;

/// Byte that makes up the anonymous principal.
pub const ANONYMOUS_TAG: u8 = 4;

/// Byte-wise lexicographic order: `a` comes strictly before `b`.
pub open spec fn bytes_lt(a: Seq<u8>, b: Seq<u8>) -> bool
    decreases a.len(),
{
    if a.len() == 0 {
        b.len() > 0
    } else if b.len() == 0 {
        false
    } else if a[0] != b[0] {
        a[0] < b[0]
    } else {
        bytes_lt(a.drop_first(), b.drop_first())
    }
}

/// No byte string comes before itself.
pub proof fn lemma_bytes_lt_irreflexive(a: Seq<u8>)
    ensures
        !bytes_lt(a, a),
    decreases a.len(),
{
    if a.len() > 0 {
        lemma_bytes_lt_irreflexive(a.drop_first());
    }
}

/// Of two different byte strings, one comes before the other.
pub proof fn lemma_bytes_lt_total(a: Seq<u8>, b: Seq<u8>)
    requires
        a != b,
    ensures
        bytes_lt(a, b) || bytes_lt(b, a),
    decreases a.len(),
{
    if a.len() > 0 && b.len() > 0 && a[0] == b[0] {
        if a.drop_first() == b.drop_first() {
            assert(a =~= seq![a[0]] + a.drop_first());
            assert(b =~= seq![b[0]] + b.drop_first());
        }
        lemma_bytes_lt_total(a.drop_first(), b.drop_first());
    } else if a.len() == 0 && b.len() == 0 {
        assert(a =~= b);
    }
}

/// The byte order is transitive.
pub proof fn lemma_bytes_lt_transitive(a: Seq<u8>, b: Seq<u8>, c: Seq<u8>)
    requires
        bytes_lt(a, b),
        bytes_lt(b, c),
    ensures
        bytes_lt(a, c),
    decreases a.len(),
{
    if a.len() > 0 && a[0] == b[0] && b[0] == c[0] {
        lemma_bytes_lt_transitive(a.drop_first(), b.drop_first(), c.drop_first());
    }
}

/// An opaque caller identifier of at most 29 bytes, compared by its bytes.
pub struct Principal {
    pub bytes: Vec<u8>,
}

impl View for Principal {
    type V = Seq<u8>;

    open spec fn view(&self) -> Seq<u8> {
        self.bytes@
    }
}

impl Principal {
    /// Builds a principal from its bytes; `None` when there are more than 29.
    pub fn from_bytes(bytes: Vec<u8>) -> (r: Option<Principal>)
        ensures
            bytes@.len() <= PRINCIPAL_MAX_LEN ==> (r matches Some(p) && p@ == bytes@),
            bytes@.len() > PRINCIPAL_MAX_LEN ==> r is None,
    {
        if bytes.len() <= PRINCIPAL_MAX_LEN {
            Some(Principal { bytes })
        } else {
            None
        }
    }

    /// The anonymous principal, the identity of an unauthenticated caller.
    pub fn anonymous() -> (r: Principal)
        ensures
            r@ == seq![ANONYMOUS_TAG],
    {
        let mut bytes: Vec<u8> = Vec::new();
        bytes.push(ANONYMOUS_TAG);
        Principal { bytes }
    }

    /// Whether this is the anonymous principal.
    pub fn is_anonymous(&self) -> (r: bool)
        ensures
            r == (self@ == seq![ANONYMOUS_TAG]),
    {
        if self.bytes.len() == 1 && self.bytes[0] == ANONYMOUS_TAG {
            assert(self@ =~= seq![ANONYMOUS_TAG]);
            true
        } else {
            false
        }
    }

    /// Whether two principals have the same bytes.
    pub fn same(&self, other: &Principal) -> (r: bool)
        ensures
            r == (self@ == other@),
    {
        let n = self.bytes.len();
        if n != other.bytes.len() {
            return false;
        }
        let mut i: usize = 0;
        while i < n
            invariant
                n == self@.len(),
                n == other@.len(),
                i <= n,
                forall|j: int| 0 <= j < i ==> self@[j] == other@[j],
            decreases n - i,
        {
            if self.bytes[i] != other.bytes[i] {
                return false;
            }
            i = i + 1;
        }
        assert(self@ =~= other@);
        true
    }

    /// Whether this principal's bytes come strictly before `other`'s.
    pub fn less_than(&self, other: &Principal) -> (r: bool)
        ensures
            r == bytes_lt(self@, other@),
    {
        let a = &self.bytes;
        let b = &other.bytes;
        let mut i: usize = 0;
        assert(a@.skip(0) =~= a@);
        assert(b@.skip(0) =~= b@);
        while i < a.len() && i < b.len() && a[i] == b[i]
            invariant
                i <= a@.len(),
                i <= b@.len(),
                bytes_lt(a@, b@) == bytes_lt(a@.skip(i as int), b@.skip(i as int)),
            decreases a@.len() - i,
        {
            proof {
                assert(a@.skip(i as int).drop_first() =~= a@.skip(i + 1));
                assert(b@.skip(i as int).drop_first() =~= b@.skip(i + 1));
                assert(a@.skip(i as int)[0] == b@.skip(i as int)[0]);
            }
            i = i + 1;
        }
        if i == a.len() {
            i < b.len()
        } else if i == b.len() {
            false
        } else {
            assert(a@.skip(i as int)[0] == a@[i as int]);
            assert(b@.skip(i as int)[0] == b@[i as int]);
            a[i] < b[i]
        }
    }

    /// A copy with the same bytes.
    pub fn copy(&self) -> (r: Principal)
        ensures
            r@ == self@,
    {
        Principal { bytes: self.bytes.clone() }
    }
}

} // verus!
