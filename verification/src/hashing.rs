//! The hashing boundary: SHA-1 digests of byte chunks, and the lexicographic
//! order on digest values used to order files whose hashes diverge.

use core::cmp::Ordering;
use vstd::prelude::*;

verus! {

/// The SHA-1 digest of a byte sequence, left abstract: contracts rely only on
/// the digest being a function of the input bytes.
pub uninterp spec fn sha1_of(bytes: Seq<u8>) -> Seq<u8>;

/// Relies on `sha1::Sha1::from`, `Sha1::digest` and `Digest::bytes`: together
/// they compute the 20-byte SHA-1 digest of the given bytes, a deterministic
/// function of those bytes alone.
#[verifier::external_body]
pub(crate) fn sha1_chunk(chunk: &[u8]) -> (r: Vec<u8>)
    ensures
        r@ == sha1_of(chunk@),
        r@.len() == 20,
{
    sha1::Sha1::from(chunk).digest().bytes().to_vec()
}

/// Copies a byte vector.
pub(crate) fn copy_bytes(v: &Vec<u8>) -> (r: Vec<u8>)
    ensures
        r@ == v@,
{
    let mut r: Vec<u8> = Vec::new();
    let mut i: usize = 0;
    while i < v.len()
        invariant
            i <= v.len(),
            r@ == v@.subrange(0, i as int),
        decreases v.len() - i,
    {
        let b = v[i];
        r.push(b);
        proof {
            assert(v@.subrange(0, i as int).push(b) =~= v@.subrange(0, i + 1));
        }
        i = i + 1;
    }
    proof {
        assert(v@.subrange(0, v@.len() as int) =~= v@);
    }
    r
}

/// Lexicographic order on byte strings; a proper prefix orders first.
pub open spec fn bytes_cmp(x: Seq<u8>, y: Seq<u8>) -> Ordering
    decreases x.len(),
{
    if x.len() == 0 && y.len() == 0 {
        Ordering::Equal
    } else if x.len() == 0 {
        Ordering::Less
    } else if y.len() == 0 {
        Ordering::Greater
    } else if x[0] < y[0] {
        Ordering::Less
    } else if x[0] > y[0] {
        Ordering::Greater
    } else {
        bytes_cmp(x.drop_first(), y.drop_first())
    }
}

/// `bytes_cmp` reports `Equal` exactly on equal byte strings.
pub proof fn lemma_bytes_cmp_equal(x: Seq<u8>, y: Seq<u8>)
    ensures
        (bytes_cmp(x, y) == Ordering::Equal) <==> x == y,
    decreases x.len(),
{
    if x.len() == 0 && y.len() == 0 {
        assert(x =~= y);
    } else if x.len() != 0 && y.len() != 0 && x[0] == y[0] {
        lemma_bytes_cmp_equal(x.drop_first(), y.drop_first());
        if x.drop_first() == y.drop_first() {
            assert forall|k: int| 0 <= k < x.len() implies x[k] == y[k] by {
                if k > 0 {
                    assert(x[k] == x.drop_first()[k - 1]);
                    assert(y[k] == y.drop_first()[k - 1]);
                }
            }
            assert(x =~= y);
        }
        if x == y {
            assert(x.drop_first() =~= y.drop_first());
        }
    }
}

/// Swapping the operands of `bytes_cmp` reverses the resulting order.
pub proof fn lemma_bytes_cmp_flip(x: Seq<u8>, y: Seq<u8>)
    ensures
        bytes_cmp(y, x) == (match bytes_cmp(x, y) {
            Ordering::Less => Ordering::Greater,
            Ordering::Equal => Ordering::Equal,
            Ordering::Greater => Ordering::Less,
        }),
    decreases x.len(),
{
    if x.len() != 0 && y.len() != 0 && x[0] == y[0] {
        lemma_bytes_cmp_flip(x.drop_first(), y.drop_first());
    }
}

/// The lexicographic order on byte strings is transitive.
pub proof fn lemma_bytes_cmp_trans(x: Seq<u8>, y: Seq<u8>, z: Seq<u8>)
    requires
        bytes_cmp(x, y) == Ordering::Less,
        bytes_cmp(y, z) == Ordering::Less,
    ensures
        bytes_cmp(x, z) == Ordering::Less,
    decreases x.len(),
{
    if x.len() != 0 && y.len() != 0 && z.len() != 0 && x[0] == y[0] && y[0] == z[0] {
        lemma_bytes_cmp_trans(x.drop_first(), y.drop_first(), z.drop_first());
    }
}

/// Compares two byte vectors in the lexicographic order.
pub(crate) fn cmp_bytes(x: &Vec<u8>, y: &Vec<u8>) -> (r: Ordering)
    ensures
        r == bytes_cmp(x@, y@),
{
    let mut i: usize = 0;
    proof {
        assert(x@.skip(0) =~= x@);
        assert(y@.skip(0) =~= y@);
    }
    loop
        invariant
            i <= x.len(),
            i <= y.len(),
            bytes_cmp(x@, y@) == bytes_cmp(x@.skip(i as int), y@.skip(i as int)),
        decreases x@.len() - i,
    {
        if i == x.len() && i == y.len() {
            return Ordering::Equal;
        } else if i == x.len() {
            return Ordering::Less;
        } else if i == y.len() {
            return Ordering::Greater;
        }
        let xi = x[i];
        let yi = y[i];
        if xi < yi {
            return Ordering::Less;
        } else if xi > yi {
            return Ordering::Greater;
        }
        proof {
            assert(x@.skip(i as int).drop_first() =~= x@.skip(i + 1));
            assert(y@.skip(i as int).drop_first() =~= y@.skip(i + 1));
        }
        i = i + 1;
    }
}

} // verus!
