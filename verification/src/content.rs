//! Mathematical model of the incremental content comparison: a file's bytes
//! are examined one fixed-size chunk at a time, each chunk judged by its
//! SHA-1 digest; the order of two same-sized contents is decided at the first
//! chunk whose digests diverge, and equal-throughout digests mean the
//! contents are judged equal.

use crate::hashing::{
    bytes_cmp, lemma_bytes_cmp_equal, lemma_bytes_cmp_flip, lemma_bytes_cmp_trans, sha1_of,
};
use crate::CHUNK_SIZE;
use core::cmp::Ordering;
use vstd::prelude::*;

verus! {

/// Length of the chunk that starts `rest` bytes before the end of a file:
/// a full chunk, or all that remains.
pub open spec fn step_len(rest: int) -> int {
    if CHUNK_SIZE <= rest {
        CHUNK_SIZE as int
    } else {
        rest
    }
}

/// Offset just past the `i`-th chunk of a file of `len` bytes.
pub open spec fn chunk_end(len: int, i: int) -> int {
    let lo = i * CHUNK_SIZE;
    lo + step_len(len - lo)
}

/// The `i`-th chunk of `data`: `CHUNK_SIZE` bytes, the last chunk of a file
/// possibly shorter.
pub open spec fn spec_chunk(data: Seq<u8>, i: int) -> Seq<u8> {
    data.subrange(i * CHUNK_SIZE, chunk_end(data.len() as int, i))
}

/// The order judged between two same-length byte contents by walking their
/// chunk digests in lock step: the first diverging digest pair decides, in
/// the lexicographic order on digest values; contents whose chunk digests
/// agree throughout are judged equal.
pub open spec fn content_cmp(a: Seq<u8>, b: Seq<u8>) -> Ordering
    recommends
        a.len() == b.len(),
    decreases a.len(),
{
    if a.len() == 0 {
        Ordering::Equal
    } else {
        let k = step_len(a.len() as int);
        let ha = sha1_of(a.take(k));
        let hb = sha1_of(b.take(k));
        if ha == hb {
            content_cmp(a.skip(k), b.skip(k))
        } else {
            bytes_cmp(ha, hb)
        }
    }
}

/// Two same-length contents are judged equal when their chunk digests agree
/// at every checkpoint.
pub open spec fn judged_equal(a: Seq<u8>, b: Seq<u8>) -> bool {
    a.len() == b.len() && content_cmp(a, b) == Ordering::Equal
}

/// How many leading bytes of each file the lock-step walk examines before it
/// settles: everything up to and including the first diverging chunk, or the
/// whole length when no chunk diverges.
pub open spec fn settled_len(a: Seq<u8>, b: Seq<u8>) -> int
    recommends
        a.len() == b.len(),
    decreases a.len(),
{
    if a.len() == 0 {
        0
    } else {
        let k = step_len(a.len() as int);
        if sha1_of(a.take(k)) == sha1_of(b.take(k)) {
            k + settled_len(a.skip(k), b.skip(k))
        } else {
            k
        }
    }
}

/// A content is judged equal to itself.
pub proof fn lemma_content_cmp_refl(a: Seq<u8>)
    ensures
        content_cmp(a, a) == Ordering::Equal,
    decreases a.len(),
{
    if a.len() != 0 {
        let k = step_len(a.len() as int);
        lemma_content_cmp_refl(a.skip(k));
    }
}

/// Judged equality of contents is symmetric.
pub proof fn lemma_judged_equal_sym(a: Seq<u8>, b: Seq<u8>)
    ensures
        judged_equal(a, b) == judged_equal(b, a),
    decreases a.len(),
{
    if a.len() == b.len() && a.len() != 0 {
        let k = step_len(a.len() as int);
        let ha = sha1_of(a.take(k));
        let hb = sha1_of(b.take(k));
        lemma_judged_equal_sym(a.skip(k), b.skip(k));
        if ha != hb {
            lemma_bytes_cmp_equal(ha, hb);
            lemma_bytes_cmp_equal(hb, ha);
        }
    }
}

/// Judged equality of contents is transitive.
pub proof fn lemma_judged_equal_trans(a: Seq<u8>, b: Seq<u8>, c: Seq<u8>)
    requires
        judged_equal(a, b),
        judged_equal(b, c),
    ensures
        judged_equal(a, c),
    decreases a.len(),
{
    if a.len() != 0 {
        let k = step_len(a.len() as int);
        let ha = sha1_of(a.take(k));
        let hb = sha1_of(b.take(k));
        let hc = sha1_of(c.take(k));
        if ha != hb {
            lemma_bytes_cmp_equal(ha, hb);
        }
        if hb != hc {
            lemma_bytes_cmp_equal(hb, hc);
        }
        lemma_judged_equal_trans(a.skip(k), b.skip(k), c.skip(k));
    }
}

/// Swapping the operands of the content order reverses the result.
pub proof fn lemma_content_cmp_flip(a: Seq<u8>, b: Seq<u8>)
    requires
        a.len() == b.len(),
    ensures
        content_cmp(b, a) == (match content_cmp(a, b) {
            Ordering::Less => Ordering::Greater,
            Ordering::Equal => Ordering::Equal,
            Ordering::Greater => Ordering::Less,
        }),
    decreases a.len(),
{
    if a.len() != 0 {
        let k = step_len(a.len() as int);
        let ha = sha1_of(a.take(k));
        let hb = sha1_of(b.take(k));
        if ha == hb {
            lemma_content_cmp_flip(a.skip(k), b.skip(k));
        } else {
            lemma_bytes_cmp_flip(ha, hb);
        }
    }
}

/// The content order on same-length contents is transitive.
pub proof fn lemma_content_cmp_trans(a: Seq<u8>, b: Seq<u8>, c: Seq<u8>)
    requires
        a.len() == b.len(),
        b.len() == c.len(),
        content_cmp(a, b) == Ordering::Less,
        content_cmp(b, c) == Ordering::Less,
    ensures
        content_cmp(a, c) == Ordering::Less,
    decreases a.len(),
{
    if a.len() != 0 {
        let k = step_len(a.len() as int);
        let ha = sha1_of(a.take(k));
        let hb = sha1_of(b.take(k));
        let hc = sha1_of(c.take(k));
        if ha == hb && hb == hc {
            lemma_content_cmp_trans(a.skip(k), b.skip(k), c.skip(k));
        } else if ha == hb {
            assert(bytes_cmp(ha, hc) == Ordering::Less);
        } else if hb == hc {
            assert(bytes_cmp(ha, hc) == Ordering::Less);
        } else {
            lemma_bytes_cmp_trans(ha, hb, hc);
            lemma_bytes_cmp_equal(ha, hc);
        }
    }
}

/// Taking `k` of a suffix is a subrange of the whole.
pub proof fn lemma_skip_take(a: Seq<u8>, pos: int, k: int)
    requires
        0 <= pos,
        0 <= k,
        pos + k <= a.len(),
    ensures
        a.skip(pos).take(k) == a.subrange(pos, pos + k),
{
    assert(a.skip(pos).take(k) =~= a.subrange(pos, pos + k));
}

/// Skipping twice is skipping once by the sum.
pub proof fn lemma_skip_skip(a: Seq<u8>, pos: int, k: int)
    requires
        0 <= pos,
        0 <= k,
        pos + k <= a.len(),
    ensures
        a.skip(pos).skip(k) == a.skip(pos + k),
{
    assert(a.skip(pos).skip(k) =~= a.skip(pos + k));
}

} // verus!
