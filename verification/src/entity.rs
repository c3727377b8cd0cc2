//! One file's identity, metadata and comparison state, and the size-then-
//! content order on entities.

use crate::content::{
    content_cmp, judged_equal, lemma_skip_skip, lemma_skip_take, settled_len, spec_chunk, step_len,
};
use crate::digest::IncrementalDigest;
use crate::hashing::{bytes_cmp, cmp_bytes, lemma_bytes_cmp_equal, sha1_of};
use crate::CHUNK_SIZE;
use core::cmp::Ordering;
use vstd::prelude::*;

verus! {

/// What an entity stands for: a canonical path, a storage-device class, and
/// the file's byte content.
pub struct EntityView {
    pub path: Seq<char>,
    pub device_class: u64,
    pub content: Seq<u8>,
}

/// A single file: its canonical path, its device class, and its lazily grown
/// digest state. Path, size and device class never change after
/// construction; only digest coverage grows.
pub struct FileContent {
    path: String,
    device_class: u64,
    digest: IncrementalDigest,
}

impl View for FileContent {
    type V = EntityView;

    closed spec fn view(&self) -> EntityView {
        EntityView {
            path: self.path@,
            device_class: self.device_class,
            content: self.digest.data_seq(),
        }
    }
}

/// The size-then-content order on entities: a smaller file orders first;
/// between same-sized entities the same canonical path means the same file,
/// judged equal with no content work; otherwise the chunk-digest walk
/// decides.
pub open spec fn spec_compare(a: EntityView, b: EntityView) -> Ordering {
    if a.content.len() < b.content.len() {
        Ordering::Less
    } else if a.content.len() > b.content.len() {
        Ordering::Greater
    } else if a.path == b.path {
        Ordering::Equal
    } else {
        content_cmp(a.content, b.content)
    }
}

/// Two entities are duplicates when their contents are judged equal, they
/// live on the same device class, and they are not the same file.
pub open spec fn spec_is_duplicate(a: EntityView, b: EntityView) -> bool {
    &&& judged_equal(a.content, b.content)
    &&& a.device_class == b.device_class
    &&& a.path != b.path
}

impl FileContent {
    /// The digest invariant holds.
    pub closed spec fn wf(self) -> bool {
        self.digest.wf()
    }

    /// Leading bytes of the file folded into the digest so far.
    pub closed spec fn covered(self) -> int {
        self.digest.covered()
    }

    /// Builds an entity from its canonical path, its device class, and its
    /// content; no content byte is examined yet.
    pub fn new(path: String, device_class: u64, data: Vec<u8>) -> (r: Self)
        ensures
            r.wf(),
            r@.path == path@,
            r@.device_class == device_class,
            r@.content == data@,
            r.covered() == 0,
    {
        FileContent { path, device_class, digest: IncrementalDigest::new(data) }
    }

    /// The file's size in bytes, cached at construction.
    pub fn len(&self) -> (r: u64)
        ensures
            r == self@.content.len(),
    {
        self.digest.data_len() as u64
    }

    /// The canonical path.
    pub fn path(&self) -> (r: &String)
        ensures
            r@ == self@.path,
    {
        &self.path
    }

    /// The device class.
    pub fn device_class(&self) -> (r: u64)
        ensures
            r == self@.device_class,
    {
        self.device_class
    }

    /// Instrumentation: how many content bytes have ever been read for this
    /// entity. Never exceeds the file's length, however many comparisons the
    /// entity takes part in.
    pub fn bytes_read(&self) -> (r: usize)
        requires
            self.wf(),
        ensures
            r == self.covered(),
            r <= self@.content.len(),
    {
        proof {
            self.digest.lemma_covered_bounded();
        }
        self.digest.bytes_read()
    }
}

/// Decides the order of two entities' contents, reading as little as
/// possible: sizes first, then the identity fast path, then the lock-step
/// chunk-digest walk, which stops at the first diverging checkpoint and
/// extends each digest only as far as the decision requires.
pub fn compare(a: &mut FileContent, b: &mut FileContent) -> (r: Ordering)
    requires
        old(a).wf(),
        old(b).wf(),
    ensures
        final(a).wf(),
        final(b).wf(),
        final(a)@ == old(a)@,
        final(b)@ == old(b)@,
        r == spec_compare(old(a)@, old(b)@),
        old(a)@.content.len() != old(b)@.content.len()
            ==> *final(a) == *old(a) && *final(b) == *old(b),
        old(a)@.content.len() == old(b)@.content.len() && old(a)@.path == old(b)@.path
            ==> *final(a) == *old(a) && *final(b) == *old(b),
        old(a)@.content.len() == old(b)@.content.len() && old(a)@.path != old(b)@.path ==> ({
            let sl = settled_len(old(a)@.content, old(b)@.content);
            &&& final(a).covered() == if sl <= old(a).covered() {
                old(a).covered()
            } else {
                sl
            }
            &&& final(b).covered() == if sl <= old(b).covered() {
                old(b).covered()
            } else {
                sl
            }
        }),
        final(a).covered() >= old(a).covered(),
        final(b).covered() >= old(b).covered(),
        final(a).covered() <= old(a)@.content.len(),
        final(b).covered() <= old(b)@.content.len(),
{
    proof {
        a.digest.lemma_covered_bounded();
        b.digest.lemma_covered_bounded();
    }
    let la = a.len();
    let lb = b.len();
    if la < lb {
        return Ordering::Less;
    }
    if lb < la {
        return Ordering::Greater;
    }
    if a.path == b.path {
        return Ordering::Equal;
    }
    let len: usize = a.digest.data_len();
    let ghost ac = old(a)@.content;
    let ghost bc = old(b)@.content;
    let mut pos: usize = 0;
    let mut i: usize = 0;
    proof {
        assert(ac.skip(0) =~= ac);
        assert(bc.skip(0) =~= bc);
    }
    loop
        invariant
            a.wf(),
            b.wf(),
            a@ == old(a)@,
            b@ == old(b)@,
            ac == old(a)@.content,
            bc == old(b)@.content,
            len == ac.len(),
            len == bc.len(),
            old(a)@.path != old(b)@.path,
            pos <= len,
            pos == if i * CHUNK_SIZE <= len {
                i * CHUNK_SIZE
            } else {
                len as int
            },
            a.digest.spec_hashes().len() >= i,
            b.digest.spec_hashes().len() >= i,
            content_cmp(ac, bc) == content_cmp(ac.skip(pos as int), bc.skip(pos as int)),
            settled_len(ac, bc) == pos + settled_len(ac.skip(pos as int), bc.skip(pos as int)),
            a.covered() == if pos <= old(a).covered() {
                old(a).covered()
            } else {
                pos as int
            },
            b.covered() == if pos <= old(b).covered() {
                old(b).covered()
            } else {
                pos as int
            },
            old(a).covered() <= ac.len(),
            old(b).covered() <= bc.len(),
        decreases len - pos,
    {
        let ghost sa = ac.skip(pos as int);
        let ghost sb = bc.skip(pos as int);
        if pos == len {
            proof {
                assert(sa.len() == 0);
                assert(content_cmp(ac, bc) == Ordering::Equal);
                assert(settled_len(ac, bc) == pos);
            }
            return Ordering::Equal;
        }
        proof {
            assert(i * CHUNK_SIZE == pos);
            let k = step_len(len - pos);
            lemma_skip_take(ac, pos as int, k);
            lemma_skip_take(bc, pos as int, k);
            assert(sa.take(k) == spec_chunk(ac, i as int));
            assert(sb.take(k) == spec_chunk(bc, i as int));
        }
        let ha = a.digest.chunk_digest(i);
        let hb = b.digest.chunk_digest(i);
        let c = cmp_bytes(&ha, &hb);
        let is_eq = match c {
            Ordering::Equal => true,
            _ => false,
        };
        proof {
            lemma_bytes_cmp_equal(ha@, hb@);
        }
        if !is_eq {
            proof {
                let k = step_len(len - pos);
                assert(content_cmp(sa, sb) == bytes_cmp(ha@, hb@));
                assert(settled_len(sa, sb) == k);
                assert(settled_len(ac, bc) == pos + k);
            }
            return c;
        }
        proof {
            let k = step_len(len - pos);
            assert(sha1_of(sa.take(k)) == sha1_of(sb.take(k)));
            assert(content_cmp(sa, sb) == content_cmp(sa.skip(k), sb.skip(k)));
            assert(settled_len(sa, sb) == k + settled_len(sa.skip(k), sb.skip(k)));
            lemma_skip_skip(ac, pos as int, k);
            lemma_skip_skip(bc, pos as int, k);
        }
        i = i + 1;
        if len - pos > CHUNK_SIZE {
            pos = pos + CHUNK_SIZE;
        } else {
            pos = len;
        }
    }
}

/// Whether two entities are duplicates: contents judged equal, same device
/// class, different canonical paths. The device and identity checks run
/// before any content byte is read.
pub fn is_duplicate(a: &mut FileContent, b: &mut FileContent) -> (r: bool)
    requires
        old(a).wf(),
        old(b).wf(),
    ensures
        final(a).wf(),
        final(b).wf(),
        final(a)@ == old(a)@,
        final(b)@ == old(b)@,
        r == spec_is_duplicate(old(a)@, old(b)@),
        final(a).covered() >= old(a).covered(),
        final(b).covered() >= old(b).covered(),
        final(a).covered() <= old(a)@.content.len(),
        final(b).covered() <= old(b)@.content.len(),
        old(a)@.device_class != old(b)@.device_class
            ==> *final(a) == *old(a) && *final(b) == *old(b),
        old(a)@.path == old(b)@.path ==> *final(a) == *old(a) && *final(b) == *old(b),
{
    proof {
        a.digest.lemma_covered_bounded();
        b.digest.lemma_covered_bounded();
    }
    if a.device_class != b.device_class {
        return false;
    }
    if a.path == b.path {
        return false;
    }
    let c = compare(a, b);
    match c {
        Ordering::Equal => true,
        _ => false,
    }
}

} // verus!
