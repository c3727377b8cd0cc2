//! The laws of the duplicate relation and of grouping, proved once and for
//! all over entity views.

use crate::content::{
    lemma_content_cmp_flip, lemma_content_cmp_refl, lemma_content_cmp_trans,
    lemma_judged_equal_sym, lemma_judged_equal_trans,
};
use crate::entity::{spec_compare, spec_is_duplicate, EntityView};
use crate::grouping::{dup_pred, group_members, not_dup_pred, spec_group, DupeSetView};
use core::cmp::Ordering;
use vstd::multiset::Multiset;
use vstd::prelude::*;

verus! {

/// An entity is never its own duplicate.
pub proof fn lemma_self_exclusion(a: EntityView)
    ensures
        !spec_is_duplicate(a, a),
{
}

/// The duplicate relation is symmetric.
pub proof fn lemma_duplicate_symmetric(a: EntityView, b: EntityView)
    ensures
        spec_is_duplicate(a, b) == spec_is_duplicate(b, a),
{
    lemma_judged_equal_sym(a.content, b.content);
}

/// The duplicate relation is transitive across entities that are pairwise
/// distinct files: if `b` duplicates `a` and `c` duplicates `b`, and `a` and
/// `c` are not the same file, then `c` duplicates `a`. (All three share a
/// device class by hypothesis of the first two.)
pub proof fn lemma_duplicate_transitive(a: EntityView, b: EntityView, c: EntityView)
    requires
        spec_is_duplicate(a, b),
        spec_is_duplicate(b, c),
        a.path != c.path,
    ensures
        spec_is_duplicate(a, c),
{
    lemma_judged_equal_trans(a.content, b.content, c.content);
}

/// Entities on different device classes are never duplicates, whatever
/// their contents.
pub proof fn lemma_device_isolation(a: EntityView, b: EntityView)
    requires
        a.device_class != b.device_class,
    ensures
        !spec_is_duplicate(a, b),
{
}

/// A faithful copy is recognized: same bytes, same device class, different
/// file means duplicate.
pub proof fn lemma_copy_is_duplicate(a: EntityView, b: EntityView)
    requires
        a.content == b.content,
        a.device_class == b.device_class,
        a.path != b.path,
    ensures
        spec_is_duplicate(a, b),
{
    lemma_content_cmp_refl(a.content);
}

/// For distinct files, the duplicate judgment agrees with the ordering: they
/// are duplicates exactly when the order judges them equal and they share a
/// device class. (The same-path exclusion is the one deliberate departure,
/// which the hypothesis sets aside.)
pub proof fn lemma_duplicate_agrees_with_order(a: EntityView, b: EntityView)
    requires
        a.path != b.path,
    ensures
        spec_is_duplicate(a, b) == (spec_compare(a, b) == Ordering::Equal && a.device_class
            == b.device_class),
{
}

/// Swapping the operands of the entity order reverses the result: the
/// order behaves consistently from both sides.
pub proof fn lemma_order_flip(a: EntityView, b: EntityView)
    ensures
        spec_compare(b, a) == (match spec_compare(a, b) {
            Ordering::Less => Ordering::Greater,
            Ordering::Equal => Ordering::Equal,
            Ordering::Greater => Ordering::Less,
        }),
{
    if a.content.len() == b.content.len() && a.path != b.path {
        lemma_content_cmp_flip(a.content, b.content);
    }
}

/// The entity order is transitive across distinct files, so it can sort and
/// bucket entities.
pub proof fn lemma_order_transitive(a: EntityView, b: EntityView, c: EntityView)
    requires
        spec_compare(a, b) == Ordering::Less,
        spec_compare(b, c) == Ordering::Less,
        a.path != c.path,
    ensures
        spec_compare(a, c) == Ordering::Less,
{
    if a.content.len() == b.content.len() && b.content.len() == c.content.len() {
        lemma_content_cmp_trans(a.content, b.content, c.content);
    }
}

/// Filtering a sequence by a predicate and by its negation partitions it:
/// together the two halves hold exactly the original elements.
proof fn lemma_filter_partition(
    s: Seq<EntityView>,
    p: spec_fn(EntityView) -> bool,
    q: spec_fn(EntityView) -> bool,
)
    requires
        forall|x: EntityView| #[trigger] q(x) == !p(x),
    ensures
        s.filter(p).to_multiset().add(s.filter(q).to_multiset()) == s.to_multiset(),
    decreases s.len(),
{
    s.to_multiset_ensures();
    s.filter(p).to_multiset_ensures();
    s.filter(q).to_multiset_ensures();
    if s.len() == 0 {
        assert(s.filter(p) =~= Seq::<EntityView>::empty());
        assert(s.filter(q) =~= Seq::<EntityView>::empty());
        assert(s.filter(p).to_multiset().add(s.filter(q).to_multiset()) =~= s.to_multiset());
    } else {
        let s0 = s.drop_last();
        let x = s.last();
        lemma_filter_partition(s0, p, q);
        s0.lemma_filter_push(x, p);
        s0.lemma_filter_push(x, q);
        s0.to_multiset_ensures();
        s0.filter(p).to_multiset_ensures();
        s0.filter(q).to_multiset_ensures();
        assert(s0.push(x) =~= s);
        if p(x) {
            assert(s.filter(p) == s0.filter(p).push(x));
            assert(s.filter(q) == s0.filter(q));
            assert(s.filter(p).to_multiset().add(s.filter(q).to_multiset()) =~= s.to_multiset());
        } else {
            assert(s.filter(p) == s0.filter(p));
            assert(s.filter(q) == s0.filter(q).push(x));
            assert(s.filter(p).to_multiset().add(s.filter(q).to_multiset()) =~= s.to_multiset());
        }
    }
}

/// Nothing is lost and nothing is counted twice: the members of all the sets
/// that grouping yields, together with the leftover checks, are exactly the
/// checks that went in.
pub proof fn lemma_group_conserves_checks(origs: Seq<EntityView>, checks: Seq<EntityView>)
    ensures
        group_members(spec_group(origs, checks).0).add(spec_group(origs, checks).1.to_multiset())
            == checks.to_multiset(),
    decreases origs.len(),
{
    let g = spec_group(origs, checks);
    if origs.len() == 0 {
        assert(group_members(g.0) == Multiset::<EntityView>::empty());
        assert(group_members(g.0).add(g.1.to_multiset()) =~= checks.to_multiset());
    } else {
        let o = origs[0];
        let matching = checks.filter(dup_pred(o));
        let rest = checks.filter(not_dup_pred(o));
        let tail = spec_group(origs.drop_first(), rest);
        lemma_group_conserves_checks(origs.drop_first(), rest);
        lemma_filter_partition(checks, dup_pred(o), not_dup_pred(o));
        if matching.len() > 0 {
            let head = DupeSetView { original: o, dupes: matching };
            assert(g.0 == seq![head] + tail.0);
            assert((seq![head] + tail.0).drop_first() =~= tail.0);
            assert(group_members(g.0) == matching.to_multiset().add(group_members(tail.0)));
            assert(group_members(g.0).add(g.1.to_multiset()) =~= matching.to_multiset().add(
                group_members(tail.0).add(tail.1.to_multiset()),
            ));
            assert(group_members(g.0).add(g.1.to_multiset()) =~= checks.to_multiset());
        } else {
            matching.to_multiset_ensures();
            assert(matching.to_multiset().len() == 0);
            assert(group_members(g.0).add(g.1.to_multiset()) =~= checks.to_multiset());
        }
    }
}

/// Every set that grouping yields is populated, and each of its members is a
/// duplicate of its original.
pub proof fn lemma_group_members_are_duplicates(origs: Seq<EntityView>, checks: Seq<EntityView>)
    ensures
        forall|i: int|
            0 <= i < spec_group(origs, checks).0.len() ==> {
                let s = #[trigger] spec_group(origs, checks).0[i];
                s.dupes.len() > 0 && forall|j: int|
                    0 <= j < s.dupes.len() ==> spec_is_duplicate(s.original, #[trigger] s.dupes[j])
            },
    decreases origs.len(),
{
    let g = spec_group(origs, checks);
    if origs.len() == 0 {
        assert(g.0.len() == 0);
    } else {
        let o = origs[0];
        let matching = checks.filter(dup_pred(o));
        let rest = checks.filter(not_dup_pred(o));
        let tail = spec_group(origs.drop_first(), rest);
        lemma_group_members_are_duplicates(origs.drop_first(), rest);
        assert forall|j: int| 0 <= j < matching.len() implies spec_is_duplicate(
            o,
            #[trigger] matching[j],
        ) by {
            checks.lemma_filter_pred(dup_pred(o), j);
        }
        assert forall|i: int| 0 <= i < g.0.len() implies {
            let s = #[trigger] g.0[i];
            s.dupes.len() > 0 && forall|j: int|
                0 <= j < s.dupes.len() ==> spec_is_duplicate(s.original, #[trigger] s.dupes[j])
        } by {
            if matching.len() > 0 {
                if i == 0 {
                    assert(g.0[0] == DupeSetView { original: o, dupes: matching });
                } else {
                    assert(g.0[i] == tail.0[i - 1]);
                }
            } else {
                assert(g.0[i] == tail.0[i]);
            }
        }
    }
}

} // verus!
