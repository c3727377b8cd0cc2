//! Partitioning candidate entities into duplicate sets.

use crate::entity::{is_duplicate, spec_is_duplicate, EntityView, FileContent};
use vstd::multiset::Multiset;
use vstd::prelude::*;

verus! {

/// One duplicate class: a designated original and the candidates judged to
/// be its duplicates. Read-only once produced.
pub struct DupeSet {
    pub original: FileContent,
    pub dupes: Vec<FileContent>,
}

/// What a duplicate set stands for.
pub struct DupeSetView {
    pub original: EntityView,
    pub dupes: Seq<EntityView>,
}

impl View for DupeSet {
    type V = DupeSetView;

    open spec fn view(&self) -> DupeSetView {
        DupeSetView {
            original: self.original@,
            dupes: self.dupes@.map_values(|d: FileContent| d@),
        }
    }
}

impl DupeSet {
    pub open spec fn wf(self) -> bool {
        &&& self.original.wf()
        &&& forall|i: int| 0 <= i < self.dupes@.len() ==> (#[trigger] self.dupes@[i]).wf()
    }
}

/// The views of a sequence of entities.
pub open spec fn entity_views(s: Seq<FileContent>) -> Seq<EntityView> {
    s.map_values(|e: FileContent| e@)
}

/// The views of a sequence of duplicate sets.
pub open spec fn set_views(s: Seq<DupeSet>) -> Seq<DupeSetView> {
    s.map_values(|d: DupeSet| d@)
}

/// The entities judged duplicates of `o`.
pub open spec fn dup_pred(o: EntityView) -> spec_fn(EntityView) -> bool {
    |c: EntityView| spec_is_duplicate(o, c)
}

/// The entities judged no duplicates of `o`.
pub open spec fn not_dup_pred(o: EntityView) -> spec_fn(EntityView) -> bool {
    |c: EntityView| !spec_is_duplicate(o, c)
}

/// What grouping computes: originals are taken in order; each drains from
/// the remaining checks exactly those judged its duplicates (in order), and
/// yields a set when it drained at least one; the checks never drained are
/// left over.
pub open spec fn spec_group(origs: Seq<EntityView>, checks: Seq<EntityView>) -> (Seq<DupeSetView>,
    Seq<EntityView>)
    decreases origs.len(),
{
    if origs.len() == 0 {
        (Seq::<DupeSetView>::empty(), checks)
    } else {
        let o = origs[0];
        let matching = checks.filter(dup_pred(o));
        let rest = checks.filter(not_dup_pred(o));
        let tail = spec_group(origs.drop_first(), rest);
        if matching.len() > 0 {
            (seq![DupeSetView { original: o, dupes: matching }] + tail.0, tail.1)
        } else {
            tail
        }
    }
}

/// All member entities drained into a sequence of duplicate sets, as a
/// multiset (order across sets does not matter for accounting).
pub open spec fn group_members(sets: Seq<DupeSetView>) -> Multiset<EntityView>
    decreases sets.len(),
{
    if sets.len() == 0 {
        Multiset::<EntityView>::empty()
    } else {
        sets[0].dupes.to_multiset().add(group_members(sets.drop_first()))
    }
}

/// Drains from `checks` every entity judged a duplicate of `orig`,
/// preserving order; returns the drained entities.
fn drain_matches(orig: &mut FileContent, checks: &mut Vec<FileContent>) -> (matching: Vec<
    FileContent,
>)
    requires
        old(orig).wf(),
        forall|i: int| 0 <= i < old(checks)@.len() ==> (#[trigger] old(checks)@[i]).wf(),
    ensures
        final(orig).wf(),
        final(orig)@ == old(orig)@,
        forall|i: int| 0 <= i < matching@.len() ==> (#[trigger] matching@[i]).wf(),
        forall|i: int| 0 <= i < final(checks)@.len() ==> (#[trigger] final(checks)@[i]).wf(),
        entity_views(matching@) == entity_views(old(checks)@).filter(dup_pred(old(orig)@)),
        entity_views(final(checks)@) == entity_views(old(checks)@).filter(not_dup_pred(old(orig)@)),
{
    let ghost all = entity_views(old(checks)@);
    let ghost pred = dup_pred(old(orig)@);
    let ghost npred = not_dup_pred(old(orig)@);
    let ghost mut processed: Seq<EntityView> = Seq::empty();
    let mut matching: Vec<FileContent> = Vec::new();
    let mut rest: Vec<FileContent> = Vec::new();
    proof {
        assert(processed + entity_views(checks@) =~= all);
        assert(entity_views(matching@) =~= processed.filter(pred));
        assert(entity_views(rest@) =~= processed.filter(npred));
    }
    while checks.len() > 0
        invariant
            orig.wf(),
            orig@ == old(orig)@,
            pred == dup_pred(old(orig)@),
            npred == not_dup_pred(old(orig)@),
            forall|i: int| 0 <= i < checks@.len() ==> (#[trigger] checks@[i]).wf(),
            forall|i: int| 0 <= i < matching@.len() ==> (#[trigger] matching@[i]).wf(),
            forall|i: int| 0 <= i < rest@.len() ==> (#[trigger] rest@[i]).wf(),
            processed + entity_views(checks@) == all,
            entity_views(matching@) == processed.filter(pred),
            entity_views(rest@) == processed.filter(npred),
        decreases checks@.len(),
    {
        let ghost checks_pre = checks@;
        let mut c = checks.remove(0);
        proof {
            assert(entity_views(checks@) =~= entity_views(checks_pre).drop_first());
            assert(processed.push(c@) + entity_views(checks@) =~= all);
        }
        let d = is_duplicate(orig, &mut c);
        proof {
            processed.lemma_filter_push(c@, pred);
            processed.lemma_filter_push(c@, npred);
        }
        let ghost matching_pre = matching@;
        let ghost rest_pre = rest@;
        if d {
            matching.push(c);
            proof {
                assert(entity_views(matching@) =~= entity_views(matching_pre).push(
                    processed.push(c@).last(),
                ));
            }
        } else {
            rest.push(c);
            proof {
                assert(entity_views(rest@) =~= entity_views(rest_pre).push(
                    processed.push(c@).last(),
                ));
            }
        }
        proof {
            processed = processed.push(c@);
        }
    }
    proof {
        assert(processed =~= all);
    }
    *checks = rest;
    matching
}

/// Groups the originals against the checks: each original, in order, drains
/// from the remaining checks every entity judged its duplicate; originals
/// that drained at least one yield a `DupeSet`. The checks left behind are
/// those judged no original's duplicate.
///
/// The pairwise drain costs one comparator invocation per original/check
/// pair in the worst case; the size, device and identity fast paths keep
/// rejections cheap, and digest memoization keeps content work linear in
/// the bytes read. Bucketing by the size-then-content order could cut the
/// invocation count to near-linearithmic at the cost of a less direct
/// contract; the drain keeps the drained order deterministic.
pub fn check_duplicates(origs: Vec<FileContent>, checks: &mut Vec<FileContent>) -> (r: Vec<DupeSet>)
    requires
        forall|i: int| 0 <= i < origs@.len() ==> (#[trigger] origs@[i]).wf(),
        forall|i: int| 0 <= i < old(checks)@.len() ==> (#[trigger] old(checks)@[i]).wf(),
    ensures
        forall|i: int| 0 <= i < r@.len() ==> (#[trigger] r@[i]).wf(),
        forall|i: int| 0 <= i < final(checks)@.len() ==> (#[trigger] final(checks)@[i]).wf(),
        set_views(r@) == spec_group(entity_views(origs@), entity_views(old(checks)@)).0,
        entity_views(final(checks)@) == spec_group(
            entity_views(origs@),
            entity_views(old(checks)@),
        ).1,
{
    let ghost goal = spec_group(entity_views(origs@), entity_views(old(checks)@));
    let mut pending = origs;
    let mut sets: Vec<DupeSet> = Vec::new();
    proof {
        assert(set_views(sets@) + goal.0 =~= goal.0);
    }
    while pending.len() > 0
        invariant
            forall|i: int| 0 <= i < pending@.len() ==> (#[trigger] pending@[i]).wf(),
            forall|i: int| 0 <= i < checks@.len() ==> (#[trigger] checks@[i]).wf(),
            forall|i: int| 0 <= i < sets@.len() ==> (#[trigger] sets@[i]).wf(),
            goal.0 == set_views(sets@) + spec_group(
                entity_views(pending@),
                entity_views(checks@),
            ).0,
            goal.1 == spec_group(entity_views(pending@), entity_views(checks@)).1,
        decreases pending@.len(),
    {
        let ghost pending_pre = pending@;
        let ghost checks_pre = checks@;
        let mut o = pending.remove(0);
        proof {
            assert(entity_views(pending@) =~= entity_views(pending_pre).drop_first());
            assert(o@ == entity_views(pending_pre)[0]);
        }
        let matching = drain_matches(&mut o, checks);
        let ghost sets_pre = sets@;
        if matching.len() > 0 {
            let set = DupeSet { original: o, dupes: matching };
            proof {
                assert(set.wf());
            }
            sets.push(set);
            proof {
                assert(set_views(sets@) =~= set_views(sets_pre).push(set@));
                assert(set@ == (DupeSetView {
                    original: entity_views(pending_pre)[0],
                    dupes: entity_views(checks_pre).filter(
                        dup_pred(entity_views(pending_pre)[0]),
                    ),
                }));
                assert(set_views(sets_pre).push(set@) =~= set_views(sets_pre) + seq![set@]);
                assert(set_views(sets_pre) + (seq![set@] + spec_group(
                    entity_views(pending@),
                    entity_views(checks@),
                ).0) =~= (set_views(sets_pre) + seq![set@]) + spec_group(
                    entity_views(pending@),
                    entity_views(checks@),
                ).0);
            }
        }
    }
    proof {
        assert(entity_views(pending@).len() == 0);
        assert(set_views(sets@) + Seq::<DupeSetView>::empty() =~= set_views(sets@));
    }
    sets
}

} // verus!
