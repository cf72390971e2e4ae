//! One render pass: comparing and carrying out in one.

use crate::applier::{carry_out, run, step, ApplyError};
use crate::differ::{diff, tree_patches, tree_views, DiffError, TreePatch, TreePatchView};
use crate::grafting::lemma_run_both;
use crate::laws::law_patches_reach;
use crate::subscriptions::{enact, ended, started, subscription_views, Effect};
use crate::surface::{lemma_shown_well_formed, Surface};
use crate::vnode::NodeView;
use vstd::prelude::*;

verus! {

/// One render pass: compares what the surface shows with what `next` shows
/// and carries out the patches on the surface. Hands back the patches that
/// were carried out. Nothing is done if the two hang from different backend
/// elements.
pub fn render(surface: &mut Surface, next: &Surface) -> (result: Result<Vec<TreePatch>, DiffError>)
    ensures
        match result {
            Ok(patches) => {
                &&& final(surface)@ == next@
                &&& old(surface)@.root == next@.root
                &&& tree_views(patches@) == tree_patches(old(surface)@.tree, next@.tree)
            },
            Err(e) => {
                &&& final(surface)@ == old(surface)@
                &&& old(surface)@.root != next@.root
                &&& e == (DiffError::RootMismatch { prev: old(surface)@.root, next: next@.root })
            },
        },
{
    let patches = diff(surface, next)?;
    proof {
        lemma_shown_well_formed(*surface);
        lemma_shown_well_formed(*next);
        law_patches_reach(surface@.tree, next@.tree);
    }
    let carried = carry_out(&patches, surface);
    // The patches between two trees always go through.
    assert(carried is Ok);
    Ok(patches)
}

/// What is shown when the first `i` patches of a list have been carried out
/// on a surface that showed `tree`.
pub open spec fn shown_after(tree: Option<NodeView>, patches: Seq<TreePatchView>, i: int) -> Option<
    NodeView,
> {
    run(tree, patches.take(i), 0).tree
}

/// A render pass with what it meant for the listeners.
#[derive(Debug, PartialEq, Eq)]
pub struct Rendered {
    /// The patches that were carried out, in their order.
    pub patches: Vec<TreePatch>,
    /// For each patch, at its place, the subscriptions it ended and started.
    pub effects: Vec<Effect>,
}

/// One more patch carried out after the first `i`.
proof fn lemma_shown_next(tree: Option<NodeView>, patches: Seq<TreePatchView>, i: int)
    requires
        0 <= i < patches.len(),
        run(tree, patches.take(i), 0).failure is None,
        step(shown_after(tree, patches, i), patches[i]) is Ok,
    ensures
        run(tree, patches.take(i + 1), 0).failure is None,
        Ok::<_, ApplyError>(shown_after(tree, patches, i + 1)) == step(
            shown_after(tree, patches, i),
            patches[i],
        ),
{
    let one = seq![patches[i]];
    reveal_with_fuel(run, 2);
    assert(patches.take(i + 1) =~= patches.take(i) + one);
    lemma_run_both(tree, patches.take(i), one, 0);
}

/// One render pass that tells what it means for the listeners: compares what
/// the surface shows with what `next` shows, carries out the patches on the
/// surface one by one, and hands them back, each with the subscriptions that
/// it ended on what was shown just before it, and those that it started.
/// Nothing is done if the two hang from different backend elements.
pub fn render_with_effects(surface: &mut Surface, next: &Surface) -> (result: Result<
    Rendered,
    DiffError,
>)
    ensures
        match result {
            Ok(done) => {
                &&& final(surface)@ == next@
                &&& old(surface)@.root == next@.root
                &&& tree_views(done.patches@) == tree_patches(old(surface)@.tree, next@.tree)
                &&& done.effects@.len() == done.patches@.len()
                &&& forall|i: int|
                    0 <= i < done.effects@.len() ==> {
                        &&& subscription_views(#[trigger] done.effects@[i].ended@) == ended(
                            shown_after(old(surface)@.tree, tree_views(done.patches@), i),
                            done.patches@[i]@,
                        )
                        &&& subscription_views(done.effects@[i].started@) == started(
                            done.patches@[i]@,
                        )
                    }
            },
            Err(e) => {
                &&& final(surface)@ == old(surface)@
                &&& old(surface)@.root != next@.root
                &&& e == (DiffError::RootMismatch { prev: old(surface)@.root, next: next@.root })
            },
        },
{
    let patches = diff(surface, next)?;
    let ghost start = surface@.tree;
    let ghost views = tree_views(patches@);
    proof {
        lemma_shown_well_formed(*surface);
        lemma_shown_well_formed(*next);
        law_patches_reach(start, next@.tree);
        assert(views.take(0) =~= Seq::<TreePatchView>::empty());
    }
    let mut effects: Vec<Effect> = Vec::new();
    let mut i: usize = 0;
    while i < patches.len()
        invariant
            i <= patches@.len(),
            views == tree_views(patches@),
            surface@.root == next@.root,
            run(start, views, 0).failure is None,
            run(start, views, 0).tree == next@.tree,
            run(surface@.tree, views, i as int) == run(start, views, 0),
            run(start, views.take(i as int), 0).failure is None,
            surface@.tree == shown_after(start, views, i as int),
            effects@.len() == i,
            forall|j: int|
                0 <= j < i ==> {
                    &&& subscription_views(#[trigger] effects@[j].ended@) == ended(
                        shown_after(start, views, j),
                        patches@[j]@,
                    )
                    &&& subscription_views(effects@[j].started@) == started(patches@[j]@)
                },
        decreases patches@.len() - i,
    {
        proof {
            assert(views[i as int] == patches@[i as int]@);
        }
        match enact(surface, &patches[i]) {
            Ok(effect) => {
                proof {
                    lemma_shown_next(start, views, i as int);
                }
                effects.push(effect);
            },
            Err(_) => {
                // The patches between two trees always go through.
                assert(false);
            },
        }
        i += 1;
    }
    Ok(Rendered { patches, effects })
}

} // verus!
