//! What holds of the changes between two maps: there is a list of them
//! whenever the maps are finite, and carried out one after the other they
//! turn the one map into the other.

use crate::keyed::{ascending, changes, due, patched, tells_apart};
use crate::patch::Patch;
use crate::text::{
    lemma_precedes_irreflexive, lemma_precedes_total, lemma_precedes_transitive, precedes,
};
use vstd::prelude::*;

verus! {

/// The place at which `x` has to stand among ascending keys that do not hold
/// it.
proof fn place_for(keys: Seq<Seq<char>>, x: Seq<char>) -> (i: int)
    requires
        ascending(keys),
        !keys.contains(x),
    ensures
        0 <= i <= keys.len(),
        forall|j: int| 0 <= j < i ==> precedes(#[trigger] keys[j], x),
        forall|j: int| i <= j < keys.len() ==> precedes(x, #[trigger] keys[j]),
    decreases keys.len(),
{
    if keys.len() == 0 {
        0
    } else {
        let last = keys.last();
        assert(keys.contains(last));
        lemma_precedes_total(last, x);
        if precedes(last, x) {
            assert forall|j: int| 0 <= j < keys.len() implies precedes(#[trigger] keys[j], x) by {
                if j < keys.len() - 1 {
                    lemma_precedes_transitive(keys[j], last, x);
                }
            }
            keys.len() as int
        } else {
            let front = keys.drop_last();
            assert forall|a: int, b: int| 0 <= a < b < front.len() implies precedes(
                #[trigger] front[a],
                #[trigger] front[b],
            ) by {
                assert(precedes(keys[a], keys[b]));
            }
            if front.contains(x) {
                let a = choose|a: int| 0 <= a < front.len() && front[a] == x;
                assert(keys[a] == x);
            }
            let i = place_for(front, x);
            assert forall|j: int| i <= j < keys.len() implies precedes(x, #[trigger] keys[j]) by {
                if j < keys.len() - 1 {
                    assert(precedes(x, front[j]));
                }
            }
            assert forall|j: int| 0 <= j < i implies precedes(#[trigger] keys[j], x) by {
                assert(precedes(front[j], x));
            }
            i
        }
    }
}

/// The keys of a finite set in ascending order.
proof fn in_order(set: Set<Seq<char>>) -> (keys: Seq<Seq<char>>)
    requires
        set.finite(),
    ensures
        ascending(keys),
        forall|k: Seq<char>| keys.contains(k) <==> set.contains(k),
    decreases set.len(),
{
    if set.len() == 0 {
        let keys = Seq::<Seq<char>>::empty();
        assert forall|k: Seq<char>| keys.contains(k) <==> set.contains(k) by {
            if set.contains(k) {
                assert(set.remove(k).len() + 1 == set.len());
            }
        }
        keys
    } else {
        let x = set.choose();
        let rest = in_order(set.remove(x));
        let i = place_for(rest, x);
        let keys = rest.insert(i, x);
        assert forall|a: int, b: int| 0 <= a < b < keys.len() implies precedes(
            #[trigger] keys[a],
            #[trigger] keys[b],
        ) by {
            let a0 = if a < i { a } else { a - 1 };
            let b0 = if b < i { b } else { b - 1 };
            if a == i {
                assert(precedes(x, rest[b0]));
            } else if b == i {
                assert(precedes(rest[a0], x));
            } else {
                assert(precedes(rest[a0], rest[b0]));
            }
        }
        assert forall|k: Seq<char>| keys.contains(k) <==> set.contains(k) by {
            if keys.contains(k) {
                let a = choose|a: int| 0 <= a < keys.len() && keys[a] == k;
                if a != i {
                    let a0 = if a < i { a } else { a - 1 };
                    assert(rest[a0] == k);
                    assert(rest.contains(k));
                }
            }
            if set.contains(k) {
                if k == x {
                    assert(keys[i] == k);
                } else {
                    assert(set.remove(x).contains(k));
                    assert(rest.contains(k));
                    let a = choose|a: int| 0 <= a < rest.len() && rest[a] == k;
                    let a1 = if a < i { a } else { a + 1 };
                    assert(keys[a1] == k);
                }
            }
        }
        keys
    }
}

/// Whether the two maps differ at `k`.
spec fn differ_at<V>(old: Map<Seq<char>, V>, new: Map<Seq<char>, V>, k: Seq<char>) -> bool {
    if old.contains_key(k) {
        !new.contains_key(k) || old[k] != new[k]
    } else {
        new.contains_key(k)
    }
}

/// The patch that is due at a key where the two maps differ.
spec fn patch_at<V>(old: Map<Seq<char>, V>, new: Map<Seq<char>, V>, k: Seq<char>) -> Patch<
    Seq<char>,
    V,
> {
    if !old.contains_key(k) {
        Patch::Add(k, new[k])
    } else if !new.contains_key(k) {
        Patch::Remove(k)
    } else {
        Patch::Replace(k, new[k])
    }
}

/// Two finite maps have a list of changes: one that holds exactly the patches
/// that are due, in key order.
pub proof fn lemma_changes_exist<V>(old: Map<Seq<char>, V>, new: Map<Seq<char>, V>)
    requires
        old.dom().finite(),
        new.dom().finite(),
    ensures
        tells_apart(changes(old, new), old, new),
{
    let both = old.dom().union(new.dom());
    let apart = both.filter(|k: Seq<char>| differ_at(old, new, k));
    vstd::set_lib::lemma_set_union_finite_iff(old.dom(), new.dom());
    both.lemma_len_filter(|k: Seq<char>| differ_at(old, new, k));
    let keys = in_order(apart);
    let patches = Seq::new(keys.len(), |i: int| patch_at(old, new, keys[i]));
    assert forall|i: int, j: int| 0 <= i < j < patches.len() implies precedes(
        #[trigger] patches[i].target(),
        #[trigger] patches[j].target(),
    ) by {
        assert(precedes(keys[i], keys[j]));
    }
    assert forall|p: Patch<Seq<char>, V>| #[trigger] patches.contains(p) <==> due(old, new, p) by {
        if patches.contains(p) {
            let i = choose|i: int| 0 <= i < patches.len() && patches[i] == p;
            assert(keys.contains(keys[i]));
            assert(apart.contains(keys[i]));
        }
        if due(old, new, p) {
            let k = p.target();
            assert(both.contains(k));
            assert(apart.contains(k));
            assert(keys.contains(k));
            let i = choose|i: int| 0 <= i < keys.len() && keys[i] == k;
            assert(patches[i] == p);
        }
    }
    assert(tells_apart(patches, old, new));
}

/// Whether one of the first `i` patches speaks of `k`.
pub open spec fn hit<V>(patches: Seq<Patch<Seq<char>, V>>, i: int, k: Seq<char>) -> bool {
    exists|j: int| 0 <= j < i && j < patches.len() && #[trigger] patches[j].target() == k
}

/// The map that is `new` at the keys that the first `i` patches speak of and
/// `old` at all others.
pub open spec fn mixed<V>(
    old: Map<Seq<char>, V>,
    new: Map<Seq<char>, V>,
    patches: Seq<Patch<Seq<char>, V>>,
    i: int,
) -> Map<Seq<char>, V> {
    Map::new(
        |k: Seq<char>|
            if hit(patches, i, k) {
                new.contains_key(k)
            } else {
                old.contains_key(k)
            },
        |k: Seq<char>|
            if hit(patches, i, k) {
                new[k]
            } else {
                old[k]
            },
    )
}

/// Before any patch the map is the old one, and after all of them the new
/// one.
pub proof fn lemma_mixed_ends<V>(
    old: Map<Seq<char>, V>,
    new: Map<Seq<char>, V>,
    patches: Seq<Patch<Seq<char>, V>>,
)
    requires
        tells_apart(patches, old, new),
    ensures
        mixed(old, new, patches, 0) == old,
        mixed(old, new, patches, patches.len() as int) == new,
{
    assert(mixed(old, new, patches, 0) =~= old);
    let last = mixed(old, new, patches, patches.len() as int);
    assert forall|k: Seq<char>|
        #[trigger] last.dom().contains(k) == new.dom().contains(k) && (new.dom().contains(k)
            ==> last[k] == new[k]) by {
        if !hit(patches, patches.len() as int, k) {
            if differ_at(old, new, k) {
                let p = patch_at(old, new, k);
                assert(due(old, new, p));
                assert(patches.contains(p));
                let j = choose|j: int| 0 <= j < patches.len() && patches[j] == p;
                assert(patches[j].target() == k);
            }
        }
    }
    assert(last =~= new);
}

/// Each patch of the list takes the map one step on; and where it speaks
/// of a key, the key is in the map before the step if and only if it is in
/// the old map.
pub proof fn lemma_mixed_step<V>(
    old: Map<Seq<char>, V>,
    new: Map<Seq<char>, V>,
    patches: Seq<Patch<Seq<char>, V>>,
    i: int,
)
    requires
        tells_apart(patches, old, new),
        0 <= i < patches.len(),
    ensures
        patched(mixed(old, new, patches, i), patches[i]) == mixed(old, new, patches, i + 1),
        due(old, new, patches[i]),
        mixed(old, new, patches, i).contains_key(patches[i].target()) == old.contains_key(
            patches[i].target(),
        ),
{
    let p = patches[i];
    let k = p.target();
    let before = mixed(old, new, patches, i);
    let after = mixed(old, new, patches, i + 1);
    assert(patches.contains(p));
    assert(!hit(patches, i, k)) by {
        if hit(patches, i, k) {
            let j = choose|j: int| 0 <= j < i && j < patches.len() && #[trigger] patches[j].target() == k;
            assert(precedes(patches[j].target(), patches[i].target()));
            lemma_precedes_irreflexive(k);
        }
    }
    assert(hit(patches, i + 1, k)) by {
        assert(patches[i].target() == k);
    }
    assert forall|x: Seq<char>| x != k implies hit(patches, i + 1, x) == hit(patches, i, x) by {
        if hit(patches, i + 1, x) {
            let j = choose|j: int|
                0 <= j < i + 1 && j < patches.len() && #[trigger] patches[j].target() == x;
            assert(j < i);
        }
        if hit(patches, i, x) {
            let j = choose|j: int| 0 <= j < i && j < patches.len() && #[trigger] patches[j].target() == x;
            assert(j < i + 1);
        }
    }
    assert(patched(before, p) =~= after);
}

} // verus!
