//! The walk over two ascending key sequences that tells two collections
//! apart, and why the patches it makes are the ones that are due.

use crate::keyed::{
    ascending, due, in_key_order, lemma_ascending_places, lemma_key_order_unique, Keyed,
};
use crate::patch::Patch;
use crate::text::{lemma_precedes_asymmetric, lemma_precedes_irreflexive, lemma_precedes_transitive, precedes};
use vstd::prelude::*;

verus! {

/// `k` comes before the keys at places `i` and `j`, where there are such.
pub(crate) open spec fn behind(k: Seq<char>, ok: Seq<Seq<char>>, i: int, nk: Seq<Seq<char>>, j: int) -> bool {
    &&& i < ok.len() ==> precedes(k, ok[i])
    &&& j < nk.len() ==> precedes(k, nk[j])
}

/// One step of the walk over both key sequences, from places `i` and `j` to
/// `i2` and `j2`: past the smaller of the two keys there, or past both where
/// they are the same key.
pub(crate) open spec fn step(ok: Seq<Seq<char>>, nk: Seq<Seq<char>>, i: int, j: int, i2: int, j2: int) -> bool {
    ||| i2 == i + 1 && j2 == j && i < ok.len() && (j == nk.len() || (j < nk.len() && precedes(
        ok[i],
        nk[j],
    )))
    ||| i2 == i && j2 == j + 1 && j < nk.len() && (i == ok.len() || (i < ok.len() && precedes(
        nk[j],
        ok[i],
    )))
    ||| i2 == i + 1 && j2 == j + 1 && i < ok.len() && j < nk.len() && ok[i] == nk[j]
}

/// A key that lies behind the places before a step lies behind those after
/// it.
pub(crate) proof fn lemma_behind_step(
    k: Seq<char>,
    ok: Seq<Seq<char>>,
    nk: Seq<Seq<char>>,
    i: int,
    j: int,
    i2: int,
    j2: int,
)
    requires
        ascending(ok),
        ascending(nk),
        0 <= i,
        0 <= j,
        step(ok, nk, i, j, i2, j2),
        behind(k, ok, i, nk, j),
    ensures
        behind(k, ok, i2, nk, j2),
{
    if i2 < ok.len() && i2 == i + 1 {
        lemma_precedes_transitive(k, ok[i], ok[i2]);
    }
    if j2 < nk.len() && j2 == j + 1 {
        lemma_precedes_transitive(k, nk[j], nk[j2]);
    }
}

impl<V: View> Keyed<V> {
    /// What holds of the patches made so far when the old entries before
    /// place `i` and the new entries before place `j` have been dealt with.
    pub(crate) open spec fn merged(
        ok: Seq<Seq<char>>,
        ov: Seq<V::V>,
        nk: Seq<Seq<char>>,
        nv: Seq<V::V>,
        i: int,
        j: int,
        out: Seq<Patch<Seq<char>, V::V>>,
    ) -> bool {
        &&& ascending(ok)
        &&& ascending(nk)
        &&& ok.len() == ov.len()
        &&& nk.len() == nv.len()
        &&& 0 <= i <= ok.len()
        &&& 0 <= j <= nk.len()
        &&& in_key_order(out)
        &&& forall|m: int| 0 <= m < i ==> behind(#[trigger] ok[m], ok, i, nk, j)
        &&& forall|m: int| 0 <= m < j ==> behind(#[trigger] nk[m], ok, i, nk, j)
        &&& forall|p: Patch<Seq<char>, V::V>| #[trigger]
            out.contains(p) <==> due(Self::as_map(ok, ov), Self::as_map(nk, nv), p) && behind(
                p.target(),
                ok,
                i,
                nk,
                j,
            )
    }

    /// The patch that a step of the walk makes, if it makes one.
    pub(crate) open spec fn emitted(
        ok: Seq<Seq<char>>,
        ov: Seq<V::V>,
        nk: Seq<Seq<char>>,
        nv: Seq<V::V>,
        i: int,
        j: int,
        i2: int,
        j2: int,
    ) -> Option<Patch<Seq<char>, V::V>> {
        if i2 == i + 1 && j2 == j {
            Some(Patch::Remove(ok[i]))
        } else if i2 == i && j2 == j + 1 {
            Some(Patch::Add(nk[j], nv[j]))
        } else if ov[i] == nv[j] {
            None
        } else {
            Some(Patch::Replace(nk[j], nv[j]))
        }
    }

    /// A key that is due a patch and lies behind the places after a step, but
    /// not behind those before it, is the key that the step went past.
    pub(crate) proof fn lemma_front(
        ok: Seq<Seq<char>>,
        ov: Seq<V::V>,
        nk: Seq<Seq<char>>,
        nv: Seq<V::V>,
        i: int,
        j: int,
        out: Seq<Patch<Seq<char>, V::V>>,
        i2: int,
        j2: int,
        p: Patch<Seq<char>, V::V>,
    )
        requires
            Self::merged(ok, ov, nk, nv, i, j, out),
            step(ok, nk, i, j, i2, j2),
            due(Self::as_map(ok, ov), Self::as_map(nk, nv), p),
            behind(p.target(), ok, i2, nk, j2),
            !behind(p.target(), ok, i, nk, j),
        ensures
            Self::as_map(ok, ov).contains_key(p.target()) <==> i2 == i + 1,
            Self::as_map(nk, nv).contains_key(p.target()) <==> j2 == j + 1,
            i2 == i + 1 ==> p.target() == ok[i],
            j2 == j + 1 ==> p.target() == nk[j],
    {
        let t = p.target();
        let om = Self::as_map(ok, ov);
        let nm = Self::as_map(nk, nv);
        Self::lemma_as_map(ok, ov);
        Self::lemma_as_map(nk, nv);
        lemma_precedes_irreflexive(t);
        if om.contains_key(t) {
            let m = ok.index_of(t);
            if m < i {
                assert(behind(ok[m], ok, i, nk, j));
                assert(false);
            }
            if i2 < ok.len() {
                lemma_ascending_places(ok, m, i2);
            }
            if i2 == i {
                // the step went past a new key that comes before `ok[i]`
                lemma_ascending_places(ok, i, m);
                if i < m {
                    lemma_precedes_transitive(nk[j], ok[i], t);
                }
                lemma_precedes_asymmetric(nk[j], t);
                assert(false);
            }
            assert(m == i);
        }
        if nm.contains_key(t) {
            let m = nk.index_of(t);
            if m < j {
                assert(behind(nk[m], ok, i, nk, j));
                assert(false);
            }
            if j2 < nk.len() {
                lemma_ascending_places(nk, m, j2);
            }
            if j2 == j {
                lemma_ascending_places(nk, j, m);
                if j < m {
                    lemma_precedes_transitive(ok[i], nk[j], t);
                }
                lemma_precedes_asymmetric(ok[i], t);
                assert(false);
            }
            assert(m == j);
        }
    }

    /// After a step the patches made hold of the places reached.
    pub(crate) proof fn lemma_step(
        ok: Seq<Seq<char>>,
        ov: Seq<V::V>,
        nk: Seq<Seq<char>>,
        nv: Seq<V::V>,
        i: int,
        j: int,
        out: Seq<Patch<Seq<char>, V::V>>,
        i2: int,
        j2: int,
        out2: Seq<Patch<Seq<char>, V::V>>,
    )
        requires
            Self::merged(ok, ov, nk, nv, i, j, out),
            step(ok, nk, i, j, i2, j2),
            out2 == match Self::emitted(ok, ov, nk, nv, i, j, i2, j2) {
                Some(p) => out.push(p),
                None => out,
            },
        ensures
            Self::merged(ok, ov, nk, nv, i2, j2, out2),
    {
        let om = Self::as_map(ok, ov);
        let nm = Self::as_map(nk, nv);
        let made = Self::emitted(ok, ov, nk, nv, i, j, i2, j2);
        let x = if i2 == i + 1 { ok[i] } else { nk[j] };
        Self::lemma_as_map(ok, ov);
        Self::lemma_as_map(nk, nv);
        lemma_precedes_irreflexive(x);
        // the key that the step went past lies behind the places reached
        assert(behind(x, ok, i2, nk, j2));
        assert forall|m: int| 0 <= m < i2 implies behind(#[trigger] ok[m], ok, i2, nk, j2) by {
            if m < i {
                lemma_behind_step(ok[m], ok, nk, i, j, i2, j2);
            }
        }
        assert forall|m: int| 0 <= m < j2 implies behind(#[trigger] nk[m], ok, i2, nk, j2) by {
            if m < j {
                lemma_behind_step(nk[m], ok, nk, i, j, i2, j2);
            }
        }
        // it is in the old map, the new map, or both, as the step says
        if i2 == i {
            assert(!om.contains_key(x)) by {
                if om.contains_key(x) {
                    let m = ok.index_of(x);
                    if m < i {
                        assert(behind(ok[m], ok, i, nk, j));
                    } else {
                        lemma_ascending_places(ok, i, m);
                        if i < m {
                            lemma_precedes_transitive(x, ok[i], ok[m]);
                        }
                    }
                }
            }
        }
        if j2 == j {
            assert(!nm.contains_key(x)) by {
                if nm.contains_key(x) {
                    let m = nk.index_of(x);
                    if m < j {
                        assert(behind(nk[m], ok, i, nk, j));
                    } else {
                        lemma_ascending_places(nk, j, m);
                        if j < m {
                            lemma_precedes_transitive(x, nk[j], nk[m]);
                        }
                    }
                }
            }
        }
        assert(in_key_order(out2)) by {
            assert forall|a: int, b: int| 0 <= a < b < out2.len() implies precedes(
                #[trigger] out2[a].target(),
                #[trigger] out2[b].target(),
            ) by {
                if b == out.len() {
                    assert(out.contains(out[a]));
                    assert(out2[b].target() == x);
                } else {
                    assert(precedes(out[a].target(), out[b].target()));
                }
            }
        }
        assert forall|p: Patch<Seq<char>, V::V>| #[trigger]
            out2.contains(p) <==> due(om, nm, p) && behind(p.target(), ok, i2, nk, j2) by {
            if out2.contains(p) {
                let a = choose|a: int| 0 <= a < out2.len() && out2[a] == p;
                if a < out.len() {
                    assert(out.contains(p));
                    lemma_behind_step(p.target(), ok, nk, i, j, i2, j2);
                } else {
                    assert(made == Some(p));
                }
            }
            if due(om, nm, p) && behind(p.target(), ok, i2, nk, j2) {
                if behind(p.target(), ok, i, nk, j) {
                    assert(out.contains(p));
                    let a = choose|a: int| 0 <= a < out.len() && out[a] == p;
                    assert(out2[a] == p);
                } else {
                    Self::lemma_front(ok, ov, nk, nv, i, j, out, i2, j2, p);
                    assert(made == Some(p));
                    assert(out2[out.len() as int] == p);
                }
            }
        }
    }
}

impl<V: View> Keyed<V> {
    /// Before the walk, with no patch made, nothing due lies behind the first
    /// places.
    pub(crate) proof fn lemma_start(ok: Seq<Seq<char>>, ov: Seq<V::V>, nk: Seq<Seq<char>>, nv: Seq<V::V>)
        requires
            ascending(ok),
            ascending(nk),
            ok.len() == ov.len(),
            nk.len() == nv.len(),
        ensures
            Self::merged(ok, ov, nk, nv, 0, 0, Seq::empty()),
    {
        let om = Self::as_map(ok, ov);
        let nm = Self::as_map(nk, nv);
        let out = Seq::<Patch<Seq<char>, V::V>>::empty();
        Self::lemma_as_map(ok, ov);
        Self::lemma_as_map(nk, nv);
        assert forall|p: Patch<Seq<char>, V::V>| #[trigger]
            out.contains(p) <==> due(om, nm, p) && behind(p.target(), ok, 0, nk, 0) by {
            let t = p.target();
            lemma_precedes_irreflexive(t);
            if due(om, nm, p) && behind(t, ok, 0, nk, 0) {
                if om.contains_key(t) {
                    lemma_ascending_places(ok, 0, ok.index_of(t));
                    lemma_precedes_asymmetric(t, ok[0]);
                } else {
                    lemma_ascending_places(nk, 0, nk.index_of(t));
                    lemma_precedes_asymmetric(t, nk[0]);
                }
            }
        }
    }

    /// Two collections with the same entries hold them at the same places.
    pub(crate) proof fn lemma_one_order(
        ok: Seq<Seq<char>>,
        ov: Seq<V::V>,
        nk: Seq<Seq<char>>,
        nv: Seq<V::V>,
    )
        requires
            ascending(ok),
            ascending(nk),
            ok.len() == ov.len(),
            nk.len() == nv.len(),
            Self::as_map(ok, ov) == Self::as_map(nk, nv),
        ensures
            ok == nk,
            ov == nv,
    {
        let s = Seq::new(ok.len(), |i: int| Patch::Add(ok[i], ov[i]));
        let t = Seq::new(nk.len(), |i: int| Patch::Add(nk[i], nv[i]));
        Self::lemma_as_map(ok, ov);
        Self::lemma_as_map(nk, nv);
        assert forall|p: Patch<Seq<char>, V::V>| s.contains(p) <==> t.contains(p) by {
            if s.contains(p) {
                let a = choose|a: int| 0 <= a < s.len() && s[a] == p;
                let b = nk.index_of(ok[a]);
                assert(t[b] == p);
            }
            if t.contains(p) {
                let a = choose|a: int| 0 <= a < t.len() && t[a] == p;
                let b = ok.index_of(nk[a]);
                assert(s[b] == p);
            }
        }
        assert(in_key_order(s)) by {
            assert forall|i: int, j: int| 0 <= i < j < s.len() implies precedes(
                #[trigger] s[i].target(),
                #[trigger] s[j].target(),
            ) by {
                assert(precedes(ok[i], ok[j]));
            }
        }
        assert(in_key_order(t)) by {
            assert forall|i: int, j: int| 0 <= i < j < t.len() implies precedes(
                #[trigger] t[i].target(),
                #[trigger] t[j].target(),
            ) by {
                assert(precedes(nk[i], nk[j]));
            }
        }
        lemma_key_order_unique(s, t);
        assert forall|i: int| 0 <= i < ok.len() implies #[trigger] ok[i] == nk[i] by {
            assert(s[i] == t[i]);
        }
        assert forall|i: int| 0 <= i < ov.len() implies #[trigger] ov[i] == nv[i] by {
            assert(s[i] == t[i]);
        }
        assert(ok =~= nk);
        assert(ov =~= nv);
    }
}

} // verus!
