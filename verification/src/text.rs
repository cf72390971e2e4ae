//! Dictionary order on strings, the order in which keyed entries are kept.

use vstd::prelude::*;

verus! {

broadcast use vstd::string::group_string_axioms;

/// How one string stands to another in dictionary order.
#[derive(Clone, Copy, Debug, PartialEq, Eq, Structural)]
pub enum Rank {
    /// The first comes before the second.
    Before,
    /// The two are the same string.
    Same,
    /// The first comes after the second.
    After,
}

/// `a` and `b` agree on their first `i` characters, and there `a` ends while
/// `b` goes on, or `a` goes on with the smaller character.
pub open spec fn parts_at(a: Seq<char>, b: Seq<char>, i: int) -> bool {
    &&& 0 <= i <= a.len()
    &&& i <= b.len()
    &&& forall|j: int| 0 <= j < i ==> a[j] == b[j]
    &&& if i == a.len() {
        i < b.len()
    } else {
        i < b.len() && (a[i] as int) < (b[i] as int)
    }
}

/// `a` comes strictly before `b` in dictionary order: characters are compared
/// by code point, and a proper prefix comes before what it is a prefix of.
pub open spec fn precedes(a: Seq<char>, b: Seq<char>) -> bool {
    exists|i: int| parts_at(a, b, i)
}

/// What `compare` answers for `a` and `b`.
pub open spec fn rank_of(a: Seq<char>, b: Seq<char>) -> Rank {
    if a == b {
        Rank::Same
    } else if precedes(a, b) {
        Rank::Before
    } else {
        Rank::After
    }
}

/// Two strings part at one place at most, and only one of them goes first
/// there.
proof fn lemma_parts_once(a: Seq<char>, b: Seq<char>, i: int, j: int)
    requires
        parts_at(a, b, i),
        parts_at(a, b, j) || parts_at(b, a, j),
    ensures
        i == j,
        !parts_at(b, a, j),
{
    if i < j {
        assert(a[i] == b[i]);
    } else if j < i {
        assert(a[j] == b[j]);
    }
}

/// No string comes before itself.
pub proof fn lemma_precedes_irreflexive(a: Seq<char>)
    ensures
        !precedes(a, a),
{
    if precedes(a, a) {
        let i = choose|i: int| parts_at(a, a, i);
        lemma_parts_once(a, a, i, i);
    }
}

/// Of two strings at most one comes before the other.
pub proof fn lemma_precedes_asymmetric(a: Seq<char>, b: Seq<char>)
    ensures
        !(precedes(a, b) && precedes(b, a)),
{
    if precedes(a, b) && precedes(b, a) {
        let i = choose|i: int| parts_at(a, b, i);
        let j = choose|j: int| parts_at(b, a, j);
        lemma_parts_once(a, b, i, j);
    }
}

/// The order is transitive.
pub proof fn lemma_precedes_transitive(a: Seq<char>, b: Seq<char>, c: Seq<char>)
    requires
        precedes(a, b),
        precedes(b, c),
    ensures
        precedes(a, c),
{
    let i = choose|i: int| parts_at(a, b, i);
    let j = choose|j: int| parts_at(b, c, j);
    let k = if i <= j { i } else { j };
    assert forall|n: int| 0 <= n < k implies a[n] == c[n] by {
        assert(a[n] == b[n]);
        assert(b[n] == c[n]);
    }
    if i < j {
        assert(b[i] == c[i]);
    } else if j < i {
        assert(a[j] == b[j]);
    }
    assert(parts_at(a, c, k));
}

/// Of two different strings one comes before the other.
pub proof fn lemma_precedes_total(a: Seq<char>, b: Seq<char>)
    ensures
        a == b || precedes(a, b) || precedes(b, a),
{
    if a != b {
        let n = common_prefix(a, b, 0);
        lemma_common_prefix(a, b, 0);
        if n == a.len() && n == b.len() {
            assert(a =~= b);
        } else if n == a.len() {
            assert(parts_at(a, b, n));
        } else if n == b.len() {
            assert(parts_at(b, a, n));
        } else if (a[n] as int) < (b[n] as int) {
            assert(parts_at(a, b, n));
        } else {
            assert(a[n] != b[n]);
            assert(parts_at(b, a, n));
        }
    }
}

/// What each rank says of the two strings.
pub proof fn lemma_rank(a: Seq<char>, b: Seq<char>)
    ensures
        rank_of(a, b) == Rank::Before <==> precedes(a, b),
        rank_of(a, b) == Rank::Same <==> a == b,
        rank_of(a, b) == Rank::After <==> precedes(b, a),
{
    lemma_precedes_total(a, b);
    lemma_precedes_asymmetric(a, b);
    lemma_precedes_irreflexive(a);
}

/// The first place from `from` on where `a` and `b` differ or one of them ends.
spec fn common_prefix(a: Seq<char>, b: Seq<char>, from: int) -> int
    decreases a.len() - from,
{
    if 0 <= from < a.len() && from < b.len() && a[from] == b[from] {
        common_prefix(a, b, from + 1)
    } else {
        from
    }
}

/// Up to that place the two strings agree, and there they differ if both go
/// on.
proof fn lemma_common_prefix(a: Seq<char>, b: Seq<char>, from: int)
    requires
        0 <= from <= a.len(),
        from <= b.len(),
        forall|j: int| 0 <= j < from ==> a[j] == b[j],
    ensures
        from <= common_prefix(a, b, from) <= a.len(),
        common_prefix(a, b, from) <= b.len(),
        forall|j: int| 0 <= j < common_prefix(a, b, from) ==> a[j] == b[j],
        common_prefix(a, b, from) < a.len() && common_prefix(a, b, from) < b.len() ==> a[common_prefix(
            a,
            b,
            from,
        )] != b[common_prefix(a, b, from)],
    decreases a.len() - from,
{
    if from < a.len() && from < b.len() && a[from] == b[from] {
        lemma_common_prefix(a, b, from + 1);
    }
}

/// Compares two strings in dictionary order.
pub fn compare(a: &str, b: &str) -> (rank: Rank)
    ensures
        rank == rank_of(a@, b@),
{
    let mut xs = a.chars();
    let mut ys = b.chars();
    let ghost mut i: int = 0;
    loop
        invariant
            0 <= i <= a@.len(),
            i <= b@.len(),
            vstd::std_specs::iter::IteratorSpec::remaining(&xs) == a@.subrange(i, a@.len() as int),
            vstd::std_specs::iter::IteratorSpec::remaining(&ys) == b@.subrange(i, b@.len() as int),
            forall|j: int| 0 <= j < i ==> a@[j] == b@[j],
        decreases a@.len() - i,
    {
        let x = xs.next();
        let y = ys.next();
        match (x, y) {
            (None, None) => {
                proof {
                    assert(a@ =~= b@);
                }
                return Rank::Same;
            },
            (None, Some(_)) => {
                proof {
                    assert(parts_at(a@, b@, i));
                }
                return Rank::Before;
            },
            (Some(_), None) => {
                proof {
                    assert(parts_at(b@, a@, i));
                    lemma_precedes_asymmetric(a@, b@);
                }
                return Rank::After;
            },
            (Some(c), Some(d)) => {
                assert(a@[i] == c && b@[i] == d);
                if c < d {
                    proof {
                        assert(parts_at(a@, b@, i));
                    }
                    return Rank::Before;
                } else if d < c {
                    proof {
                        assert(parts_at(b@, a@, i));
                        lemma_precedes_asymmetric(a@, b@);
                    }
                    return Rank::After;
                }
                proof {
                    assert(a@.subrange(i, a@.len() as int).drop_first() =~= a@.subrange(
                        i + 1,
                        a@.len() as int,
                    ));
                    assert(b@.subrange(i, b@.len() as int).drop_first() =~= b@.subrange(
                        i + 1,
                        b@.len() as int,
                    ));
                    i = i + 1;
                }
            },
        }
    }
}

} // verus!
