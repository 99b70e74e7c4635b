use vstd::prelude::*;

verus! {

/// The elements are strictly increasing.
pub open spec fn sorted_strict(s: Seq<u64>) -> bool {
    forall|p: int, q: int| 0 <= p < q < s.len() ==> s[p] < s[q]
}

/// Index of the first element that is `>= key`; the length when every
/// element lies below `key`.
pub open spec fn first_geq(s: Seq<u64>, key: u64) -> int
    decreases s.len(),
{
    if s.len() == 0 {
        0
    } else if s[0] >= key {
        0
    } else {
        1 + first_geq(s.drop_first(), key)
    }
}

pub proof fn lemma_first_geq_bounds(s: Seq<u64>, key: u64)
    ensures
        0 <= first_geq(s, key) <= s.len(),
        forall|i: int| 0 <= i < first_geq(s, key) ==> s[i] < key,
        first_geq(s, key) < s.len() ==> s[first_geq(s, key)] >= key,
    decreases s.len(),
{
    if s.len() > 0 && s[0] < key {
        let fg = first_geq(s, key);
        lemma_first_geq_bounds(s.drop_first(), key);
        assert forall|i: int| 0 <= i < fg implies s[i] < key by {
            if i > 0 {
                assert(s.drop_first()[i - 1] == s[i]);
            }
        };
        if fg < s.len() {
            assert(s.drop_first()[fg - 1] == s[fg]);
        }
    }
}

/// In a sorted sequence, everything from the boundary position on is `>= key`.
pub proof fn lemma_first_geq_sorted(s: Seq<u64>, key: u64)
    requires
        sorted_strict(s),
    ensures
        forall|i: int| first_geq(s, key) <= i < s.len() ==> s[i] >= key,
{
    lemma_first_geq_bounds(s, key);
    let fg = first_geq(s, key);
    assert forall|i: int| fg <= i < s.len() implies s[i] >= key by {
        if i > fg {
            assert(s[fg] < s[i]);
        }
    };
}

/// The boundary position is the unique index with everything below it under
/// `key` and (if it exists) the element at it `>= key`.
pub proof fn lemma_first_geq_is(s: Seq<u64>, key: u64, j: int)
    requires
        0 <= j <= s.len(),
        forall|i: int| 0 <= i < j ==> s[i] < key,
        j < s.len() ==> s[j] >= key,
    ensures
        first_geq(s, key) == j,
{
    lemma_first_geq_bounds(s, key);
    let fg = first_geq(s, key);
    if fg < j {
        assert(s[fg] < key);
        assert(s[fg] >= key);
    }
    if fg > j {
        assert(s[j] < key);
        assert(s[j] >= key);
    }
}

/// A sorted sequence holds `key` exactly when the boundary position holds it.
pub proof fn lemma_first_geq_contains(s: Seq<u64>, key: u64)
    requires
        sorted_strict(s),
    ensures
        s.contains(key) <==> (first_geq(s, key) < s.len() && s[first_geq(s, key)] == key),
{
    lemma_first_geq_bounds(s, key);
    lemma_first_geq_sorted(s, key);
    let fg = first_geq(s, key);
    if s.contains(key) {
        let i = choose|i: int| 0 <= i < s.len() && s[i] == key;
        if i < fg {
            assert(s[i] < key);
        }
        if i > fg {
            assert(s[fg] < s[i]);
        }
        assert(i == fg);
    }
}

/// In a sorted sequence the element at its own position is the first
/// occurrence: seeking an element that is present lands exactly on it.
pub proof fn lemma_first_geq_self(s: Seq<u64>, p: int)
    requires
        sorted_strict(s),
        0 <= p < s.len(),
    ensures
        first_geq(s, s[p]) == p,
{
    assert forall|i: int| 0 <= i < p implies s[i] < s[p] by {};
    lemma_first_geq_is(s, s[p], p);
}

/// Seek correctness law: after seeking `t` in a sorted set of keys, either
/// every key lies below `t` (no position found), or the found position holds
/// the minimum key that is `>= t`.
pub proof fn lemma_seek_min(s: Seq<u64>, t: u64)
    requires
        sorted_strict(s),
    ensures
        first_geq(s, t) == s.len() <==> (forall|i: int| 0 <= i < s.len() ==> s[i] < t),
        first_geq(s, t) < s.len() ==> s[first_geq(s, t)] >= t && (forall|i: int|
            0 <= i < s.len() && #[trigger] s[i] >= t ==> s[first_geq(s, t)] <= s[i]),
{
    lemma_first_geq_bounds(s, t);
    lemma_first_geq_sorted(s, t);
    let fg = first_geq(s, t);
    if fg < s.len() {
        assert forall|i: int| 0 <= i < s.len() && s[i] >= t implies s[fg] <= s[i] by {
            if i < fg {
                assert(s[i] < t);
            }
            if i > fg {
                assert(s[fg] < s[i]);
            }
        };
    }
}

/// No-regression law: during a forward walk that starts at the position
/// `seek(t)` found, every key produced is at least `t`, and later positions
/// never yield a smaller key than earlier ones.
pub proof fn lemma_no_regression(s: Seq<u64>, t: u64, p: int, q: int)
    requires
        sorted_strict(s),
        first_geq(s, t) <= p <= q < s.len(),
    ensures
        t <= s[p],
        s[p] <= s[q],
{
    lemma_first_geq_sorted(s, t);
    if p < q {
        assert(s[p] < s[q]);
    }
}

/// Membership in a sequence with one element inserted.
pub proof fn lemma_insert_contains<A>(s: Seq<A>, i: int, a: A, x: A)
    requires
        0 <= i <= s.len(),
    ensures
        s.insert(i, a).contains(x) <==> (s.contains(x) || x == a),
{
    s.insert_ensures(i, a);
    let t = s.insert(i, a);
    if t.contains(x) {
        let j = choose|j: int| 0 <= j < t.len() && t[j] == x;
        if j < i {
            assert(s[j] == x);
        } else if j > i {
            assert(t[(j - 1) + 1] == s[j - 1]);
            assert(s[j - 1] == x);
        }
    }
    if s.contains(x) {
        let j = choose|j: int| 0 <= j < s.len() && s[j] == x;
        if j < i {
            assert(t[j] == x);
        } else {
            assert(t[j + 1] == x);
        }
        assert(t.contains(x));
    }
    if x == a {
        assert(t[i] == x);
        assert(t.contains(x));
    }
}

/// Set-semantics law: inserting an absent `key` at its boundary position
/// grows membership by exactly that key — afterwards a value is contained
/// iff it was contained before or is the key itself.
pub proof fn lemma_insert_membership(s: Seq<u64>, key: u64, x: u64)
    requires
        sorted_strict(s),
        !s.contains(key),
    ensures
        s.insert(first_geq(s, key), key).contains(x) <==> (s.contains(x) || x == key),
{
    lemma_first_geq_bounds(s, key);
    lemma_insert_contains(s, first_geq(s, key), key, x);
}

/// Inserting `key` at its boundary position keeps a sorted sequence sorted,
/// provided `key` is not already present.
pub proof fn lemma_insert_sorted(s: Seq<u64>, key: u64)
    requires
        sorted_strict(s),
        !s.contains(key),
    ensures
        sorted_strict(s.insert(first_geq(s, key), key)),
        s.insert(first_geq(s, key), key).to_set() == s.to_set().insert(key),
{
    lemma_first_geq_bounds(s, key);
    lemma_first_geq_sorted(s, key);
    let fg = first_geq(s, key);
    s.insert_ensures(fg, key);
    let t = s.insert(fg, key);
    assert forall|p: int, q: int| 0 <= p < q < t.len() implies t[p] < t[q] by {
        if p < fg && q < fg {
            assert(t[p] == s[p] && t[q] == s[q]);
        } else if p < fg && q == fg {
            assert(t[p] == s[p] && s[p] < key);
        } else if p < fg && q > fg {
            assert(t[p] == s[p]);
            assert(t[(q - 1) + 1] == s[q - 1]);
            assert(s[q - 1] >= key);
            assert(!(s[q - 1] == key));
            if p < q - 1 {
                assert(s[p] < s[q - 1]);
            }
        } else if p == fg {
            assert(t[p] == key);
            assert(t[(q - 1) + 1] == s[q - 1]);
            assert(s[q - 1] >= key);
            assert(!(s[q - 1] == key));
        } else {
            assert(t[(p - 1) + 1] == s[p - 1]);
            assert(t[(q - 1) + 1] == s[q - 1]);
            assert(s[p - 1] < s[q - 1]);
        }
    };
    assert(t.to_set() =~= s.to_set().insert(key)) by {
        assert forall|x: u64| t.to_set().contains(x) <==> s.to_set().insert(key).contains(
            x,
        ) by {
            lemma_insert_contains(s, fg, key, x);
        };
    };
}

} // verus!
