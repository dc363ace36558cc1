//! Lexicographic (byte-wise) ordering of words, the order the dictionary is
//! sorted by, together with the executable comparisons the solver uses.
use vstd::prelude::*;

verus! {

/// The view of each word in a list of words.
pub open spec fn views(s: Seq<Vec<u8>>) -> Seq<Seq<u8>> {
    s.map_values(|w: Vec<u8>| w@)
}

/// Lexicographic "less than or equal" on byte strings: the order `u8` slices
/// compare by, extended position by position.
pub open spec fn lex_le(a: Seq<u8>, b: Seq<u8>) -> bool
    decreases a.len(),
{
    if a.len() == 0 {
        true
    } else if b.len() == 0 {
        false
    } else if a[0] < b[0] {
        true
    } else if a[0] > b[0] {
        false
    } else {
        lex_le(a.drop_first(), b.drop_first())
    }
}

/// Every pair of byte strings is ordered one way or the other.
pub proof fn lemma_lex_le_total(a: Seq<u8>, b: Seq<u8>)
    ensures
        lex_le(a, b) || lex_le(b, a),
    decreases a.len(),
{
    if a.len() != 0 && b.len() != 0 && a[0] == b[0] {
        lemma_lex_le_total(a.drop_first(), b.drop_first());
    }
}

/// Two byte strings each at most the other are equal.
pub proof fn lemma_lex_le_antisym(a: Seq<u8>, b: Seq<u8>)
    requires
        lex_le(a, b),
        lex_le(b, a),
    ensures
        a == b,
    decreases a.len(),
{
    if a.len() == 0 {
        assert(b.len() == 0);
        assert(a =~= b);
    } else {
        assert(a[0] == b[0]);
        lemma_lex_le_antisym(a.drop_first(), b.drop_first());
        assert forall|i: int| 0 <= i < a.len() implies a[i] == b[i] by {
            if i > 0 {
                assert(a[i] == a.drop_first()[i - 1]);
                assert(b[i] == b.drop_first()[i - 1]);
            }
        }
        assert(a =~= b);
    }
}

/// Lexicographic order is reflexive.
pub proof fn lemma_lex_le_refl(a: Seq<u8>)
    ensures
        lex_le(a, a),
    decreases a.len(),
{
    if a.len() != 0 {
        lemma_lex_le_refl(a.drop_first());
    }
}

/// Lexicographic order is transitive.
pub proof fn lemma_lex_le_trans(a: Seq<u8>, b: Seq<u8>, c: Seq<u8>)
    requires
        lex_le(a, b),
        lex_le(b, c),
    ensures
        lex_le(a, c),
    decreases a.len(),
{
    if a.len() != 0 {
        assert(b.len() != 0);
        assert(c.len() != 0);
        if a[0] == b[0] && b[0] == c[0] {
            lemma_lex_le_trans(a.drop_first(), b.drop_first(), c.drop_first());
        }
    }
}

/// Executable lexicographic comparison of two words.
pub fn le_bytes(a: &Vec<u8>, b: &Vec<u8>) -> (r: bool)
    ensures
        r == lex_le(a@, b@),
{
    let mut i: usize = 0;
    proof {
        assert(a@.skip(0) =~= a@);
        assert(b@.skip(0) =~= b@);
    }
    while i < a.len() && i < b.len()
        invariant
            i <= a@.len(),
            i <= b@.len(),
            lex_le(a@, b@) == lex_le(a@.skip(i as int), b@.skip(i as int)),
        decreases a@.len() - i,
    {
        proof {
            assert(a@.skip(i as int)[0] == a@[i as int]);
            assert(b@.skip(i as int)[0] == b@[i as int]);
        }
        if a[i] < b[i] {
            return true;
        }
        if a[i] > b[i] {
            return false;
        }
        proof {
            assert(a@.skip(i as int).drop_first() =~= a@.skip(i as int + 1));
            assert(b@.skip(i as int).drop_first() =~= b@.skip(i as int + 1));
        }
        i = i + 1;
    }
    proof {
        if a@.len() <= b@.len() {
            assert(a@.skip(i as int).len() == 0);
        } else {
            assert(b@.skip(i as int).len() == 0);
            assert(a@.skip(i as int).len() > 0);
        }
    }
    a.len() <= b.len()
}

/// Executable equality of two words.
pub fn eq_bytes(a: &Vec<u8>, b: &Vec<u8>) -> (r: bool)
    ensures
        r == (a@ == b@),
{
    if a.len() != b.len() {
        return false;
    }
    let mut i: usize = 0;
    while i < a.len()
        invariant
            i <= a@.len(),
            a@.len() == b@.len(),
            forall|j: int| 0 <= j < i ==> a@[j] == b@[j],
        decreases a@.len() - i,
    {
        if a[i] != b[i] {
            return false;
        }
        i = i + 1;
    }
    proof {
        assert(a@ =~= b@);
    }
    true
}

/// A word list in ascending lexicographic order, equal entries allowed.
pub open spec fn sorted(v: Seq<Seq<u8>>) -> bool {
    forall|i: int, j: int| 0 <= i <= j < v.len() ==> lex_le(v[i], v[j])
}

/// A word list in strictly ascending lexicographic order: sorted and free of
/// duplicates.
pub open spec fn sorted_strict(v: Seq<Seq<u8>>) -> bool {
    &&& sorted(v)
    &&& forall|i: int, j: int| 0 <= i < j < v.len() ==> v[i] != v[j]
}

/// In a list whose adjacent entries are ordered, any two entries are.
pub proof fn lemma_adjacent_le_span(v: Seq<Seq<u8>>, i: int, j: int)
    requires
        forall|k: int| 0 <= k < v.len() - 1 ==> lex_le(#[trigger] v[k], v[k + 1]),
        0 <= i <= j < v.len(),
    ensures
        lex_le(v[i], v[j]),
    decreases j - i,
{
    if i == j {
        lemma_lex_le_refl(v[i]);
    } else {
        lemma_adjacent_le_span(v, i, j - 1);
        assert(lex_le(v[j - 1], v[j]));
        lemma_lex_le_trans(v[i], v[j - 1], v[j]);
    }
}

/// A strictly ascending word list is determined by the set of words it holds:
/// two such lists with the same members are equal.
pub proof fn lemma_sorted_strict_unique(a: Seq<Seq<u8>>, b: Seq<Seq<u8>>)
    requires
        sorted_strict(a),
        sorted_strict(b),
        forall|s: Seq<u8>| a.contains(s) <==> b.contains(s),
    ensures
        a == b,
    decreases a.len(),
{
    if a.len() == 0 {
        if b.len() > 0 {
            assert(b.contains(b[0]));
            assert(a.contains(b[0]));
        }
        assert(a =~= b);
    } else {
        assert(a.contains(a[0]));
        assert(b.contains(a[0]));
        let j = choose|j: int| 0 <= j < b.len() && b[j] == a[0];
        assert(b.len() > 0);
        assert(b.contains(b[0]));
        assert(a.contains(b[0]));
        let i = choose|i: int| 0 <= i < a.len() && a[i] == b[0];
        assert(lex_le(b[0], b[j]));
        assert(lex_le(a[0], a[i]));
        lemma_lex_le_antisym(a[0], b[0]);
        let at = a.drop_first();
        let bt = b.drop_first();
        assert forall|s: Seq<u8>| at.contains(s) implies bt.contains(s) by {
            let k = choose|k: int| 0 <= k < at.len() && at[k] == s;
            assert(a[k + 1] == s);
            assert(a.contains(s));
            assert(b.contains(s));
            let m = choose|m: int| 0 <= m < b.len() && b[m] == s;
            assert(a[0] != a[k + 1]);
            assert(m != 0);
            assert(bt[m - 1] == s);
            assert(bt.contains(s));
        }
        assert forall|s: Seq<u8>| bt.contains(s) implies at.contains(s) by {
            let k = choose|k: int| 0 <= k < bt.len() && bt[k] == s;
            assert(b[k + 1] == s);
            assert(b.contains(s));
            assert(a.contains(s));
            let m = choose|m: int| 0 <= m < a.len() && a[m] == s;
            assert(b[0] != b[k + 1]);
            assert(m != 0);
            assert(at[m - 1] == s);
            assert(at.contains(s));
        }
        assert(sorted_strict(at)) by {
            assert forall|p: int, q: int| 0 <= p <= q < at.len() implies lex_le(at[p], at[q]) by {
                assert(at[p] == a[p + 1]);
                assert(at[q] == a[q + 1]);
            }
            assert forall|p: int, q: int| 0 <= p < q < at.len() implies at[p] != at[q] by {
                assert(at[p] == a[p + 1]);
                assert(at[q] == a[q + 1]);
            }
        }
        assert(sorted_strict(bt)) by {
            assert forall|p: int, q: int| 0 <= p <= q < bt.len() implies lex_le(bt[p], bt[q]) by {
                assert(bt[p] == b[p + 1]);
                assert(bt[q] == b[q + 1]);
            }
            assert forall|p: int, q: int| 0 <= p < q < bt.len() implies bt[p] != bt[q] by {
                assert(bt[p] == b[p + 1]);
                assert(bt[q] == b[q + 1]);
            }
        }
        lemma_sorted_strict_unique(at, bt);
        assert forall|p: int| 0 <= p < a.len() implies a[p] == b[p] by {
            if p > 0 {
                assert(a[p] == at[p - 1]);
                assert(b[p] == bt[p - 1]);
            }
        }
        assert(a =~= b);
    }
}

} // verus!
