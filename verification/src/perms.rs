//! The permutation generator: all distinct orderings of a subset's
//! characters, sorted ascending. The raw orderings come from the
//! permutohedron crate; sorting leans on std; the deduplication and the
//! characterization of the output are verified.
use vstd::prelude::*;

use crate::gen::clone_word;
use crate::order::eq_bytes;
use crate::order::lemma_lex_le_antisym;
use crate::order::lemma_lex_le_refl;
use crate::order::lex_le;
use crate::order::sorted;
use crate::order::sorted_strict;
use crate::order::views;

verus! {

/// n factorial.
pub open spec fn fact(n: nat) -> nat
    decreases n,
{
    if n == 0 {
        1
    } else {
        n * fact((n - 1) as nat)
    }
}

/// Relies on permutohedron::Heap: Heap's algorithm visits every ordering of
/// the input elements, n! orderings in all (repeated elements give repeated
/// strings), the input's own order among them. Heap::new panics above 16
/// elements, so that is excluded here.
#[verifier::external_body]
fn heap_permutations(items: &Vec<u8>) -> (r: Vec<Vec<u8>>)
    requires
        items@.len() <= 16,
    ensures
        r@.len() == fact(items@.len()),
        forall|j: int|
            0 <= j < r@.len() ==> #[trigger] views(r@)[j].to_multiset() == items@.to_multiset(),
        forall|s: Seq<u8>|
            (#[trigger] s.to_multiset()) == items@.to_multiset() ==> views(r@).contains(s),
{
    let mut data = items.clone();
    let mut out: Vec<Vec<u8>> = Vec::new();
    for p in permutohedron::Heap::new(&mut data) {
        out.push(p);
    }
    out
}

/// Relies on Vec::sort from std: it reorders the words into ascending order
/// under the documented lexicographic comparison of byte vectors, which is
/// what `lex_le` states.
#[verifier::external_body]
pub(crate) fn sort_words(v: &mut Vec<Vec<u8>>)
    ensures
        sorted(views(final(v)@)),
        views(final(v)@).to_multiset() == views(old(v)@).to_multiset(),
{
    v.sort();
}

/// Removes adjacent duplicates from a sorted word list, leaving a strictly
/// ascending list with the same members.
pub fn dedup_sorted(v: &Vec<Vec<u8>>) -> (r: Vec<Vec<u8>>)
    requires
        sorted(views(v@)),
    ensures
        sorted_strict(views(r@)),
        forall|s: Seq<u8>| views(r@).contains(s) <==> views(v@).contains(s),
{
    let mut out: Vec<Vec<u8>> = Vec::new();
    let mut i: usize = 0;
    while i < v.len()
        invariant
            sorted(views(v@)),
            i <= v@.len(),
            sorted_strict(views(out@)),
            forall|s: Seq<u8>|
                views(out@).contains(s) <==> views(v@).subrange(0, i as int).contains(s),
            i > 0 ==> out@.len() > 0 && views(out@).last() == views(v@)[i - 1],
        decreases v@.len() - i,
    {
        let ghost ov = views(out@);
        let ghost x = views(v@)[i as int];
        proof {
            assert(views(v@)[i as int] == v@[i as int]@);
        }
        if out.len() == 0 || !eq_bytes(&out[out.len() - 1], &v[i]) {
            proof {
                assert(out@.len() > 0 ==> views(out@)[out@.len() - 1] == out@[out@.len() - 1]@);
            }
            out.push(clone_word(&v[i]));
            proof {
                let nv = views(out@);
                assert(nv =~= ov.push(x));
                // every earlier entry is at most x, and differs from it
                assert forall|p: int| 0 <= p < ov.len() implies lex_le(ov[p], x) && ov[p] != x by {
                    assert(ov.contains(ov[p]));
                    let k = choose|k: int|
                        0 <= k < i && views(v@).subrange(0, i as int)[k] == ov[p];
                    assert(views(v@)[k] == ov[p]);
                    assert(lex_le(views(v@)[k], views(v@)[i as int]));
                    if ov[p] == x {
                        assert(lex_le(ov[p], ov[ov.len() - 1]));
                        assert(lex_le(ov[ov.len() - 1], x));
                        lemma_lex_le_antisym(ov[ov.len() - 1], x);
                    }
                }
                assert(sorted_strict(nv)) by {
                    assert forall|p: int, q: int| 0 <= p <= q < nv.len() implies lex_le(
                        nv[p],
                        nv[q],
                    ) by {
                        if q < ov.len() {
                            assert(nv[p] == ov[p] && nv[q] == ov[q]);
                        } else if p < ov.len() {
                            assert(nv[p] == ov[p] && nv[q] == x);
                        } else {
                            assert(nv[p] == x && nv[q] == x);
                            assert(lex_le(x, x)) by {
                                lemma_lex_le_refl(x);
                            }
                        }
                    }
                    assert forall|p: int, q: int| 0 <= p < q < nv.len() implies nv[p] != nv[q] by {
                        if q < ov.len() {
                            assert(nv[p] == ov[p] && nv[q] == ov[q]);
                        } else {
                            assert(nv[p] == ov[p] && nv[q] == x);
                        }
                    }
                }
                assert forall|s: Seq<u8>| views(v@).subrange(0, i + 1 as int).contains(s) implies nv
                    .contains(s) by {
                    let k = choose|k: int|
                        0 <= k < i + 1 && #[trigger] views(v@).subrange(0, i + 1 as int)[k] == s;
                    if k < i {
                        assert(views(v@).subrange(0, i as int)[k] == s);
                        assert(views(v@).subrange(0, i as int).contains(s));
                        assert(ov.contains(s));
                        let p = choose|p: int| 0 <= p < ov.len() && ov[p] == s;
                        assert(nv[p] == s);
                    } else {
                        assert(nv[nv.len() - 1] == x);
                        assert(s == x);
                    }
                }
                assert forall|s: Seq<u8>| nv.contains(s) implies views(v@).subrange(
                    0,
                    i + 1 as int,
                ).contains(s) by {
                    let p = choose|p: int| 0 <= p < nv.len() && nv[p] == s;
                    if p < ov.len() {
                        assert(ov.contains(s));
                        let k = choose|k: int|
                            0 <= k < i && views(v@).subrange(0, i as int)[k] == s;
                        assert(views(v@).subrange(0, i + 1 as int)[k] == s);
                    } else {
                        assert(s == x);
                        assert(views(v@).subrange(0, i + 1 as int)[i as int] == s);
                    }
                }
            }
        } else {
            proof {
                assert(views(out@)[out@.len() - 1] == out@[out@.len() - 1]@);
                assert(ov.last() == x);
                assert forall|s: Seq<u8>| views(v@).subrange(0, i + 1 as int).contains(s) implies ov
                    .contains(s) by {
                    let k = choose|k: int|
                        0 <= k < i + 1 && #[trigger] views(v@).subrange(0, i + 1 as int)[k] == s;
                    if k < i {
                        assert(views(v@).subrange(0, i as int)[k] == s);
                        assert(views(v@).subrange(0, i as int).contains(s));
                    } else {
                        assert(s == x);
                        assert(ov[ov.len() - 1] == s);
                    }
                }
                assert forall|s: Seq<u8>| ov.contains(s) implies views(v@).subrange(
                    0,
                    i + 1 as int,
                ).contains(s) by {
                    let k = choose|k: int|
                        0 <= k < i && views(v@).subrange(0, i as int)[k] == s;
                    assert(views(v@).subrange(0, i + 1 as int)[k] == s);
                }
            }
        }
        i = i + 1;
    }
    proof {
        assert(views(v@).subrange(0, i as int) =~= views(v@));
    }
    out
}

/// The permutation generator: every distinct ordering of the characters of
/// `word`, each exactly once, sorted ascending. A string belongs to the
/// output exactly when it uses the same characters with the same
/// multiplicities.
pub fn get_permutations(word: &Vec<u8>) -> (r: Vec<Vec<u8>>)
    requires
        2 <= word@.len() <= 10,
    ensures
        sorted_strict(views(r@)),
        forall|s: Seq<u8>|
            views(r@).contains(s) <==> (#[trigger] s.to_multiset()) == word@.to_multiset(),
{
    let mut perms = heap_permutations(word);
    let ghost raw = views(perms@);
    sort_words(&mut perms);
    let ghost srt = views(perms@);
    let r = dedup_sorted(&perms);
    proof {
        raw.to_multiset_ensures();
        srt.to_multiset_ensures();
        assert forall|s: Seq<u8>| views(r@).contains(s) implies (#[trigger] s.to_multiset())
            == word@.to_multiset() by {
            assert(srt.contains(s));
            assert(srt.to_multiset().count(s) > 0);
            assert(raw.to_multiset().count(s) > 0);
            assert(raw.contains(s));
            let j = choose|j: int| 0 <= j < raw.len() && raw[j] == s;
            assert(raw[j].to_multiset() == word@.to_multiset());
        }
        assert forall|s: Seq<u8>| (#[trigger] s.to_multiset()) == word@.to_multiset() implies views(
            r@,
        ).contains(s) by {
            assert(raw.contains(s));
            assert(raw.to_multiset().count(s) > 0);
            assert(srt.to_multiset().count(s) > 0);
            assert(srt.contains(s));
        }
    }
    r
}

} // verus!
