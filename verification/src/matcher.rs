//! The matcher: binary search of a candidate against the sorted dictionary,
//! and the result set that accumulates confirmed words, each at most once,
//! with the membership check and the insertion as one unit.
use vstd::prelude::*;

use crate::gen::clone_word;
use crate::gen::contains_word_list;
use crate::gen::lemma_push_distinct;
use crate::gen::lemma_views_push;
use crate::order::eq_bytes;
use crate::order::le_bytes;
use crate::order::lemma_adjacent_le_span;
use crate::order::lemma_lex_le_antisym;
use crate::order::lemma_lex_le_refl;
use crate::order::lemma_lex_le_total;
use crate::order::lex_le;
use crate::order::sorted;
use crate::order::sorted_strict;
use crate::order::views;
use crate::perms::dedup_sorted;

verus! {

/// Binary search: whether the word `w` occurs in the ascending dictionary.
pub fn contains_word(dictionary: &Vec<Vec<u8>>, w: &Vec<u8>) -> (r: bool)
    requires
        sorted(views(dictionary@)),
    ensures
        r == views(dictionary@).contains(w@),
{
    let ghost dv = views(dictionary@);
    let mut lo: usize = 0;
    let mut hi: usize = dictionary.len();
    while lo < hi
        invariant
            sorted(dv),
            dv == views(dictionary@),
            lo <= hi <= dictionary@.len(),
            forall|k: int| 0 <= k < dv.len() && dv[k] == w@ ==> lo <= k < hi,
        decreases hi - lo,
    {
        let mid: usize = lo + (hi - lo) / 2;
        proof {
            assert(dv[mid as int] == dictionary@[mid as int]@);
        }
        if eq_bytes(&dictionary[mid], w) {
            proof {
                assert(dv.contains(w@)) by {
                    assert(dv[mid as int] == w@);
                }
            }
            return true;
        }
        if le_bytes(&dictionary[mid], w) {
            proof {
                assert forall|k: int| 0 <= k < dv.len() && dv[k] == w@ implies mid + 1 <= k
                    < hi by {
                    if k <= mid {
                        assert(lex_le(dv[k], dv[mid as int]));
                        lemma_lex_le_antisym(dv[mid as int], w@);
                    }
                }
            }
            lo = mid + 1;
        } else {
            proof {
                lemma_lex_le_total(dv[mid as int], w@);
                assert forall|k: int| 0 <= k < dv.len() && dv[k] == w@ implies lo <= k < mid by {
                    if k >= mid {
                        assert(lex_le(dv[mid as int], dv[k]));
                    }
                }
            }
            hi = mid;
        }
    }
    proof {
        if dv.contains(w@) {
            let k = choose|k: int| 0 <= k < dv.len() && dv[k] == w@;
        }
    }
    false
}

/// The deduplicated collection of confirmed words, in arrival order.
pub struct ResultSet {
    pub words: Vec<Vec<u8>>,
}

impl View for ResultSet {
    type V = Seq<Seq<u8>>;

    open spec fn view(&self) -> Seq<Seq<u8>> {
        views(self.words@)
    }
}

impl ResultSet {
    /// The result set never holds a word twice.
    pub open spec fn wf(self) -> bool {
        views(self.words@).no_duplicates()
    }

    /// An empty result set.
    pub fn new() -> (r: ResultSet)
        ensures
            r.wf(),
            r@.len() == 0,
    {
        ResultSet { words: Vec::new() }
    }

    /// How many words have been confirmed.
    pub fn count(&self) -> (r: usize)
        ensures
            r == self@.len(),
    {
        self.words.len()
    }

    /// The membership check and the insertion, as one atomic unit: the word
    /// is appended exactly when it is not yet present.
    pub fn insert_if_absent(&mut self, w: Vec<u8>)
        requires
            old(self).wf(),
        ensures
            final(self).wf(),
            final(self)@ == if old(self)@.contains(w@) {
                old(self)@
            } else {
                old(self)@.push(w@)
            },
    {
        let ghost wv = w@;
        if !contains_word_list(&self.words, &w) {
            proof {
                lemma_push_distinct(views(self.words@), wv);
                lemma_views_push(self.words@, w);
            }
            self.words.push(w);
        }
    }
}

/// Tests every candidate against the dictionary and accumulates the
/// confirmed words: a word is in the outcome exactly when it is among the
/// candidates and in the dictionary, and it is in it once.
pub fn match_all(candidates: &Vec<Vec<u8>>, dictionary: &Vec<Vec<u8>>) -> (r: ResultSet)
    requires
        sorted(views(dictionary@)),
    ensures
        r.wf(),
        forall|s: Seq<u8>|
            r@.contains(s) <==> views(candidates@).contains(s) && views(dictionary@).contains(s),
{
    let mut results = ResultSet::new();
    let mut i: usize = 0;
    while i < candidates.len()
        invariant
            sorted(views(dictionary@)),
            i <= candidates@.len(),
            results.wf(),
            forall|s: Seq<u8>|
                results@.contains(s) <==> views(candidates@).subrange(0, i as int).contains(s)
                    && views(dictionary@).contains(s),
        decreases candidates@.len() - i,
    {
        let ghost before = results@;
        let ghost x = views(candidates@)[i as int];
        proof {
            assert(views(candidates@)[i as int] == candidates@[i as int]@);
        }
        let hit = contains_word(dictionary, &candidates[i]);
        if hit {
            let w = clone_word(&candidates[i]);
            results.insert_if_absent(w);
        }
        proof {
            assert forall|s: Seq<u8>|
                views(candidates@).subrange(0, i + 1 as int).contains(s) && views(
                    dictionary@,
                ).contains(s) implies results@.contains(s) by {
                let k = choose|k: int|
                    0 <= k < i + 1 && #[trigger] views(candidates@).subrange(0, i + 1 as int)[k]
                        == s;
                if k < i {
                    assert(views(candidates@).subrange(0, i as int)[k] == s);
                    assert(views(candidates@).subrange(0, i as int).contains(s));
                    assert(before.contains(s));
                    let p = choose|p: int| 0 <= p < before.len() && before[p] == s;
                    assert(results@[p] == s);
                } else {
                    assert(s == x);
                    if before.contains(s) {
                        let p = choose|p: int| 0 <= p < before.len() && before[p] == s;
                        assert(results@[p] == s);
                    } else {
                        assert(results@ == before.push(x));
                        assert(results@[results@.len() - 1] == s);
                    }
                }
            }
            assert forall|s: Seq<u8>| results@.contains(s) implies views(candidates@).subrange(
                0,
                i + 1 as int,
            ).contains(s) && views(dictionary@).contains(s) by {
                let p = choose|p: int| 0 <= p < results@.len() && results@[p] == s;
                if p < before.len() {
                    assert(before[p] == s);
                    assert(before.contains(s));
                    let k = choose|k: int|
                        0 <= k < i && views(candidates@).subrange(0, i as int)[k] == s;
                    assert(views(candidates@).subrange(0, i + 1 as int)[k] == s);
                } else {
                    assert(s == x);
                    assert(views(candidates@).subrange(0, i + 1 as int)[i as int] == s);
                }
            }
        }
        i = i + 1;
    }
    proof {
        assert(views(candidates@).subrange(0, candidates@.len() as int) =~= views(candidates@));
    }
    results
}

/// A fresh copy of a word list.
pub fn copy_words(v: &Vec<Vec<u8>>) -> (r: Vec<Vec<u8>>)
    ensures
        views(r@) == views(v@),
{
    let mut out: Vec<Vec<u8>> = Vec::new();
    let mut i: usize = 0;
    while i < v.len()
        invariant
            i <= v@.len(),
            views(out@) == views(v@).subrange(0, i as int),
        decreases v@.len() - i,
    {
        let cw = clone_word(&v[i]);
        proof {
            lemma_views_push(out@, cw);
            assert(views(v@)[i as int] == v@[i as int]@);
        }
        out.push(cw);
        proof {
            assert(views(out@) =~= views(v@).subrange(0, i + 1 as int));
        }
        i = i + 1;
    }
    proof {
        assert(views(out@) =~= views(v@));
    }
    out
}

/// The result finalizer: the accumulated words sorted ascending, with their
/// count. A word is in the outcome exactly when it was accumulated.
pub fn finalize(results: &ResultSet) -> (r: (Vec<Vec<u8>>, usize))
    ensures
        sorted_strict(views(r.0@)),
        forall|s: Seq<u8>| views(r.0@).contains(s) <==> results@.contains(s),
        r.1 == r.0@.len(),
{
    let mut ordered = copy_words(&results.words);
    let ghost raw = views(ordered@);
    crate::perms::sort_words(&mut ordered);
    let ghost srt = views(ordered@);
    let out = dedup_sorted(&ordered);
    proof {
        raw.to_multiset_ensures();
        srt.to_multiset_ensures();
        assert forall|s: Seq<u8>| views(out@).contains(s) <==> results@.contains(s) by {
            assert(raw == results@);
            assert(srt.contains(s) <==> raw.contains(s)) by {
                assert(srt.contains(s) <==> srt.to_multiset().count(s) > 0);
                assert(raw.contains(s) <==> raw.to_multiset().count(s) > 0);
            }
        }
    }
    let n = out.len();
    (out, n)
}

/// Whether a word list is in ascending lexicographic order, the property the
/// matcher requires of the dictionary.
pub fn is_sorted_words(v: &Vec<Vec<u8>>) -> (r: bool)
    ensures
        r == sorted(views(v@)),
{
    if v.len() <= 1 {
        proof {
            assert forall|p: int, q: int| 0 <= p <= q < views(v@).len() implies lex_le(
                views(v@)[p],
                views(v@)[q],
            ) by {
                lemma_lex_le_refl(views(v@)[p]);
            }
        }
        return true;
    }
    let mut i: usize = 0;
    while i < v.len() - 1
        invariant
            v@.len() >= 2,
            i <= v@.len() - 1,
            forall|k: int| 0 <= k < i ==> lex_le(#[trigger] views(v@)[k], views(v@)[k + 1]),
        decreases v@.len() - i,
    {
        proof {
            assert(views(v@)[i as int] == v@[i as int]@);
            assert(views(v@)[i + 1 as int] == v@[i + 1 as int]@);
        }
        if !le_bytes(&v[i], &v[i + 1]) {
            proof {
                assert(!sorted(views(v@))) by {
                    if sorted(views(v@)) {
                        assert(lex_le(views(v@)[i as int], views(v@)[i + 1 as int]));
                    }
                }
            }
            return false;
        }
        i = i + 1;
    }
    proof {
        assert forall|p: int, q: int| 0 <= p <= q < views(v@).len() implies lex_le(
            views(v@)[p],
            views(v@)[q],
        ) by {
            lemma_adjacent_le_span(views(v@), p, q);
        }
    }
    true
}

/// Whether a byte string is a valid query: three to ten letters, all lower
/// case.
pub fn validate_query(letters: &Vec<u8>) -> (r: bool)
    ensures
        r == (3 <= letters@.len() <= 10 && forall|i: int|
            0 <= i < letters@.len() ==> 97 <= #[trigger] letters@[i] <= 122),
{
    if letters.len() < 3 || letters.len() > 10 {
        return false;
    }
    let mut i: usize = 0;
    while i < letters.len()
        invariant
            i <= letters@.len(),
            forall|j: int| 0 <= j < i ==> 97 <= #[trigger] letters@[j] <= 122,
        decreases letters@.len() - i,
    {
        if letters[i] < 97 || letters[i] > 122 {
            return false;
        }
        i = i + 1;
    }
    true
}

} // verus!
