//! An anagram and sub-anagram solver: from a short sequence of letters it
//! finds every dictionary word that can be formed from a subset of those
//! letters, each letter used at most as often as it occurs in the input.
//!
//! The pipeline: the subset generator enumerates every distinct selection of
//! the letters, the permutation generator every distinct ordering of each
//! selection, and the matcher confirms each candidate against a sorted
//! dictionary by binary search, accumulating each confirmed word once.
use vstd::multiset::Multiset;
use vstd::prelude::*;

pub mod count;
pub mod gen;
pub mod matcher;
pub mod order;
pub mod perms;

use crate::gen::clone_word;
use crate::gen::get_combinations;
use crate::gen::lemma_subseq_len;
use crate::gen::lemma_views_push;
use crate::gen::subseq_from;
use crate::matcher::finalize;
use crate::matcher::match_all;
use crate::order::lemma_sorted_strict_unique;
use crate::order::sorted;
use crate::order::sorted_strict;
use crate::order::views;
use crate::perms::get_permutations;

verus! {

/// The word `s` can be formed from the input letters: some selection of at
/// least two of them, drawn at increasing positions, has exactly the
/// characters of `s` with their multiplicities.
pub open spec fn can_form(s: Seq<u8>, letters: Seq<u8>) -> bool {
    exists|t: Seq<u8>|
        #![trigger subseq_from(t, letters, 0)]
        subseq_from(t, letters, 0) && 2 <= t.len() && s.to_multiset() == t.to_multiset()
}

/// The produced subsets reach exactly the formable words: a word's multiset
/// matches some produced subset exactly when the word can be formed.
proof fn lemma_combos_cover(letters: Seq<u8>, combos: Seq<Seq<u8>>)
    requires
        forall|j: int|
            0 <= j < combos.len() ==> 2 <= (#[trigger] combos[j]).len() <= letters.len()
                && subseq_from(combos[j], letters, 0),
        forall|t: Seq<u8>|
            #![trigger subseq_from(t, letters, 0)]
            2 <= t.len() <= letters.len() && subseq_from(t, letters, 0) ==> combos.contains(t),
    ensures
        forall|s: Seq<u8>|
            (exists|k: int|
                0 <= k < combos.len() && (#[trigger] combos[k].to_multiset()) == s.to_multiset())
                <==> can_form(s, letters),
{
    assert forall|s: Seq<u8>|
        (exists|k: int|
            0 <= k < combos.len() && (#[trigger] combos[k].to_multiset())
                == s.to_multiset()) implies can_form(s, letters) by {
        let k = choose|k: int|
            0 <= k < combos.len() && combos[k].to_multiset() == s.to_multiset();
        let t = combos[k];
        assert(subseq_from(t, letters, 0) && 2 <= t.len() && s.to_multiset() == t.to_multiset());
    }
    assert forall|s: Seq<u8>| can_form(s, letters) implies (exists|k: int|
        0 <= k < combos.len() && (#[trigger] combos[k].to_multiset()) == s.to_multiset()) by {
        let t = choose|t: Seq<u8>|
            #![trigger subseq_from(t, letters, 0)]
            subseq_from(t, letters, 0) && 2 <= t.len() && s.to_multiset() == t.to_multiset();
        lemma_subseq_len(t, letters, 0);
        assert(combos.contains(t));
        let k = choose|k: int| 0 <= k < combos.len() && combos[k] == t;
        assert(combos[k].to_multiset() == s.to_multiset());
    }
}

/// The candidate pool: for each produced subset, in the order produced, all
/// of its distinct orderings, appended to one flat list. A word occurs in
/// the pool exactly when it can be formed from the letters.
pub fn build_candidates(letters: &Vec<u8>) -> (r: Vec<Vec<u8>>)
    requires
        3 <= letters@.len() <= 10,
    ensures
        forall|j: int|
            0 <= j < r@.len() ==> 2 <= (#[trigger] views(r@)[j]).len() <= letters@.len(),
        forall|s: Seq<u8>| views(r@).contains(s) <==> can_form(s, letters@),
{
    let combinations = get_combinations(letters);
    let ghost cs = views(combinations@);
    let mut pool: Vec<Vec<u8>> = Vec::new();
    let mut i: usize = 0;
    while i < combinations.len()
        invariant
            3 <= letters@.len() <= 10,
            i <= combinations@.len(),
            cs == views(combinations@),
            forall|j: int|
                0 <= j < cs.len() ==> 2 <= (#[trigger] cs[j]).len() <= letters@.len()
                    && subseq_from(cs[j], letters@, 0),
            forall|t: Seq<u8>|
                #![trigger subseq_from(t, letters@, 0)]
                2 <= t.len() <= letters@.len() && subseq_from(t, letters@, 0) ==> cs.contains(t),
            forall|j: int|
                0 <= j < pool@.len() ==> 2 <= (#[trigger] views(pool@)[j]).len() <= letters@.len(),
            forall|s: Seq<u8>|
                views(pool@).contains(s) <==> (exists|k: int|
                    0 <= k < i && (#[trigger] cs[k].to_multiset()) == s.to_multiset()),
        decreases combinations@.len() - i,
    {
        let ghost cmi = cs[i as int];
        proof {
            assert(views(combinations@)[i as int] == combinations@[i as int]@);
        }
        let permutations = get_permutations(&combinations[i]);
        let mut j: usize = 0;
        while j < permutations.len()
            invariant
                3 <= letters@.len() <= 10,
                i < cs.len(),
                cmi == cs[i as int],
                2 <= cmi.len() <= letters@.len(),
                j <= permutations@.len(),
                forall|s: Seq<u8>|
                    views(permutations@).contains(s) <==> (#[trigger] s.to_multiset())
                        == cmi.to_multiset(),
                forall|p: int|
                    0 <= p < pool@.len() ==> 2 <= (#[trigger] views(pool@)[p]).len()
                        <= letters@.len(),
                forall|s: Seq<u8>|
                    views(pool@).contains(s) <==> ((exists|k: int|
                        0 <= k < i && (#[trigger] cs[k].to_multiset()) == s.to_multiset())
                        || views(permutations@).subrange(0, j as int).contains(s)),
            decreases permutations@.len() - j,
        {
            let ghost before = views(pool@);
            let ghost x = views(permutations@)[j as int];
            let w = clone_word(&permutations[j]);
            proof {
                lemma_views_push(pool@, w);
                assert(views(permutations@)[j as int] == permutations@[j as int]@);
            }
            pool.push(w);
            proof {
                assert(views(pool@) == before.push(x));
                // the appended word is an ordering of the current subset
                assert(views(permutations@).contains(x));
                assert(x.to_multiset() == cmi.to_multiset());
                x.to_multiset_ensures();
                cmi.to_multiset_ensures();
                assert(x.len() == cmi.len());
                assert forall|p: int| 0 <= p < views(pool@).len() implies 2 <= (#[trigger] views(
                    pool@,
                )[p]).len() <= letters@.len() by {
                    if p < before.len() {
                        assert(views(pool@)[p] == before[p]);
                    }
                }
                assert forall|s: Seq<u8>| views(pool@).contains(s) implies ((exists|k: int|
                    0 <= k < i && (#[trigger] cs[k].to_multiset()) == s.to_multiset()) || views(
                    permutations@,
                ).subrange(0, j + 1 as int).contains(s)) by {
                    let p = choose|p: int| 0 <= p < views(pool@).len() && views(pool@)[p] == s;
                    if p < before.len() {
                        assert(before.contains(s));
                        if views(permutations@).subrange(0, j as int).contains(s) {
                            let q = choose|q: int|
                                0 <= q < j && views(permutations@).subrange(0, j as int)[q] == s;
                            assert(views(permutations@).subrange(0, j + 1 as int)[q] == s);
                        }
                    } else {
                        assert(s == x);
                        assert(views(permutations@).subrange(0, j + 1 as int)[j as int] == s);
                    }
                }
                assert forall|s: Seq<u8>| ((exists|k: int|
                    0 <= k < i && (#[trigger] cs[k].to_multiset()) == s.to_multiset()) || views(
                    permutations@,
                ).subrange(0, j + 1 as int).contains(s)) implies views(pool@).contains(s) by {
                    if exists|k: int|
                        0 <= k < i && (#[trigger] cs[k].to_multiset()) == s.to_multiset() {
                        assert(before.contains(s));
                        let p = choose|p: int| 0 <= p < before.len() && before[p] == s;
                        assert(views(pool@)[p] == s);
                    } else {
                        let q = choose|q: int|
                            0 <= q < j + 1 && #[trigger] views(permutations@).subrange(
                                0,
                                j + 1 as int,
                            )[q] == s;
                        if q < j {
                            assert(views(permutations@).subrange(0, j as int)[q] == s);
                            assert(views(permutations@).subrange(0, j as int).contains(s));
                            assert(before.contains(s));
                            let p = choose|p: int| 0 <= p < before.len() && before[p] == s;
                            assert(views(pool@)[p] == s);
                        } else {
                            assert(s == x);
                            assert(views(pool@)[views(pool@).len() - 1] == s);
                        }
                    }
                }
            }
            j = j + 1;
        }
        proof {
            assert(views(permutations@).subrange(0, permutations@.len() as int) =~= views(
                permutations@,
            ));
            assert forall|s: Seq<u8>| views(pool@).contains(s) implies (exists|k: int|
                0 <= k < i + 1 && (#[trigger] cs[k].to_multiset()) == s.to_multiset()) by {
                if views(permutations@).contains(s) {
                    assert(s.to_multiset() == cmi.to_multiset());
                    assert(cs[i as int].to_multiset() == s.to_multiset());
                }
            }
            assert forall|s: Seq<u8>| (exists|k: int|
                0 <= k < i + 1 && (#[trigger] cs[k].to_multiset())
                    == s.to_multiset()) implies views(pool@).contains(s) by {
                let k = choose|k: int|
                    0 <= k < i + 1 && (#[trigger] cs[k].to_multiset()) == s.to_multiset();
                if k == i {
                    assert(views(permutations@).contains(s));
                }
            }
        }
        i = i + 1;
    }
    proof {
        lemma_combos_cover(letters@, cs);
    }
    pool
}

/// The whole pipeline: build the candidate pool for the letters, confirm
/// each candidate against the ascending dictionary, and return the confirmed
/// words sorted ascending together with their count. A word is reported
/// exactly when it stands in the dictionary and can be formed from the
/// letters; every reported word has at least two characters.
pub fn solve(letters: &Vec<u8>, dictionary: &Vec<Vec<u8>>) -> (r: (Vec<Vec<u8>>, usize))
    requires
        3 <= letters@.len() <= 10,
        sorted(views(dictionary@)),
    ensures
        sorted_strict(views(r.0@)),
        r.1 == r.0@.len(),
        forall|s: Seq<u8>|
            views(r.0@).contains(s) <==> views(dictionary@).contains(s) && can_form(s, letters@),
        forall|s: Seq<u8>|
            views(r.0@).contains(s) ==> 2 <= s.len() <= letters@.len(),
{
    let pool = build_candidates(letters);
    let results = match_all(&pool, dictionary);
    let r = finalize(&results);
    proof {
        assert forall|s: Seq<u8>| #![trigger views(r.0@).contains(s)]
            views(r.0@).contains(s) <==> views(dictionary@).contains(s) && can_form(
                s,
                letters@,
            ) by {
            if views(r.0@).contains(s) {
                assert(results@.contains(s));
                assert(views(pool@).contains(s));
            }
            if views(dictionary@).contains(s) && can_form(s, letters@) {
                assert(views(pool@).contains(s));
                assert(results@.contains(s));
            }
        }
        assert forall|s: Seq<u8>| views(r.0@).contains(s) implies 2 <= s.len()
            <= letters@.len() by {
            assert(results@.contains(s));
            assert(views(pool@).contains(s));
            let p = choose|p: int| 0 <= p < views(pool@).len() && views(pool@)[p] == s;
            assert(2 <= views(pool@)[p].len() <= letters@.len());
        }
    }
    r
}

/// The multiset of a one-character sequence.
proof fn lemma_singleton_multiset(c: u8)
    ensures
        seq![c].to_multiset() == Multiset::<u8>::empty().insert(c),
{
    broadcast use vstd::seq_lib::group_to_multiset_ensures;
    broadcast use vstd::multiset::group_multiset_axioms;

    assert(seq![c] =~= Seq::<u8>::empty().push(c));
    assert(Seq::<u8>::empty().to_multiset().len() == 0);
    vstd::multiset::lemma_multiset_empty_len::<u8>(Seq::<u8>::empty().to_multiset());
    assert(Seq::<u8>::empty().to_multiset() =~= Multiset::<u8>::empty());
    assert(Seq::<u8>::empty().push(c).to_multiset() =~= Seq::<u8>::empty().to_multiset().insert(
        c,
    ));
    assert(seq![c].to_multiset() =~= Multiset::<u8>::empty().insert(c));
}

/// Splitting off the first remaining character splits the multiset.
proof fn lemma_skip_decompose(chars: Seq<u8>, i: int)
    requires
        0 <= i < chars.len(),
    ensures
        chars.skip(i).to_multiset() == seq![chars[i]].to_multiset().add(
            chars.skip(i + 1).to_multiset(),
        ),
{
    assert(chars.skip(i) =~= seq![chars[i]] + chars.skip(i + 1));
    vstd::seq_lib::lemma_multiset_commutative(seq![chars[i]], chars.skip(i + 1));
}

/// A subsequence takes no character more often than it occurs.
proof fn lemma_subseq_submultiset(t: Seq<u8>, chars: Seq<u8>, i: int)
    requires
        0 <= i <= chars.len(),
        subseq_from(t, chars, i),
    ensures
        t.to_multiset().subset_of(chars.skip(i).to_multiset()),
    decreases chars.len() - i,
{
    broadcast use vstd::seq_lib::group_to_multiset_ensures;
    broadcast use vstd::multiset::group_multiset_axioms;

    if t.len() == 0 {
        assert(t.to_multiset().len() == 0);
        vstd::multiset::lemma_multiset_empty_len::<u8>(t.to_multiset());
        assert(t.to_multiset() =~= Multiset::<u8>::empty());
        assert forall|v: u8| t.to_multiset().count(v) <= chars.skip(i).to_multiset().count(
            v,
        ) by {
            assert(t.to_multiset().count(v) == 0);
        }
    } else {
        assert(i < chars.len());
        let c = chars[i];
        lemma_skip_decompose(chars, i);
        lemma_singleton_multiset(c);
        if subseq_from(t, chars, i + 1) {
            lemma_subseq_submultiset(t, chars, i + 1);
            assert forall|v: u8| t.to_multiset().count(v) <= chars.skip(i).to_multiset().count(
                v,
            ) by {
                assert(t.to_multiset().count(v) <= chars.skip(i + 1).to_multiset().count(v));
                assert(chars.skip(i).to_multiset().count(v) == seq![c].to_multiset().count(v)
                    + chars.skip(i + 1).to_multiset().count(v));
            }
        } else {
            assert(c == t[0] && subseq_from(t.drop_first(), chars, i + 1));
            lemma_subseq_submultiset(t.drop_first(), chars, i + 1);
            assert(t =~= seq![t[0]] + t.drop_first());
            vstd::seq_lib::lemma_multiset_commutative(seq![t[0]], t.drop_first());
            assert forall|v: u8| t.to_multiset().count(v) <= chars.skip(i).to_multiset().count(
                v,
            ) by {
                assert(t.to_multiset().count(v) == seq![t[0]].to_multiset().count(v)
                    + t.drop_first().to_multiset().count(v));
                assert(t.drop_first().to_multiset().count(v) <= chars.skip(
                    i + 1,
                ).to_multiset().count(v));
                assert(chars.skip(i).to_multiset().count(v) == seq![c].to_multiset().count(v)
                    + chars.skip(i + 1).to_multiset().count(v));
            }
        }
    }
}

/// Any selection of the remaining characters, with multiplicities, can be
/// realized as a subsequence.
proof fn lemma_submultiset_subseq(s: Seq<u8>, chars: Seq<u8>, i: int)
    requires
        0 <= i <= chars.len(),
        s.to_multiset().subset_of(chars.skip(i).to_multiset()),
    ensures
        exists|t: Seq<u8>| subseq_from(t, chars, i) && t.to_multiset() == s.to_multiset(),
    decreases chars.len() - i,
{
    broadcast use vstd::seq_lib::group_to_multiset_ensures;
    broadcast use vstd::multiset::group_multiset_axioms;

    if s.len() == 0 {
        let t = Seq::<u8>::empty();
        assert(s =~= t);
        assert(subseq_from(t, chars, i) && t.to_multiset() == s.to_multiset());
    } else {
        assert(s.contains(s[0]));
        assert(s.to_multiset().count(s[0]) > 0);
        if i == chars.len() {
            assert(chars.skip(i).len() == 0);
            assert(chars.skip(i).to_multiset().len() == 0);
            vstd::multiset::lemma_multiset_empty_len::<u8>(chars.skip(i).to_multiset());
            assert(chars.skip(i).to_multiset().count(s[0]) == 0);
            assert(false);
        }
        let c = chars[i];
        lemma_skip_decompose(chars, i);
        lemma_singleton_multiset(c);
        if s.to_multiset().count(c) > 0 {
            assert(s.contains(c));
            let idx = choose|idx: int| 0 <= idx < s.len() && s[idx] == c;
            let s2 = s.remove(idx);
            assert(s2.to_multiset() =~= s.to_multiset().remove(c));
            assert forall|v: u8| s2.to_multiset().count(v) <= chars.skip(
                i + 1,
            ).to_multiset().count(v) by {
                assert(s.to_multiset().count(v) <= chars.skip(i).to_multiset().count(v));
                assert(chars.skip(i).to_multiset().count(v) == seq![c].to_multiset().count(v)
                    + chars.skip(i + 1).to_multiset().count(v));
                assert(s2.to_multiset().count(v) == s.to_multiset().remove(c).count(v));
            }
            lemma_submultiset_subseq(s2, chars, i + 1);
            let t2 = choose|t2: Seq<u8>|
                subseq_from(t2, chars, i + 1) && t2.to_multiset() == s2.to_multiset();
            let t = seq![c] + t2;
            assert(t[0] == c);
            assert(t.drop_first() =~= t2);
            assert(subseq_from(t, chars, i));
            vstd::seq_lib::lemma_multiset_commutative(seq![c], t2);
            assert forall|v: u8| t.to_multiset().count(v) == s.to_multiset().count(v) by {
                assert(t.to_multiset().count(v) == seq![c].to_multiset().count(v)
                    + t2.to_multiset().count(v));
                assert(t2.to_multiset().count(v) == s.to_multiset().remove(c).count(v));
            }
            assert(t.to_multiset() =~= s.to_multiset());
            assert(subseq_from(t, chars, i) && t.to_multiset() == s.to_multiset());
        } else {
            assert forall|v: u8| s.to_multiset().count(v) <= chars.skip(
                i + 1,
            ).to_multiset().count(v) by {
                if v == c {
                    assert(s.to_multiset().count(c) == 0);
                } else {
                    assert(chars.skip(i).to_multiset().count(v) == seq![c].to_multiset().count(v)
                        + chars.skip(i + 1).to_multiset().count(v));
                    assert(seq![c].to_multiset().count(v) == 0);
                }
            }
            lemma_submultiset_subseq(s, chars, i + 1);
            let t = choose|t: Seq<u8>|
                subseq_from(t, chars, i + 1) && t.to_multiset() == s.to_multiset();
            crate::gen::lemma_subseq_weaken(t, chars, i + 1, i);
            assert(subseq_from(t, chars, i) && t.to_multiset() == s.to_multiset());
        }
    }
}

/// What `can_form` amounts to: a word can be formed from the letters exactly
/// when it has at least two characters and uses each character at most as
/// often as it occurs among the letters.
pub proof fn lemma_can_form_characterization(s: Seq<u8>, letters: Seq<u8>)
    ensures
        can_form(s, letters) <==> (2 <= s.len() && s.to_multiset().subset_of(
            letters.to_multiset(),
        )),
{
    broadcast use vstd::seq_lib::group_to_multiset_ensures;

    assert(letters.skip(0) =~= letters);
    if can_form(s, letters) {
        let t = choose|t: Seq<u8>|
            #![trigger subseq_from(t, letters, 0)]
            subseq_from(t, letters, 0) && 2 <= t.len() && s.to_multiset() == t.to_multiset();
        lemma_subseq_submultiset(t, letters, 0);
        assert(s.to_multiset().len() == s.len());
        assert(t.to_multiset().len() == t.len());
    }
    if 2 <= s.len() && s.to_multiset().subset_of(letters.to_multiset()) {
        lemma_submultiset_subseq(s, letters, 0);
        let t = choose|t: Seq<u8>|
            subseq_from(t, letters, 0) && t.to_multiset() == s.to_multiset();
        assert(s.to_multiset().len() == s.len());
        assert(t.to_multiset().len() == t.len());
        assert(subseq_from(t, letters, 0) && 2 <= t.len() && s.to_multiset() == t.to_multiset());
    }
}

/// Running the pipeline twice on one input changes nothing: any two
/// outcomes that `solve`'s contract admits for the same letters and the same
/// dictionary are identical, in contents and in order.
pub proof fn lemma_solve_deterministic(
    letters: Seq<u8>,
    dictionary: Seq<Seq<u8>>,
    r1: Seq<Seq<u8>>,
    r2: Seq<Seq<u8>>,
)
    requires
        sorted_strict(r1),
        sorted_strict(r2),
        forall|s: Seq<u8>| r1.contains(s) <==> dictionary.contains(s) && can_form(s, letters),
        forall|s: Seq<u8>| r2.contains(s) <==> dictionary.contains(s) && can_form(s, letters),
    ensures
        r1 == r2,
{
    lemma_sorted_strict_unique(r1, r2);
}

} // verus!
