//! The subset generator: every distinct string drawn from the input letters
//! at strictly increasing positions, for every length from the full input
//! length down to two, longest first, each string emitted at most once.
use vstd::prelude::*;

use crate::count::binom;
use crate::count::binom_sum;
use crate::count::lemma_binom_sum_from_two;
use crate::count::pow2;
use crate::order::eq_bytes;
use crate::order::views;

verus! {

/// `t` can be drawn from `chars` at strictly increasing positions, all of
/// them at least `i`.
pub open spec fn subseq_from(t: Seq<u8>, chars: Seq<u8>, i: int) -> bool
    decreases chars.len() - i,
{
    if t.len() == 0 {
        true
    } else if i < 0 || i >= chars.len() {
        false
    } else {
        (chars[i] == t[0] && subseq_from(t.drop_first(), chars, i + 1)) || subseq_from(
            t,
            chars,
            i + 1,
        )
    }
}

/// A subsequence drawn from positions at least `i` has at most
/// `chars.len() - i` characters.
pub proof fn lemma_subseq_len(t: Seq<u8>, chars: Seq<u8>, i: int)
    requires
        0 <= i <= chars.len(),
        subseq_from(t, chars, i),
    ensures
        t.len() <= chars.len() - i,
    decreases chars.len() - i,
{
    if t.len() != 0 {
        if subseq_from(t, chars, i + 1) {
            lemma_subseq_len(t, chars, i + 1);
        } else {
            lemma_subseq_len(t.drop_first(), chars, i + 1);
        }
    }
}

/// Positions allowed from `i` on are also allowed from any earlier `j`.
pub proof fn lemma_subseq_weaken(t: Seq<u8>, chars: Seq<u8>, i: int, j: int)
    requires
        0 <= j <= i,
        subseq_from(t, chars, i),
    ensures
        subseq_from(t, chars, j),
    decreases i - j,
{
    if j < i && t.len() != 0 {
        lemma_subseq_weaken(t, chars, i, j + 1);
        assert(i < chars.len());
    }
}

/// Drawing `c` from the first `i` characters and `t` from position `i` on
/// gives `c + t` as a subsequence of the whole.
pub proof fn lemma_subseq_concat(c: Seq<u8>, t: Seq<u8>, chars: Seq<u8>, i: int, j: int)
    requires
        0 <= j <= i <= chars.len(),
        subseq_from(c, chars.subrange(0, i), j),
        subseq_from(t, chars, i),
    ensures
        subseq_from(c + t, chars, j),
    decreases c.len() + i - j,
{
    let pre = chars.subrange(0, i);
    if c.len() == 0 {
        assert(c + t =~= t);
        lemma_subseq_weaken(t, chars, i, j);
    } else {
        assert(j < i);
        if subseq_from(c, pre, j + 1) {
            lemma_subseq_concat(c, t, chars, i, j + 1);
        } else {
            assert(pre[j] == c[0] && subseq_from(c.drop_first(), pre, j + 1));
            lemma_subseq_concat(c.drop_first(), t, chars, i, j + 1);
            assert((c + t).drop_first() =~= c.drop_first() + t);
            assert((c + t)[0] == c[0]);
            assert(chars[j] == pre[j]);
        }
    }
}

/// Appending a word that is not yet present keeps a word list free of
/// duplicates.
pub proof fn lemma_push_distinct(v: Seq<Seq<u8>>, x: Seq<u8>)
    requires
        v.no_duplicates(),
        !v.contains(x),
    ensures
        v.push(x).no_duplicates(),
{
    let w = v.push(x);
    assert forall|i: int, j: int| 0 <= i < j < w.len() implies w[i] != w[j] by {
        if j == v.len() {
            assert(w[i] == v[i]);
            assert(v.contains(v[i]));
        }
    }
}

/// The views of a list grown by one word.
pub proof fn lemma_views_push(s: Seq<Vec<u8>>, w: Vec<u8>)
    ensures
        views(s.push(w)) == views(s).push(w@),
{
    assert(views(s.push(w)) =~= views(s).push(w@));
}

/// A fresh copy of a word.
pub fn clone_word(w: &Vec<u8>) -> (r: Vec<u8>)
    ensures
        r@ == w@,
{
    let mut out: Vec<u8> = Vec::new();
    let mut i: usize = 0;
    while i < w.len()
        invariant
            i <= w@.len(),
            out@ == w@.subrange(0, i as int),
        decreases w@.len() - i,
    {
        out.push(w[i]);
        proof {
            assert(out@ =~= w@.subrange(0, i + 1 as int));
        }
        i = i + 1;
    }
    proof {
        assert(out@ =~= w@);
    }
    out
}

/// Whether the word `w` already occurs in the list `l`.
pub fn contains_word_list(l: &Vec<Vec<u8>>, w: &Vec<u8>) -> (r: bool)
    ensures
        r == views(l@).contains(w@),
{
    let mut i: usize = 0;
    while i < l.len()
        invariant
            i <= l@.len(),
            forall|j: int| 0 <= j < i ==> views(l@)[j] != w@,
        decreases l@.len() - i,
    {
        proof {
            assert(views(l@)[i as int] == l@[i as int]@);
        }
        if eq_bytes(&l[i], w) {
            return true;
        }
        i = i + 1;
    }
    false
}

/// One pass of the subset generator: extends `result` with every string
/// `current + t` where `t` takes `rem_len` further letters of `chars` at
/// increasing positions starting at `index`, skipping any string the run has
/// already produced.
pub fn generate_combinations(
    chars: &Vec<u8>,
    result: &mut Vec<Vec<u8>>,
    current: Vec<u8>,
    index: usize,
    rem_len: usize,
)
    requires
        index <= chars@.len(),
        1 <= rem_len,
        subseq_from(current@, chars@.subrange(0, index as int), 0),
        views(old(result)@).no_duplicates(),
    ensures
        final(result)@.len() >= old(result)@.len(),
        forall|j: int|
            0 <= j < old(result)@.len() ==> views(final(result)@)[j] == views(old(result)@)[j],
        views(final(result)@).no_duplicates(),
        forall|j: int|
            old(result)@.len() <= j < final(result)@.len() ==> views(final(result)@)[j].len()
                == current@.len() + rem_len && subseq_from(views(final(result)@)[j], chars@, 0),
        forall|t: Seq<u8>|
            #![trigger subseq_from(t, chars@, index as int)]
            t.len() == rem_len && subseq_from(t, chars@, index as int) ==> views(
                final(result)@,
            ).contains(current@ + t),
        final(result)@.len() <= old(result)@.len() + binom(
            (chars@.len() - index) as nat,
            rem_len as nat,
        ),
    decreases rem_len,
{
    let ghost base = result@;
    let mut i: usize = index;
    while i < chars.len()
        invariant
            index <= i <= chars@.len(),
            1 <= rem_len,
            subseq_from(current@, chars@.subrange(0, index as int), 0),
            views(base).no_duplicates(),
            result@.len() >= base.len(),
            forall|j: int| 0 <= j < base.len() ==> views(result@)[j] == views(base)[j],
            views(result@).no_duplicates(),
            forall|j: int|
                base.len() <= j < result@.len() ==> views(result@)[j].len() == current@.len()
                    + rem_len && subseq_from(views(result@)[j], chars@, 0),
            forall|t: Seq<u8>|
                #![trigger subseq_from(t, chars@, index as int)]
                t.len() == rem_len && subseq_from(t, chars@, index as int) && !subseq_from(
                    t,
                    chars@,
                    i as int,
                ) ==> views(result@).contains(current@ + t),
            result@.len() + binom((chars@.len() - i) as nat, rem_len as nat) <= base.len() + binom(
                (chars@.len() - index) as nat,
                rem_len as nat,
            ),
        decreases chars@.len() - i,
    {
        let ghost pre_iter = result@;
        let mut next = clone_word(&current);
        next.push(chars[i]);
        proof {
            assert(next@ == current@.push(chars@[i as int]));
            // `next` is a subsequence of the first i + 1 characters.
            let one = seq![chars@[i as int]];
            assert(subseq_from(one, chars@, i as int)) by {
                assert(one.drop_first() =~= Seq::<u8>::empty());
                assert(subseq_from(Seq::<u8>::empty(), chars@, i + 1));
                assert(one[0] == chars@[i as int]);
            }
            lemma_subseq_weaken(one, chars@, i as int, index as int);
            lemma_subseq_concat(current@, one, chars@, index as int, 0);
            assert(current@ + one =~= next@);
            assert(subseq_from(next@, chars@, 0));
            // restated over the prefix ending right after i, for the recursive call
            let pre1 = chars@.subrange(0, i + 1 as int);
            assert(chars@.subrange(0, index as int) =~= pre1.subrange(0, index as int));
            assert(subseq_from(one, pre1, i as int)) by {
                assert(one.drop_first() =~= Seq::<u8>::empty());
                assert(subseq_from(Seq::<u8>::empty(), pre1, i + 1));
                assert(one[0] == pre1[i as int]);
            }
            lemma_subseq_weaken(one, pre1, i as int, index as int);
            lemma_subseq_concat(current@, one, pre1, index as int, 0);
            assert(subseq_from(next@, pre1, 0));
        }
        if rem_len == 1 {
            if !contains_word_list(result, &next) {
                proof {
                    lemma_push_distinct(views(result@), next@);
                    lemma_views_push(result@, next);
                }
                let ghost nv = next@;
                result.push(next);
                proof {
                    assert(views(result@) == views(pre_iter).push(nv));
                }
            }
            proof {
                assert(views(result@).contains(next@)) by {
                    if views(pre_iter).contains(next@) {
                        let j = choose|j: int|
                            0 <= j < views(pre_iter).len() && views(pre_iter)[j] == next@;
                        assert(views(result@)[j] == next@);
                    } else {
                        assert(views(result@)[views(result@).len() - 1] == next@);
                    }
                }
            }
        } else {
            generate_combinations(chars, result, next, i + 1, rem_len - 1);
        }
        proof {
            // the count bound, advanced from i to i + 1 by Pascal's rule
            assert(binom((chars@.len() - i) as nat, rem_len as nat) == binom(
                (chars@.len() - i - 1) as nat,
                (rem_len - 1) as nat,
            ) + binom((chars@.len() - i - 1) as nat, rem_len as nat));
            if rem_len == 1 {
                assert(binom((chars@.len() - i - 1) as nat, 0) == 1);
            }
            // everything present before this iteration is still present
            assert(result@.len() >= pre_iter.len());
            assert(forall|j: int|
                0 <= j < pre_iter.len() ==> views(result@)[j] == views(pre_iter)[j]);
            // the completeness invariant, advanced from i to i + 1
            assert forall|t: Seq<u8>|
                #![trigger subseq_from(t, chars@, index as int)]
                t.len() == rem_len && subseq_from(t, chars@, index as int) && !subseq_from(
                    t,
                    chars@,
                    i + 1 as int,
                ) implies views(result@).contains(current@ + t) by {
                if subseq_from(t, chars@, i as int) {
                    // t must take the letter at position i
                    assert(chars@[i as int] == t[0] && subseq_from(t.drop_first(), chars@, i + 1));
                    if rem_len == 1 {
                        assert(t =~= seq![chars@[i as int]]);
                        assert(current@ + t =~= next@);
                    } else {
                        assert(current@ + t =~= next@ + t.drop_first());
                        assert(views(result@).contains(next@ + t.drop_first()));
                    }
                } else {
                    assert(views(pre_iter).contains(current@ + t));
                    let j = choose|j: int|
                        0 <= j < views(pre_iter).len() && views(pre_iter)[j] == current@ + t;
                    assert(views(result@)[j] == current@ + t);
                }
            }
        }
        i = i + 1;
    }
    proof {
        assert(binom(0, rem_len as nat) == 0);
    }
}

/// The subset generator: every distinct string drawn from `word` at strictly
/// increasing positions, for every length from `word`'s length down to two,
/// longest first, no string twice.
pub fn get_combinations(word: &Vec<u8>) -> (r: Vec<Vec<u8>>)
    requires
        2 <= word@.len() <= 10,
    ensures
        views(r@).no_duplicates(),
        forall|j: int|
            0 <= j < r@.len() ==> 2 <= views(r@)[j].len() <= word@.len() && subseq_from(
                views(r@)[j],
                word@,
                0,
            ),
        forall|t: Seq<u8>|
            #![trigger subseq_from(t, word@, 0)]
            2 <= t.len() <= word@.len() && subseq_from(t, word@, 0) ==> views(r@).contains(t),
        forall|i: int, j: int|
            0 <= i <= j < r@.len() ==> views(r@)[i].len() >= views(r@)[j].len(),
        r@.len() + word@.len() + 1 <= pow2(word@.len() as nat),
{
    let mut combinations: Vec<Vec<u8>> = Vec::new();
    let mut length: usize = word.len();
    while length >= 2
        invariant
            2 <= word@.len() <= 10,
            1 <= length <= word@.len(),
            views(combinations@).no_duplicates(),
            forall|j: int|
                0 <= j < combinations@.len() ==> length + 1 <= views(combinations@)[j].len()
                    <= word@.len() && subseq_from(views(combinations@)[j], word@, 0),
            forall|t: Seq<u8>|
                #![trigger subseq_from(t, word@, 0)]
                length + 1 <= t.len() <= word@.len() && subseq_from(t, word@, 0) ==> views(
                    combinations@,
                ).contains(t),
            forall|i: int, j: int|
                0 <= i <= j < combinations@.len() ==> views(combinations@)[i].len() >= views(
                    combinations@,
                )[j].len(),
            combinations@.len() + binom_sum(word@.len() as nat, 2, length as int) <= binom_sum(
                word@.len() as nat,
                2,
                word@.len() as int,
            ),
        decreases length,
    {
        let ghost before = combinations@;
        proof {
            assert(subseq_from(Seq::<u8>::empty(), word@.subrange(0, 0), 0));
            assert(binom_sum(word@.len() as nat, 2, length as int) == binom(
                word@.len() as nat,
                length as nat,
            ) + binom_sum(word@.len() as nat, 2, length - 1));
        }
        generate_combinations(word, &mut combinations, Vec::new(), 0, length);
        proof {
            assert forall|t: Seq<u8>|
                #![trigger subseq_from(t, word@, 0)]
                length <= t.len() <= word@.len() && subseq_from(t, word@, 0) implies views(
                combinations@,
            ).contains(t) by {
                if t.len() == length {
                    assert(Seq::<u8>::empty() + t =~= t);
                } else {
                    assert(views(before).contains(t));
                    let j = choose|j: int|
                        0 <= j < views(before).len() && views(before)[j] == t;
                    assert(views(combinations@)[j] == t);
                }
            }
        }
        length = length - 1;
    }
    proof {
        assert(binom_sum(word@.len() as nat, 2, 1) == 0);
        lemma_binom_sum_from_two(word@.len() as nat);
    }
    combinations
}

} // verus!
