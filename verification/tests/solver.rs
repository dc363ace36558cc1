use anagrams::gen::get_combinations;
use anagrams::matcher::contains_word;
use anagrams::matcher::finalize;
use anagrams::matcher::is_sorted_words;
use anagrams::matcher::match_all;
use anagrams::matcher::validate_query;
use anagrams::matcher::ResultSet;
use anagrams::perms::get_permutations;
use anagrams::build_candidates;
use anagrams::solve;

fn w(s: &str) -> Vec<u8> {
    s.as_bytes().to_vec()
}

fn words(xs: &[&str]) -> Vec<Vec<u8>> {
    xs.iter().map(|s| w(s)).collect()
}

#[test]
fn scenario_cat() {
    let dict = words(&["act", "at", "cat", "tac"]);
    assert!(is_sorted_words(&dict));
    let (found, count) = solve(&w("cat"), &dict);
    assert_eq!(found, words(&["act", "at", "cat", "tac"]));
    assert_eq!(count, 4);
}

#[test]
fn scenario_aab() {
    assert_eq!(get_permutations(&w("aa")), words(&["aa"]));
    let dict = words(&["a", "aa", "ab", "ba"]);
    assert!(is_sorted_words(&dict));
    let (found, count) = solve(&w("aab"), &dict);
    assert_eq!(found, words(&["aa", "ab", "ba"]));
    assert_eq!(count, 3);
}

#[test]
fn scenario_ten_distinct_letters_empty_dictionary() {
    let dict: Vec<Vec<u8>> = Vec::new();
    let (found, count) = solve(&w("abcdefghij"), &dict);
    assert!(found.is_empty());
    assert_eq!(count, 0);
}

#[test]
fn scenario_repeated_candidate_matched_once() {
    let mut candidates: Vec<Vec<u8>> = Vec::new();
    for _ in 0..50 {
        candidates.push(w("cat"));
    }
    candidates.push(w("tca"));
    let dict = words(&["cat"]);
    let results = match_all(&candidates, &dict);
    let (found, count) = finalize(&results);
    assert_eq!(found, words(&["cat"]));
    assert_eq!(count, 1);
}

#[test]
fn pipeline_runs_are_identical() {
    let dict = words(&["aa", "ab", "abc", "ba", "cab"]);
    let first = solve(&w("aab"), &dict);
    let second = solve(&w("aab"), &dict);
    assert_eq!(first, second);
}

#[test]
fn subsets_of_cat() {
    let combos = get_combinations(&w("cat"));
    assert_eq!(combos, words(&["cat", "ca", "ct", "at"]));
    // within the bound 2^3 - (3 + 1)
    assert!(combos.len() <= 4);
}

#[test]
fn subsets_of_aab_suppress_duplicates() {
    let combos = get_combinations(&w("aab"));
    assert_eq!(combos, words(&["aab", "aa", "ab"]));
    assert!(combos.len() <= 4);
}

#[test]
fn subset_count_bound_holds_for_distinct_letters() {
    let combos = get_combinations(&w("abcde"));
    // 2^5 - (5 + 1) index combinations of size two to five
    assert_eq!(combos.len(), 26);
    for c in combos.iter() {
        assert!(2 <= c.len() && c.len() <= 5);
    }
}

#[test]
fn permutations_of_cat() {
    let perms = get_permutations(&w("cat"));
    assert_eq!(perms, words(&["act", "atc", "cat", "cta", "tac", "tca"]));
}

#[test]
fn permutation_count_accounts_for_repeats() {
    // 3! / 2! distinct orderings
    let perms = get_permutations(&w("aab"));
    assert_eq!(perms, words(&["aab", "aba", "baa"]));
    // 4! / (2! * 2!) distinct orderings
    let perms = get_permutations(&w("aabb"));
    assert_eq!(perms.len(), 6);
    // 4! distinct orderings, strictly ascending
    let perms = get_permutations(&w("abcd"));
    assert_eq!(perms.len(), 24);
    for i in 1..perms.len() {
        assert!(perms[i - 1] < perms[i]);
    }
}

#[test]
fn candidate_pool_of_cat() {
    let pool = build_candidates(&w("cat"));
    assert_eq!(
        pool,
        words(&[
            "act", "atc", "cat", "cta", "tac", "tca", "ac", "ca", "ct", "tc", "at", "ta",
        ])
    );
}

#[test]
fn binary_search_finds_only_members() {
    let dict = words(&["ab", "abc", "b", "ba", "cab"]);
    assert!(is_sorted_words(&dict));
    assert!(contains_word(&dict, &w("ab")));
    assert!(contains_word(&dict, &w("cab")));
    assert!(contains_word(&dict, &w("b")));
    assert!(!contains_word(&dict, &w("a")));
    assert!(!contains_word(&dict, &w("bc")));
    assert!(!contains_word(&dict, &w("cabs")));
}

#[test]
fn empty_dictionary_has_no_members() {
    let dict: Vec<Vec<u8>> = Vec::new();
    assert!(is_sorted_words(&dict));
    assert!(!contains_word(&dict, &w("cat")));
}

#[test]
fn unsorted_word_list_is_detected() {
    let dict = words(&["ba", "ab"]);
    assert!(!is_sorted_words(&dict));
    let with_equal_neighbours = words(&["ab", "ab", "ba"]);
    assert!(is_sorted_words(&with_equal_neighbours));
}

#[test]
fn result_set_holds_each_word_once() {
    let mut results = ResultSet::new();
    results.insert_if_absent(w("cat"));
    results.insert_if_absent(w("act"));
    results.insert_if_absent(w("cat"));
    assert_eq!(results.count(), 2);
    let (found, count) = finalize(&results);
    assert_eq!(found, words(&["act", "cat"]));
    assert_eq!(count, 2);
}

#[test]
fn query_validation() {
    assert!(validate_query(&w("cat")));
    assert!(validate_query(&w("abcdefghij")));
    assert!(!validate_query(&w("at")));
    assert!(!validate_query(&w("abcdefghijk")));
    assert!(!validate_query(&w("cAt")));
    assert!(!validate_query(&w("c4t")));
    assert!(!validate_query(&w("")));
}

#[test]
fn matches_use_each_letter_at_most_its_multiplicity() {
    let dict = words(&["aa", "aaa", "ab", "baa"]);
    assert!(is_sorted_words(&dict));
    let (found, count) = solve(&w("aba"), &dict);
    assert_eq!(found, words(&["aa", "ab", "baa"]));
    assert_eq!(count, 3);
}

#[test]
fn dictionary_with_repeated_entries() {
    let dict = words(&["at", "at", "cat"]);
    assert!(is_sorted_words(&dict));
    let (found, count) = solve(&w("cat"), &dict);
    assert_eq!(found, words(&["at", "cat"]));
    assert_eq!(count, 2);
}
