use swiboe::subsequence_match::{make_query_bitset, is_subsequence, letter_to_index, Candidate,
    CandidateSet, MatchCase};

#[test]
fn test_query_bitset() {
    let candidate = Candidate::new("foobaaar");

    assert!(candidate.matches_query_bitset(&make_query_bitset("foobaar")));
    assert!(candidate.matches_query_bitset(&make_query_bitset("foobaaar")));
    assert!(candidate.matches_query_bitset(&make_query_bitset("fobar")));
    assert!(candidate.matches_query_bitset(&make_query_bitset("rabof")));
    assert!(candidate.matches_query_bitset(&make_query_bitset("bfroa")));
    assert!(candidate.matches_query_bitset(&make_query_bitset("fbr")));
    assert!(candidate.matches_query_bitset(&make_query_bitset("r")));
    assert!(candidate.matches_query_bitset(&make_query_bitset("bbb")));
    assert!(candidate.matches_query_bitset(&make_query_bitset("")));

    assert!(!candidate.matches_query_bitset(&make_query_bitset("foobare")));
    assert!(!candidate.matches_query_bitset(&make_query_bitset("gggg")));
    assert!(!candidate.matches_query_bitset(&make_query_bitset("x")));
    assert!(!candidate.matches_query_bitset(&make_query_bitset("nfoobar")));
    assert!(!candidate.matches_query_bitset(&make_query_bitset("fbrmmm")));
}

#[test]
fn test_is_subsequence() {
    let candidate = "foobaaar";
    assert!(is_subsequence(candidate, "foobar", MatchCase::No).is_some());
    assert!(is_subsequence(candidate, "foobaaar", MatchCase::No).is_some());
    assert!(is_subsequence(candidate, "foOBAaar", MatchCase::No).is_some());
    assert!(is_subsequence(candidate, "FOOBAAAR", MatchCase::No).is_some());
    assert!(is_subsequence(candidate, "fobar", MatchCase::No).is_some());
    assert!(is_subsequence(candidate, "fbr", MatchCase::No).is_some());
    assert!(is_subsequence(candidate, "f", MatchCase::No).is_some());
    assert!(is_subsequence(candidate, "F", MatchCase::No).is_some());
    assert!(is_subsequence(candidate, "o", MatchCase::No).is_some());
    assert!(is_subsequence(candidate, "O", MatchCase::No).is_some());
    assert!(is_subsequence(candidate, "a", MatchCase::No).is_some());
    assert!(is_subsequence(candidate, "r", MatchCase::No).is_some());
    assert!(is_subsequence(candidate, "b", MatchCase::No).is_some());
    assert!(is_subsequence(candidate, "bar", MatchCase::No).is_some());
    assert!(is_subsequence(candidate, "oa", MatchCase::No).is_some());
    assert!(is_subsequence(candidate, "obr", MatchCase::No).is_some());
    assert!(is_subsequence(candidate, "oar", MatchCase::No).is_some());
    assert!(is_subsequence(candidate, "oo", MatchCase::No).is_some());
    assert!(is_subsequence(candidate, "aaa", MatchCase::No).is_some());
    assert!(is_subsequence(candidate, "AAA", MatchCase::No).is_some());
    assert!(is_subsequence(candidate, "", MatchCase::No).is_some());
}

#[test]
fn test_is_not_subsequence() {
    let candidate = "foobaaar";
    assert!(is_subsequence(candidate, "foobra", MatchCase::No).is_none());
    assert!(is_subsequence(candidate, "frb", MatchCase::No).is_none());
    assert!(is_subsequence(candidate, "brf", MatchCase::No).is_none());
    assert!(is_subsequence(candidate, "x", MatchCase::No).is_none());
    assert!(is_subsequence(candidate, "9", MatchCase::No).is_none());
    assert!(is_subsequence(candidate, "-", MatchCase::No).is_none());
    assert!(is_subsequence(candidate, "~", MatchCase::No).is_none());
    assert!(is_subsequence(candidate, " ", MatchCase::No).is_none());
    assert!(is_subsequence(candidate, "rabof", MatchCase::No).is_none());
    assert!(is_subsequence(candidate, "oabfr", MatchCase::No).is_none());
    assert!(is_subsequence(candidate, "ooo", MatchCase::No).is_none());
    assert!(is_subsequence(candidate, "baaara", MatchCase::No).is_none());
    assert!(is_subsequence(candidate, "ffoobaaar", MatchCase::No).is_none());
    assert!(is_subsequence(candidate, "xfoobaaar", MatchCase::No).is_none());
    assert!(is_subsequence(candidate, " foobaaar", MatchCase::No).is_none());
    assert!(is_subsequence(candidate, "foobaaar ", MatchCase::No).is_none());
    assert!(is_subsequence(candidate, "ff", MatchCase::No).is_none());
}

#[test]
fn smoke_test_candidate_set() {
    let mut candidates = CandidateSet::new();

    candidates.insert("FooBarBlub");
    candidates.insert("foobarblub");
    candidates.insert("surpriseExtreem");
    candidates.insert("barblub");

    let mut results = Vec::new();
    {
        candidates.query("fbb", MatchCase::No, &mut results);
        assert_eq!(2, results.len());
    }

    {
        candidates.query("bb", MatchCase::No, &mut results);
        assert_eq!(3, results.len());
        assert_eq!("barblub", results[0].text);
    }

    {
        candidates.query("sxee", MatchCase::No, &mut results);
        assert_eq!(1, results.len());
    }
}

#[test]
fn match_indices_are_exact() {
    let r = is_subsequence("foobaaar", "fbr", MatchCase::No);
    assert_eq!(r, Some(vec![0, 3, 7]));

    let r = is_subsequence("foobaaar", "foobar", MatchCase::No);
    assert_eq!(r, Some(vec![0, 1, 2, 3, 4, 7]));

    let r = is_subsequence("FooBar", "foobar", MatchCase::No);
    assert_eq!(r, Some(vec![0, 1, 2, 3, 4, 5]));

    let r = is_subsequence("FooBar", "foobar", MatchCase::Yes);
    assert_eq!(r, None);

    let r = is_subsequence("abc", "", MatchCase::Yes);
    assert_eq!(r, Some(vec![]));
}

#[test]
fn case_sensitive_match() {
    assert!(is_subsequence("foobaaar", "foobar", MatchCase::Yes).is_some());
    assert!(is_subsequence("foobaaar", "FOOBAR", MatchCase::Yes).is_none());
    assert!(is_subsequence("FooBar", "FB", MatchCase::Yes).is_some());
    assert!(is_subsequence("FooBar", "fb", MatchCase::Yes).is_none());
}

#[test]
fn letter_to_index_folds_into_buckets() {
    assert_eq!(letter_to_index(b'a'), 97);
    assert_eq!(letter_to_index(b'z'), 122);
    assert_eq!(letter_to_index(0), 0);
    assert_eq!(letter_to_index(126), 126);
    assert_eq!(letter_to_index(127), 0);
    assert_eq!(letter_to_index(254), 0);
}

#[test]
fn insert_deduplicates_by_text() {
    let mut candidates = CandidateSet::new();
    candidates.insert("alpha");
    candidates.insert("beta");
    candidates.insert("alpha");
    assert_eq!(candidates.len(), 2);
}

#[test]
fn query_results_sorted_by_score() {
    let mut candidates = CandidateSet::new();
    candidates.insert("xxab");
    candidates.insert("abxx");
    candidates.insert("xaxb");

    let mut results = Vec::new();
    candidates.query("ab", MatchCase::No, &mut results);
    assert_eq!(3, results.len());
    // scores: "abxx" -> 0+1, "xaxb" -> 1+3, "xxab" -> 2+3
    assert_eq!("abxx", results[0].text);
    assert_eq!("xaxb", results[1].text);
    assert_eq!("xxab", results[2].text);
    assert_eq!(results[0].matching_indices, vec![0, 1]);
    assert_eq!(results[2].matching_indices, vec![2, 3]);
}

#[test]
fn non_ascii_candidate_chars_are_skipped() {
    // The non-ASCII character occupies one char index but can never match.
    let r = is_subsequence("é abc", "abc", MatchCase::No);
    assert_eq!(r, Some(vec![2, 3, 4]));
    assert!(is_subsequence("abc", "é", MatchCase::No).is_none());
}
