use completers::scoring::{score, subsequence_match, word_start_indices, ScoringSettings};

fn chars(s: &str) -> Vec<char> {
    s.chars().collect()
}

#[test]
fn test_subsequence_match() {
    assert!(subsequence_match("", ""));
    assert!(subsequence_match("", "foo"));
    assert!(subsequence_match("foo", "foo"));
    assert!(subsequence_match("bar", "BAR"));
    assert!(subsequence_match("bar", "bazaar"));
    assert!(subsequence_match("bar", "BaZaAR"));
    assert!(!subsequence_match("foo", ""));
    assert!(!subsequence_match("foo", "fo"));
    assert!(!subsequence_match("bar", "bra"));
    assert!(!subsequence_match("baaaar", "bar"));
}

#[test]
fn test_word_start_indices() {
    let check = |s: &str, expected: Vec<usize>| assert_eq!(word_start_indices(&chars(s)), expected);
    check("foo", vec![0]);
    check("foo bar", vec![0, 4]);
    check("foo_bar", vec![0, 4]);
    check("directory/subdir/file.ext", vec![0, 10, 17, 22]);
}

#[test]
fn test_scoring_plain() {
    let settings = ScoringSettings {
        letter_match: 1,
        subsequent_bonus: 0,
        word_start_bonus: 0,
    };
    assert_eq!(score("", "", &settings), 0);
    assert_eq!(score("foo", "", &settings), 0);
    assert_eq!(score("foo", "f", &settings), 1);
    assert_eq!(score("foo", "o", &settings), 1);
    assert_eq!(score("foo", "fo", &settings), 2);
    assert_eq!(score("foo", "oo", &settings), 2);
    assert_eq!(score("foo", "foo", &settings), 3);
    assert_eq!(score("foo", "ooo", &settings), 2);
    assert_eq!(score("bar", "br", &settings), 2);

    assert_eq!(score("foo", "fooo", &settings), 0);
}

#[test]
fn test_scoring_word_start_bonus() {
    let settings = ScoringSettings {
        letter_match: 1,
        subsequent_bonus: 0,
        word_start_bonus: 3,
    };
    assert_eq!(score("", "", &settings), 0);
    assert_eq!(score("foo", "", &settings), 0);
    assert_eq!(score("foo", "f", &settings), 4);
    assert_eq!(score("foo", "o", &settings), 1);
    assert_eq!(score("foo", "fo", &settings), 5);
    assert_eq!(score("foo", "oo", &settings), 2);
    assert_eq!(score("foo bar", "fb", &settings), 8);
    assert_eq!(score("foo/bar", "foba", &settings), 10);
    assert_eq!(score("foo/bar", "fa", &settings), 5);
    assert_eq!(score("foo/bar", "oa", &settings), 2);
}

#[test]
fn test_scoring_subsequent_bonus() {
    let settings = ScoringSettings {
        letter_match: 1,
        subsequent_bonus: 3,
        word_start_bonus: 0,
    };
    assert_eq!(score("", "", &settings), 0);
    assert_eq!(score("foo", "", &settings), 0);
    assert_eq!(score("foo", "f", &settings), 1);
    assert_eq!(score("foo", "fo", &settings), 5);
    assert_eq!(score("foo", "oo", &settings), 5);
    assert_eq!(score("foo", "foo", &settings), 9);
    assert_eq!(score("bar", "ar", &settings), 5);
    assert_eq!(score("bar", "br", &settings), 2);
    assert_eq!(score("bar", "bar", &settings), 9);
    assert_eq!(score("foo/bar", "ob", &settings), 2);
}

#[test]
fn subsequence_match_is_reflexive_and_case_blind() {
    for q in ["", "a", "Foo Bar", "x/Y_z", "  "] {
        assert!(subsequence_match(q, q));
        assert!(subsequence_match("", q));
    }
    assert!(subsequence_match("FOO", "foo"));
    assert!(subsequence_match("f o", "foo"));
    assert!(!subsequence_match("a", ""));
    assert!(subsequence_match(" ", ""));
}

#[test]
fn score_grows_with_each_weight() {
    let base = ScoringSettings { letter_match: 1, subsequent_bonus: 1, word_start_bonus: 1 };
    let more_letter = ScoringSettings { letter_match: 2, subsequent_bonus: 1, word_start_bonus: 1 };
    let more_subsequent = ScoringSettings { letter_match: 1, subsequent_bonus: 4, word_start_bonus: 1 };
    let more_word = ScoringSettings { letter_match: 1, subsequent_bonus: 1, word_start_bonus: 5 };
    for (c, q) in [("foo/bar", "fb"), ("directory/file", "dfi"), ("abc", "abc"), ("xyz", "q")] {
        let s = score(c, q, &base);
        assert!(score(c, q, &more_letter) >= s);
        assert!(score(c, q, &more_subsequent) >= s);
        assert!(score(c, q, &more_word) >= s);
    }
}

#[test]
fn longer_query_scores_zero() {
    let settings = ScoringSettings { letter_match: 1, subsequent_bonus: 3, word_start_bonus: 2 };
    assert_eq!(score("ab", "abc", &settings), 0);
    assert_eq!(score("", "a", &settings), 0);
    assert_eq!(score("xyz", "q", &settings), 0);
}

#[test]
fn score_with_all_weights() {
    let settings = ScoringSettings { letter_match: 1, subsequent_bonus: 3, word_start_bonus: 2 };
    // f: 1 + 2 (word start), o: 1 + 3 (follows f), o: 1 + 3.
    assert_eq!(score("foo", "foo", &settings), 11);
    assert_eq!(score("FOO", "foo", &settings), 11);
    assert_eq!(score("foo", "f o", &settings), 7);
}

#[test]
fn score_saturates() {
    let settings = ScoringSettings {
        letter_match: u64::MAX,
        subsequent_bonus: u64::MAX,
        word_start_bonus: u64::MAX,
    };
    assert_eq!(score("foo", "foo", &settings), u64::MAX);
}

#[test]
fn whitespace_matches_std_on_every_character() {
    for code in 0u32..0x11_0000 {
        if let Some(c) = char::from_u32(code) {
            if "aAbB".contains(c) {
                continue;
            }
            let q: String = ['a', c, 'b'].iter().collect();
            let expected = c.is_whitespace();
            assert_eq!(subsequence_match(&q, "ab"), expected, "{:?}", c);
        }
    }
}

#[test]
fn longer_query_in_bytes_scores_zero() {
    let settings = ScoringSettings { letter_match: 1, subsequent_bonus: 0, word_start_bonus: 0 };
    assert_eq!(score("ab", "a\u{3000}", &settings), 0);
    assert_eq!(score("ab", "a ", &settings), 1);
}
