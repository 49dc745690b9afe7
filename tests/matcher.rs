use nucleo::chars::normalize_char;
use nucleo::config::{
    MatcherConfig, BONUS_BOUNDARY, BONUS_CAMEL123, BONUS_CONSECUTIVE,
    BONUS_FIRST_CHAR_MULTIPLIER, PENALTY_GAP_EXTENSION, PENALTY_GAP_START, SCORE_MATCH,
};
use nucleo::matcher::Matcher;
use nucleo::utf32_str::Utf32Str;

#[derive(Debug)]
enum Algorithm {
    FuzzyOptimal,
    FuzzyGreedy,
    Substring,
}

use Algorithm::{FuzzyGreedy, FuzzyOptimal, Substring};

fn config(normalize: bool, case_sensitive: bool, path: bool) -> MatcherConfig {
    let mut config = MatcherConfig::default();
    config.normalize = normalize;
    config.ignore_case = !case_sensitive;
    if path {
        config.set_match_paths();
    }
    config
}

fn assert_matches(
    algorithm: &[Algorithm],
    normalize: bool,
    case_sensitive: bool,
    path: bool,
    cases: &[(&str, &str, &[u32], u16)],
) {
    let mut matcher = Matcher::new(config(normalize, case_sensitive, path));
    let mut matched_indices = Vec::new();
    let mut needle_buf = Vec::new();
    let mut haystack_buf = Vec::new();
    for &(haystack, needle, indices, mut score) in cases {
        let needle = if !case_sensitive {
            needle.to_lowercase()
        } else {
            needle.to_owned()
        };
        let needle = Utf32Str::new(&needle, &mut needle_buf);
        let haystack = Utf32Str::new(haystack, &mut haystack_buf);
        score += needle.len() as u16 * SCORE_MATCH;
        for algo in algorithm {
            matched_indices.clear();
            let res = match algo {
                FuzzyOptimal => matcher.fuzzy_indices(haystack, needle, &mut matched_indices),
                FuzzyGreedy => matcher.fuzzy_indices_greedy(haystack, needle, &mut matched_indices),
                Substring => matcher.substring_indices(haystack, needle, &mut matched_indices),
            };
            let cfg = &matcher.config;
            let match_chars: Vec<char> = matched_indices
                .iter()
                .map(|&i| normalize_char(haystack.get(i), cfg.normalize, cfg.ignore_case))
                .collect();
            let needle_chars: Vec<char> = (0..needle.len() as u32).map(|i| needle.get(i)).collect();
            assert_eq!(res, Some(score), "{needle:?} did not match {haystack:?} {algo:?}");
            assert_eq!(matched_indices, indices, "{needle:?} match {haystack:?} {algo:?}");
            assert_eq!(match_chars, needle_chars, "indices are incorrect {algo:?}");
        }
    }
}

fn assert_not_matches(normalize: bool, case_sensitive: bool, path: bool, cases: &[(&str, &str)]) {
    let mut matcher = Matcher::new(config(normalize, case_sensitive, path));
    let mut needle_buf = Vec::new();
    let mut haystack_buf = Vec::new();
    for &(haystack, needle) in cases {
        let needle = if !case_sensitive {
            needle.to_lowercase()
        } else {
            needle.to_owned()
        };
        let needle = Utf32Str::new(&needle, &mut needle_buf);
        let haystack = Utf32Str::new(haystack, &mut haystack_buf);
        let res = matcher.fuzzy_match(haystack, needle);
        assert_eq!(res, None, "{needle:?} should not match {haystack:?}");
        let res = matcher.fuzzy_match_greedy(haystack, needle);
        assert_eq!(res, None, "{needle:?} should not match {haystack:?} (greedy)");
    }
}

fn white() -> u16 {
    MatcherConfig::default().bonus_boundary_white
}

fn delimiter() -> u16 {
    MatcherConfig::default().bonus_boundary_delimiter
}

#[test]
fn test_unicode1() {
    assert_matches(
        &[FuzzyGreedy, FuzzyOptimal],
        true,
        false,
        false,
        &[
            ("你好世界", "你好", &[0, 1], white() * BONUS_FIRST_CHAR_MULTIPLIER + BONUS_CONSECUTIVE),
            ("你好世界", "你世", &[0, 2], white() * BONUS_FIRST_CHAR_MULTIPLIER - PENALTY_GAP_START),
        ],
    )
}

#[test]
fn test_long_str() {
    assert_matches(
        &[FuzzyGreedy, FuzzyOptimal],
        false,
        false,
        false,
        &[(
            &"x".repeat(u16::MAX as usize + 1),
            "xx",
            &[0, 1],
            BONUS_FIRST_CHAR_MULTIPLIER * white() + BONUS_CONSECUTIVE,
        )],
    );
}

#[test]
fn test_reject() {
    assert_not_matches(
        true,
        false,
        false,
        &[
            ("你好界", "abc"),
            ("你好界", "a"),
            ("你好世界", "富"),
            ("Só Danço Samba", "sox"),
            ("fooBarbaz", "fooBarbazz"),
            ("fooBarbaz", "c"),
        ],
    );
    assert_not_matches(
        true,
        true,
        false,
        &[
            ("你好界", "abc"),
            ("abc", "你"),
            ("abc", "A"),
            ("abc", "d"),
            ("你好世界", "富"),
            ("Só Danço Samba", "sox"),
            ("fooBarbaz", "oBZ"),
            ("Foo Bar Baz", "fbb"),
            ("fooBarbaz", "fooBarbazz"),
        ],
    );
    assert_not_matches(
        false,
        true,
        false,
        &[("Só Danço Samba", "sod"), ("Só Danço Samba", "soc"), ("Só Danç", "So")],
    );
    assert_not_matches(false, false, false, &[("ۂۂfoۂۂ", "foo")]);
}

#[test]
fn path_mode_run_and_delimiter() {
    assert_matches(
        &[FuzzyGreedy, FuzzyOptimal],
        true,
        false,
        true,
        &[(
            "/.oh-my-zsh/cache",
            "zshc",
            &[8, 9, 10, 12],
            BONUS_BOUNDARY * 2 + BONUS_CONSECUTIVE * 2 - PENALTY_GAP_START + delimiter(),
        )],
    );
}

#[test]
fn camel_case_case_sensitive() {
    assert_matches(
        &[FuzzyGreedy, FuzzyOptimal],
        false,
        true,
        false,
        &[("fooBarbaz1", "oBr", &[2, 3, 5], BONUS_CAMEL123 - PENALTY_GAP_START)],
    );
}

#[test]
fn normalized_latin_letters() {
    assert_matches(
        &[FuzzyGreedy, FuzzyOptimal],
        true,
        false,
        false,
        &[
            (
                "Só Danço Samba",
                "danco",
                &[3, 4, 5, 6, 7],
                white() * BONUS_FIRST_CHAR_MULTIPLIER + 4 * BONUS_CONSECUTIVE,
            ),
            (
                "Danço",
                "danco",
                &[0, 1, 2, 3, 4],
                white() * BONUS_FIRST_CHAR_MULTIPLIER + 4 * BONUS_CONSECUTIVE,
            ),
        ],
    );
}

#[test]
fn substring_picks_best_occurrence() {
    assert_matches(
        &[Substring],
        false,
        false,
        false,
        &[(
            "xfoo foo",
            "foo",
            &[5, 6, 7],
            white() * BONUS_FIRST_CHAR_MULTIPLIER + 2 * BONUS_CONSECUTIVE,
        )],
    );
}

#[test]
fn prefix_postfix_exact() {
    let mut matcher = Matcher::new(MatcherConfig::default());
    let mut hb = Vec::new();
    let mut nb = Vec::new();
    let h = Utf32Str::new("Foo Bar", &mut hb);
    let n = Utf32Str::new("foo", &mut nb);
    let expected = 3 * SCORE_MATCH + white() * BONUS_FIRST_CHAR_MULTIPLIER + 2 * BONUS_CONSECUTIVE;
    assert_eq!(matcher.prefix_match(h, n), Some(expected));
    assert_eq!(matcher.postfix_match(h, n), None);
    assert_eq!(matcher.exact_match(h, n), None);
    let mut idx = Vec::new();
    let mut nb2 = Vec::new();
    let bar = Utf32Str::new("bar", &mut nb2);
    assert_eq!(matcher.postfix_indices(h, bar, &mut idx), Some(expected));
    assert_eq!(idx, vec![4, 5, 6]);
    assert_eq!(matcher.prefix_match(h, bar), None);
    let mut nb3 = Vec::new();
    let whole = Utf32Str::new("foo bar", &mut nb3);
    assert!(matcher.exact_match(h, whole).is_some());
    let mut nb4 = Vec::new();
    let longer = Utf32Str::new("foo bar baz", &mut nb4);
    assert_eq!(matcher.prefix_match(h, longer), None);
    let mut nb5 = Vec::new();
    let empty = Utf32Str::new("", &mut nb5);
    assert_eq!(matcher.exact_match(h, empty), None);
    assert_eq!(matcher.fuzzy_match(h, empty), None);
    matcher.config.ignore_case = false;
    assert_eq!(matcher.prefix_match(h, n), None);
}

#[test]
fn indices_are_valid_and_repeatable() {
    let mut matcher = Matcher::new(MatcherConfig::default());
    let cases = [
        ("src/components/Button.tsx", "cbtn"),
        ("the quick brown fox", "qbf"),
        ("aaaaabaaaab", "ab"),
        ("Só Danço Samba", "sdm"),
    ];
    for (h, n) in cases {
        let mut hb = Vec::new();
        let mut nb = Vec::new();
        let hs = Utf32Str::new(h, &mut hb);
        let ns = Utf32Str::new(n, &mut nb);
        let mut idx = Vec::new();
        let first = matcher.fuzzy_indices(hs, ns, &mut idx);
        assert!(first.is_some());
        assert_eq!(idx.len(), ns.len());
        for w in idx.windows(2) {
            assert!(w[0] < w[1]);
        }
        for (k, &i) in idx.iter().enumerate() {
            assert!((i as usize) < hs.len());
            assert_eq!(normalize_char(hs.get(i), true, true), normalize_char(ns.get(k as u32), true, true));
        }
        let again = matcher.fuzzy_match(hs, ns);
        assert_eq!(first, again);
        let greedy = matcher.fuzzy_match_greedy(hs, ns);
        assert!(greedy.is_some());
        assert!(first.unwrap() >= greedy.unwrap());
    }
}

#[test]
fn substring_at_least_fuzzy_on_contiguous_needle() {
    let mut matcher = Matcher::new(MatcherConfig::default());
    let mut hb = Vec::new();
    let mut nb = Vec::new();
    let h = Utf32Str::new("fxoxoxbxaxr foobar", &mut hb);
    let n = Utf32Str::new("foobar", &mut nb);
    let sub = matcher.substring_match(h, n).unwrap();
    let fuzzy = matcher.fuzzy_match(h, n).unwrap();
    assert!(sub >= fuzzy);
}

#[test]
fn greedy_and_optimal_agree_on_rejection() {
    let mut matcher = Matcher::new(MatcherConfig::default());
    let mut hb = Vec::new();
    let mut nb = Vec::new();
    let h = Utf32Str::new("abcdef", &mut hb);
    let n = Utf32Str::new("fa", &mut nb);
    assert_eq!(matcher.fuzzy_match(h, n), None);
    assert_eq!(matcher.fuzzy_match_greedy(h, n), None);
    assert_eq!(matcher.substring_match(h, n), None);
}

#[test]
fn single_character_prefers_boundary() {
    let mut matcher = Matcher::new(MatcherConfig::default());
    let mut hb = Vec::new();
    let mut nb = Vec::new();
    let h = Utf32Str::new("xbar baz", &mut hb);
    let n = Utf32Str::new("b", &mut nb);
    let mut idx = Vec::new();
    assert_eq!(
        matcher.fuzzy_indices(h, n, &mut idx),
        Some(SCORE_MATCH + white() * BONUS_FIRST_CHAR_MULTIPLIER)
    );
    assert_eq!(idx, vec![5]);
}

#[test]
fn extended_latin_letters_fold() {
    let mut matcher = Matcher::new(MatcherConfig::default());
    let mut hb = Vec::new();
    let mut nb = Vec::new();
    let h = Utf32Str::new("Łódź", &mut hb);
    let n = Utf32Str::new("lodz", &mut nb);
    assert!(matcher.exact_match(h, n).is_some());
    matcher.config.normalize = false;
    assert_eq!(matcher.exact_match(h, n), None);
}

#[test]
fn non_ascii_needle_never_matches_ascii_haystack() {
    let mut matcher = Matcher::new(MatcherConfig::default());
    let mut hb = Vec::new();
    let mut nb = Vec::new();
    let h = Utf32Str::new("cafe", &mut hb);
    let n = Utf32Str::new("café", &mut nb);
    assert_eq!(matcher.prefix_match(h, n), None);
    assert_eq!(matcher.postfix_match(h, n), None);
    assert_eq!(matcher.exact_match(h, n), None);
    assert_eq!(matcher.fuzzy_match(h, n), None);
    assert_eq!(matcher.fuzzy_match_greedy(h, n), None);
    assert_eq!(matcher.substring_match(h, n), None);
    let mut hb2 = Vec::new();
    let h2 = Utf32Str::new("le café", &mut hb2);
    assert!(matcher.substring_match(h2, n).is_some());
}

#[test]
fn test_normalize() {
    assert_matches(
        &[FuzzyGreedy, FuzzyOptimal],
        true,
        false,
        false,
        &[
            (
                "Só Danço Samba",
                "So",
                &[0, 1],
                white() * BONUS_FIRST_CHAR_MULTIPLIER + BONUS_CONSECUTIVE,
            ),
            (
                "Só Danço Samba",
                "sodc",
                &[0, 1, 3, 6],
                white() * BONUS_FIRST_CHAR_MULTIPLIER + BONUS_CONSECUTIVE - PENALTY_GAP_START
                    + white()
                    - PENALTY_GAP_START
                    - PENALTY_GAP_EXTENSION,
            ),
            (
                "Danço",
                "danco",
                &[0, 1, 2, 3, 4],
                white() * BONUS_FIRST_CHAR_MULTIPLIER + 4 * BONUS_CONSECUTIVE,
            ),
            (
                "DanÇo",
                "danco",
                &[0, 1, 2, 3, 4],
                white() * BONUS_FIRST_CHAR_MULTIPLIER + BONUS_CAMEL123 + 3 * BONUS_CONSECUTIVE,
            ),
            (
                "xÇando",
                "cando",
                &[1, 2, 3, 4, 5],
                BONUS_CAMEL123 * BONUS_FIRST_CHAR_MULTIPLIER + 4 * BONUS_CONSECUTIVE,
            ),
            ("ۂ(GCGɴCG", "n", &[5], 0),
        ],
    )
}
