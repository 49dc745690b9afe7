use nucleo::matcher::Matcher;
use nucleo::multi_pattern::{MultiPattern, Status};
use nucleo::pattern::{Atom, AtomKind, CaseMatching, Pattern};
use nucleo::config::MatcherConfig;
use nucleo::utf32_str::Utf32Str;

fn needle(pat: &Atom) -> String {
    let text = pat.needle_text();
    let mut out = String::new();
    for i in 0..text.len() {
        out.push(text.get(i as u32));
    }
    out
}

#[test]
fn negative() {
    let pat = Atom::parse("!foo", CaseMatching::Smart);
    assert!(pat.negative);
    assert_eq!(pat.kind, AtomKind::Substring);
    assert_eq!(needle(&pat), "foo");
    let pat = Atom::parse("!^foo", CaseMatching::Smart);
    assert!(pat.negative);
    assert_eq!(pat.kind, AtomKind::Prefix);
    assert_eq!(needle(&pat), "foo");
    let pat = Atom::parse("!foo$", CaseMatching::Smart);
    assert!(pat.negative);
    assert_eq!(pat.kind, AtomKind::Postfix);
    assert_eq!(needle(&pat), "foo");
    let pat = Atom::parse("!^foo$", CaseMatching::Smart);
    assert!(pat.negative);
    assert_eq!(pat.kind, AtomKind::Exact);
    assert_eq!(needle(&pat), "foo");
}

#[test]
fn pattern_kinds() {
    let pat = Atom::parse("foo", CaseMatching::Smart);
    assert!(!pat.negative);
    assert_eq!(pat.kind, AtomKind::Fuzzy);
    assert_eq!(needle(&pat), "foo");
    let pat = Atom::parse("'foo", CaseMatching::Smart);
    assert!(!pat.negative);
    assert_eq!(pat.kind, AtomKind::Substring);
    assert_eq!(needle(&pat), "foo");
    let pat = Atom::parse("^foo", CaseMatching::Smart);
    assert!(!pat.negative);
    assert_eq!(pat.kind, AtomKind::Prefix);
    assert_eq!(needle(&pat), "foo");
    let pat = Atom::parse("foo$", CaseMatching::Smart);
    assert!(!pat.negative);
    assert_eq!(pat.kind, AtomKind::Postfix);
    assert_eq!(needle(&pat), "foo");
    let pat = Atom::parse("^foo$", CaseMatching::Smart);
    assert!(!pat.negative);
    assert_eq!(pat.kind, AtomKind::Exact);
    assert_eq!(needle(&pat), "foo");
}

#[test]
fn case_matching() {
    let pat = Atom::parse("foo", CaseMatching::Smart);
    assert!(pat.ignore_case());
    assert_eq!(needle(&pat), "foo");
    let pat = Atom::parse("Foo", CaseMatching::Smart);
    assert!(!pat.ignore_case());
    assert_eq!(needle(&pat), "Foo");
    let pat = Atom::parse("Foo", CaseMatching::Ignore);
    assert!(pat.ignore_case());
    assert_eq!(needle(&pat), "foo");
    let pat = Atom::parse("Foo", CaseMatching::Respect);
    assert!(!pat.ignore_case());
    assert_eq!(needle(&pat), "Foo");
    let pat = Atom::parse("Foo", CaseMatching::Respect);
    assert!(!pat.ignore_case());
    assert_eq!(needle(&pat), "Foo");
    let pat = Atom::parse("Äxx", CaseMatching::Ignore);
    assert!(pat.ignore_case());
    assert_eq!(needle(&pat), "äxx");
    let pat = Atom::parse("Äxx", CaseMatching::Respect);
    assert!(!pat.ignore_case());
    let pat = Atom::parse("Axx", CaseMatching::Smart);
    assert!(!pat.ignore_case());
    assert_eq!(needle(&pat), "Axx");
    let pat = Atom::parse("你xx", CaseMatching::Smart);
    assert!(pat.ignore_case());
    assert_eq!(needle(&pat), "你xx");
    let pat = Atom::parse("你xx", CaseMatching::Ignore);
    assert!(pat.ignore_case());
    assert_eq!(needle(&pat), "你xx");
    let pat = Atom::parse("Ⲽxx", CaseMatching::Smart);
    assert!(!pat.ignore_case());
    assert_eq!(needle(&pat), "Ⲽxx");
    let pat = Atom::parse("Ⲽxx", CaseMatching::Ignore);
    assert!(pat.ignore_case());
    assert_eq!(needle(&pat), "ⲽxx");
}

#[test]
fn escape() {
    let pat = Atom::parse("foo\\ bar", CaseMatching::Smart);
    assert_eq!(needle(&pat), "foo bar");
    let pat = Atom::parse("\\!foo", CaseMatching::Smart);
    assert_eq!(needle(&pat), "!foo");
    assert_eq!(pat.kind, AtomKind::Fuzzy);
    let pat = Atom::parse("\\'foo", CaseMatching::Smart);
    assert_eq!(needle(&pat), "'foo");
    assert_eq!(pat.kind, AtomKind::Fuzzy);
    let pat = Atom::parse("\\^foo", CaseMatching::Smart);
    assert_eq!(needle(&pat), "^foo");
    assert_eq!(pat.kind, AtomKind::Fuzzy);
    let pat = Atom::parse("foo\\$", CaseMatching::Smart);
    assert_eq!(needle(&pat), "foo$");
    assert_eq!(pat.kind, AtomKind::Fuzzy);
    let pat = Atom::parse("^foo\\$", CaseMatching::Smart);
    assert_eq!(needle(&pat), "foo$");
    assert_eq!(pat.kind, AtomKind::Prefix);
    let pat = Atom::parse("\\^foo\\$", CaseMatching::Smart);
    assert_eq!(needle(&pat), "^foo$");
    assert_eq!(pat.kind, AtomKind::Fuzzy);
    let pat = Atom::parse("\\!^foo\\$", CaseMatching::Smart);
    assert_eq!(needle(&pat), "!^foo$");
    assert_eq!(pat.kind, AtomKind::Fuzzy);
    let pat = Atom::parse("!\\^foo\\$", CaseMatching::Smart);
    assert_eq!(needle(&pat), "^foo$");
    assert_eq!(pat.kind, AtomKind::Substring);
}

#[test]
fn append() {
    let mut pat = MultiPattern::new(1);
    pat.reparse(0, "!", CaseMatching::Smart, true);
    assert_eq!(pat.status(), Status::Update);
    pat.reparse(0, "!f", CaseMatching::Smart, true);
    assert_eq!(pat.status(), Status::Update);
    pat.reparse(0, "!fo", CaseMatching::Smart, true);
    assert_eq!(pat.status(), Status::Rescore);
}

#[test]
fn negative_atom_scores() {
    let mut matcher = Matcher::new(MatcherConfig::default());
    let atom = Atom::parse("!foo", CaseMatching::Smart);
    let mut buf = Vec::new();
    assert_eq!(atom.score(Utf32Str::new("foobar", &mut buf), &mut matcher), None);
    assert_eq!(atom.score(Utf32Str::new("bar", &mut buf), &mut matcher), Some(0));
}

#[test]
fn pattern_words_and_scores() {
    let pat = Pattern::parse(CaseMatching::Smart, "foo\\ bar  ^baz !qux");
    assert_eq!(pat.atoms.len(), 3);
    assert_eq!(pat.atoms[0].kind, AtomKind::Fuzzy);
    assert_eq!(pat.atoms[1].kind, AtomKind::Prefix);
    assert!(pat.atoms[2].negative);
    let mut matcher = Matcher::new(MatcherConfig::default());
    let mut buf = Vec::new();
    assert!(pat.score(Utf32Str::new("baz foo bar", &mut buf), &mut matcher).is_some());
    assert_eq!(pat.score(Utf32Str::new("baz foo bar qux", &mut buf), &mut matcher), None);
    assert_eq!(pat.score(Utf32Str::new("foo bar baz", &mut buf), &mut matcher), None);
    let empty = Pattern::parse(CaseMatching::Smart, "   ");
    assert!(empty.atoms.is_empty());
    assert_eq!(empty.score(Utf32Str::new("anything", &mut buf), &mut matcher), Some(0));
}

#[test]
fn literal_pattern_ignores_syntax() {
    let pat = Pattern::new(CaseMatching::Smart, AtomKind::Substring, "^foo bar$");
    assert_eq!(pat.atoms.len(), 2);
    assert_eq!(needle(&pat.atoms[0]), "^foo");
    assert_eq!(needle(&pat.atoms[1]), "bar$");
    assert_eq!(pat.atoms[1].kind, AtomKind::Substring);
}

#[test]
fn status_after_edits() {
    let mut pat = MultiPattern::new(2);
    assert_eq!(pat.status(), Status::Unchanged);
    assert!(pat.is_empty());
    pat.reparse(1, "fo", CaseMatching::Smart, true);
    assert_eq!(pat.status(), Status::Update);
    pat.reparse(1, "foo", CaseMatching::Smart, true);
    assert_eq!(pat.status(), Status::Update);
    pat.reparse(0, "x", CaseMatching::Smart, false);
    assert_eq!(pat.status(), Status::Rescore);
    pat.reset_status();
    assert_eq!(pat.status(), Status::Unchanged);
    assert!(!pat.is_empty());
    assert_eq!(pat.column_pattern(1).atoms.len(), 1);
}

#[test]
fn match_list_ranks_matches() {
    let pat = Pattern::parse(CaseMatching::Smart, "foo");
    let mut matcher = Matcher::new(MatcherConfig::default());
    let items = vec!["xfoo", "bar", "foo bar", "xfoo"];
    let ranked = pat.match_list(&mut matcher, &items);
    let order: Vec<usize> = ranked.iter().map(|&(k, _)| k).collect();
    assert_eq!(order, vec![2, 0, 3]);
    assert!(ranked[0].1 > ranked[1].1);
    assert_eq!(ranked[1].1, ranked[2].1);
}
