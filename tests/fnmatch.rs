use shared_mime::fnmatch::{parse_pattern, FileMatcher, MatchElement, MatchRule};

#[test]
fn test_parse_literal() {
    let pat = parse_pattern(b"duam.xnaht");
    assert_eq!(&pat, &[MatchElement::Literal(b"duam.xnaht".into())])
}

#[test]
fn test_parse_suffix() {
    let pat = parse_pattern(b"*.fooels");
    assert_eq!(
        pat,
        &[MatchElement::Star, MatchElement::Literal(b".fooels".into())]
    )
}

#[test]
fn test_parse_prefix() {
    let pat = parse_pattern(b"eldib.*");
    assert_eq!(
        pat,
        &[MatchElement::Literal("eldib.".into()), MatchElement::Star]
    )
}

#[test]
fn test_parse_star_middle() {
    let pat = parse_pattern(b"xixaxa.*.xuxaxa");
    assert_eq!(
        pat,
        &[
            MatchElement::Literal("xixaxa.".into()),
            MatchElement::Star,
            MatchElement::Literal(".xuxaxa".into())
        ]
    )
}

#[test]
fn test_parse_wildcard() {
    let pat = parse_pattern(b"man.?");
    assert_eq!(
        pat,
        &[MatchElement::Literal("man.".into()), MatchElement::Wildcard,]
    )
}

#[test]
fn test_parse_star_wildcard() {
    let pat = parse_pattern(b"*.?");
    assert_eq!(
        pat,
        &[
            MatchElement::Star,
            MatchElement::Literal(".".into()),
            MatchElement::Wildcard,
        ]
    )
}

#[test]
fn test_parse_range() {
    let pat = parse_pattern(b"*.so.[0-9]");
    assert_eq!(
        pat,
        &[
            MatchElement::Star,
            MatchElement::Literal(".so.".into()),
            MatchElement::Range(b'0', b'9'),
        ]
    )
}

#[test]
fn test_parse_range_not_end() {
    let pat = parse_pattern(b"*.so.[0-9].gz");
    assert_eq!(
        pat,
        &[
            MatchElement::Star,
            MatchElement::Literal(".so.".into()),
            MatchElement::Range(b'0', b'9'),
            MatchElement::Literal(".gz".into()),
        ]
    )
}

#[test]
fn test_basic_literal() {
    let pat = FileMatcher::new("hackem.muche");
    assert_eq!(pat.rule, MatchRule::Literal(b"hackem.muche".into()));
    assert!(pat.matches(b"hackem.muche"));
    assert!(pat.matches(b"HACKEM.muche"));
    assert!(!pat.matches(b"foobie.muche"))
}

#[test]
fn test_basic_lit_cs() {
    let pat = FileMatcher::new("hackem.muche").case_sensitive();
    assert!(pat.matches(b"hackem.muche"));
    assert!(!pat.matches(b"HACKEM.muche"));
    assert!(!pat.matches(b"foobie.muche"))
}

#[test]
fn test_basic_star_suffix() {
    let pat = FileMatcher::new("*.muche");
    assert_eq!(pat.rule, MatchRule::Suffix(b".muche".into()));
    assert!(pat.matches(b"hackem.muche"));
    assert!(pat.matches(b"HACKEM.muche"));
    assert!(pat.matches(b"foobie.MUCHE"));
    assert!(!pat.matches(b"foobie.bletch"))
}

#[test]
fn test_basic_star_suffix_cs() {
    let pat = FileMatcher::new("*.muche").case_sensitive();
    assert!(pat.matches(b"hackem.muche"));
    assert!(pat.matches(b"HACKEM.muche"));
    assert!(!pat.matches(b"hackem.MuChe"));
    assert!(!pat.matches(b"foobie.bletch"))
}

#[test]
fn test_basic_star_prefix() {
    let pat = FileMatcher::new("foobie.*");
    assert!(pat.matches(b"foobie.muche"));
    assert!(pat.matches(b"FOOBIE.muche"));
    assert!(pat.matches(b"FOOBIE."));
    assert!(!pat.matches(b"hackem.bletch"))
}

#[test]
fn test_basic_star_prefix_cs() {
    let pat = FileMatcher::new("foobie.*").case_sensitive();
    assert!(pat.matches(b"foobie.muche"));
    assert!(pat.matches(b"foobie."));
    assert!(!pat.matches(b"FOOBIE.muche"));
    assert!(!pat.matches(b"hackem.bletch"))
}

#[test]
fn test_star_middle() {
    let pat = FileMatcher::new("part-*.sh");
    assert!(pat.matches(b"part-fish.sh"));
    assert!(!pat.matches(b"piece-fish.sh"));
}

#[test]
fn test_class_match() {
    let pat = FileMatcher::new("*.so.[0-9]").case_sensitive();
    assert!(pat.matches(b"libc.so.6"));
    assert!(!pat.matches(b"libc.so.X"));
    assert!(!pat.matches(b"libc.sq.7"));
}

#[test]
fn literal_folds_case_by_default() {
    assert!(FileMatcher::new("hackem.muche").matches(b"HACKEM.muche"));
    assert!(!FileMatcher::new("hackem.muche")
        .case_sensitive()
        .matches(b"HACKEM.muche"));
}

#[test]
fn suffix_folds_case() {
    assert!(FileMatcher::new("*.muche").matches(b"foobie.MUCHE"));
    assert!(!FileMatcher::new("*.muche").matches(b"muche"));
}

#[test]
fn range_rejects_outside_bytes() {
    let pat = FileMatcher::new("*.so.[0-9]").case_sensitive();
    assert!(pat.matches(b"libc.so.6"));
    assert!(!pat.matches(b"libc.so.X"));
}

#[test]
fn range_folds_bounds_without_case() {
    let pat = FileMatcher::new("x[a-c]");
    assert!(pat.matches(b"XB"));
    assert!(!pat.matches(b"xd"));
    assert!(!FileMatcher::new("x[a-c]").case_sensitive().matches(b"xB"));
}

#[test]
fn wildcard_takes_exactly_one_byte() {
    let pat = FileMatcher::new("man.?");
    assert_eq!(
        pat.rule,
        MatchRule::Pattern(vec![
            MatchElement::Literal(b"man.".to_vec()),
            MatchElement::Wildcard
        ])
    );
    assert!(pat.matches(b"man.1"));
    assert!(!pat.matches(b"man."));
    assert!(!pat.matches(b"man.12"));
}

#[test]
fn bracket_of_other_shape_is_literal() {
    let pat = parse_pattern(b"a[bc]");
    assert_eq!(pat, vec![MatchElement::Literal(b"a[bc]".to_vec())]);
    assert!(FileMatcher::new("a[bc]").matches(b"A[BC]"));
}

#[test]
fn empty_pattern_matches_only_empty_name() {
    let pat = FileMatcher::new("");
    assert_eq!(pat.rule, MatchRule::Pattern(vec![]));
    assert!(pat.matches(b""));
    assert!(!pat.matches(b"a"));
}

#[test]
fn star_may_take_the_whole_rest() {
    let pat = FileMatcher::new("a*?");
    assert!(pat.matches(b"ab"));
    assert!(pat.matches(b"abcd"));
    assert!(!pat.matches(b"a"));
    let stars = FileMatcher::new("**");
    assert!(stars.matches(b"xy"));
    assert!(stars.matches(b""));
    assert!(FileMatcher::new("a**").matches(b"a"));
    assert!(FileMatcher::new("a**").case_sensitive().matches(b"a"));
    assert!(FileMatcher::new("*.*").matches(b"x."));
}

#[test]
fn non_ascii_bytes_compare_verbatim() {
    let pat = FileMatcher::new("*.\u{e9}");
    assert!(pat.matches("x.\u{e9}".as_bytes()));
    assert!(!pat.matches("x.\u{c9}".as_bytes()));
}
