use ngi::pattern::{parse_pattern, PatternTree};
use ngi::query::{
    build_query_plan, explain_plan, extract_literal_expr, literal_expr_to_plan, literal_to_plan, plan_of_tree, simplify,
    LiteralExpr, QueryPlan,
};

fn assert_not_fullscan(plan: &QueryPlan) {
    assert!(!matches!(plan, QueryPlan::FullScan), "expected a non-FullScan plan, got FullScan");
}

fn count_lookups(plan: &QueryPlan) -> usize {
    match plan {
        QueryPlan::Lookup { .. } => 1,
        QueryPlan::And(subs) | QueryPlan::Or(subs) => subs.iter().map(count_lookups).sum(),
        QueryPlan::FullScan => 0,
    }
}

fn is_and(plan: &QueryPlan) -> bool {
    matches!(plan, QueryPlan::And(_))
}

fn is_or(plan: &QueryPlan) -> bool {
    matches!(plan, QueryPlan::Or(_))
}

fn lookup(hash: u64) -> QueryPlan {
    QueryPlan::Lookup { hash, trigram: b"abc".to_vec() }
}

#[test]
fn short_literal_produces_lookups() {
    let plan = build_query_plan("hello", false).unwrap();
    assert_not_fullscan(&plan);
    // "hello" has the trigrams "hel", "ell" and "llo"
    assert_eq!(count_lookups(&plan), 3);
}

#[test]
fn long_literal_produces_lookups() {
    let plan = build_query_plan("parse_token_stream", false).unwrap();
    assert_not_fullscan(&plan);
    assert!(count_lookups(&plan) >= 1);
}

#[test]
fn alternation_short_produces_or() {
    let plan = build_query_plan("foo|bar", false).unwrap();
    assert_not_fullscan(&plan);
    assert!(is_or(&plan), "expected OR at top level, got: {plan:?}");
}

#[test]
fn alternation_long_literals() {
    let plan = build_query_plan("parse_token_stream|compile_ast_node", false).unwrap();
    assert_not_fullscan(&plan);
    assert!(is_or(&plan), "expected OR at top level, got: {plan:?}");
}

#[test]
fn concat_short_literals_produces_and() {
    let plan = build_query_plan("foo.*bar", false).unwrap();
    assert_not_fullscan(&plan);
    assert!(is_and(&plan), "expected AND at top level, got: {plan:?}");
    assert_eq!(count_lookups(&plan), 2);
}

#[test]
fn concat_long_literals() {
    let plan = build_query_plan("parse_token.*compile_ast", false).unwrap();
    assert_not_fullscan(&plan);
    assert!(is_and(&plan), "expected AND at top level, got: {plan:?}");
    assert!(count_lookups(&plan) >= 2);
}

#[test]
fn pure_wildcard() {
    let plan = build_query_plan(".*", false).unwrap();
    assert!(matches!(plan, QueryPlan::FullScan), "expected FullScan for '.*', got: {plan:?}");
}

#[test]
fn case_insensitive() {
    let plan_ci = build_query_plan("Hello", true).unwrap();
    let plan_lower = build_query_plan("hello", false).unwrap();
    let explain_ci = explain_plan(&plan_ci);
    let explain_lower = explain_plan(&plan_lower);
    assert_eq!(explain_ci, explain_lower);
}

#[test]
fn case_insensitive_long() {
    let plan_ci = build_query_plan("ParseTokenStream", true).unwrap();
    let plan_lower = build_query_plan("parsetokenstream", false).unwrap();
    assert_not_fullscan(&plan_ci);
    assert_eq!(explain_plan(&plan_ci), explain_plan(&plan_lower));
}

#[test]
fn character_class_with_short_literal() {
    let plan = build_query_plan("[abc]def", false).unwrap();
    assert_not_fullscan(&plan);
    assert!(count_lookups(&plan) >= 1);
}

#[test]
fn complex_regex() {
    let plan = build_query_plan(r"fn\s+parse_(\w+)", false).unwrap();
    assert_not_fullscan(&plan);
    assert!(
        count_lookups(&plan) >= 1,
        "expected at least 1 lookup from 'parse_', got: {}",
        count_lookups(&plan)
    );
}

#[test]
fn explain_plan_output() {
    let plan = build_query_plan("parse_token.*compile_ast", false).unwrap();
    let explanation = explain_plan(&plan);
    assert!(explanation.contains("AND(") || explanation.contains("lookup"));
    assert!(explanation.contains("0x"), "should contain hex hashes");
}

#[test]
fn empty_pattern_fullscan() {
    let plan = build_query_plan("", false).unwrap();
    assert!(matches!(plan, QueryPlan::FullScan));
}

#[test]
fn single_char_class_fullscan() {
    let plan = build_query_plan("[a-z]", false).unwrap();
    assert!(matches!(plan, QueryPlan::FullScan));
}

#[test]
fn explain_fullscan() {
    let plan = QueryPlan::FullScan;
    assert_eq!(explain_plan(&plan), "FULL_SCAN");
}

#[test]
fn explain_single_lookup() {
    let plan = QueryPlan::Lookup { hash: 0xdeadbeef, trigram: b"abc".to_vec() };
    let out = explain_plan(&plan);
    assert!(out.contains("0x00000000deadbeef"));
    assert!(out.contains("\"abc\""));
}

#[test]
fn deterministic_plans() {
    let a = build_query_plan("foo.*bar", false).unwrap();
    let b = build_query_plan("foo.*bar", false).unwrap();
    assert_eq!(explain_plan(&a), explain_plan(&b));
}

#[test]
fn short_literal_handled() {
    let plan = build_query_plan("fn", false).unwrap();
    assert!(matches!(plan, QueryPlan::FullScan));
}

#[test]
fn long_literal() {
    let plan = build_query_plan("this_is_a_very_long_literal_string", false).unwrap();
    assert_not_fullscan(&plan);
    assert!(count_lookups(&plan) >= 2);
}

#[test]
fn nested_groups_short_produces_lookups() {
    let plan = build_query_plan("(foo)(bar)", false).unwrap();
    assert_not_fullscan(&plan);
    assert_eq!(count_lookups(&plan), 2);
}

#[test]
fn nested_groups_long() {
    let plan = build_query_plan("(parse_token)(compile_ast)", false).unwrap();
    assert_not_fullscan(&plan);
    assert!(count_lookups(&plan) >= 2);
}

#[test]
fn alternation_with_shared_suffix_short_produces_lookups() {
    let plan = build_query_plan("(foo|bar)baz", false).unwrap();
    assert_not_fullscan(&plan);
    assert!(count_lookups(&plan) >= 2);
}

// ---------------------------------------------------------------------------

#[test]
fn invalid_pattern_gives_the_parser_message() {
    let e = build_query_plan("(", false).unwrap_err();
    assert!(e.message.contains("unclosed group"), "{}", e.message);
}

#[test]
fn parsed_tree_has_every_kind_of_node() {
    match parse_pattern("(ab)c[xy]d*^").unwrap() {
        PatternTree::Concat(parts) => {
            assert_eq!(parts.len(), 5);
            match &parts[0] {
                PatternTree::Capture(sub) => assert!(matches!(&**sub, PatternTree::Literal(b) if b == b"ab")),
                other => panic!("expected a group, got {other:?}"),
            }
            assert!(matches!(&parts[1], PatternTree::Literal(b) if b == b"c"));
            assert!(matches!(&parts[2], PatternTree::Class));
            assert!(matches!(&parts[3], PatternTree::Repetition));
            assert!(matches!(&parts[4], PatternTree::Look));
        }
        other => panic!("expected a concatenation, got {other:?}"),
    }
    assert!(matches!(parse_pattern("").unwrap(), PatternTree::Empty));
    assert!(matches!(parse_pattern("foo|bar").unwrap(), PatternTree::Alternation(p) if p.len() == 2));
}

#[test]
fn literal_lookups_keep_the_first_of_equal_hashes() {
    match literal_to_plan(b"AbabA", true) {
        QueryPlan::And(subs) => {
            assert_eq!(subs.len(), 2);
            assert!(matches!(&subs[0], QueryPlan::Lookup { trigram, .. } if trigram == b"aba"));
            assert!(matches!(&subs[1], QueryPlan::Lookup { trigram, .. } if trigram == b"bab"));
        }
        other => panic!("expected AND, got {other:?}"),
    }
    // All trigrams are the same: one lookup is left.
    assert!(matches!(literal_to_plan(b"aaaa", false), QueryPlan::Lookup { .. }));
    assert!(matches!(literal_to_plan(b"ab", false), QueryPlan::FullScan));
}

#[test]
fn plans_do_not_tell_case_apart() {
    for (a, b) in [("FooBar|(Baz)+x[yz]QUX", "foobar|(bAZ)+X[yz]qux"), ("ÉCOLE", "École")] {
        let upper = build_query_plan(a, false).unwrap();
        let lower = build_query_plan(b, true).unwrap();
        assert_eq!(explain_plan(&upper), explain_plan(&lower));
    }
}

#[test]
fn literals_of_a_tree() {
    let tree = PatternTree::Concat(vec![
        PatternTree::Capture(Box::new(PatternTree::Literal(b"foo".to_vec()))),
        PatternTree::Class,
        PatternTree::Alternation(vec![PatternTree::Literal(b"x".to_vec()), PatternTree::Empty]),
    ]);
    match extract_literal_expr(&tree) {
        LiteralExpr::And(subs) => {
            assert_eq!(subs.len(), 3);
            assert!(matches!(&subs[0], LiteralExpr::Lit(b) if b == b"foo"));
            assert!(matches!(&subs[1], LiteralExpr::And(v) if v.is_empty()));
            assert!(matches!(&subs[2], LiteralExpr::Or(v) if v.len() == 2));
        }
        _ => panic!("expected AND"),
    }
    let plan = literal_expr_to_plan(extract_literal_expr(&tree), false);
    assert!(matches!(&plan, QueryPlan::And(subs) if subs.len() == 3));
    // The class and the short literal do not constrain.
    assert!(matches!(plan_of_tree(&tree, false), QueryPlan::Lookup { .. }));
}

#[test]
fn simplify_drops_what_does_not_constrain() {
    let plan = simplify(QueryPlan::And(vec![QueryPlan::FullScan, lookup(1), QueryPlan::And(vec![])]));
    assert!(matches!(plan, QueryPlan::Lookup { hash: 1, .. }));
    let plan = simplify(QueryPlan::Or(vec![lookup(1), QueryPlan::And(vec![])]));
    assert!(matches!(plan, QueryPlan::FullScan));
    let plan = simplify(QueryPlan::Or(vec![lookup(1)]));
    assert!(matches!(plan, QueryPlan::Lookup { hash: 1, .. }));
    assert!(matches!(simplify(QueryPlan::Or(vec![])), QueryPlan::FullScan));
    assert!(matches!(simplify(QueryPlan::And(vec![])), QueryPlan::FullScan));
}

#[test]
fn simplify_twice_is_simplify_once() {
    let plan = QueryPlan::And(vec![
        QueryPlan::Or(vec![lookup(1), QueryPlan::And(vec![lookup(2), lookup(3), QueryPlan::FullScan])]),
        QueryPlan::FullScan,
        lookup(4),
    ]);
    let once = simplify(plan);
    let twice = simplify(once.clone());
    assert_eq!(explain_plan(&once), explain_plan(&twice));
    assert_eq!(count_lookups(&once), 4);
}

#[test]
fn explanation_of_nested_plans() {
    let plan = QueryPlan::And(vec![
        QueryPlan::Lookup { hash: 255, trigram: b"a\"c".to_vec() },
        QueryPlan::Or(vec![QueryPlan::FullScan, QueryPlan::Lookup { hash: u64::MAX, trigram: b"\xFFbc".to_vec() }]),
    ]);
    let expected = "AND(\n  lookup \"a\"c\" → 0x00000000000000ff\n  OR(\n    FULL_SCAN\n    lookup \"\u{FFFD}bc\" → 0xffffffffffffffff\n  )\n)";
    assert_eq!(explain_plan(&plan), expected);
    assert_eq!(explain_plan(&QueryPlan::And(vec![])), "AND(\n)");
}
