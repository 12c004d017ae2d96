use count_for_me::{earley_recognize, earley_table, push_unique, EarleyItem, GrammarRule, Symbol};

fn t(s: &str) -> Symbol {
    Symbol::Terminal(s.to_string())
}

fn nt(s: &str) -> Symbol {
    Symbol::Nonterminal(s.to_string())
}

fn rule(name: &str, components: Vec<Symbol>) -> GrammarRule {
    GrammarRule { name: name.to_string(), components }
}

fn toks(ts: &[&str]) -> Vec<String> {
    ts.iter().map(|s| s.to_string()).collect()
}

fn single_a() -> Vec<GrammarRule> {
    vec![rule("S", vec![t("a")])]
}

fn parens() -> Vec<GrammarRule> {
    vec![rule("S", vec![t("("), nt("S"), t(")")]), rule("S", vec![])]
}

fn left_recursive() -> Vec<GrammarRule> {
    vec![rule("S", vec![nt("S"), t("+"), t("n")]), rule("S", vec![t("n")])]
}

fn ambiguous() -> Vec<GrammarRule> {
    vec![rule("S", vec![nt("S"), nt("S")]), rule("S", vec![t("a")])]
}

#[test]
fn single_terminal_accepts_its_token() {
    assert!(earley_recognize(&toks(&["a"]), &single_a()));
}

#[test]
fn single_terminal_rejects_empty_input() {
    assert!(!earley_recognize(&toks(&[]), &single_a()));
}

#[test]
fn single_terminal_rejects_two_tokens() {
    assert!(!earley_recognize(&toks(&["a", "a"]), &single_a()));
}

#[test]
fn single_terminal_rejects_other_token() {
    assert!(!earley_recognize(&toks(&["b"]), &single_a()));
}

#[test]
fn balanced_parens_nested() {
    assert!(earley_recognize(&toks(&["(", "(", ")", ")"]), &parens()));
}

#[test]
fn balanced_parens_unclosed() {
    assert!(!earley_recognize(&toks(&["("]), &parens()));
}

#[test]
fn balanced_parens_empty_input_rejected() {
    // With no tokens no chart is built, so even a nullable start rule rejects.
    assert!(!earley_recognize(&toks(&[]), &parens()));
}

#[test]
fn balanced_parens_side_by_side_rejected() {
    assert!(!earley_recognize(&toks(&["(", ")", "(", ")"]), &parens()));
}

#[test]
fn balanced_parens_unbalanced_rejected() {
    assert!(!earley_recognize(&toks(&["(", ")", ")"]), &parens()));
    assert!(!earley_recognize(&toks(&[")", "("]), &parens()));
}

#[test]
fn left_recursion_terminates_and_accepts() {
    assert!(earley_recognize(&toks(&["n", "+", "n", "+", "n"]), &left_recursive()));
    assert!(earley_recognize(&toks(&["n"]), &left_recursive()));
}

#[test]
fn left_recursion_rejects_dangling_plus() {
    assert!(!earley_recognize(&toks(&["n", "+"]), &left_recursive()));
    assert!(!earley_recognize(&toks(&["+", "n"]), &left_recursive()));
}

#[test]
fn ambiguous_grammar_accepts() {
    assert!(earley_recognize(&toks(&["a", "a", "a"]), &ambiguous()));
}

#[test]
fn ambiguous_grammar_rejects_foreign_token() {
    assert!(!earley_recognize(&toks(&["a", "b", "a"]), &ambiguous()));
}

#[test]
fn empty_grammar_rejects() {
    let g: Vec<GrammarRule> = Vec::new();
    assert!(!earley_recognize(&toks(&["a"]), &g));
    assert_eq!(earley_table(&toks(&["a"]), &g).len(), 0);
}

#[test]
fn undefined_nonterminal_rejects() {
    let g = vec![rule("S", vec![nt("X")])];
    assert!(!earley_recognize(&toks(&["a"]), &g));
}

#[test]
fn start_symbol_is_first_rule_name() {
    let g = vec![rule("T", vec![t("b")]), rule("S", vec![t("a")])];
    assert!(earley_recognize(&toks(&["b"]), &g));
    assert!(!earley_recognize(&toks(&["a"]), &g));
}

#[test]
fn nullable_rules_inside_longer_rule() {
    // S -> A B "x" with A and B both able to match nothing.
    let g = vec![
        rule("S", vec![nt("A"), nt("B"), t("x")]),
        rule("A", vec![]),
        rule("B", vec![nt("A")]),
        rule("B", vec![t("b")]),
    ];
    assert!(earley_recognize(&toks(&["x"]), &g));
    assert!(earley_recognize(&toks(&["b", "x"]), &g));
    assert!(!earley_recognize(&toks(&["b"]), &g));
}

#[test]
fn nullable_predicted_after_completion() {
    // E is completed at position 0 before the item S -> . E "y" is predicted.
    let g = vec![
        rule("S", vec![nt("E"), t("z")]),
        rule("S", vec![nt("T")]),
        rule("T", vec![nt("E"), t("y")]),
        rule("E", vec![]),
    ];
    assert!(earley_recognize(&toks(&["y"]), &g));
    assert!(earley_recognize(&toks(&["z"]), &g));
}

#[test]
fn chart_has_one_set_per_position() {
    let chart = earley_table(&toks(&["n", "+", "n", "+", "n"]), &left_recursive());
    assert_eq!(chart.len(), 6);
    let chart = earley_table(&toks(&["q"]), &single_a());
    assert_eq!(chart.len(), 2);
    assert_eq!(chart[1].len(), 0);
}

#[test]
fn chart_is_empty_without_tokens() {
    assert_eq!(earley_table(&toks(&[]), &single_a()).len(), 0);
}

#[test]
fn chart_sets_hold_no_duplicates() {
    for (g, input) in [
        (ambiguous(), toks(&["a", "a", "a", "a"])),
        (left_recursive(), toks(&["n", "+", "n"])),
        (parens(), toks(&["(", "(", ")", ")"])),
    ] {
        for set in earley_table(&input, &g) {
            for (a, x) in set.iter().enumerate() {
                for y in set.iter().skip(a + 1) {
                    assert!(x != y);
                }
            }
        }
    }
}

#[test]
fn first_set_holds_start_items_and_predictions() {
    let chart = earley_table(&toks(&["n"]), &left_recursive());
    assert_eq!(chart[0].len(), 2);
    assert!(chart[0].contains(&EarleyItem { rule: 0, start: 0, current: 0 }));
    assert!(chart[0].contains(&EarleyItem { rule: 1, start: 0, current: 0 }));
    assert!(chart[1].contains(&EarleyItem { rule: 1, start: 0, current: 1 }));
    assert!(chart[1].contains(&EarleyItem { rule: 0, start: 0, current: 1 }));
}

#[test]
fn push_unique_skips_present_item() {
    let mut set = Vec::new();
    let item = EarleyItem::new(0, 0);
    push_unique(&mut set, item);
    push_unique(&mut set, item);
    assert_eq!(set.len(), 1);
    push_unique(&mut set, item.advanced());
    assert_eq!(set.len(), 2);
    assert_eq!(set[1], EarleyItem { rule: 0, start: 0, current: 1 });
}

#[test]
fn item_next_unparsed() {
    let g = left_recursive();
    let item = EarleyItem::new(0, 3);
    assert_eq!(item, EarleyItem { rule: 0, start: 3, current: 0 });
    assert!(matches!(item.next_unparsed(&g), Some(Symbol::Nonterminal(n)) if n == "S"));
    let item = item.advanced();
    assert!(matches!(item.next_unparsed(&g), Some(Symbol::Terminal(p)) if p == "+"));
    let done = item.advanced().advanced();
    assert!(done.next_unparsed(&g).is_none());
}

#[test]
fn symbol_matching() {
    assert!(t("a").matches(&"a".to_string()));
    assert!(!t("a").matches(&"b".to_string()));
    assert!(!nt("a").matches(&"a".to_string()));
}
