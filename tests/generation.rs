use std::str::FromStr;

use json_fuzz_gen::entropy::Entropy;
use json_fuzz_gen::grammar::{generate, render, rules_well_formed, Ast, Grammar};
use json_fuzz_gen::json::{json_grammar_mutator, json_rules, keyword};

#[test]
fn test_mutator() {
    let m = json_grammar_mutator();
    for seed in 0..200u64 {
        let mut rng = Entropy::new(seed);
        let (text, ast) = m.generate((seed % 8) as usize, &mut rng);
        serde_json::Value::from_str(&text).unwrap();
        let mut current = (text, ast);
        for _ in 0..5 {
            current = m.mutate(current, 4, &mut rng);
            serde_json::Value::from_str(&current.0).unwrap();
        }
    }
}

#[test]
fn zero_budget_gives_null() {
    let m = json_grammar_mutator();
    for seed in 0..20u64 {
        let mut rng = Entropy::new(seed);
        let (text, _) = m.generate(0, &mut rng);
        assert_eq!(text, "null");
    }
}

#[test]
fn render_spells_tokens_in_order() {
    let t = Ast::Sequence(vec![
        Ast::Token('['),
        Ast::Choice(1, Box::new(Ast::Token('7'))),
        Ast::Rule(Box::new(Ast::Sequence(vec![]))),
        Ast::Token(']'),
    ]);
    assert_eq!(render(&t), "[7]");
}

#[test]
fn keyword_derives_its_word() {
    let rules: Vec<Grammar> = vec![];
    let g = keyword("true");
    let mut rng = Entropy::new(3);
    let t = generate(&rules, &g, 0, &mut rng);
    assert_eq!(render(&t), "true");
}

#[test]
fn json_rules_have_one_rule() {
    assert_eq!(json_rules().len(), 1);
}

#[test]
fn mutation_keeps_valid_json() {
    let m = json_grammar_mutator();
    let mut rng = Entropy::new(99);
    let mut current = m.generate(6, &mut rng);
    for _ in 0..100 {
        current = m.mutate(current, 3, &mut rng);
        assert!(serde_json::Value::from_str(&current.0).is_ok(), "{}", current.0);
    }
}

#[test]
fn entropy_stays_below_bound() {
    let mut rng = Entropy::new(1);
    for n in 1..50u64 {
        assert!(rng.below(n) < n);
    }
}

#[test]
fn rule_tables_are_checked() {
    assert!(rules_well_formed(&json_rules()));
    let dangling = vec![Grammar::Alternation(vec![Grammar::Literal('a'), Grammar::Recurse(1)])];
    assert!(!rules_well_formed(&dangling));
    let endless = vec![Grammar::Concatenation(vec![Grammar::Literal('a'), Grammar::Recurse(0)])];
    assert!(!rules_well_formed(&endless));
    let empty_choice = vec![Grammar::Alternation(vec![])];
    assert!(!rules_well_formed(&empty_choice));
}

#[test]
fn tokens_of_numbers_and_strings_are_plain() {
    let m = json_grammar_mutator();
    for seed in 0..100u64 {
        let mut rng = Entropy::new(seed);
        let (text, _) = m.generate(5, &mut rng);
        assert!(!text.contains(' ') && !text.contains('\\'));
        for bad in ["[]", "{}", ",]", ",}", "[,", "{,", ",,"] {
            assert!(!text.contains(bad), "{}", text);
        }
    }
}
