use std::str::FromStr;

use json_fuzz_gen::entropy::Entropy;
use json_fuzz_gen::mutator::{json_value_mutator, mutate_text, mutate_value};
use json_fuzz_gen::value::{
    calculate_output_cplx, map_internal_jv_to_serde, map_serde_json_to_internal,
    remove_special_characters, InternalJsonValue, NativeNumber, NativeValue,
};

fn to_serde(v: &NativeValue) -> serde_json::Value {
    match v {
        NativeValue::Null => serde_json::Value::Null,
        NativeValue::Bool(b) => serde_json::Value::Bool(*b),
        NativeValue::Number(NativeNumber::PosInt { value }) => serde_json::Value::from(*value),
        NativeValue::Number(NativeNumber::NegInt { value }) => serde_json::Value::from(*value),
        NativeValue::Number(NativeNumber::Float { bits }) => {
            serde_json::Value::from(f64::from_bits(*bits))
        }
        NativeValue::String(s) => serde_json::Value::String(s.clone()),
        NativeValue::Array(items) => serde_json::Value::Array(items.iter().map(to_serde).collect()),
        NativeValue::Object(entries) => serde_json::Value::Object(
            entries.iter().map(|(k, v)| (k.clone(), to_serde(v))).collect(),
        ),
    }
}

fn sample() -> NativeValue {
    NativeValue::Object(vec![
        ("a".to_string(), NativeValue::Number(NativeNumber::PosInt { value: 1 })),
        (
            "list".to_string(),
            NativeValue::Array(vec![
                NativeValue::Null,
                NativeValue::Bool(true),
                NativeValue::String("text".to_string()),
            ]),
        ),
    ])
}

#[test]
fn check_validity() {
    let m = json_value_mutator();
    for seed in 0..100u64 {
        let mut rng = Entropy::new(seed);
        let mut value = sample();
        for _ in 0..10 {
            value = m.mutate(&value, 64, &mut rng).unwrap();
            assert!(m.complexity(&value) <= 64);
            let v = to_serde(&value);
            let text = v.to_string();
            let new_v = serde_json::Value::from_str(&text).unwrap();
            assert_eq!(v, new_v);
        }
    }
}

#[test]
fn backward_object_with_number() {
    let internal = InternalJsonValue::Object {
        inner: vec![("a".to_string(), InternalJsonValue::Number { inner: 1 })],
    };
    let native = map_internal_jv_to_serde(&internal);
    assert_eq!(to_serde(&native).to_string(), "{\"a\":1}");
}

#[test]
fn sanitize_removes_quote_and_backslash() {
    assert_eq!(remove_special_characters("x\"y\\".to_string()), "xy");
    assert_eq!(remove_special_characters("plain".to_string()), "plain");
    assert_eq!(remove_special_characters(String::new()), "");
}

#[test]
fn forward_rejects_negative_number() {
    let v = NativeValue::Number(NativeNumber::NegInt { value: -1 });
    assert!(map_serde_json_to_internal(&v).is_none());
}

#[test]
fn forward_rejects_fraction_anywhere() {
    let v = NativeValue::Array(vec![
        NativeValue::Null,
        NativeValue::Number(NativeNumber::Float { bits: 1.5f64.to_bits() }),
    ]);
    assert!(map_serde_json_to_internal(&v).is_none());
}

#[test]
fn backward_then_forward_costs_no_more() {
    let internal = InternalJsonValue::Array {
        inner: vec![
            InternalJsonValue::String { inner: "a\"b".to_string() },
            InternalJsonValue::Bool { inner: false },
        ],
    };
    let native = map_internal_jv_to_serde(&internal);
    assert_eq!(calculate_output_cplx(&native), 1 + 3 + 1);
    let back = map_serde_json_to_internal(&native).unwrap();
    let again = map_internal_jv_to_serde(&back);
    assert_eq!(calculate_output_cplx(&again), 5);
    match back {
        InternalJsonValue::Array { inner } => match &inner[0] {
            InternalJsonValue::String { inner } => assert_eq!(inner, "ab"),
            _ => panic!("expected a string"),
        },
        _ => panic!("expected an array"),
    }
}

#[test]
fn forward_then_backward_round_trips() {
    let v = sample();
    let internal = map_serde_json_to_internal(&v).unwrap();
    let back = map_internal_jv_to_serde(&internal);
    assert_eq!(to_serde(&back).to_string(), to_serde(&v).to_string());
}

#[test]
fn cost_of_each_kind() {
    assert_eq!(calculate_output_cplx(&NativeValue::Null), 1);
    assert_eq!(calculate_output_cplx(&NativeValue::Bool(true)), 1);
    assert_eq!(
        calculate_output_cplx(&NativeValue::Number(NativeNumber::PosInt { value: 7 })),
        9
    );
    assert_eq!(calculate_output_cplx(&NativeValue::String("héllo".to_string())), 6);
    // 1 + (1 + 9) + (3 + 1)
    assert_eq!(calculate_output_cplx(&sample()), 1 + 1 + 9 + 4 + 1 + 1 + 1 + 5);
}

#[test]
fn cost_grows_on_insertion() {
    let a = NativeValue::Array(vec![NativeValue::Null]);
    let b = NativeValue::Array(vec![NativeValue::Null, NativeValue::String(String::new())]);
    assert!(calculate_output_cplx(&b) > calculate_output_cplx(&a));
    let c = NativeValue::Object(vec![]);
    let d = NativeValue::Object(vec![(String::new(), NativeValue::Null)]);
    assert!(calculate_output_cplx(&d) > calculate_output_cplx(&c));
}

#[test]
fn bool_mutation_flips() {
    let mut rng = Entropy::new(5);
    match mutate_value(InternalJsonValue::Bool { inner: true }, 3, &mut rng) {
        InternalJsonValue::Bool { inner } => assert!(!inner),
        _ => panic!("tag changed"),
    }
}

#[test]
fn text_mutation_changes_length_by_at_most_one() {
    let mut rng = Entropy::new(11);
    for _ in 0..50 {
        let s = "abc".to_string();
        let r = mutate_text(&s, 1, &mut rng);
        let n = r.chars().count();
        assert!((2..=4).contains(&n));
    }
}

#[test]
fn mutator_skips_unrepresentable() {
    let m = json_value_mutator();
    let mut rng = Entropy::new(2);
    let v = NativeValue::Number(NativeNumber::NegInt { value: -1 });
    assert!(m.mutate(&v, 4, &mut rng).is_none());
    assert_eq!(m.complexity(&v), 9);
}

#[test]
fn generated_value_respects_bound() {
    let m = json_value_mutator();
    for seed in 0..50u64 {
        let mut rng = Entropy::new(seed);
        let v = m.generate(1 + seed % 12, &mut rng);
        assert!(m.complexity(&v) <= 1 + seed % 12);
        assert!(map_serde_json_to_internal(&v).is_some());
    }
}

#[test]
fn mutation_stays_under_bound() {
    let m = json_value_mutator();
    let mut rng = Entropy::new(17);
    let mut value = NativeValue::Array(vec![]);
    for _ in 0..200 {
        value = m.mutate(&value, 30, &mut rng).unwrap();
        assert!(m.complexity(&value) <= 30);
    }
}

#[test]
fn text_edit_of_empty_text_inserts_one_char() {
    let mut rng = Entropy::new(4);
    let r = mutate_text(&String::new(), 1, &mut rng);
    assert_eq!(r.chars().count(), 1);
    let r = mutate_text(&String::new(), 0, &mut rng);
    assert_eq!(r, "");
}

#[test]
fn empty_array_gains_an_element() {
    let mut rng = Entropy::new(8);
    match mutate_value(InternalJsonValue::Array { inner: vec![] }, 5, &mut rng) {
        InternalJsonValue::Array { inner } => assert_eq!(inner.len(), 1),
        _ => panic!("tag changed"),
    }
}
