use lib::diff::cJSONUtils_GeneratePatchesCaseSensitive;
use lib::compare::compare_json;
use lib::json::{Json, Member};

fn n(x: i64) -> Json {
    Json::Number(x)
}

fn obj(v: Vec<(&str, Json)>) -> Json {
    Json::Object(v.into_iter().map(|(k, v)| Member { key: k.as_bytes().to_vec(), value: v }).collect())
}

#[test]
fn comparison_is_symmetric_and_sorts_both_sides() {
    let a = obj(vec![("b", n(1)), ("a", obj(vec![("y", n(2)), ("x", n(3))]))]);
    let b = obj(vec![("a", obj(vec![("x", n(3)), ("y", n(2))])), ("b", n(1))]);
    let (mut a1, mut b1) = (a.duplicate(), b.duplicate());
    let (mut a2, mut b2) = (a.duplicate(), b.duplicate());
    assert!(compare_json(&mut a1, &mut b1, true));
    assert!(compare_json(&mut b2, &mut a2, true));
    assert_eq!(a1, a2);
    assert_eq!(b1, b2);
    assert_eq!(a1, obj(vec![("a", obj(vec![("x", n(3)), ("y", n(2))])), ("b", n(1))]));
}

#[test]
fn differing_values_differ_both_ways() {
    let a = obj(vec![("k", n(1)), ("j", n(5))]);
    let b = obj(vec![("j", n(5)), ("k", n(2))]);
    let (mut a1, mut b1) = (a.duplicate(), b.duplicate());
    let (mut a2, mut b2) = (a.duplicate(), b.duplicate());
    assert!(!compare_json(&mut a1, &mut b1, false));
    assert!(!compare_json(&mut b2, &mut a2, false));
    assert_eq!(a1, a2);
    assert_eq!(b1, b2);
}

#[test]
fn no_patches_exactly_when_the_comparison_finds_equal() {
    let a = obj(vec![("b", n(1)), ("a", obj(vec![("y", n(2)), ("x", n(3))]))]);
    let b = obj(vec![("a", obj(vec![("x", n(3)), ("y", n(2))])), ("b", n(1))]);
    let c = obj(vec![("a", obj(vec![("x", n(3)), ("y", n(4))])), ("b", n(1))]);
    assert!(compare_json(&mut a.duplicate(), &mut b.duplicate(), true));
    assert_eq!(cJSONUtils_GeneratePatchesCaseSensitive(&mut a.duplicate(), &mut b.duplicate()), Json::Array(vec![]));
    assert!(!compare_json(&mut a.duplicate(), &mut c.duplicate(), true));
    assert_ne!(cJSONUtils_GeneratePatchesCaseSensitive(&mut a.duplicate(), &mut c.duplicate()), Json::Array(vec![]));
}

#[test]
fn generation_keeps_both_documents_up_to_member_order() {
    let mut from = obj(vec![("b", n(1)), ("a", obj(vec![("y", n(2)), ("x", n(3))]))]);
    let mut to = obj(vec![("c", n(1)), ("a", n(0))]);
    let _ = cJSONUtils_GeneratePatchesCaseSensitive(&mut from, &mut to);
    // Only the top level is sorted: the value under `a` is replaced whole,
    // so generation does not go into it.
    assert_eq!(from, obj(vec![("a", obj(vec![("y", n(2)), ("x", n(3))])), ("b", n(1))]));
    assert_eq!(to, obj(vec![("a", n(0)), ("c", n(1))]));
}

/// The members of a flat object of numbers, in byte order of key then value.
fn members_in_order(j: &Json) -> Vec<(Vec<u8>, i64)> {
    let mut v: Vec<(Vec<u8>, i64)> = match j {
        Json::Object(ms) => ms
            .iter()
            .map(|m| match m.value {
                Json::Number(x) => (m.key.clone(), x),
                _ => (m.key.clone(), i64::MIN),
            })
            .collect(),
        _ => vec![],
    };
    v.sort();
    v
}

#[test]
fn comparison_keeps_members_with_repeated_and_upper_case_keys() {
    let a = obj(vec![("b", n(1)), ("A", n(2)), ("a", n(3)), ("a", n(4))]);
    let b = obj(vec![("B", n(1)), ("a", n(3))]);
    let (mut a1, mut b1) = (a.duplicate(), b.duplicate());
    let _ = compare_json(&mut a1, &mut b1, false);
    assert_eq!(members_in_order(&a1), members_in_order(&a));
    assert_eq!(members_in_order(&b1), members_in_order(&b));
    let (mut a2, mut b2) = (a.duplicate(), b.duplicate());
    let _ = compare_json(&mut a2, &mut b2, true);
    assert_eq!(members_in_order(&a2), members_in_order(&a));
    assert_eq!(members_in_order(&b2), members_in_order(&b));
}

#[test]
fn generation_keeps_members_with_repeated_keys() {
    let mut from = obj(vec![("k", n(1)), ("K", n(2)), ("k", n(3))]);
    let mut to = obj(vec![("z", n(1)), ("k", n(5))]);
    let _ = cJSONUtils_GeneratePatchesCaseSensitive(&mut from, &mut to);
    assert_eq!(members_in_order(&from), members_in_order(&obj(vec![("k", n(1)), ("K", n(2)), ("k", n(3))])));
    assert_eq!(members_in_order(&to), members_in_order(&obj(vec![("z", n(1)), ("k", n(5))])));
}
