use lib::compare::compare_json;
use lib::json::{Json, Member};
use lib::sort::{cJSONUtils_SortObject, cJSONUtils_SortObjectCaseSensitive};

fn n(x: i64) -> Json {
    Json::Number(x)
}

fn arr(v: Vec<Json>) -> Json {
    Json::Array(v)
}

fn obj(v: Vec<(&str, Json)>) -> Json {
    Json::Object(v.into_iter().map(|(k, v)| Member { key: k.as_bytes().to_vec(), value: v }).collect())
}

#[test]
fn sort_object_ignoring_case() {
    let mut o = obj(vec![("b", n(1)), ("a", n(2)), ("C", n(3))]);
    cJSONUtils_SortObject(&mut o);
    assert_eq!(o, obj(vec![("a", n(2)), ("b", n(1)), ("C", n(3))]));
}

#[test]
fn sort_object_byte_order() {
    let mut o = obj(vec![("b", n(1)), ("a", n(2)), ("C", n(3))]);
    cJSONUtils_SortObjectCaseSensitive(&mut o);
    assert_eq!(o, obj(vec![("C", n(3)), ("a", n(2)), ("b", n(1))]));
}

#[test]
fn sort_object_equal_keys_take_the_second_half_first() {
    let mut o = obj(vec![("a", n(1)), ("A", n(2))]);
    cJSONUtils_SortObject(&mut o);
    assert_eq!(o, obj(vec![("A", n(2)), ("a", n(1))]));
}

#[test]
fn sort_object_sorted_input_is_unchanged() {
    let mut o = obj(vec![("a", n(1)), ("b", n(2)), ("c", n(3))]);
    cJSONUtils_SortObject(&mut o);
    assert_eq!(o, obj(vec![("a", n(1)), ("b", n(2)), ("c", n(3))]));
}

#[test]
fn sort_object_keeps_every_member() {
    let mut o = obj(vec![("d", n(4)), ("b", n(2)), ("e", n(5)), ("a", n(1)), ("c", n(3))]);
    cJSONUtils_SortObject(&mut o);
    assert_eq!(o, obj(vec![("a", n(1)), ("b", n(2)), ("c", n(3)), ("d", n(4)), ("e", n(5))]));
}

#[test]
fn sort_array_reorders_items_as_keyless_members() {
    let mut a = arr(vec![n(1), n(2), n(3)]);
    cJSONUtils_SortObject(&mut a);
    assert_eq!(a, arr(vec![n(3), n(2), n(1)]));
    let mut scalar = n(7);
    cJSONUtils_SortObject(&mut scalar);
    assert_eq!(scalar, n(7));
}

#[test]
fn compare_json_cases() {
    let mut a = obj(vec![("x", arr(vec![n(1), n(2)])), ("y", Json::True)]);
    let mut b = obj(vec![("y", Json::True), ("x", arr(vec![n(1), n(2)]))]);
    assert!(compare_json(&mut a, &mut b, true));
    assert_eq!(a, b);
    let mut c = arr(vec![n(1)]);
    let mut d = arr(vec![n(1), n(2)]);
    assert!(!compare_json(&mut c, &mut d, true));
    let mut e = n(1);
    let mut f = Json::String(b"1".to_vec());
    assert!(!compare_json(&mut e, &mut f, true));
    let mut g = obj(vec![("K", n(1))]);
    let mut h = obj(vec![("k", n(1))]);
    assert!(compare_json(&mut g, &mut h, false));
    assert!(!compare_json(&mut g, &mut h, true));
    let mut r1 = Json::Raw(b"1".to_vec());
    let mut r2 = Json::Raw(b"2".to_vec());
    assert!(compare_json(&mut r1, &mut r2, true));
}

#[test]
fn compare_json_reflexive() {
    let mut a = obj(vec![("q", obj(vec![("z", n(1)), ("y", n(2))])), ("p", arr(vec![]))]);
    let mut b = obj(vec![("q", obj(vec![("z", n(1)), ("y", n(2))])), ("p", arr(vec![]))]);
    assert!(compare_json(&mut a, &mut b, false));
}

#[test]
fn sort_object_twice_changes_nothing() {
    let mut o = obj(vec![("d", n(4)), ("B", n(2)), ("e", n(5)), ("a", n(1))]);
    cJSONUtils_SortObject(&mut o);
    let once = obj(vec![("a", n(1)), ("B", n(2)), ("d", n(4)), ("e", n(5))]);
    assert_eq!(o, once);
    cJSONUtils_SortObject(&mut o);
    assert_eq!(o, once);
}
