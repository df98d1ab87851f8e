use lib::compare::compare_json;
use lib::diff::{cJSONUtils_GeneratePatches, cJSONUtils_GeneratePatchesCaseSensitive};
use lib::json::{Json, Member};
use lib::merge::{
    cJSONUtils_GenerateMergePatch, cJSONUtils_GenerateMergePatchCaseSensitive, cJSONUtils_MergePatch,
    cJSONUtils_MergePatchCaseSensitive,
};
use lib::patch::{cJSONUtils_ApplyPatches, cJSONUtils_ApplyPatchesCaseSensitive};

fn s(x: &str) -> Json {
    Json::String(x.as_bytes().to_vec())
}

fn n(x: i64) -> Json {
    Json::Number(x)
}

fn arr(v: Vec<Json>) -> Json {
    Json::Array(v)
}

fn obj(v: Vec<(&str, Json)>) -> Json {
    Json::Object(v.into_iter().map(|(k, v)| Member { key: k.as_bytes().to_vec(), value: v }).collect())
}

/// The value with every object's members put in byte order of their keys,
/// so that values alike up to member order come out equal.
fn canon(j: &Json) -> Json {
    match j {
        Json::Object(ms) => {
            let mut v: Vec<Member> =
                ms.iter().map(|m| Member { key: m.key.clone(), value: canon(&m.value) }).collect();
            v.sort_by_key(|m| m.key.clone());
            Json::Object(v)
        }
        Json::Array(xs) => Json::Array(xs.iter().map(canon).collect()),
        other => other.duplicate(),
    }
}

fn from_doc() -> Json {
    obj(vec![
        ("b", n(1)),
        ("a", arr(vec![n(1), n(2)])),
        ("c", obj(vec![("e", n(1)), ("d", s("x"))])),
        ("g", Json::True),
    ])
}

fn to_doc() -> Json {
    obj(vec![
        ("a", arr(vec![n(1), n(3), obj(vec![("z", Json::Null)])])),
        ("c", obj(vec![("d", s("y"))])),
        ("f", Json::False),
        ("g", n(0)),
    ])
}

#[test]
fn generated_patches_turn_from_into_to_up_to_member_order() {
    let mut from = from_doc();
    let mut to = to_doc();
    let mut patches = cJSONUtils_GeneratePatchesCaseSensitive(&mut from, &mut to);
    assert_eq!(cJSONUtils_ApplyPatchesCaseSensitive(&mut from, &mut patches), 0);
    assert_eq!(canon(&from), canon(&to_doc()));
    // The replaced member ("g") and the added one ("f") come last.
    let keys: Vec<Vec<u8>> = match &from {
        Json::Object(ms) => ms.iter().map(|m| m.key.clone()).collect(),
        _ => vec![],
    };
    assert_eq!(keys, vec![b"a".to_vec(), b"c".to_vec(), b"f".to_vec(), b"g".to_vec()]);
}

#[test]
fn generated_patches_ignoring_case_turn_from_into_to() {
    let mut from = from_doc();
    let mut to = to_doc();
    let mut patches = cJSONUtils_GeneratePatches(&mut from, &mut to);
    assert_eq!(cJSONUtils_ApplyPatches(&mut from, &mut patches), 0);
    assert_eq!(canon(&from), canon(&to_doc()));
}

#[test]
fn generated_patches_without_objects_give_to_exactly() {
    let mut from = arr(vec![n(1), arr(vec![n(2), s("p")]), Json::Null, n(4)]);
    let mut to = arr(vec![s("one"), arr(vec![n(2)]), Json::Null]);
    let mut patches = cJSONUtils_GeneratePatchesCaseSensitive(&mut from, &mut to);
    assert_eq!(from, arr(vec![n(1), arr(vec![n(2), s("p")]), Json::Null, n(4)]));
    assert_eq!(cJSONUtils_ApplyPatchesCaseSensitive(&mut from, &mut patches), 0);
    assert_eq!(from, to);
}

#[test]
fn replacing_twice_keeps_the_second_value() {
    let mut doc = obj(vec![("a", arr(vec![n(1), n(2)]))]);
    let mut patches = arr(vec![
        obj(vec![("op", s("replace")), ("path", s("/a/1")), ("value", n(5))]),
        obj(vec![("op", s("replace")), ("path", s("/a/1")), ("value", n(6))]),
    ]);
    assert_eq!(cJSONUtils_ApplyPatchesCaseSensitive(&mut doc, &mut patches), 0);
    assert_eq!(doc, obj(vec![("a", arr(vec![n(1), n(6)]))]));
}

fn merge_to_doc() -> Json {
    obj(vec![
        ("a", arr(vec![n(1), n(3)])),
        ("c", obj(vec![("d", s("y")), ("h", obj(vec![("i", n(2))]))])),
        ("f", Json::False),
        ("g", n(0)),
    ])
}

#[test]
fn generated_merge_patch_turns_from_into_to_up_to_member_order() {
    let mut from = from_doc();
    let mut to = Some(merge_to_doc());
    let patch = cJSONUtils_GenerateMergePatchCaseSensitive(&mut from, &mut to).unwrap();
    let merged = cJSONUtils_MergePatch(Some(from), &patch);
    assert_eq!(canon(&merged), canon(&merge_to_doc()));
}

#[test]
fn generated_merge_patch_ignoring_case_turns_from_into_to() {
    let mut from = from_doc();
    let mut to = Some(merge_to_doc());
    let patch = cJSONUtils_GenerateMergePatch(&mut from, &mut to).unwrap();
    let merged = cJSONUtils_MergePatch(Some(from), &patch);
    assert_eq!(canon(&merged), canon(&merge_to_doc()));
}

#[test]
fn no_merge_patch_means_from_is_already_to() {
    let mut from = obj(vec![("b", obj(vec![("y", n(1)), ("x", n(2))])), ("a", s("q"))]);
    let mut to = Some(obj(vec![("a", s("q")), ("b", obj(vec![("x", n(2)), ("y", n(1))]))]));
    assert_eq!(cJSONUtils_GenerateMergePatch(&mut from, &mut to), None);
    assert_eq!(canon(&from), canon(to.as_ref().unwrap()));
}

#[test]
fn generated_patches_case_sensitive_with_upper_case_keys() {
    let mut from = obj(vec![("A", n(1)), ("b", n(2))]);
    let mut to = obj(vec![("a", n(1)), ("B", n(3))]);
    let mut patches = cJSONUtils_GeneratePatchesCaseSensitive(&mut from, &mut to);
    assert_eq!(cJSONUtils_ApplyPatchesCaseSensitive(&mut from, &mut patches), 0);
    assert_eq!(canon(&from), canon(&obj(vec![("a", n(1)), ("B", n(3))])));
}

#[test]
fn generated_patches_ignoring_case_keep_the_keys_of_from() {
    let mut from = obj(vec![("A", n(1)), ("b", n(2)), ("C", arr(vec![n(1)]))]);
    let mut to = obj(vec![("a", n(1)), ("B", n(3)), ("d", Json::True)]);
    let mut patches = cJSONUtils_GeneratePatches(&mut from, &mut to);
    assert_eq!(cJSONUtils_ApplyPatches(&mut from, &mut patches), 0);
    // Alike to `to` but for the case of keys: shared keys keep the case
    // they have in `from`.
    assert_eq!(from, obj(vec![("A", n(1)), ("b", n(3)), ("d", Json::True)]));
}

#[test]
fn case_sensitive_merge_round_trip_with_upper_case_top_level_keys() {
    let mut from = obj(vec![("a", n(1)), ("B", n(2)), ("C", obj(vec![("x", n(1))]))]);
    let mut to = Some(obj(vec![("A", n(1)), ("B", n(2)), ("C", obj(vec![("x", n(2)), ("y", Json::True)]))]));
    let patch = cJSONUtils_GenerateMergePatchCaseSensitive(&mut from, &mut to).unwrap();
    let merged = cJSONUtils_MergePatchCaseSensitive(Some(from), &patch);
    let expected = obj(vec![("A", n(1)), ("B", n(2)), ("C", obj(vec![("x", n(2)), ("y", Json::True)]))]);
    assert_eq!(canon(&merged), canon(&expected));
}

#[test]
fn nested_upper_case_keys_break_the_merge_round_trip() {
    // Nested objects are always compared by the generation that ignores
    // case, whose walk goes by byte order: `B` is taken out again.
    let mut from = obj(vec![("x", obj(vec![("a", n(1)), ("B", n(1))]))]);
    let mut to = Some(obj(vec![("x", obj(vec![("B", n(1))]))]));
    let patch = cJSONUtils_GenerateMergePatchCaseSensitive(&mut from, &mut to).unwrap();
    let merged = cJSONUtils_MergePatchCaseSensitive(Some(from), &patch);
    assert_eq!(merged, obj(vec![("x", obj(vec![]))]));
}

#[test]
fn patched_document_compares_equal_to_the_target() {
    let mut from = from_doc();
    let mut to = to_doc();
    let mut patches = cJSONUtils_GeneratePatchesCaseSensitive(&mut from, &mut to);
    assert_eq!(cJSONUtils_ApplyPatchesCaseSensitive(&mut from, &mut patches), 0);
    let mut target = to_doc();
    assert!(compare_json(&mut from, &mut target, true));
}

#[test]
fn patched_document_ignoring_case_compares_equal_to_the_target() {
    let mut from = obj(vec![("A", n(1)), ("b", n(2)), ("C", arr(vec![n(1)]))]);
    let mut to = obj(vec![("a", n(1)), ("B", n(3)), ("d", Json::True)]);
    let mut patches = cJSONUtils_GeneratePatches(&mut from, &mut to);
    assert_eq!(cJSONUtils_ApplyPatches(&mut from, &mut patches), 0);
    let mut target = obj(vec![("a", n(1)), ("B", n(3)), ("d", Json::True)]);
    // The keys keep the case they have in `from`, which the comparison
    // that ignores case does not see.
    assert!(compare_json(&mut from, &mut target, false));
    let mut target_again = obj(vec![("a", n(1)), ("B", n(3)), ("d", Json::True)]);
    assert!(!compare_json(&mut from, &mut target_again, true));
}

#[test]
fn merged_document_compares_equal_to_the_target() {
    let mut from = from_doc();
    let mut to = Some(merge_to_doc());
    let patch = cJSONUtils_GenerateMergePatch(&mut from, &mut to).unwrap();
    let mut merged = cJSONUtils_MergePatch(Some(from), &patch);
    assert!(compare_json(&mut merged, &mut merge_to_doc(), false));
    assert!(compare_json(&mut merged, &mut merge_to_doc(), true));
}

#[test]
fn case_sensitive_merge_result_compares_equal_case_sensitively() {
    let mut from = obj(vec![("a", n(1)), ("B", n(2)), ("C", obj(vec![("x", n(1))]))]);
    let target = || obj(vec![("A", n(1)), ("B", n(2)), ("C", obj(vec![("x", n(2)), ("y", Json::True)]))]);
    let mut to = Some(target());
    let patch = cJSONUtils_GenerateMergePatchCaseSensitive(&mut from, &mut to).unwrap();
    let mut merged = cJSONUtils_MergePatchCaseSensitive(Some(from), &patch);
    assert!(compare_json(&mut merged, &mut target(), true));
}
