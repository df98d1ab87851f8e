use lib::diff::{cJSONUtils_GeneratePatches, cJSONUtils_GeneratePatchesCaseSensitive};
use lib::json::{Json, Member};
use lib::patch::{
    cJSONUtils_AddPatchToArray, cJSONUtils_ApplyPatches, cJSONUtils_ApplyPatchesCaseSensitive,
    decode_patch_operation, PatchOperation,
};

fn s(x: &str) -> Json {
    Json::String(x.as_bytes().to_vec())
}

fn n(x: i64) -> Json {
    Json::Number(x)
}

fn arr(v: Vec<Json>) -> Json {
    Json::Array(v)
}

fn obj(v: Vec<(&str, Json)>) -> Json {
    Json::Object(v.into_iter().map(|(k, v)| Member { key: k.as_bytes().to_vec(), value: v }).collect())
}

fn op(operation: &str, path: &str, value: Option<Json>) -> Json {
    let mut members = vec![("op", s(operation)), ("path", s(path))];
    if let Some(v) = value {
        members.push(("value", v));
    }
    obj(members)
}

fn op_from(operation: &str, from: &str, path: &str) -> Json {
    obj(vec![("op", s(operation)), ("from", s(from)), ("path", s(path))])
}

fn apply(doc: &mut Json, patches: Vec<Json>) -> i32 {
    cJSONUtils_ApplyPatchesCaseSensitive(doc, &mut arr(patches))
}

#[test]
fn add_member_and_array_items() {
    let mut doc = obj(vec![("foo", arr(vec![s("bar"), s("baz")]))]);
    assert_eq!(
        apply(
            &mut doc,
            vec![
                op("add", "/foo/1", Some(s("qux"))),
                op("add", "/foo/-", Some(s("end"))),
                op("add", "/x", Some(n(1))),
            ]
        ),
        0
    );
    assert_eq!(
        doc,
        obj(vec![("foo", arr(vec![s("bar"), s("qux"), s("baz"), s("end")])), ("x", n(1))])
    );
}

#[test]
fn add_existing_key_moves_it_to_the_end() {
    let mut doc = obj(vec![("a", n(1)), ("b", n(2))]);
    assert_eq!(apply(&mut doc, vec![op("add", "/a", Some(n(9)))]), 0);
    assert_eq!(doc, obj(vec![("b", n(2)), ("a", n(9))]));
}

#[test]
fn remove_and_replace() {
    let mut doc = obj(vec![("a", n(1)), ("b", arr(vec![n(1), n(2)]))]);
    assert_eq!(apply(&mut doc, vec![op("remove", "/a", None), op("replace", "/b/0", Some(n(7)))]), 0);
    assert_eq!(doc, obj(vec![("b", arr(vec![n(7), n(2)]))]));
}

#[test]
fn move_and_copy() {
    let mut doc = obj(vec![("a", obj(vec![("x", n(1))])), ("b", arr(vec![]))]);
    assert_eq!(apply(&mut doc, vec![op_from("copy", "/a/x", "/b/-"), op_from("move", "/a", "/c")]), 0);
    assert_eq!(doc, obj(vec![("b", arr(vec![n(1)])), ("c", obj(vec![("x", n(1))]))]));
}

#[test]
fn test_operation_results() {
    let mut doc = obj(vec![("a", arr(vec![n(1), s("two")]))]);
    assert_eq!(apply(&mut doc, vec![op("test", "/a/1", Some(s("two")))]), 0);
    assert_eq!(apply(&mut doc, vec![op("test", "/a/1", Some(s("three")))]), 1);
    assert_eq!(apply(&mut doc, vec![op("test", "/missing", Some(n(1)))]), 1);
    assert_eq!(apply(&mut doc, vec![op("test", "/a", None)]), 1);
}

#[test]
fn test_operation_on_objects_ignores_member_order_and_sorts() {
    let mut doc = obj(vec![("o", obj(vec![("b", n(2)), ("a", n(1))]))]);
    assert_eq!(apply(&mut doc, vec![op("test", "/o", Some(obj(vec![("a", n(1)), ("b", n(2))])))]), 0);
    assert_eq!(doc, obj(vec![("o", obj(vec![("a", n(1)), ("b", n(2))]))]));
}

#[test]
fn whole_document_operations() {
    let mut doc = obj(vec![("a", n(1))]);
    assert_eq!(apply(&mut doc, vec![op("replace", "", Some(arr(vec![n(3)])))]), 0);
    assert_eq!(doc, arr(vec![n(3)]));
    assert_eq!(apply(&mut doc, vec![op("remove", "", None)]), 0);
    assert_eq!(doc, Json::Invalid);
}

#[test]
fn error_statuses() {
    let mut doc = obj(vec![("a", arr(vec![n(1)])), ("s", s("x"))]);
    assert_eq!(cJSONUtils_ApplyPatches(&mut doc, &mut obj(vec![])), 1);
    assert_eq!(apply(&mut doc, vec![obj(vec![("op", s("add"))])]), 2);
    assert_eq!(apply(&mut doc, vec![op("frobnicate", "/a", None)]), 3);
    assert_eq!(apply(&mut doc, vec![obj(vec![("op", s("move")), ("path", s("/b"))])]), 4);
    assert_eq!(apply(&mut doc, vec![op_from("copy", "/nothing", "/b")]), 5);
    assert_eq!(apply(&mut doc, vec![op("add", "/b", None)]), 7);
    assert_eq!(apply(&mut doc, vec![op("add", "/nothing/b", Some(n(1)))]), 9);
    assert_eq!(apply(&mut doc, vec![op("add", "b", Some(n(1)))]), 9);
    assert_eq!(apply(&mut doc, vec![op("add", "/s/x", Some(n(1)))]), 9);
    assert_eq!(apply(&mut doc, vec![op("add", "/a/5", Some(n(1)))]), 10);
    assert_eq!(apply(&mut doc, vec![op("add", "/a/x", Some(n(1)))]), 11);
    assert_eq!(apply(&mut doc, vec![op("remove", "/nothing", None)]), 13);
    assert_eq!(doc, obj(vec![("a", arr(vec![n(1)])), ("s", s("x"))]));
}

#[test]
fn failed_replace_keeps_the_removal() {
    let mut doc = obj(vec![("a", n(1)), ("b", n(2))]);
    assert_eq!(apply(&mut doc, vec![op("replace", "/a", None)]), 7);
    assert_eq!(doc, obj(vec![("b", n(2))]));
}

#[test]
fn patches_stop_at_the_first_failure() {
    let mut doc = obj(vec![]);
    assert_eq!(
        apply(&mut doc, vec![op("add", "/a", Some(n(1))), op("remove", "/zz", None), op("add", "/b", Some(n(2)))]),
        13
    );
    assert_eq!(doc, obj(vec![("a", n(1))]));
}

#[test]
fn case_insensitive_patch_keys_and_paths() {
    let mut doc = obj(vec![("Name", n(1))]);
    let patch = obj(vec![("OP", s("replace")), ("PATH", s("/name")), ("VALUE", n(2))]);
    assert_eq!(cJSONUtils_ApplyPatches(&mut doc, &mut arr(vec![patch])), 0);
    assert_eq!(doc, obj(vec![("name", n(2))]));
}

#[test]
fn add_to_array_then_get_gives_the_value() {
    let mut doc = obj(vec![("list", arr(vec![n(1), n(2)]))]);
    assert_eq!(apply(&mut doc, vec![op("add", "/list/1", Some(s("new")))]), 0);
    assert_eq!(lib::pointer::cJSONUtils_GetPointerCaseSensitive(&doc, b"/list/1"), Some(&s("new")));
}

#[test]
fn decode_operation_names() {
    assert_eq!(decode_patch_operation(&op("copy", "/a", None), true), PatchOperation::Copy);
    assert_eq!(decode_patch_operation(&op("Copy", "/a", None), true), PatchOperation::Invalid);
    assert_eq!(decode_patch_operation(&n(1), true), PatchOperation::Invalid);
}

#[test]
fn add_patch_to_array_composes_a_patch() {
    let mut patches = arr(vec![]);
    cJSONUtils_AddPatchToArray(&mut patches, b"add", b"/x", Some(&n(5)));
    cJSONUtils_AddPatchToArray(&mut patches, b"remove", b"/y", None);
    assert_eq!(patches, arr(vec![op("add", "/x", Some(n(5))), op("remove", "/y", None)]));
    let mut not_array = obj(vec![]);
    cJSONUtils_AddPatchToArray(&mut not_array, b"add", b"/x", None);
    assert_eq!(not_array, obj(vec![]));
}

#[test]
fn generate_patches_for_objects() {
    let mut from = obj(vec![("b", n(2)), ("a", n(1)), ("d~x", n(4))]);
    let mut to = obj(vec![("a", n(1)), ("c", n(3)), ("d~x", n(5))]);
    let patches = cJSONUtils_GeneratePatchesCaseSensitive(&mut from, &mut to);
    assert_eq!(
        patches,
        arr(vec![
            op("remove", "/b", None),
            op("add", "/c", Some(n(3))),
            op("replace", "/d~0x", Some(n(5))),
        ])
    );
    assert_eq!(from, obj(vec![("a", n(1)), ("b", n(2)), ("d~x", n(4))]));
}

#[test]
fn generate_patches_for_arrays() {
    let mut from = arr(vec![n(1), n(2), n(3), n(4)]);
    let mut to = arr(vec![n(1), n(5)]);
    assert_eq!(
        cJSONUtils_GeneratePatches(&mut from, &mut to),
        arr(vec![op("replace", "/1", Some(n(5))), op("remove", "/2", None), op("remove", "/2", None)])
    );
    let mut from = arr(vec![n(1)]);
    let mut to = arr(vec![n(1), s("x"), Json::Null]);
    assert_eq!(
        cJSONUtils_GeneratePatches(&mut from, &mut to),
        arr(vec![op("add", "/-", Some(s("x"))), op("add", "/-", Some(Json::Null))])
    );
}

#[test]
fn generate_patches_type_change_replaces_root() {
    let mut from = n(1);
    let mut to = s("one");
    assert_eq!(cJSONUtils_GeneratePatches(&mut from, &mut to), arr(vec![op("replace", "", Some(s("one")))]));
}

#[test]
fn generate_patches_self_is_empty() {
    let mut a = obj(vec![("k", arr(vec![n(1), obj(vec![("z", Json::True), ("y", Json::Null)])]))]);
    let mut b = obj(vec![("k", arr(vec![n(1), obj(vec![("z", Json::True), ("y", Json::Null)])]))]);
    assert_eq!(cJSONUtils_GeneratePatches(&mut a, &mut b), arr(vec![]));
    assert_eq!(a, b);
}

#[test]
fn generated_patches_apply_to_arrays() {
    let mut from = arr(vec![n(1), arr(vec![n(2), n(3)]), n(4)]);
    let mut to = arr(vec![n(1), arr(vec![n(9)]), s("x"), n(7)]);
    let mut patches = cJSONUtils_GeneratePatches(&mut from, &mut to);
    let mut doc = arr(vec![n(1), arr(vec![n(2), n(3)]), n(4)]);
    assert_eq!(cJSONUtils_ApplyPatches(&mut doc, &mut patches), 0);
    assert_eq!(doc, to);
}

#[test]
fn test_operation_sorts_the_value_in_the_patch() {
    let mut doc = obj(vec![("a", obj(vec![("x", n(1)), ("y", n(2))]))]);
    let mut patches = arr(vec![op("test", "/a", Some(obj(vec![("y", n(2)), ("x", n(1))])))]);
    assert_eq!(cJSONUtils_ApplyPatchesCaseSensitive(&mut doc, &mut patches), 0);
    assert_eq!(patches, arr(vec![op("test", "/a", Some(obj(vec![("x", n(1)), ("y", n(2))])))]));
}

#[test]
fn a_failing_test_still_sorts_its_value_and_later_patches_stay() {
    let mut doc = obj(vec![("a", obj(vec![("x", n(1)), ("y", n(3))]))]);
    let later = op("test", "/b", Some(obj(vec![("z", n(1)), ("c", n(2))])));
    let mut patches = arr(vec![
        op("test", "/a", Some(obj(vec![("y", n(2)), ("x", n(1))]))),
        later.duplicate(),
    ]);
    assert_eq!(cJSONUtils_ApplyPatches(&mut doc, &mut patches), 1);
    assert_eq!(
        patches,
        arr(vec![op("test", "/a", Some(obj(vec![("x", n(1)), ("y", n(2))]))), later])
    );
}

#[test]
fn add_to_object_then_get_gives_the_value() {
    let mut doc = obj(vec![("o", obj(vec![("k", n(1)), ("m", n(2))]))]);
    assert_eq!(apply(&mut doc, vec![op("add", "/o/k", Some(s("v")))]), 0);
    assert_eq!(lib::pointer::cJSONUtils_GetPointerCaseSensitive(&doc, b"/o/k"), Some(&s("v")));
    assert_eq!(doc, obj(vec![("o", obj(vec![("m", n(2)), ("k", s("v"))]))]));
}

#[test]
fn remove_member_then_get_finds_nothing() {
    let mut doc = obj(vec![("o", obj(vec![("K", n(1)), ("m", n(2))]))]);
    let mut patches = arr(vec![op("remove", "/o/k", None)]);
    assert_eq!(cJSONUtils_ApplyPatches(&mut doc, &mut patches), 0);
    assert_eq!(lib::pointer::cJSONUtils_GetPointer(&doc, b"/o/k"), None);
    assert_eq!(doc, obj(vec![("o", obj(vec![("m", n(2))]))]));
}

#[test]
fn replace_member_then_get_gives_the_new_value() {
    let mut doc = obj(vec![("o", obj(vec![("k", n(1)), ("m", n(2))]))]);
    assert_eq!(apply(&mut doc, vec![op("replace", "/o/k", Some(arr(vec![n(7)])))]), 0);
    assert_eq!(lib::pointer::cJSONUtils_GetPointerCaseSensitive(&doc, b"/o/k"), Some(&arr(vec![n(7)])));
    assert_eq!(doc, obj(vec![("o", obj(vec![("m", n(2)), ("k", arr(vec![n(7)]))]))]));
}

#[test]
fn test_operation_keeps_the_document_up_to_member_order() {
    let mut doc = obj(vec![("o", obj(vec![("b", n(2)), ("a", n(1)), ("a", n(0))]))]);
    assert_eq!(apply(&mut doc, vec![op("test", "/o", Some(obj(vec![("a", n(1))])))]), 1);
    match &doc {
        Json::Object(ms) => {
            assert_eq!(ms.len(), 1);
            match &ms[0].value {
                Json::Object(inner) => {
                    let mut keys: Vec<(Vec<u8>, Json)> =
                        inner.iter().map(|m| (m.key.clone(), m.value.duplicate())).collect();
                    keys.sort_by(|x, y| x.0.cmp(&y.0));
                    assert_eq!(keys.len(), 3);
                    assert_eq!(keys[2], (b"b".to_vec(), n(2)));
                }
                _ => panic!("not an object"),
            }
        }
        _ => panic!("not an object"),
    }
}
