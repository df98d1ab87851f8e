use lib::json::{Json, Member};
use lib::pointer::{
    cJSONUtils_FindPointerFromObjectTo, cJSONUtils_GetPointer, cJSONUtils_GetPointerCaseSensitive,
    detach_path,
};

fn s(x: &str) -> Json {
    Json::String(x.as_bytes().to_vec())
}

fn n(x: i64) -> Json {
    Json::Number(x)
}

fn arr(v: Vec<Json>) -> Json {
    Json::Array(v)
}

fn obj(v: Vec<(&str, Json)>) -> Json {
    Json::Object(v.into_iter().map(|(k, v)| Member { key: k.as_bytes().to_vec(), value: v }).collect())
}

/// The example document of RFC 6901.
fn rfc_document() -> Json {
    obj(vec![
        ("foo", arr(vec![s("bar"), s("baz")])),
        ("", n(0)),
        ("a/b", n(1)),
        ("c%d", n(2)),
        ("e^f", n(3)),
        ("g|h", n(4)),
        ("i\\j", n(5)),
        ("k\"l", n(6)),
        (" ", n(7)),
        ("m~n", n(8)),
    ])
}

#[test]
fn get_pointer_rfc_examples() {
    let doc = rfc_document();
    assert_eq!(cJSONUtils_GetPointerCaseSensitive(&doc, b""), Some(&rfc_document()));
    assert_eq!(cJSONUtils_GetPointerCaseSensitive(&doc, b"/foo"), Some(&arr(vec![s("bar"), s("baz")])));
    assert_eq!(cJSONUtils_GetPointerCaseSensitive(&doc, b"/foo/0"), Some(&s("bar")));
    assert_eq!(cJSONUtils_GetPointerCaseSensitive(&doc, b"/"), Some(&n(0)));
    assert_eq!(cJSONUtils_GetPointerCaseSensitive(&doc, b"/a~1b"), Some(&n(1)));
    assert_eq!(cJSONUtils_GetPointerCaseSensitive(&doc, b"/c%d"), Some(&n(2)));
    assert_eq!(cJSONUtils_GetPointerCaseSensitive(&doc, b"/ "), Some(&n(7)));
    assert_eq!(cJSONUtils_GetPointerCaseSensitive(&doc, b"/m~0n"), Some(&n(8)));
}

#[test]
fn get_pointer_missing_and_bad_tokens() {
    let doc = rfc_document();
    assert_eq!(cJSONUtils_GetPointer(&doc, b"/nothing"), None);
    assert_eq!(cJSONUtils_GetPointer(&doc, b"/foo/2"), None);
    assert_eq!(cJSONUtils_GetPointer(&doc, b"/foo/01"), None);
    assert_eq!(cJSONUtils_GetPointer(&doc, b"/foo/1x"), None);
    assert_eq!(cJSONUtils_GetPointer(&doc, b"/m~2n"), None);
    assert_eq!(cJSONUtils_GetPointer(&doc, b"/foo/0/deeper"), None);
}

#[test]
fn get_pointer_without_leading_slash_is_the_document() {
    let doc = obj(vec![("a", n(1))]);
    assert_eq!(cJSONUtils_GetPointer(&doc, b"a"), Some(&obj(vec![("a", n(1))])));
}

#[test]
fn get_pointer_empty_index_token_is_item_zero() {
    let doc = arr(vec![n(10), n(20)]);
    assert_eq!(cJSONUtils_GetPointer(&doc, b"/"), Some(&n(10)));
}

#[test]
fn get_pointer_case_rules() {
    let doc = obj(vec![("Foo", n(1)), ("foo", n(2))]);
    assert_eq!(cJSONUtils_GetPointer(&doc, b"/FOO"), Some(&n(1)));
    assert_eq!(cJSONUtils_GetPointer(&doc, b"/foo"), Some(&n(1)));
    assert_eq!(cJSONUtils_GetPointerCaseSensitive(&doc, b"/foo"), Some(&n(2)));
    assert_eq!(cJSONUtils_GetPointerCaseSensitive(&doc, b"/FOO"), None);
}

#[test]
fn get_pointer_first_duplicate_key_wins() {
    let doc = obj(vec![("k", n(1)), ("k", n(2))]);
    assert_eq!(cJSONUtils_GetPointerCaseSensitive(&doc, b"/k"), Some(&n(1)));
}

#[test]
fn find_pointer_escapes_keys_and_numbers_indices() {
    let doc = obj(vec![("a", arr(vec![n(1), obj(vec![("b~c/d", Json::True)])]))]);
    assert_eq!(cJSONUtils_FindPointerFromObjectTo(&doc, &[0, 1, 0]), Some(b"/a/1/b~0c~1d".to_vec()));
    assert_eq!(cJSONUtils_FindPointerFromObjectTo(&doc, &[0, 0]), Some(b"/a/0".to_vec()));
}

#[test]
fn find_pointer_of_the_document_itself_is_empty() {
    let doc = arr(vec![n(1)]);
    assert_eq!(cJSONUtils_FindPointerFromObjectTo(&doc, &[]), Some(Vec::new()));
}

#[test]
fn find_pointer_to_a_node_outside_the_tree_is_none() {
    // A node that is not in the document: no position inside it reaches it.
    let doc = obj(vec![("a", n(1))]);
    assert_eq!(cJSONUtils_FindPointerFromObjectTo(&doc, &[1]), None);
    assert_eq!(cJSONUtils_FindPointerFromObjectTo(&doc, &[0, 0]), None);
    assert_eq!(cJSONUtils_FindPointerFromObjectTo(&n(1), &[0]), None);
}

#[test]
fn find_pointer_finds_the_node_not_an_equal_value() {
    let doc = arr(vec![arr(vec![n(5)]), n(5)]);
    assert_eq!(cJSONUtils_FindPointerFromObjectTo(&doc, &[1]), Some(b"/1".to_vec()));
    assert_eq!(cJSONUtils_FindPointerFromObjectTo(&doc, &[0, 0]), Some(b"/0/0".to_vec()));
    let doc = obj(vec![("k", n(1)), ("k", Json::True), ("m", Json::True)]);
    let pointer = cJSONUtils_FindPointerFromObjectTo(&doc, &[2]).unwrap();
    assert_eq!(pointer, b"/m".to_vec());
    assert_eq!(cJSONUtils_GetPointerCaseSensitive(&doc, &pointer), Some(&Json::True));
}

#[test]
fn find_then_get_round_trip() {
    let doc = obj(vec![("x", obj(vec![("y/z", arr(vec![s("p"), s("q")]))])), ("w", n(3))]);
    let pointer = cJSONUtils_FindPointerFromObjectTo(&doc, &[0, 0, 1]).unwrap();
    assert_eq!(pointer, b"/x/y~1z/1".to_vec());
    assert_eq!(cJSONUtils_GetPointerCaseSensitive(&doc, &pointer), Some(&s("q")));
}

#[test]
fn detach_path_from_object_and_array() {
    let mut doc = obj(vec![("a", arr(vec![n(1), n(2), n(3)])), ("B", n(4))]);
    assert_eq!(detach_path(&mut doc, b"/a/1", true), Some(n(2)));
    assert_eq!(detach_path(&mut doc, b"/b", true), Some(n(4)));
    assert_eq!(doc, obj(vec![("a", arr(vec![n(1), n(3)]))]));
    assert_eq!(detach_path(&mut doc, b"/a/7", true), None);
    assert_eq!(detach_path(&mut doc, b"no-slash", true), None);
    assert_eq!(doc, obj(vec![("a", arr(vec![n(1), n(3)]))]));
}
