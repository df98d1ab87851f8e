use lib::json::{Json, Member};
use lib::merge::{
    cJSONUtils_GenerateMergePatch, cJSONUtils_GenerateMergePatchCaseSensitive, cJSONUtils_MergePatch,
    cJSONUtils_MergePatchCaseSensitive,
};

fn s(x: &str) -> Json {
    Json::String(x.as_bytes().to_vec())
}

fn n(x: i64) -> Json {
    Json::Number(x)
}

fn arr(v: Vec<Json>) -> Json {
    Json::Array(v)
}

fn obj(v: Vec<(&str, Json)>) -> Json {
    Json::Object(v.into_iter().map(|(k, v)| Member { key: k.as_bytes().to_vec(), value: v }).collect())
}

#[test]
fn merge_patch_rfc_examples() {
    let cases = vec![
        (obj(vec![("a", s("b"))]), obj(vec![("a", s("c"))]), obj(vec![("a", s("c"))])),
        (obj(vec![("a", s("b"))]), obj(vec![("b", s("c"))]), obj(vec![("a", s("b")), ("b", s("c"))])),
        (obj(vec![("a", s("b"))]), obj(vec![("a", Json::Null)]), obj(vec![])),
        (
            obj(vec![("a", s("b")), ("b", s("c"))]),
            obj(vec![("a", Json::Null)]),
            obj(vec![("b", s("c"))]),
        ),
        (obj(vec![("a", arr(vec![s("b")]))]), obj(vec![("a", s("c"))]), obj(vec![("a", s("c"))])),
        (obj(vec![("a", s("c"))]), obj(vec![("a", arr(vec![s("b")]))]), obj(vec![("a", arr(vec![s("b")]))])),
        (
            obj(vec![("a", obj(vec![("b", s("c"))]))]),
            obj(vec![("a", obj(vec![("b", s("d")), ("c", Json::Null)]))]),
            obj(vec![("a", obj(vec![("b", s("d"))]))]),
        ),
        (obj(vec![("a", s("foo"))]), Json::Null, Json::Null),
        (obj(vec![("a", s("foo"))]), s("bar"), s("bar")),
        (obj(vec![("e", Json::Null)]), obj(vec![("a", n(1))]), obj(vec![("e", Json::Null), ("a", n(1))])),
        (arr(vec![n(1), n(2)]), obj(vec![("a", s("b")), ("c", Json::Null)]), obj(vec![("a", s("b"))])),
        (
            obj(vec![]),
            obj(vec![("a", obj(vec![("bb", obj(vec![("ccc", Json::Null)]))]))]),
            obj(vec![("a", obj(vec![("bb", obj(vec![]))]))]),
        ),
    ];
    for (target, patch, expected) in cases {
        assert_eq!(cJSONUtils_MergePatchCaseSensitive(Some(target), &patch), expected);
    }
}

#[test]
fn merge_patch_into_nothing() {
    assert_eq!(cJSONUtils_MergePatch(None, &obj(vec![("a", n(1)), ("b", Json::Null)])), obj(vec![("a", n(1))]));
}

#[test]
fn merge_patch_replaced_member_goes_last() {
    let target = obj(vec![("a", n(1)), ("b", n(2))]);
    assert_eq!(
        cJSONUtils_MergePatchCaseSensitive(Some(target), &obj(vec![("a", n(3))])),
        obj(vec![("b", n(2)), ("a", n(3))])
    );
}

#[test]
fn merge_patch_case_rules() {
    let target = obj(vec![("Key", n(1))]);
    assert_eq!(cJSONUtils_MergePatch(Some(target), &obj(vec![("key", Json::Null)])), obj(vec![]));
    let target = obj(vec![("Key", n(1))]);
    assert_eq!(
        cJSONUtils_MergePatchCaseSensitive(Some(target), &obj(vec![("key", Json::Null)])),
        obj(vec![("Key", n(1))])
    );
}

#[test]
fn merge_empty_patch_keeps_object() {
    let target = obj(vec![("x", n(1)), ("y", arr(vec![]))]);
    assert_eq!(cJSONUtils_MergePatch(Some(target), &obj(vec![])), obj(vec![("x", n(1)), ("y", arr(vec![]))]));
}

#[test]
fn generate_merge_patch_objects() {
    let mut from = obj(vec![("b", n(2)), ("a", n(1)), ("d", obj(vec![("x", n(1)), ("y", n(2))]))]);
    let mut to = Some(obj(vec![("a", n(1)), ("c", n(3)), ("d", obj(vec![("x", n(1)), ("y", n(3))]))]));
    let patch = cJSONUtils_GenerateMergePatchCaseSensitive(&mut from, &mut to);
    assert_eq!(
        patch,
        Some(obj(vec![("b", Json::Null), ("c", n(3)), ("d", obj(vec![("y", n(3))]))]))
    );
}

#[test]
fn generate_merge_patch_between_equal_objects_is_none() {
    let mut from = obj(vec![("b", n(2)), ("a", obj(vec![("z", n(0))]))]);
    let mut to = Some(obj(vec![("a", obj(vec![("z", n(0))])), ("b", n(2))]));
    assert_eq!(cJSONUtils_GenerateMergePatch(&mut from, &mut to), None);
    assert_eq!(Some(from), to);
}

#[test]
fn generate_merge_patch_non_objects_is_the_target() {
    let mut from = n(1);
    let mut to = Some(n(1));
    assert_eq!(cJSONUtils_GenerateMergePatch(&mut from, &mut to), Some(n(1)));
    let mut from = obj(vec![]);
    let mut to = Some(arr(vec![n(2)]));
    assert_eq!(cJSONUtils_GenerateMergePatch(&mut from, &mut to), Some(arr(vec![n(2)])));
}

#[test]
fn generated_merge_patch_applies() {
    let mut from = obj(vec![("a", n(1)), ("b", obj(vec![("c", n(2))]))]);
    let mut to = Some(obj(vec![("b", obj(vec![("c", n(3))])), ("d", s("x"))]));
    let patch = cJSONUtils_GenerateMergePatch(&mut from, &mut to).unwrap();
    let merged = cJSONUtils_MergePatch(Some(obj(vec![("a", n(1)), ("b", obj(vec![("c", n(2))]))])), &patch);
    assert_eq!(merged, obj(vec![("b", obj(vec![("c", n(3))])), ("d", s("x"))]));
}

#[test]
fn merge_works_key_by_key() {
    let target = obj(vec![("a", n(1)), ("b", obj(vec![("c", n(2))])), ("d", n(3))]);
    let patch = obj(vec![
        ("b", obj(vec![("c", Json::Null), ("e", n(4))])),
        ("d", Json::Null),
        ("f", n(5)),
    ]);
    let merged = cJSONUtils_MergePatchCaseSensitive(Some(target), &patch);
    assert_eq!(merged, obj(vec![("a", n(1)), ("b", obj(vec![("e", n(4))])), ("f", n(5))]));
}

#[test]
fn generate_merge_patch_without_target_is_null() {
    let mut from = obj(vec![("a", n(1))]);
    let mut to: Option<Json> = None;
    assert_eq!(cJSONUtils_GenerateMergePatch(&mut from, &mut to), Some(Json::Null));
    assert_eq!(cJSONUtils_GenerateMergePatchCaseSensitive(&mut from, &mut to), Some(Json::Null));
    assert_eq!(from, obj(vec![("a", n(1))]));
    assert_eq!(to, None);
}

#[test]
fn merging_the_same_patch_twice_changes_nothing_more() {
    let target = obj(vec![("a", n(1)), ("b", obj(vec![("c", n(2)), ("d", n(3))])), ("e", n(4))]);
    let patch = obj(vec![
        ("b", obj(vec![("c", Json::Null), ("f", obj(vec![("g", n(5))]))])),
        ("e", Json::Null),
        ("h", arr(vec![n(6)])),
    ]);
    let once = cJSONUtils_MergePatch(Some(target), &patch);
    let twice = cJSONUtils_MergePatch(Some(once.duplicate()), &patch);
    assert_eq!(twice, once);
}
