//! JSON Patch (RFC 6902): applying patches to a document, and composing
//! the patches that turn one document into another.

use vstd::prelude::*;
use crate::json::{
    Json, JsonV, Member, items_view, members_view, object_get, object_detach, object_add,
    get_object_item, detach_item_from_object, add_item_to_object, opt_view, copy_bytes,
    first_key_match, find_member,
};
use crate::strings::{
    decimal, lemma_decimal_digits_no_slash, lemma_decimal_digit_chars, law_decimal_index,
    lemma_decode_plain, lemma_key_order_unfold_first, key_eq, escape, encode_string_as_pointer,
    compare_strings, decode_index, decode_segment, decode_array_index_from_pointer,
    decode_pointer_inplace,
};
use crate::pointer::{
    get_pointer, set_pointer, pointer_step, lemma_set_get, last_slash, find_last_slash, detach_path,
    detach_path_spec, get_item_from_pointer, get_item_from_pointer_mut, law_get_after_set,
    lemma_get_compose, lemma_last_slash_at, lemma_token_len_at, with_child,
};
use crate::compare::{compare_spec, compare_json, law_compare_reflexive};

verus! {

/// The key `op`.
pub open spec fn key_op() -> Seq<u8> {
    seq![111u8, 112u8]
}

/// The key `path`.
pub open spec fn key_path() -> Seq<u8> {
    seq![112u8, 97u8, 116u8, 104u8]
}

/// The key `value`.
pub open spec fn key_value() -> Seq<u8> {
    seq![118u8, 97u8, 108u8, 117u8, 101u8]
}

/// The key `from`.
pub open spec fn key_from() -> Seq<u8> {
    seq![102u8, 114u8, 111u8, 109u8]
}

/// The operation name `add`.
pub open spec fn name_add() -> Seq<u8> {
    seq![97u8, 100u8, 100u8]
}

/// The operation name `remove`.
pub open spec fn name_remove() -> Seq<u8> {
    seq![114u8, 101u8, 109u8, 111u8, 118u8, 101u8]
}

/// The operation name `replace`.
pub open spec fn name_replace() -> Seq<u8> {
    seq![114u8, 101u8, 112u8, 108u8, 97u8, 99u8, 101u8]
}

/// The operation name `move`.
pub open spec fn name_move() -> Seq<u8> {
    seq![109u8, 111u8, 118u8, 101u8]
}

/// The operation name `copy`.
pub open spec fn name_copy() -> Seq<u8> {
    seq![99u8, 111u8, 112u8, 121u8]
}

/// The operation name `test`.
pub open spec fn name_test() -> Seq<u8> {
    seq![116u8, 101u8, 115u8, 116u8]
}

/// The reference token `-`, which designates the end of an array.
pub open spec fn token_end() -> Seq<u8> {
    seq![45u8]
}

pub fn bytes_op() -> (r: Vec<u8>)
    ensures
        r@ == key_op(),
{
    let r = vec![111u8, 112u8];
    assert(r@ =~= key_op());
    r
}

pub fn bytes_path() -> (r: Vec<u8>)
    ensures
        r@ == key_path(),
{
    let r = vec![112u8, 97u8, 116u8, 104u8];
    assert(r@ =~= key_path());
    r
}

pub fn bytes_value() -> (r: Vec<u8>)
    ensures
        r@ == key_value(),
{
    let r = vec![118u8, 97u8, 108u8, 117u8, 101u8];
    assert(r@ =~= key_value());
    r
}

pub fn bytes_from() -> (r: Vec<u8>)
    ensures
        r@ == key_from(),
{
    let r = vec![102u8, 114u8, 111u8, 109u8];
    assert(r@ =~= key_from());
    r
}

pub fn bytes_add() -> (r: Vec<u8>)
    ensures
        r@ == name_add(),
{
    let r = vec![97u8, 100u8, 100u8];
    assert(r@ =~= name_add());
    r
}

pub fn bytes_remove() -> (r: Vec<u8>)
    ensures
        r@ == name_remove(),
{
    let r = vec![114u8, 101u8, 109u8, 111u8, 118u8, 101u8];
    assert(r@ =~= name_remove());
    r
}

pub fn bytes_replace() -> (r: Vec<u8>)
    ensures
        r@ == name_replace(),
{
    let r = vec![114u8, 101u8, 112u8, 108u8, 97u8, 99u8, 101u8];
    assert(r@ =~= name_replace());
    r
}

pub fn bytes_move() -> (r: Vec<u8>)
    ensures
        r@ == name_move(),
{
    let r = vec![109u8, 111u8, 118u8, 101u8];
    assert(r@ =~= name_move());
    r
}

pub fn bytes_copy() -> (r: Vec<u8>)
    ensures
        r@ == name_copy(),
{
    let r = vec![99u8, 111u8, 112u8, 121u8];
    assert(r@ =~= name_copy());
    r
}

pub fn bytes_test() -> (r: Vec<u8>)
    ensures
        r@ == name_test(),
{
    let r = vec![116u8, 101u8, 115u8, 116u8];
    assert(r@ =~= name_test());
    r
}

pub fn bytes_end() -> (r: Vec<u8>)
    ensures
        r@ == token_end(),
{
    let r = vec![45u8];
    assert(r@ =~= token_end());
    r
}

/// The operations of a JSON Patch.
#[derive(Debug, PartialEq, Eq)]
pub enum PatchOperation {
    Invalid,
    Add,
    Remove,
    Replace,
    Move,
    Copy,
    Test,
}

/// The operation that a patch names in its `op` member (a string, compared
/// byte for byte); `Invalid` when there is none.
pub open spec fn patch_operation(patch: JsonV, case_sensitive: bool) -> PatchOperation {
    match object_get(patch, key_op(), case_sensitive) {
        Some(JsonV::String(s)) => if key_eq(s, name_add(), true) {
            PatchOperation::Add
        } else if key_eq(s, name_remove(), true) {
            PatchOperation::Remove
        } else if key_eq(s, name_replace(), true) {
            PatchOperation::Replace
        } else if key_eq(s, name_move(), true) {
            PatchOperation::Move
        } else if key_eq(s, name_copy(), true) {
            PatchOperation::Copy
        } else if key_eq(s, name_test(), true) {
            PatchOperation::Test
        } else {
            PatchOperation::Invalid
        },
        _ => PatchOperation::Invalid,
    }
}

/// Reads the operation of a patch.
pub fn decode_patch_operation(patch: &Json, case_sensitive: bool) -> (r: PatchOperation)
    ensures
        r == patch_operation(patch@, case_sensitive),
{
    let op_key = bytes_op();
    match get_object_item(patch, op_key.as_slice(), case_sensitive) {
        Some(Json::String(s)) => {
            let s = s.as_slice();
            if compare_strings(s, bytes_add().as_slice(), true) == 0 {
                PatchOperation::Add
            } else if compare_strings(s, bytes_remove().as_slice(), true) == 0 {
                PatchOperation::Remove
            } else if compare_strings(s, bytes_replace().as_slice(), true) == 0 {
                PatchOperation::Replace
            } else if compare_strings(s, bytes_move().as_slice(), true) == 0 {
                PatchOperation::Move
            } else if compare_strings(s, bytes_copy().as_slice(), true) == 0 {
                PatchOperation::Copy
            } else if compare_strings(s, bytes_test().as_slice(), true) == 0 {
                PatchOperation::Test
            } else {
                PatchOperation::Invalid
            }
        },
        _ => PatchOperation::Invalid,
    }
}


/// Puts `value` into `parent` under the (decoded) reference token `child`;
/// gives a status (0 for success) and the new parent. In an array, `-`
/// appends and an index up to the length inserts before that position; in
/// an object, the first member with that key goes and the value is appended
/// under the key.
pub open spec fn insert_child(parent: JsonV, child: Seq<u8>, value: JsonV, case_sensitive: bool) -> (int, JsonV) {
    match parent {
        JsonV::Array(items) => if key_eq(child, token_end(), true) {
            (0, JsonV::Array(items.push(value)))
        } else {
            match decode_index(child) {
                None => (11, parent),
                Some(i) => if (i as int) <= items.len() {
                    (0, JsonV::Array(items.insert(i as int, value)))
                } else {
                    (10, parent)
                },
            }
        },
        JsonV::Object(_) => (0, object_add(object_detach(parent, child, case_sensitive).0, child, value)),
        _ => (9, parent),
    }
}

/// Puts `value` at `path` in `object`: the pointer up to the last `/`
/// designates the parent, the rest (decoded in place) names the place in
/// it. Gives a status (0 for success) and the new tree; on failure the tree
/// is unchanged.
pub open spec fn add_at_spec(object: JsonV, path: Seq<u8>, value: JsonV, case_sensitive: bool) -> (int, JsonV) {
    let s = last_slash(path);
    if s < 0 {
        (9, object)
    } else {
        let parent_pointer = path.take(s);
        let child = decode_segment(path.skip(s + 1));
        match get_pointer(object, parent_pointer, case_sensitive) {
            None => (9, object),
            Some(parent) => {
                let (status, new_parent) = insert_child(parent, child, value, case_sensitive);
                if status == 0 {
                    (0, set_pointer(object, parent_pointer, case_sensitive, new_parent))
                } else {
                    (status, object)
                }
            },
        }
    }
}

fn insert_child_exec(parent: &mut Json, child: &[u8], value: Json, case_sensitive: bool) -> (status: i32)
    ensures
        (status as int, final(parent)@) == insert_child(old(parent)@, child@, value@, case_sensitive),
{
    match parent {
        Json::Array(items) => {
            let ghost before = items@;
            if compare_strings(child, bytes_end().as_slice(), true) == 0 {
                items.push(value);
                proof {
                    assert(items_view(items@) =~= items_view(before).push(value@));
                }
                0
            } else {
                match decode_array_index_from_pointer(child) {
                    None => 11,
                    Some(i) => {
                        if i <= items.len() {
                            items.insert(i, value);
                            proof {
                                assert(items_view(items@) =~= items_view(before).insert(i as int, value@));
                            }
                            0
                        } else {
                            10
                        }
                    },
                }
            }
        },
        Json::Object(_) => {
            let _ = detach_item_from_object(parent, child, case_sensitive);
            add_item_to_object(parent, child, value);
            0
        },
        _ => 9,
    }
}

/// Puts `value` at `path` in `object`; see `add_at_spec`.
fn add_at(object: &mut Json, path: &[u8], value: Json, case_sensitive: bool) -> (status: i32)
    ensures
        (status as int, final(object)@) == add_at_spec(old(object)@, path@, value@, case_sensitive),
{
    let s = match find_last_slash(path) {
        None => {
            return 9;
        },
        Some(s) => s,
    };
    let (parent_pointer, rest) = path.split_at(s);
    let (_, child_raw) = rest.split_at(1);
    assert(child_raw@ =~= path@.skip(s + 1));
    let child = decode_pointer_inplace(child_raw);
    let ghost old_object = object@;
    proof {
        if get_pointer(old_object, parent_pointer@, case_sensitive) is Some {
            lemma_set_get(old_object, parent_pointer@, case_sensitive);
        }
    }
    match get_item_from_pointer_mut(object, parent_pointer, case_sensitive) {
        None => 9,
        Some(parent) => insert_child_exec(parent, child.as_slice(), value, case_sensitive),
    }
}

/// The steps of a patch other than `test` and the replacement of the whole
/// document: `remove` and `replace` first take the value at `path` out
/// (status 13 where there is none; `remove` is then done); `move` takes the
/// value at `from` out, `copy` copies it (status 4 without a `from` string,
/// 5 where nothing is there); `add` and `replace` take the patch's `value`
/// (status 7 without one); the value is then put at `path` (see
/// `add_at_spec`). What was taken out stays out whatever follows.
pub open spec fn apply_body_spec(
    object: JsonV,
    patch: JsonV,
    path: Seq<u8>,
    op: PatchOperation,
    case_sensitive: bool,
) -> (int, JsonV) {
    let removes = op is Remove || op is Replace;
    if removes && detach_path_spec(object, path, case_sensitive).1 is None {
        (13, object)
    } else {
        let o1 = if removes {
            detach_path_spec(object, path, case_sensitive).0
        } else {
            object
        };
        if op is Remove {
            (0, o1)
        } else if op is Move || op is Copy {
            match object_get(patch, key_from(), case_sensitive) {
                Some(JsonV::String(from)) => if op is Move {
                    let (o2, taken) = detach_path_spec(o1, from, case_sensitive);
                    match taken {
                        None => (5, o1),
                        Some(v) => add_at_spec(o2, path, v, case_sensitive),
                    }
                } else {
                    match get_pointer(o1, from, case_sensitive) {
                        None => (5, o1),
                        Some(v) => add_at_spec(o1, path, v, case_sensitive),
                    }
                },
                _ => (4, o1),
            }
        } else {
            match object_get(patch, key_value(), case_sensitive) {
                None => (7, o1),
                Some(v) => add_at_spec(o1, path, v, case_sensitive),
            }
        }
    }
}

/// Applies one patch to `object`; gives the status (0 for success) and the
/// document after it. A patch without a `path` string gives 2, one without
/// a known `op` gives 3. `test` compares the value at `path` with the
/// patch's `value` (0 when equal, 1 otherwise, and 1 where either is
/// missing), leaving the compared value sorted as the comparison leaves it.
/// An empty `path` designates the whole document: `remove` leaves an
/// invalid value, `add` and `replace` put the patch's `value` in its place
/// (7 without one).
pub open spec fn apply_patch_spec(object: JsonV, patch: JsonV, case_sensitive: bool) -> (int, JsonV) {
    match object_get(patch, key_path(), case_sensitive) {
        Some(JsonV::String(path)) => {
            let op = patch_operation(patch, case_sensitive);
            if op is Invalid {
                (3, object)
            } else if op is Test {
                match (get_pointer(object, path, case_sensitive), object_get(patch, key_value(), case_sensitive)) {
                    (Some(t), Some(v)) => {
                        let c = compare_spec(t, v, case_sensitive);
                        (if c.0 { 0 } else { 1 }, set_pointer(object, path, case_sensitive, c.1))
                    },
                    _ => (1, object),
                }
            } else if path.len() == 0 && op is Remove {
                (0, JsonV::Invalid)
            } else if path.len() == 0 && (op is Replace || op is Add) {
                match object_get(patch, key_value(), case_sensitive) {
                    None => (7, object),
                    Some(v) => (0, v),
                }
            } else {
                apply_body_spec(object, patch, path, op, case_sensitive)
            }
        },
        _ => (2, object),
    }
}

/// `patch` with the value of its first member keyed `value` replaced by
/// `v`.
pub open spec fn with_value(patch: JsonV, v: JsonV, case_sensitive: bool) -> JsonV {
    match patch {
        JsonV::Object(ms) => with_child(patch, first_key_match(ms, key_value(), case_sensitive), v),
        _ => patch,
    }
}

/// The patch as applying it to `object` leaves it: a `test` that finds
/// both the value at its `path` and its own `value` leaves its `value`
/// sorted as the comparison leaves it; any other patch stays as it was.
pub open spec fn patch_after_spec(object: JsonV, patch: JsonV, case_sensitive: bool) -> JsonV {
    match object_get(patch, key_path(), case_sensitive) {
        Some(JsonV::String(path)) => if patch_operation(patch, case_sensitive) is Test {
            match (get_pointer(object, path, case_sensitive), object_get(patch, key_value(), case_sensitive)) {
                (Some(t), Some(v)) => with_value(patch, compare_spec(t, v, case_sensitive).2, case_sensitive),
                _ => patch,
            }
        } else {
            patch
        },
        _ => patch,
    }
}

/// Compares `target` with the `value` of a `test` patch, which the
/// comparison sorts where it stands; false where the patch has no `value`.
fn test_value(target: &mut Json, patch: &mut Json, case_sensitive: bool) -> (r: bool)
    ensures
        match object_get(old(patch)@, key_value(), case_sensitive) {
            Some(v) => {
                let c = compare_spec(old(target)@, v, case_sensitive);
                &&& r == c.0
                &&& final(target)@ == c.1
                &&& final(patch)@ == with_value(old(patch)@, c.2, case_sensitive)
            },
            None => !r && final(target)@ == old(target)@ && final(patch)@ == old(patch)@,
        },
{
    match patch {
        Json::Object(members) => {
            let value_key = bytes_value();
            let k = find_member(members, value_key.as_slice(), case_sensitive);
            if k < members.len() {
                let ghost ms = members_view(members@);
                let mut expected = members[k].value.duplicate();
                let equal = compare_json(target, &mut expected, case_sensitive);
                let key = copy_bytes(members[k].key.as_slice());
                members.set(k, Member { key: key, value: expected });
                proof {
                    assert(members_view(members@) =~= ms.update(k as int, (ms[k as int].0, expected@)));
                }
                equal
            } else {
                false
            }
        },
        _ => false,
    }
}

fn apply_patch_body(
    object: &mut Json,
    patch: &Json,
    path: &[u8],
    opcode: PatchOperation,
    case_sensitive: bool,
) -> (status: i32)
    ensures
        (status as int, final(object)@) == apply_body_spec(old(object)@, patch@, path@, opcode, case_sensitive),
{
    let removes = match opcode {
        PatchOperation::Remove | PatchOperation::Replace => true,
        _ => false,
    };
    if removes {
        let old_item = detach_path(object, path, case_sensitive);
        if old_item.is_none() {
            return 13;
        }
        if let PatchOperation::Remove = opcode {
            return 0;
        }
    }
    match opcode {
        PatchOperation::Move | PatchOperation::Copy => {
            let from_key = bytes_from();
            let from = match get_object_item(patch, from_key.as_slice(), case_sensitive) {
                Some(Json::String(from)) => from,
                _ => {
                    return 4;
                },
            };
            let value = if let PatchOperation::Move = opcode {
                detach_path(object, from.as_slice(), case_sensitive)
            } else {
                match get_item_from_pointer(object, from.as_slice(), case_sensitive) {
                    Some(v) => Some(v.duplicate()),
                    None => None,
                }
            };
            match value {
                None => 5,
                Some(v) => add_at(object, path, v, case_sensitive),
            }
        },
        _ => {
            let value_key = bytes_value();
            match get_object_item(patch, value_key.as_slice(), case_sensitive) {
                None => 7,
                Some(v) => add_at(object, path, v.duplicate(), case_sensitive),
            }
        },
    }
}

/// Applies one patch to `object` (`apply_patch`); see `apply_patch_spec`
/// and, for what it leaves of the patch, `patch_after_spec`.
pub fn apply_patch(object: &mut Json, patch: &mut Json, case_sensitive: bool) -> (status: i32)
    ensures
        (status as int, final(object)@) == apply_patch_spec(old(object)@, old(patch)@, case_sensitive),
        final(patch)@ == patch_after_spec(old(object)@, old(patch)@, case_sensitive),
{
    let path_key = bytes_path();
    let path = match get_object_item(patch, path_key.as_slice(), case_sensitive) {
        Some(Json::String(path)) => copy_bytes(path.as_slice()),
        _ => {
            return 2;
        },
    };
    let opcode = decode_patch_operation(patch, case_sensitive);
    if let PatchOperation::Invalid = opcode {
        return 3;
    }
    if let PatchOperation::Test = opcode {
        let ghost old_object = object@;
        proof {
            if get_pointer(old_object, path@, case_sensitive) is Some {
                lemma_set_get(old_object, path@, case_sensitive);
            }
        }
        let target = get_item_from_pointer_mut(object, path.as_slice(), case_sensitive);
        return match target {
            Some(t) => if test_value(t, patch, case_sensitive) {
                0
            } else {
                1
            },
            None => 1,
        };
    }
    if path.len() == 0 {
        match opcode {
            PatchOperation::Remove => {
                *object = Json::Invalid;
                return 0;
            },
            PatchOperation::Replace | PatchOperation::Add => {
                let value_key = bytes_value();
                return match get_object_item(patch, value_key.as_slice(), case_sensitive) {
                    None => 7,
                    Some(v) => {
                        *object = v.duplicate();
                        0
                    },
                };
            },
            _ => {},
        }
    }
    apply_patch_body(object, patch, path.as_slice(), opcode, case_sensitive)
}

/// The patches as applying them in order to `object` leaves them: each
/// one applied as `patch_after_spec` says, up to the first that fails;
/// those after it as they were.
pub open spec fn patches_after_seq(object: JsonV, patches: Seq<JsonV>, case_sensitive: bool) -> Seq<JsonV>
    decreases patches.len(),
{
    if patches.len() == 0 {
        patches
    } else {
        let (status, next) = apply_patch_spec(object, patches[0], case_sensitive);
        let first = patch_after_spec(object, patches[0], case_sensitive);
        if status != 0 {
            seq![first] + patches.drop_first()
        } else {
            seq![first] + patches_after_seq(next, patches.drop_first(), case_sensitive)
        }
    }
}

/// A JSON Patch document as applying it to `object` leaves it.
pub open spec fn patches_after_spec(object: JsonV, patches: JsonV, case_sensitive: bool) -> JsonV {
    match patches {
        JsonV::Array(ps) => JsonV::Array(patches_after_seq(object, ps, case_sensitive)),
        _ => patches,
    }
}

/// Applies patches in order, stopping at the first that fails; gives its
/// status (0 when all succeed) and the document as the patches leave it.
pub open spec fn apply_patches_seq(object: JsonV, patches: Seq<JsonV>, case_sensitive: bool) -> (int, JsonV)
    decreases patches.len(),
{
    if patches.len() == 0 {
        (0, object)
    } else {
        let (status, next) = apply_patch_spec(object, patches[0], case_sensitive);
        if status != 0 {
            (status, next)
        } else {
            apply_patches_seq(next, patches.drop_first(), case_sensitive)
        }
    }
}

/// Applies a JSON Patch document (an array of patches) to `object`; a
/// document that is not an array gives status 1 and changes nothing.
pub open spec fn apply_patches_spec(object: JsonV, patches: JsonV, case_sensitive: bool) -> (int, JsonV) {
    match patches {
        JsonV::Array(ps) => apply_patches_seq(object, ps, case_sensitive),
        _ => (1, object),
    }
}

#[verifier::loop_isolation(false)]
fn apply_patches(object: &mut Json, patches: &mut Json, case_sensitive: bool) -> (status: i32)
    ensures
        (status as int, final(object)@) == apply_patches_spec(old(object)@, old(patches)@, case_sensitive),
        final(patches)@ == patches_after_spec(old(object)@, old(patches)@, case_sensitive),
{
    let items = match patches {
        Json::Array(items) => items,
        _ => {
            return 1;
        },
    };
    let ghost ps = items_view(items@);
    let ghost start = object@;
    let mut i: usize = 0;
    proof {
        assert(ps.skip(0) =~= ps);
        assert(items_view(items@).take(0) + ps.skip(0) =~= ps);
    }
    while i < items.len()
        invariant
            old(patches)@ == JsonV::Array(ps),
            ps.len() == items@.len(),
            i <= items@.len(),
            items_view(items@) =~= items_view(items@).take(i as int) + ps.skip(i as int),
            apply_patches_seq(start, ps, case_sensitive) == apply_patches_seq(
                object@,
                ps.skip(i as int),
                case_sensitive,
            ),
            patches_after_seq(start, ps, case_sensitive) == items_view(items@).take(i as int)
                + patches_after_seq(object@, ps.skip(i as int), case_sensitive),
        decreases items@.len() - i,
    {
        let ghost done = items_view(items@).take(i as int);
        proof {
            assert(ps.skip(i as int)[0] == ps[i as int]);
            assert(ps.skip(i as int).drop_first() =~= ps.skip(i + 1));
            assert(items_view(items@)[i as int] == ps[i as int]);
            assert(items@[i as int]@ == items_view(items@)[i as int]);
        }
        let ghost before = object@;
        let mut patch = items[i].duplicate();
        let status = apply_patch(object, &mut patch, case_sensitive);
        let ghost first = patch@;
        let ghost old_items = items@;
        items.set(i, patch);
        proof {
            assert(items@ == old_items.update(i as int, patch));
            assert forall|j: int| 0 <= j < items@.len() implies #[trigger] items_view(items@)[j] == (done.push(first)
                + ps.skip(i + 1))[j] by {
                assert(items_view(items@)[j] == items@[j]@);
                if j < i {
                    assert(items_view(old_items)[j] == old_items[j]@);
                    assert(items_view(old_items)[j] == done[j]);
                } else if j > i {
                    assert(items_view(old_items)[j] == old_items[j]@);
                    assert(items_view(old_items)[j] == ps.skip(i as int)[j - i]);
                    assert(ps.skip(i as int)[j - i] == ps.skip(i + 1)[j - i - 1]);
                }
            }
            assert(items_view(items@) =~= done.push(first) + ps.skip(i + 1));
            assert(items_view(items@).take(i + 1) =~= done.push(first));
            assert(apply_patches_seq(before, ps.skip(i as int), case_sensitive) == if status != 0 {
                (status as int, object@)
            } else {
                apply_patches_seq(object@, ps.skip(i + 1), case_sensitive)
            });
            assert(patches_after_seq(before, ps.skip(i as int), case_sensitive) == if status != 0 {
                seq![first] + ps.skip(i + 1)
            } else {
                seq![first] + patches_after_seq(object@, ps.skip(i + 1), case_sensitive)
            });
            assert(done + (seq![first] + ps.skip(i + 1)) =~= items_view(items@));
            assert(done + (seq![first] + patches_after_seq(object@, ps.skip(i + 1), case_sensitive)) =~= done.push(
                first,
            ) + patches_after_seq(object@, ps.skip(i + 1), case_sensitive));
        }
        if status != 0 {
            return status;
        }
        i = i + 1;
    }
    proof {
        assert(ps.skip(i as int) =~= Seq::<JsonV>::empty());
        assert(items_view(items@).take(i as int) =~= items_view(items@));
    }
    0
}

/// Applies a JSON Patch document to `object`, matching keys ignoring case;
/// gives 0 on success, or the status of the first patch that fails.
pub fn cJSONUtils_ApplyPatches(object: &mut Json, patches: &mut Json) -> (status: i32)
    ensures
        (status as int, final(object)@) == apply_patches_spec(old(object)@, old(patches)@, false),
        final(patches)@ == patches_after_spec(old(object)@, old(patches)@, false),
{
    apply_patches(object, patches, false)
}

/// Applies a JSON Patch document to `object`, matching keys exactly.
pub fn cJSONUtils_ApplyPatchesCaseSensitive(object: &mut Json, patches: &mut Json) -> (status: i32)
    ensures
        (status as int, final(object)@) == apply_patches_spec(old(object)@, old(patches)@, true),
        final(patches)@ == patches_after_spec(old(object)@, old(patches)@, true),
{
    apply_patches(object, patches, true)
}

/// The patch object `{"op": op, "path": path, "value": value}`; with a
/// suffix, the path is `path` + `/` + the suffix escaped as a reference
/// token; without a value, there is no `value` member.
pub open spec fn make_patch(op: Seq<u8>, path: Seq<u8>, suffix: Option<Seq<u8>>, value: Option<JsonV>) -> JsonV {
    let full_path = match suffix {
        None => path,
        Some(s) => path + seq![47u8] + escape(s),
    };
    let members = seq![(key_op(), JsonV::String(op)), (key_path(), JsonV::String(full_path))];
    JsonV::Object(
        match value {
            Some(v) => members.push((key_value(), v)),
            None => members,
        },
    )
}

pub open spec fn opt_bytes_view(o: Option<&[u8]>) -> Option<Seq<u8>> {
    match o {
        Some(s) => Some(s@),
        None => None,
    }
}

/// Appends a patch to a list of patches (`compose_patch`).
pub fn compose_patch(
    patches: &mut Vec<Json>,
    operation: &[u8],
    path: &[u8],
    suffix: Option<&[u8]>,
    value: Option<&Json>,
)
    ensures
        items_view(final(patches)@) == items_view(old(patches)@).push(
            make_patch(operation@, path@, opt_bytes_view(suffix), opt_view(value)),
        ),
{
    let mut full_path = copy_bytes(path);
    match suffix {
        Some(s) => {
            full_path.push(47);
            encode_string_as_pointer(&mut full_path, s);
        },
        None => {},
    }
    let mut members: Vec<Member> = Vec::new();
    members.push(Member { key: bytes_op(), value: Json::String(copy_bytes(operation)) });
    members.push(Member { key: bytes_path(), value: Json::String(full_path) });
    match value {
        Some(v) => {
            members.push(Member { key: bytes_value(), value: v.duplicate() });
        },
        None => {},
    }
    let patch = Json::Object(members);
    proof {
        let ms = match value {
            Some(v) => seq![(key_op(), JsonV::String(operation@)), (key_path(), JsonV::String(full_path@))].push((key_value(), v@)),
            None => seq![(key_op(), JsonV::String(operation@)), (key_path(), JsonV::String(full_path@))],
        };
        assert(members_view(members@) =~= ms);
        match suffix {
            Some(s) => {
                assert(full_path@ =~= path@ + seq![47u8] + escape(s@));
            },
            None => {},
        }
    }
    let ghost before = patches@;
    patches.push(patch);
    proof {
        assert(items_view(patches@) =~= items_view(before).push(patch@));
    }
}

/// The list of patches after `cJSONUtils_AddPatchToArray`: the patch
/// appended when `array` is an array; anything else is left as it is.
pub open spec fn add_patch_spec(array: JsonV, operation: Seq<u8>, path: Seq<u8>, value: Option<JsonV>) -> JsonV {
    match array {
        JsonV::Array(items) => JsonV::Array(items.push(make_patch(operation, path, None, value))),
        _ => array,
    }
}

/// Appends the patch `{"op": operation, "path": path, "value": value}` to an
/// array of patches.
pub fn cJSONUtils_AddPatchToArray(array: &mut Json, operation: &[u8], path: &[u8], value: Option<&Json>)
    ensures
        final(array)@ == add_patch_spec(old(array)@, operation@, path@, opt_view(value)),
{
    match array {
        Json::Array(items) => {
            compose_patch(items, operation, path, None, value);
        },
        _ => {},
    }
}

/// A `test` patch whose value is the value at its path succeeds.
pub proof fn law_test_own_value(object: JsonV, patch: JsonV, path: Seq<u8>, case_sensitive: bool)
    requires
        object_get(patch, key_path(), case_sensitive) == Some(JsonV::String(path)),
        patch_operation(patch, case_sensitive) is Test,
        object_get(patch, key_value(), case_sensitive) == get_pointer(object, path, case_sensitive),
        get_pointer(object, path, case_sensitive) is Some,
    ensures
        apply_patch_spec(object, patch, case_sensitive).0 == 0,
{
    law_compare_reflexive(get_pointer(object, path, case_sensitive).unwrap(), case_sensitive);
}

/// An `add` patch into an array at the decimal index `i` (up to the
/// array's length) succeeds, inserts the value there (the items from `i`
/// on move up by one), and reading its path afterwards gives the value it
/// added.
#[verifier::spinoff_prover]
#[verifier::rlimit(30)]
pub proof fn law_add_to_array_then_get(
    object: JsonV,
    patch: JsonV,
    parent_pointer: Seq<u8>,
    i: usize,
    v: JsonV,
    case_sensitive: bool,
)
    requires
        parent_pointer.len() == 0 || parent_pointer[0] == 47,
        object_get(patch, key_path(), case_sensitive) == Some(
            JsonV::String(parent_pointer + seq![47u8] + decimal(i as nat)),
        ),
        patch_operation(patch, case_sensitive) is Add,
        object_get(patch, key_value(), case_sensitive) == Some(v),
        get_pointer(object, parent_pointer, case_sensitive) matches Some(JsonV::Array(items)) && i
            <= items.len(),
    ensures
        apply_patch_spec(object, patch, case_sensitive).0 == 0,
        get_pointer(
            apply_patch_spec(object, patch, case_sensitive).1,
            parent_pointer + seq![47u8] + decimal(i as nat),
            case_sensitive,
        ) == Some(v),
        apply_patch_spec(object, patch, case_sensitive).1 == set_pointer(
            object,
            parent_pointer,
            case_sensitive,
            JsonV::Array(get_pointer(object, parent_pointer, case_sensitive).unwrap()->Array_0.insert(i as int, v)),
        ),
{
    let d = decimal(i as nat);
    let path = parent_pointer + seq![47u8] + d;
    let items = get_pointer(object, parent_pointer, case_sensitive).unwrap()->Array_0;
    lemma_decimal_digits_no_slash(i as nat);
    lemma_decimal_digit_chars(i as nat);
    let s = parent_pointer.len() as int;
    assert forall|j: int| s < j < path.len() implies path[j] != 47 by {
        assert(path[j] == d[j - s - 1]);
    }
    assert(path[s] == 47);
    lemma_last_slash_at(path, s);
    assert(path.take(s) =~= parent_pointer);
    assert(path.skip(s + 1) =~= d);
    lemma_decode_plain(d);
    law_decimal_index(i, Seq::empty());
    assert(d + Seq::<u8>::empty() =~= d);
    lemma_key_order_unfold_first(d, token_end());
    let new_parent = JsonV::Array(items.insert(i as int, v));
    assert(insert_child(JsonV::Array(items), d, v, case_sensitive) == (0int, new_parent));
    let o2 = set_pointer(object, parent_pointer, case_sensitive, new_parent);
    assert(add_at_spec(object, path, v, case_sensitive) == (0int, o2));
    assert(apply_patch_spec(object, patch, case_sensitive) == (0int, o2));
    law_get_after_set(object, parent_pointer, case_sensitive, new_parent);
    lemma_get_compose(o2, parent_pointer, seq![47u8] + d, case_sensitive);
    assert(path =~= parent_pointer + (seq![47u8] + d));
    let tail = seq![47u8] + d;
    assert(tail.drop_first() =~= d);
    assert forall|j: int| 0 <= j < d.len() implies d[j] != 47 by {}
    lemma_token_len_at(d, d.len() as int);
    assert(d.skip(d.len() as int) =~= Seq::<u8>::empty());
    assert(get_pointer(v, Seq::<u8>::empty(), case_sensitive) == Some(v));
    assert(pointer_step(new_parent, d, case_sensitive) == Some(v));
    assert(get_pointer(new_parent, tail, case_sensitive) == Some(v));
}

} // verus!
