//! JSON Pointer (RFC 6901) lookup and removal.

use vstd::prelude::*;
use crate::json::{
    Json, JsonV, Member, view_json, items_view, first_where, lemma_first_where_at, lemma_first_where, members_view,
    opt_view, object_detach, detach_item_from_object,
};
use crate::strings::{
    lemma_decode_index_append, lemma_segment_matches_append,
    law_decimal_index, lemma_decimal_digits_no_slash, law_escape_matches, law_escape_match_unique, lemma_escape_no_slash,
    decimal, escape, push_decimal, encode_string_as_pointer,
    segment_matches, compare_pointers, decode_index, decode_array_index_from_pointer,
    decode_segment, decode_pointer_inplace,
};

verus! {

/// The length of the reference token at the start of `p`: the bytes up to
/// its first `/`.
pub open spec fn token_len(p: Seq<u8>) -> nat
    decreases p.len(),
{
    if p.len() == 0 || p[0] == 47 {
        0
    } else {
        1 + token_len(p.drop_first())
    }
}

pub proof fn lemma_token_len(p: Seq<u8>)
    ensures
        token_len(p) <= p.len(),
    decreases p.len(),
{
    if p.len() > 0 && p[0] != 47 {
        lemma_token_len(p.drop_first());
    }
}

pub proof fn lemma_token_len_at(p: Seq<u8>, k: int)
    requires
        0 <= k <= p.len(),
        forall|j: int| 0 <= j < k ==> p[j] != 47,
        k == p.len() || p[k] == 47,
    ensures
        token_len(p) == k,
    decreases k,
{
    if k > 0 {
        lemma_token_len_at(p.drop_first(), k - 1);
    }
}

/// The position of the first member whose key matches the reference token
/// at the start of `p`.
pub open spec fn first_segment_match(ms: Seq<(Seq<u8>, JsonV)>, p: Seq<u8>, case_sensitive: bool) -> int {
    first_where(ms, |m: (Seq<u8>, JsonV)| segment_matches(m.0, p, case_sensitive))
}

/// One step down a JSON Pointer: the child of `cur` that the reference token
/// at the start of `p` names.
pub open spec fn pointer_step(cur: JsonV, p: Seq<u8>, case_sensitive: bool) -> Option<JsonV> {
    match cur {
        JsonV::Array(items) => match decode_index(p) {
            Some(i) => if (i as int) < items.len() {
                Some(items[i as int])
            } else {
                None
            },
            None => None,
        },
        JsonV::Object(ms) => {
            let k = first_segment_match(ms, p, case_sensitive);
            if k < ms.len() {
                Some(ms[k].1)
            } else {
                None
            }
        },
        _ => None,
    }
}

/// The value that a JSON Pointer designates in `j`. The walk goes on while
/// the pointer continues with `/`; what follows the last token that it
/// reads (text that does not start with `/`, as a pointer without a leading
/// `/`) is not looked at.
pub open spec fn get_pointer(j: JsonV, p: Seq<u8>, case_sensitive: bool) -> Option<JsonV>
    decreases p.len(),
{
    if p.len() > 0 && p[0] == 47 {
        let rest = p.drop_first();
        match pointer_step(j, rest, case_sensitive) {
            Some(c) => {
                proof {
                    lemma_token_len(rest);
                }
                get_pointer(c, rest.skip(token_len(rest) as int), case_sensitive)
            },
            None => None,
        }
    } else {
        Some(j)
    }
}

fn find_segment(members: &Vec<Member>, pointer: &[u8], case_sensitive: bool) -> (k: usize)
    ensures
        k == first_segment_match(members_view(members@), pointer@, case_sensitive),
{
    let ghost ms = members_view(members@);
    let mut i: usize = 0;
    while i < members.len()
        invariant
            ms == members_view(members@),
            i <= members@.len(),
            forall|j: int|
                0 <= j < i ==> !segment_matches(#[trigger] ms[j].0, pointer@, case_sensitive),
        decreases members@.len() - i,
    {
        assert(ms[i as int].0 == members@[i as int].key@);
        if compare_pointers(members[i].key.as_slice(), pointer, case_sensitive) {
            proof {
                lemma_first_where_at(
                    ms,
                    |m: (Seq<u8>, JsonV)| segment_matches(m.0, pointer@, case_sensitive),
                    i as int,
                );
            }
            return i;
        }
        i = i + 1;
    }
    proof {
        lemma_first_where_at(
            ms,
            |m: (Seq<u8>, JsonV)| segment_matches(m.0, pointer@, case_sensitive),
            i as int,
        );
    }
    i
}

/// The child of `current` that the reference token at the start of
/// `pointer` names.
fn step<'a>(current: &'a Json, pointer: &[u8], case_sensitive: bool) -> (r: Option<&'a Json>)
    ensures
        opt_view(r) == pointer_step(current@, pointer@, case_sensitive),
{
    match current {
        Json::Array(items) => match decode_array_index_from_pointer(pointer) {
            Some(i) => {
                if i < items.len() {
                    Some(&items[i])
                } else {
                    None
                }
            },
            None => None,
        },
        Json::Object(members) => {
            let k = find_segment(members, pointer, case_sensitive);
            if k < members.len() {
                Some(&members[k].value)
            } else {
                None
            }
        },
        _ => None,
    }
}

/// Follows a JSON Pointer from `object`.
pub fn get_item_from_pointer<'a>(object: &'a Json, pointer: &[u8], case_sensitive: bool) -> (r:
    Option<&'a Json>)
    ensures
        opt_view(r) == get_pointer(object@, pointer@, case_sensitive),
{
    let len = pointer.len();
    let mut current: &'a Json = object;
    let mut pos: usize = 0;
    proof {
        assert(pointer@.skip(0) =~= pointer@);
    }
    while pos < len && pointer[pos] == 47
        invariant
            len == pointer@.len(),
            pos <= len,
            get_pointer(object@, pointer@, case_sensitive) == get_pointer(
                current@,
                pointer@.skip(pos as int),
                case_sensitive,
            ),
        decreases len - pos,
    {
        let ghost p = pointer@.skip(pos as int);
        assert(p[0] == 47);
        pos = pos + 1;
        let (_, rest) = pointer.split_at(pos);
        assert(rest@ =~= p.drop_first());
        match step(current, rest, case_sensitive) {
            None => {
                return None;
            },
            Some(child) => {
                current = child;
            },
        }
        let start = pos;
        while pos < len && pointer[pos] != 47
            invariant
                len == pointer@.len(),
                start <= pos <= len,
                forall|j: int| start <= j < pos ==> pointer@[j] != 47,
            decreases len - pos,
        {
            pos = pos + 1;
        }
        proof {
            lemma_token_len_at(rest@, pos - start);
            assert(rest@.skip(pos - start) =~= pointer@.skip(pos as int));
        }
    }
    proof {
        assert(pointer@.skip(pos as int).len() == len - pos);
        if pos < len {
            assert(pointer@.skip(pos as int)[0] == pointer@[pos as int]);
        }
    }
    Some(current)
}

/// Follows a JSON Pointer from `object`, matching keys case-insensitively.
pub fn cJSONUtils_GetPointer<'a>(object: &'a Json, pointer: &[u8]) -> (r: Option<&'a Json>)
    ensures
        opt_view(r) == get_pointer(object@, pointer@, false),
{
    get_item_from_pointer(object, pointer, false)
}

/// Follows a JSON Pointer from `object`, matching keys exactly.
pub fn cJSONUtils_GetPointerCaseSensitive<'a>(object: &'a Json, pointer: &[u8]) -> (r: Option<
    &'a Json,
>)
    ensures
        opt_view(r) == get_pointer(object@, pointer@, true),
{
    get_item_from_pointer(object, pointer, true)
}


/// `cur` with its child at position `k` (array item or object member value)
/// replaced by `c`.
pub open spec fn with_child(cur: JsonV, k: int, c: JsonV) -> JsonV {
    match cur {
        JsonV::Array(items) => JsonV::Array(items.update(k, c)),
        JsonV::Object(ms) => JsonV::Object(ms.update(k, (ms[k].0, c))),
        _ => cur,
    }
}

/// The position of the child that `pointer_step` goes to.
pub open spec fn step_index(cur: JsonV, p: Seq<u8>, case_sensitive: bool) -> int {
    match cur {
        JsonV::Array(items) => match decode_index(p) {
            Some(i) => i as int,
            None => 0,
        },
        JsonV::Object(ms) => first_segment_match(ms, p, case_sensitive),
        _ => 0,
    }
}

/// `j` with the value that the JSON Pointer `p` designates replaced by `v`
/// (`j` itself where the pointer designates nothing).
pub open spec fn set_pointer(j: JsonV, p: Seq<u8>, case_sensitive: bool, v: JsonV) -> JsonV
    decreases p.len(),
{
    if p.len() > 0 && p[0] == 47 {
        let rest = p.drop_first();
        match pointer_step(j, rest, case_sensitive) {
            Some(c) => {
                proof {
                    lemma_token_len(rest);
                }
                with_child(
                    j,
                    step_index(j, rest, case_sensitive),
                    set_pointer(c, rest.skip(token_len(rest) as int), case_sensitive, v),
                )
            },
            None => j,
        }
    } else {
        v
    }
}

/// The length of the reference token at the start of `p`.
fn token_length(p: &[u8]) -> (t: usize)
    ensures
        t == token_len(p@),
{
    let mut t: usize = 0;
    while t < p.len() && p[t] != 47
        invariant
            t <= p@.len(),
            forall|j: int| 0 <= j < t ==> p@[j] != 47,
        decreases p@.len() - t,
    {
        t = t + 1;
    }
    proof {
        lemma_token_len_at(p@, t as int);
    }
    t
}

/// Follows a JSON Pointer from `current` and lends the value it designates.
pub fn get_item_from_pointer_mut<'a>(
    current: &'a mut Json,
    pointer: &[u8],
    case_sensitive: bool,
) -> (r: Option<&'a mut Json>)
    ensures
        get_pointer(old(current)@, pointer@, case_sensitive) == (match r {
            Some(x) => Some(view_json(*x)),
            None => None,
        }),
        r matches Some(x) ==> view_json(*final(current)) == set_pointer(
            old(current)@,
            pointer@,
            case_sensitive,
            view_json(*final(x)),
        ),
        r is None ==> view_json(*final(current)) == old(current)@,
    decreases pointer@.len(),
{
    broadcast use {crate::json::lemma_items_view_update, crate::json::lemma_members_view_update};

    if pointer.len() == 0 || pointer[0] != 47 {
        return Some(current);
    }
    let (_, rest) = pointer.split_at(1);
    assert(rest@ =~= pointer@.drop_first());
    let t = token_length(rest);
    proof {
        lemma_token_len(rest@);
    }
    let (_, next) = rest.split_at(t);
    assert(next@ =~= rest@.skip(t as int));
    let k = match step_position(current, rest, case_sensitive) {
        None => {
            return None;
        },
        Some(k) => k,
    };
    proof {
        assert forall|v: JsonV|
            set_pointer(current@, pointer@, case_sensitive, v) == with_child(
                current@,
                k as int,
                set_pointer(
                    pointer_step(current@, rest@, case_sensitive).unwrap(),
                    next@,
                    case_sensitive,
                    v,
                ),
            ) by {}
    }
    match current {
        Json::Array(items) => {
            assert(old(current)@ == JsonV::Array(items_view(items@)));
            let ghost oi = items@;
            assert forall|x: Json|
                items_view(#[trigger] oi.update(k as int, x)) == items_view(oi).update(
                    k as int,
                    view_json(x),
                ) by {
                crate::json::lemma_items_view_update(oi, k as int, x);
            }
            assert(items_view(oi).update(k as int, items_view(oi)[k as int]) =~= items_view(oi));
            get_item_from_pointer_mut(&mut items[k], next, case_sensitive)
        },
        Json::Object(members) => {
            assert(old(current)@ == JsonV::Object(members_view(members@)));
            let ghost om = members@;
            assert forall|x: Member|
                members_view(#[trigger] om.update(k as int, x)) == members_view(om).update(
                    k as int,
                    (x.key@, view_json(x.value)),
                ) by {
                crate::json::lemma_members_view_update(om, k as int, x);
            }
            assert(members_view(om).update(k as int, members_view(om)[k as int]) =~= members_view(om));
            get_item_from_pointer_mut(&mut members[k].value, next, case_sensitive)
        },
        _ => None,
    }
}

/// The position of the child that the reference token at the start of
/// `pointer` names, where there is one.
fn step_position(current: &Json, pointer: &[u8], case_sensitive: bool) -> (r: Option<usize>)
    ensures
        r is Some <==> pointer_step(current@, pointer@, case_sensitive) is Some,
        r matches Some(k) ==> k == step_index(current@, pointer@, case_sensitive) && (match current@ {
            JsonV::Array(items) => k < items.len() && pointer_step(current@, pointer@, case_sensitive)
                == Some(items[k as int]),
            JsonV::Object(ms) => k < ms.len() && pointer_step(current@, pointer@, case_sensitive)
                == Some(ms[k as int].1),
            _ => false,
        }),
{
    match current {
        Json::Array(items) => match decode_array_index_from_pointer(pointer) {
            Some(i) => {
                if i < items.len() {
                    Some(i)
                } else {
                    None
                }
            },
            None => None,
        },
        Json::Object(members) => {
            let k = find_segment(members, pointer, case_sensitive);
            if k < members.len() {
                Some(k)
            } else {
                None
            }
        },
        _ => None,
    }
}


/// Putting back the value that a pointer designates leaves the tree as it is.
pub proof fn lemma_set_get(j: JsonV, p: Seq<u8>, case_sensitive: bool)
    requires
        get_pointer(j, p, case_sensitive) is Some,
    ensures
        set_pointer(j, p, case_sensitive, get_pointer(j, p, case_sensitive).unwrap()) == j,
    decreases p.len(),
{
    if p.len() > 0 && p[0] == 47 {
        let rest = p.drop_first();
        let c = pointer_step(j, rest, case_sensitive).unwrap();
        lemma_token_len(rest);
        lemma_set_get(c, rest.skip(token_len(rest) as int), case_sensitive);
        match j {
            JsonV::Array(items) => {
                assert(items.update(step_index(j, rest, case_sensitive), c) =~= items);
            },
            JsonV::Object(ms) => {
                let k = first_segment_match(ms, rest, case_sensitive);
                lemma_first_where(ms, |m: (Seq<u8>, JsonV)| segment_matches(m.0, rest, case_sensitive));
                assert(ms.update(k, (ms[k].0, c)) =~= ms);
            },
            _ => {},
        }
    }
}

/// The position of the last `/` of a pointer; -1 when there is none.
pub open spec fn last_slash(p: Seq<u8>) -> int
    decreases p.len(),
{
    if p.len() == 0 {
        -1
    } else if p.last() == 47 {
        p.len() - 1
    } else {
        last_slash(p.drop_last())
    }
}

pub proof fn lemma_last_slash_at(p: Seq<u8>, k: int)
    requires
        -1 <= k < p.len(),
        forall|j: int| k < j < p.len() ==> p[j] != 47,
        k == -1 || p[k] == 47,
    ensures
        last_slash(p) == k,
    decreases p.len(),
{
    if p.len() > 0 && p.last() != 47 {
        lemma_last_slash_at(p.drop_last(), k);
    }
}

/// The position of the last `/` of a pointer, where there is one.
pub fn find_last_slash(p: &[u8]) -> (r: Option<usize>)
    ensures
        match r {
            Some(s) => last_slash(p@) == s as int && s < p@.len() && p@[s as int] == 47,
            None => last_slash(p@) == -1,
        },
{
    let mut i: usize = p.len();
    while i > 0
        invariant
            i <= p@.len(),
            forall|j: int| i <= j < p@.len() ==> p@[j] != 47,
        decreases i,
    {
        if p[i - 1] == 47 {
            proof {
                lemma_last_slash_at(p@, i - 1);
            }
            return Some(i - 1);
        }
        i = i - 1;
    }
    proof {
        lemma_last_slash_at(p@, -1);
    }
    None
}

/// Takes a child out of `parent`: an array item at the index that `child`
/// denotes, or the first member whose key equals `child` ignoring case.
pub open spec fn detach_child(parent: JsonV, child: Seq<u8>) -> (JsonV, Option<JsonV>) {
    match parent {
        JsonV::Array(items) => match decode_index(child) {
            Some(i) => if (i as int) < items.len() {
                (JsonV::Array(items.remove(i as int)), Some(items[i as int]))
            } else {
                (parent, None)
            },
            None => (parent, None),
        },
        JsonV::Object(_) => object_detach(parent, child, false),
        _ => (parent, None),
    }
}

/// Removes the value at `path` from `j`: the pointer up to the last `/`
/// designates the parent, the rest (decoded in place) names the child.
/// Gives the tree after the removal and the value removed.
pub open spec fn detach_path_spec(j: JsonV, path: Seq<u8>, case_sensitive: bool) -> (JsonV, Option<JsonV>) {
    let s = last_slash(path);
    if s < 0 {
        (j, None)
    } else {
        let parent_pointer = path.take(s);
        let child = decode_segment(path.skip(s + 1));
        match get_pointer(j, parent_pointer, case_sensitive) {
            None => (j, None),
            Some(parent) => {
                let (new_parent, detached) = detach_child(parent, child);
                match detached {
                    Some(_) => (set_pointer(j, parent_pointer, case_sensitive, new_parent), detached),
                    None => (j, None),
                }
            },
        }
    }
}

pub open spec fn opt_json_view(o: Option<Json>) -> Option<JsonV> {
    match o {
        Some(x) => Some(x@),
        None => None,
    }
}

/// Takes the child that a reference token names out of an array (see
/// `detach_child`): the item at the decoded index, if there is one; an
/// object gives up its first member with that key, ignoring case.
pub fn detach_item_from_array(array: &mut Json, child: &[u8]) -> (r: Option<Json>)
    ensures
        (final(array)@, opt_json_view(r)) == detach_child(old(array)@, child@),
{
    match array {
        Json::Array(items) => match decode_array_index_from_pointer(child) {
            Some(i) => {
                if i < items.len() {
                    let ghost before = items@;
                    let x = items.remove(i);
                    proof {
                        assert(items_view(items@) =~= items_view(before).remove(i as int));
                    }
                    Some(x)
                } else {
                    None
                }
            },
            None => None,
        },
        Json::Object(_) => detach_item_from_object(array, child, false),
        _ => None,
    }
}

/// Removes the value at `path` from `object` and gives it back.
pub fn detach_path(object: &mut Json, path: &[u8], case_sensitive: bool) -> (r: Option<Json>)
    ensures
        (final(object)@, opt_json_view(r)) == detach_path_spec(old(object)@, path@, case_sensitive),
{
    let s = match find_last_slash(path) {
        None => {
            return None;
        },
        Some(s) => s,
    };
    let (parent_pointer, rest) = path.split_at(s);
    let (_, child_raw) = rest.split_at(1);
    assert(child_raw@ =~= path@.skip(s + 1));
    let child = decode_pointer_inplace(child_raw);
    let ghost old_object = object@;
    proof {
        if get_pointer(old_object, parent_pointer@, case_sensitive) is Some {
            lemma_set_get(old_object, parent_pointer@, case_sensitive);
        }
    }
    match get_item_from_pointer_mut(object, parent_pointer, case_sensitive) {
        None => None,
        Some(parent) => detach_item_from_array(parent, child.as_slice()),
    }
}

/// The node of `object` at `position`: from the root, the child with the
/// given index at each level (the item of an array, the value of an
/// object's member); `None` where the position leaves the tree.
pub open spec fn node_at(object: JsonV, position: Seq<usize>) -> Option<JsonV>
    decreases position.len(),
{
    if position.len() == 0 {
        Some(object)
    } else {
        let k = position[0] as int;
        match object {
            JsonV::Array(items) => if k < items.len() {
                node_at(items[k], position.drop_first())
            } else {
                None
            },
            JsonV::Object(ms) => if k < ms.len() {
                node_at(ms[k].1, position.drop_first())
            } else {
                None
            },
            _ => None,
        }
    }
}

/// The JSON Pointer from `object` to its node at `position`: for each
/// step, `/` and the item's decimal index in an array, or `/` and the
/// member's escaped key in an object; `None` where the position leaves the
/// tree.
pub open spec fn pointer_to(object: JsonV, position: Seq<usize>) -> Option<Seq<u8>>
    decreases position.len(),
{
    if position.len() == 0 {
        Some(Seq::empty())
    } else {
        let k = position[0] as int;
        match object {
            JsonV::Array(items) => if k < items.len() {
                match pointer_to(items[k], position.drop_first()) {
                    Some(q) => Some(seq![47u8] + decimal(k as nat) + q),
                    None => None,
                }
            } else {
                None
            },
            JsonV::Object(ms) => if k < ms.len() {
                match pointer_to(ms[k].1, position.drop_first()) {
                    Some(q) => Some(seq![47u8] + escape(ms[k].0) + q),
                    None => None,
                }
            } else {
                None
            },
            _ => None,
        }
    }
}

pub open spec fn opt_vec_view(o: Option<Vec<u8>>) -> Option<Seq<u8>> {
    match o {
        Some(v) => Some(v@),
        None => None,
    }
}

/// The JSON Pointer from `object` to one of its nodes. A reference carries
/// no identity here, so the node is given by its position: the child index
/// taken at each level from the root (see `pointer_to`); `None` where the
/// position leaves the tree.
pub fn cJSONUtils_FindPointerFromObjectTo(object: &Json, position: &[usize]) -> (r: Option<Vec<u8>>)
    ensures
        opt_vec_view(r) == pointer_to(object@, position@),
{
    proof {
        assert(position@.skip(0) =~= position@);
    }
    pointer_from(object, position, 0)
}

/// The pointer to the node at the part of `position` from `start` on.
fn pointer_from(object: &Json, position: &[usize], start: usize) -> (r: Option<Vec<u8>>)
    requires
        start <= position@.len(),
    ensures
        opt_vec_view(r) == pointer_to(object@, position@.skip(start as int)),
    decreases position@.len() - start,
{
    if start == position.len() {
        return Some(Vec::new());
    }
    let k = position[start];
    proof {
        assert(position@.skip(start as int)[0] == k);
        assert(position@.skip(start as int).drop_first() =~= position@.skip(start + 1));
    }
    let mut full: Vec<u8> = Vec::new();
    full.push(47);
    let child = match object {
        Json::Array(items) => {
            if k >= items.len() {
                return None;
            }
            push_decimal(&mut full, k);
            proof {
                assert(items_view(items@)[k as int] == items@[k as int]@);
            }
            &items[k]
        },
        Json::Object(members) => {
            if k >= members.len() {
                return None;
            }
            encode_string_as_pointer(&mut full, members[k].key.as_slice());
            proof {
                assert(members_view(members@)[k as int] == (members@[k as int].key@, members@[k as int].value@));
            }
            &members[k].value
        },
        _ => {
            return None;
        },
    };
    let ghost prefix = full@;
    match pointer_from(child, position, start + 1) {
        None => None,
        Some(tail) => {
            let mut i: usize = 0;
            while i < tail.len()
                invariant
                    i <= tail@.len(),
                    full@ == prefix + tail@.take(i as int),
                decreases tail@.len() - i,
            {
                full.push(tail[i]);
                proof {
                    assert(full@ =~= prefix + tail@.take(i + 1));
                }
                i = i + 1;
            }
            proof {
                assert(tail@.take(i as int) =~= tail@);
            }
            Some(full)
        },
    }
}

proof fn lemma_first_segment_match_update(
    ms: Seq<(Seq<u8>, JsonV)>,
    p: Seq<u8>,
    case_sensitive: bool,
    k: int,
    x: JsonV,
)
    requires
        0 <= k < ms.len(),
    ensures
        first_segment_match(ms.update(k, (ms[k].0, x)), p, case_sensitive) == first_segment_match(
            ms,
            p,
            case_sensitive,
        ),
{
    let f = |m: (Seq<u8>, JsonV)| segment_matches(m.0, p, case_sensitive);
    let ms2 = ms.update(k, (ms[k].0, x));
    lemma_first_where(ms, f);
    let r = first_where(ms, f);
    assert forall|j: int| 0 <= j < r implies !f(#[trigger] ms2[j]) by {
        assert(ms2[j].0 == ms[j].0);
        assert(!f(ms[j]));
    }
    if r < ms.len() {
        assert(ms2[r].0 == ms[r].0);
    }
    lemma_first_where_at(ms2, f, r);
}

/// Reading a pointer after writing through it gives what was written.
pub proof fn law_get_after_set(j: JsonV, p: Seq<u8>, case_sensitive: bool, v: JsonV)
    requires
        get_pointer(j, p, case_sensitive) is Some,
    ensures
        get_pointer(set_pointer(j, p, case_sensitive, v), p, case_sensitive) == Some(v),
    decreases p.len(),
{
    if p.len() > 0 && p[0] == 47 {
        let rest = p.drop_first();
        let c = pointer_step(j, rest, case_sensitive).unwrap();
        lemma_token_len(rest);
        let next = rest.skip(token_len(rest) as int);
        law_get_after_set(c, next, case_sensitive, v);
        let x = set_pointer(c, next, case_sensitive, v);
        match j {
            JsonV::Object(ms) => {
                let k = first_segment_match(ms, rest, case_sensitive);
                lemma_first_where(ms, |m: (Seq<u8>, JsonV)| segment_matches(m.0, rest, case_sensitive));
                lemma_first_segment_match_update(ms, rest, case_sensitive, k, x);
            },
            _ => {},
        }
    }
}

/// Along `position`, each object's member that the position takes has no
/// member before it with the same key (byte for byte).
pub open spec fn first_of_its_key(object: JsonV, position: Seq<usize>) -> bool
    decreases position.len(),
{
    if position.len() == 0 {
        true
    } else {
        let k = position[0] as int;
        match object {
            JsonV::Array(items) => k < items.len() ==> first_of_its_key(items[k], position.drop_first()),
            JsonV::Object(ms) => k < ms.len() ==> {
                &&& forall|j: int| 0 <= j < k ==> (#[trigger] ms[j]).0 != ms[k].0
                &&& first_of_its_key(ms[k].1, position.drop_first())
            },
            _ => true,
        }
    }
}

/// A pointer made by `pointer_to` is empty or starts with `/`.
proof fn lemma_pointer_to_shape(object: JsonV, position: Seq<usize>)
    ensures
        pointer_to(object, position) matches Some(p) ==> p.len() == 0 || p[0] == 47,
{
}

/// The pointer that `cJSONUtils_FindPointerFromObjectTo` gives to a node
/// leads back to that very node through `cJSONUtils_GetPointerCaseSensitive`,
/// where no object on the way holds the key taken there at an earlier
/// member.
pub proof fn law_find_then_get(object: JsonV, position: Seq<usize>)
    requires
        first_of_its_key(object, position),
        pointer_to(object, position) is Some,
    ensures
        get_pointer(object, pointer_to(object, position).unwrap(), true) == node_at(object, position),
    decreases position.len(),
{
    if position.len() > 0 {
        let k = position[0] as int;
        let tail = position.drop_first();
        match object {
            JsonV::Array(items) => {
                let q = pointer_to(items[k], tail).unwrap();
                law_find_then_get(items[k], tail);
                lemma_pointer_to_shape(items[k], tail);
                let idx = position[0];
                let p = seq![47u8] + decimal(idx as nat) + q;
                let rest = p.drop_first();
                assert(rest =~= decimal(idx as nat) + q);
                law_decimal_index(idx, q);
                lemma_decimal_digits_no_slash(idx as nat);
                let d = decimal(idx as nat);
                assert forall|j: int| 0 <= j < d.len() implies rest[j] != 47 by {
                    assert(rest[j] == d[j]);
                }
                lemma_token_len_at(rest, d.len() as int);
                assert(rest.skip(d.len() as int) =~= q);
            },
            JsonV::Object(ms) => {
                let q = pointer_to(ms[k].1, tail).unwrap();
                law_find_then_get(ms[k].1, tail);
                lemma_pointer_to_shape(ms[k].1, tail);
                let key = ms[k].0;
                let p = seq![47u8] + escape(key) + q;
                let rest = p.drop_first();
                assert(rest =~= escape(key) + q);
                let f = |m: (Seq<u8>, JsonV)| segment_matches(m.0, rest, true);
                law_escape_matches(key, q, true);
                assert forall|j: int| 0 <= j < k implies !f(#[trigger] ms[j]) by {
                    if f(ms[j]) {
                        law_escape_match_unique(ms[j].0, key, q);
                    }
                }
                lemma_first_where_at(ms, f, k);
                lemma_escape_no_slash(key);
                let e = escape(key);
                assert forall|j: int| 0 <= j < e.len() implies rest[j] != 47 by {
                    assert(rest[j] == e[j]);
                }
                lemma_token_len_at(rest, e.len() as int);
                assert(rest.skip(e.len() as int) =~= q);
            },
            _ => {},
        }
    }
}


proof fn lemma_token_len_append(a: Seq<u8>, b: Seq<u8>)
    requires
        b.len() == 0 || b[0] == 47,
    ensures
        token_len(a + b) == token_len(a),
        token_len(a) <= a.len(),
    decreases a.len(),
{
    if a.len() == 0 {
        assert(a + b =~= b);
    } else if a[0] != 47 {
        assert((a + b).drop_first() =~= a.drop_first() + b);
        lemma_token_len_append(a.drop_first(), b);
    }
}

proof fn lemma_first_segment_match_append(
    ms: Seq<(Seq<u8>, JsonV)>,
    a: Seq<u8>,
    b: Seq<u8>,
    case_sensitive: bool,
)
    requires
        b.len() == 0 || b[0] == 47,
    ensures
        first_segment_match(ms, a + b, case_sensitive) == first_segment_match(ms, a, case_sensitive),
{
    let f = |m: (Seq<u8>, JsonV)| segment_matches(m.0, a, case_sensitive);
    let g = |m: (Seq<u8>, JsonV)| segment_matches(m.0, a + b, case_sensitive);
    lemma_first_where(ms, f);
    let r = first_where(ms, f);
    assert forall|j: int| 0 <= j < r implies !g(#[trigger] ms[j]) by {
        lemma_segment_matches_append(ms[j].0, a, b, case_sensitive);
        assert(!f(ms[j]));
    }
    if r < ms.len() {
        lemma_segment_matches_append(ms[r].0, a, b, case_sensitive);
    }
    lemma_first_where_at(ms, g, r);
}

/// Following a pointer made of two pointers is following the first, then
/// the second from where the first led.
pub proof fn lemma_get_compose(j: JsonV, p1: Seq<u8>, p2: Seq<u8>, case_sensitive: bool)
    requires
        p1.len() == 0 || p1[0] == 47,
        p2.len() == 0 || p2[0] == 47,
    ensures
        get_pointer(j, p1 + p2, case_sensitive) == match get_pointer(j, p1, case_sensitive) {
            Some(x) => get_pointer(x, p2, case_sensitive),
            None => None,
        },
    decreases p1.len(),
{
    if p1.len() == 0 {
        assert(p1 + p2 =~= p2);
    } else {
        let rest1 = p1.drop_first();
        let rest = (p1 + p2).drop_first();
        assert(rest =~= rest1 + p2);
        lemma_decode_index_append(rest1, p2);
        lemma_first_segment_match_append(match j {
            JsonV::Object(ms) => ms,
            _ => Seq::empty(),
        }, rest1, p2, case_sensitive);
        lemma_token_len_append(rest1, p2);
        let t = token_len(rest1) as int;
        assert(rest.skip(t) =~= rest1.skip(t) + p2);
        let next1 = rest1.skip(t);
        if t < rest1.len() {
            lemma_token_len_stop(rest1);
        }
        match pointer_step(j, rest1, case_sensitive) {
            Some(c) => {
                lemma_get_compose(c, next1, p2, case_sensitive);
            },
            None => {},
        }
    }
}

proof fn lemma_token_len_stop(p: Seq<u8>)
    requires
        token_len(p) < p.len(),
    ensures
        p[token_len(p) as int] == 47,
    decreases p.len(),
{
    if p.len() > 0 && p[0] != 47 {
        lemma_token_len_stop(p.drop_first());
    }
}

/// The child that a step reaches is still reached, at the same position,
/// once it has been replaced.
proof fn lemma_step_with_child(j: JsonV, rest: Seq<u8>, case_sensitive: bool, x: JsonV)
    requires
        pointer_step(j, rest, case_sensitive) is Some,
    ensures
        pointer_step(with_child(j, step_index(j, rest, case_sensitive), x), rest, case_sensitive) == Some(x),
        step_index(with_child(j, step_index(j, rest, case_sensitive), x), rest, case_sensitive) == step_index(
            j,
            rest,
            case_sensitive,
        ),
{
    match j {
        JsonV::Object(ms) => {
            let k = first_segment_match(ms, rest, case_sensitive);
            lemma_first_where(ms, |m: (Seq<u8>, JsonV)| segment_matches(m.0, rest, case_sensitive));
            lemma_first_segment_match_update(ms, rest, case_sensitive, k, x);
        },
        _ => {},
    }
}

/// Writing twice through the same pointer keeps the second write only.
pub proof fn law_set_twice(j: JsonV, p: Seq<u8>, case_sensitive: bool, x: JsonV, y: JsonV)
    requires
        get_pointer(j, p, case_sensitive) is Some,
    ensures
        set_pointer(set_pointer(j, p, case_sensitive, x), p, case_sensitive, y) == set_pointer(
            j,
            p,
            case_sensitive,
            y,
        ),
    decreases p.len(),
{
    if p.len() > 0 && p[0] == 47 {
        let rest = p.drop_first();
        let c = pointer_step(j, rest, case_sensitive).unwrap();
        lemma_token_len(rest);
        let next = rest.skip(token_len(rest) as int);
        let k = step_index(j, rest, case_sensitive);
        let sx = set_pointer(c, next, case_sensitive, x);
        law_set_twice(c, next, case_sensitive, x, y);
        lemma_step_with_child(j, rest, case_sensitive, sx);
        match j {
            JsonV::Array(items) => {
                assert(items.update(k, sx).update(k, set_pointer(sx, next, case_sensitive, y)) =~= items.update(
                    k,
                    set_pointer(c, next, case_sensitive, y),
                ));
            },
            JsonV::Object(ms) => {
                lemma_first_where(ms, |m: (Seq<u8>, JsonV)| segment_matches(m.0, rest, case_sensitive));
                let ms1 = ms.update(k, (ms[k].0, sx));
                assert(ms1.update(k, (ms1[k].0, set_pointer(sx, next, case_sensitive, y))) =~= ms.update(
                    k,
                    (ms[k].0, set_pointer(c, next, case_sensitive, y)),
                ));
            },
            _ => {},
        }
    }
}

/// Writing through a pointer made of two pointers is writing, through the
/// first, the value found there with the second pointer written through.
pub proof fn lemma_set_compose(j: JsonV, p1: Seq<u8>, p2: Seq<u8>, case_sensitive: bool, v: JsonV)
    requires
        p1.len() == 0 || p1[0] == 47,
        p2.len() == 0 || p2[0] == 47,
        get_pointer(j, p1, case_sensitive) is Some,
    ensures
        set_pointer(j, p1 + p2, case_sensitive, v) == set_pointer(
            j,
            p1,
            case_sensitive,
            set_pointer(get_pointer(j, p1, case_sensitive).unwrap(), p2, case_sensitive, v),
        ),
    decreases p1.len(),
{
    if p1.len() == 0 {
        assert(p1 + p2 =~= p2);
    } else {
        let rest1 = p1.drop_first();
        let rest = (p1 + p2).drop_first();
        assert(rest =~= rest1 + p2);
        lemma_decode_index_append(rest1, p2);
        lemma_first_segment_match_append(match j {
            JsonV::Object(ms) => ms,
            _ => Seq::empty(),
        }, rest1, p2, case_sensitive);
        lemma_token_len_append(rest1, p2);
        let t = token_len(rest1) as int;
        assert(rest.skip(t) =~= rest1.skip(t) + p2);
        let next1 = rest1.skip(t);
        if t < rest1.len() {
            lemma_token_len_stop(rest1);
        }
        let c = pointer_step(j, rest1, case_sensitive).unwrap();
        lemma_set_compose(c, next1, p2, case_sensitive, v);
    }
}

/// Reading and writing the item at an index of an array.
pub proof fn lemma_index_pointer(items: Seq<JsonV>, i: nat, case_sensitive: bool, v: JsonV)
    requires
        i < items.len(),
        i <= usize::MAX,
    ensures
        get_pointer(JsonV::Array(items), seq![47u8] + decimal(i), case_sensitive) == Some(items[i as int]),
        set_pointer(JsonV::Array(items), seq![47u8] + decimal(i), case_sensitive, v) == JsonV::Array(
            items.update(i as int, v),
        ),
{
    let d = decimal(i);
    let p = seq![47u8] + d;
    assert(p.drop_first() =~= d);
    law_decimal_index(i as usize, Seq::empty());
    assert(d + Seq::<u8>::empty() =~= d);
    lemma_decimal_digits_no_slash(i);
    lemma_token_len_at(d, d.len() as int);
    assert(d.skip(d.len() as int) =~= Seq::<u8>::empty());
    assert(decode_index(d) == Some(i as usize));
    assert(pointer_step(JsonV::Array(items), d, case_sensitive) == Some(items[i as int]));
    assert(get_pointer(items[i as int], Seq::<u8>::empty(), case_sensitive) == Some(items[i as int]));
    assert(set_pointer(items[i as int], Seq::<u8>::empty(), case_sensitive, v) == v);
}

} // verus!
