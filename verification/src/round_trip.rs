//! The patches that `cJSONUtils_GeneratePatches` makes from one document to
//! another turn the first into the second when they are applied.

use vstd::prelude::*;
use crate::json::{
    JsonV, height, same_kind, lemma_first_where, lemma_first_where_at, object_get, object_detach,
    lemma_items_height, lemma_members_height, first_key_match,
};
use crate::strings::{
    is_cstr, fold, segment_matches, lemma_key_order_antisymmetric, key_order, key_eq, escape, escape_byte,
    decimal, decode_index, lemma_key_order_reflexive, lemma_key_order_unfold_first,
    lemma_decimal_digits_no_slash, lemma_decimal_digit_chars, law_decimal_index, lemma_decode_plain,
    decode_segment,
};
use crate::pointer::{
    get_pointer, set_pointer, last_slash, lemma_last_slash_at, lemma_set_get, law_get_after_set,
    law_set_twice, lemma_set_compose, lemma_get_compose, lemma_index_pointer, first_segment_match,
    detach_path_spec, detach_child,
    lemma_token_len_at,
};
use crate::patch::{
    PatchOperation, make_patch, patch_operation, apply_patch_spec, apply_patches_seq,
    apply_patches_spec, key_op, key_path, key_value, name_add, name_remove, name_replace, token_end,
    insert_child, add_at_spec, key_from,
};
use crate::diff::{
    diff_spec, diff_items, diff_members, removals, appends, generate_patches_spec,
    lemma_diff_members_unfold,
};
use crate::alike::{
    keyed, lemma_same_refl_keyed, lemma_object_same_keyed, same_doc, found_in,
    members_match, lemma_cstr_key_eq, lemma_key_eq_congruent,
    lemma_members_match_shift, lemma_members_match_cons, increasing, below, lemma_below_ne,
    lemma_increasing_drop, lemma_below_drop, lemma_below_push, lemma_before_all,
};
use crate::compare::compare_spec;
use crate::reorder::law_alike_compare_equal;
use crate::merge::{keys_distinct, lemma_detach_distinct, lemma_get_distinct};
use crate::sort::{
    merge_sort, key_lt, lemma_merge_sort_multiset, lemma_key_lt_order, lemma_merge_sort_sorted,
    lemma_merge_sort_contains,
};

verus! {

/// A key that generated patches can name: a C string without `/` or `~`.
pub open spec fn plain_key(k: Seq<u8>) -> bool {
    forall|i: int| 0 <= i < k.len() ==> #[trigger] k[i] != 0 && k[i] != 47 && k[i] != 126
}

/// A value that the generation and the application of patches handle as
/// the JSON Patch format describes: strings are C strings, arrays can be
/// indexed by `usize`, the keys of each object are plain and distinct even
/// ignoring case, and no value is raw text.
pub open spec fn patchable(j: JsonV) -> bool
    decreases j,
{
    match j {
        JsonV::String(s) => is_cstr(s),
        JsonV::Array(items) => {
            &&& items.len() <= usize::MAX
            &&& forall|i: int| 0 <= i < items.len() ==> patchable(#[trigger] items[i])
        },
        JsonV::Object(ms) => {
            &&& forall|i: int| 0 <= i < ms.len() ==> plain_key(#[trigger] ms[i].0)
            &&& forall|a: int, b: int|
                0 <= a < b < ms.len() ==> !key_eq(#[trigger] ms[a].0, #[trigger] ms[b].0, false)
            &&& forall|i: int| 0 <= i < ms.len() ==> patchable(#[trigger] ms[i].1)
        },
        JsonV::Raw(_) => false,
        _ => true,
    }
}

/// A value without objects (nor raw text) whose strings are C strings and
/// whose arrays can be indexed by `usize`.
pub open spec fn plain(j: JsonV) -> bool
    decreases j,
{
    match j {
        JsonV::String(s) => is_cstr(s),
        JsonV::Array(items) => {
            &&& items.len() <= usize::MAX
            &&& forall|i: int| 0 <= i < items.len() ==> plain(#[trigger] items[i])
        },
        JsonV::Object(_) => false,
        JsonV::Raw(_) => false,
        _ => true,
    }
}

/// Whether generation answers a pair of values with a single `replace`:
/// values of different types, numbers or strings that differ.
pub open spec fn replaces(from: JsonV, to: JsonV) -> bool {
    ||| !same_kind(from, to)
    ||| (from matches JsonV::Number(x) && to matches JsonV::Number(y) && x != y)
    ||| (from matches JsonV::String(x) && to matches JsonV::String(y) && !key_eq(x, y, true))
}

/// The value that the generated patches leave where `from` stood (as the
/// generation left it): `to` where the pair is replaced; for arrays, the
/// common items patched, then the items of `to` beyond them; for objects,
/// the members kept in place (shared keys whose values were patched in
/// place, in key order), then those put at the end (replaced values and
/// added keys, in key order); other values stay.
pub open spec fn patched(from: JsonV, to: JsonV, cs: bool) -> JsonV
    decreases height(from) + 1, 0nat,
{
    if replaces(from, to) {
        to
    } else {
        match (from, to) {
            (JsonV::Array(xs), JsonV::Array(ys)) => JsonV::Array(patched_items(xs, ys, cs, height(from))),
            (JsonV::Object(xs), JsonV::Object(ys)) => {
                let (kept, added) = patched_members(
                    merge_sort(xs, key_lt(cs)),
                    merge_sort(ys, key_lt(cs)),
                    cs,
                    height(from),
                );
                JsonV::Object(kept + added)
            },
            _ => from,
        }
    }
}

/// The items that the patches of two lists of array items leave; the items
/// of `xs` must be lower than `h`.
pub open spec fn patched_items(xs: Seq<JsonV>, ys: Seq<JsonV>, cs: bool, h: nat) -> Seq<JsonV>
    decreases h, xs.len(),
{
    if xs.len() > 0 && ys.len() > 0 && height(xs[0]) < h {
        seq![patched(xs[0], ys[0], cs)] + patched_items(xs.drop_first(), ys.drop_first(), cs, h)
    } else {
        ys
    }
}

/// The members that the patches of two key-sorted member lists leave in
/// place, and those that they put at the end of the object; the values of
/// `xs` must be lower than `h`.
pub open spec fn patched_members(
    xs: Seq<(Seq<u8>, JsonV)>,
    ys: Seq<(Seq<u8>, JsonV)>,
    cs: bool,
    h: nat,
) -> (Seq<(Seq<u8>, JsonV)>, Seq<(Seq<u8>, JsonV)>)
    decreases h, xs.len() + ys.len(),
{
    if xs.len() == 0 && ys.len() == 0 {
        (Seq::empty(), Seq::empty())
    } else {
        let diff = if xs.len() == 0 {
            1
        } else if ys.len() == 0 {
            -1
        } else {
            key_order(xs[0].0, ys[0].0, cs)
        };
        if diff == 0 {
            if height(xs[0].1) >= h {
                (Seq::empty(), Seq::empty())
            } else {
                let (kept, added) = patched_members(xs.drop_first(), ys.drop_first(), cs, h);
                if replaces(xs[0].1, ys[0].1) {
                    (kept, seq![(xs[0].0, ys[0].1)] + added)
                } else {
                    (seq![(xs[0].0, patched(xs[0].1, ys[0].1, cs))] + kept, added)
                }
            }
        } else if diff < 0 {
            patched_members(xs.drop_first(), ys, cs, h)
        } else {
            let (kept, added) = patched_members(xs, ys.drop_first(), cs, h);
            (kept, seq![ys[0]] + added)
        }
    }
}

/// A plain key is a C string.
proof fn lemma_plain_cstr(k: Seq<u8>)
    requires
        plain_key(k),
    ensures
        is_cstr(k),
{
    assert forall|i: int| 0 <= i < k.len() implies k[i] != 0 by {}
}

/// Plain keys that differ ignoring case differ under either comparison.
proof fn lemma_ci_implies(a: Seq<u8>, b: Seq<u8>, cs: bool)
    requires
        plain_key(a),
        plain_key(b),
        !key_eq(a, b, false),
    ensures
        !key_eq(a, b, cs),
{
    if cs && key_eq(a, b, true) {
        lemma_plain_cstr(a);
        lemma_plain_cstr(b);
        lemma_cstr_key_eq(a, b);
        lemma_key_order_reflexive(a, false);
    }
}

/// Keys equal under either comparison are equal ignoring case.
proof fn lemma_ci_implies_eq(a: Seq<u8>, b: Seq<u8>, cs: bool)
    requires
        key_eq(a, b, cs),
    ensures
        key_eq(a, b, false),
    decreases a.len(),
{
    if cs && a.len() > 0 && b.len() > 0 && a[0] == b[0] && a[0] != 0 {
        lemma_ci_implies_eq(a.drop_first(), b.drop_first(), cs);
    }
}

/// A plain key matches a reference token that holds no escape exactly when
/// it equals that token under the comparison.
proof fn lemma_segment_plain(name: Seq<u8>, k: Seq<u8>, rest: Seq<u8>, cs: bool)
    requires
        plain_key(name),
        plain_key(k),
        rest.len() == 0 || rest[0] == 47,
    ensures
        segment_matches(name, k + rest, cs) == key_eq(name, k, cs),
    decreases name.len(),
{
    let p = k + rest;
    if name.len() == 0 {
        if k.len() > 0 {
            assert(p[0] == k[0]);
            assert(k[0] != 0);
            assert(fold(k[0], cs) != 0);
        } else {
            assert(p =~= rest);
        }
    } else if k.len() == 0 {
        assert(p =~= rest);
        assert(name[0] != 0);
        assert(fold(name[0], cs) != 0);
    } else {
        assert(p[0] == k[0]);
        assert(k[0] != 126 && k[0] != 47);
        assert(name[0] != 0);
        if fold(name[0], cs) == fold(k[0], cs) {
            assert(p.drop_first() =~= k.drop_first() + rest);
            lemma_segment_plain(name.drop_first(), k.drop_first(), rest, cs);
        }
    }
}

/// A token without `~` or `/` is its own escaped form.
proof fn lemma_escape_plain(s: Seq<u8>)
    requires
        forall|j: int| 0 <= j < s.len() ==> s[j] != 47 && s[j] != 126,
    ensures
        escape(s) == s,
    decreases s.len(),
{
    if s.len() > 0 {
        lemma_escape_plain(s.drop_last());
        assert(escape_byte(s.last()) == seq![s.last()]);
        assert(s.drop_last() + seq![s.last()] =~= s);
    }
}

/// The patches of a list applied one after another: those of the first
/// part, then, where all of them succeed, those of the second.
proof fn lemma_apply_append(o: JsonV, a: Seq<JsonV>, b: Seq<JsonV>, cs: bool)
    requires
        apply_patches_seq(o, a, cs).0 == 0,
    ensures
        apply_patches_seq(o, a + b, cs) == apply_patches_seq(apply_patches_seq(o, a, cs).1, b, cs),
    decreases a.len(),
{
    if a.len() == 0 {
        assert(a + b =~= b);
    } else {
        assert((a + b)[0] == a[0]);
        assert((a + b).drop_first() =~= a.drop_first() + b);
        let next = apply_patch_spec(o, a[0], cs).1;
        lemma_apply_append(next, a.drop_first(), b, cs);
    }
}

/// A list of one patch that succeeds.
proof fn lemma_apply_single(o: JsonV, p: JsonV, cs: bool)
    requires
        apply_patch_spec(o, p, cs).0 == 0,
    ensures
        apply_patches_seq(o, seq![p], cs) == apply_patch_spec(o, p, cs),
{
    let next = apply_patch_spec(o, p, cs).1;
    assert(seq![p][0] == p);
    assert(seq![p].drop_first() =~= Seq::<JsonV>::empty());
    assert(apply_patches_seq(next, Seq::<JsonV>::empty(), cs) == (0int, next));
}

/// What a patch made by `make_patch` holds under each key.
proof fn lemma_make_patch_fields(
    op: Seq<u8>,
    path: Seq<u8>,
    suffix: Option<Seq<u8>>,
    value: Option<JsonV>,
    cs: bool,
)
    ensures
        object_get(make_patch(op, path, suffix, value), key_op(), cs) == Some(JsonV::String(op)),
        object_get(make_patch(op, path, suffix, value), key_path(), cs) == Some(
            JsonV::String(
                match suffix {
                    None => path,
                    Some(s) => path + seq![47u8] + escape(s),
                },
            ),
        ),
        object_get(make_patch(op, path, suffix, value), key_value(), cs) == value,
{
    let ms = make_patch(op, path, suffix, value)->Object_0;
    lemma_key_order_reflexive(key_op(), cs);
    lemma_key_order_reflexive(key_path(), cs);
    lemma_key_order_reflexive(key_value(), cs);
    assert(!key_eq(key_path(), key_op(), cs));
    assert(!key_eq(key_value(), key_op(), cs));
    assert(!key_eq(key_value(), key_path(), cs));
    lemma_first_where_at(ms, |m: (Seq<u8>, JsonV)| key_eq(key_op(), m.0, cs), 0);
    lemma_first_where_at(ms, |m: (Seq<u8>, JsonV)| key_eq(key_path(), m.0, cs), 1);
    lemma_first_where_at(ms, |m: (Seq<u8>, JsonV)| key_eq(key_value(), m.0, cs), 2);
}

/// The operation of the patches that generation makes.
proof fn lemma_make_patch_operation(path: Seq<u8>, suffix: Option<Seq<u8>>, value: Option<JsonV>, cs: bool)
    ensures
        patch_operation(make_patch(name_add(), path, suffix, value), cs) == PatchOperation::Add,
        patch_operation(make_patch(name_remove(), path, suffix, value), cs) == PatchOperation::Remove,
        patch_operation(make_patch(name_replace(), path, suffix, value), cs) == PatchOperation::Replace,
{
    lemma_make_patch_fields(name_add(), path, suffix, value, cs);
    lemma_make_patch_fields(name_remove(), path, suffix, value, cs);
    lemma_make_patch_fields(name_replace(), path, suffix, value, cs);
    lemma_key_order_reflexive(name_add(), true);
    lemma_key_order_reflexive(name_remove(), true);
    lemma_key_order_reflexive(name_replace(), true);
    assert(!key_eq(name_remove(), name_add(), true));
    assert(!key_eq(name_replace(), name_add(), true));
    let r = name_replace();
    let m = name_remove();
    assert(key_order(r.drop_first().drop_first(), m.drop_first().drop_first(), true) != 0);
    assert(key_order(r.drop_first(), m.drop_first(), true) != 0);
    assert(!key_eq(name_replace(), name_remove(), true));
}

/// A pointer that ends with `/` and a token without `/` or `~`: its last
/// `/` stands before the token, and the token decodes as itself.
proof fn lemma_split_path(p: Seq<u8>, t: Seq<u8>)
    requires
        forall|j: int| 0 <= j < t.len() ==> t[j] != 47 && t[j] != 126,
    ensures
        last_slash(p + seq![47u8] + t) == p.len(),
        (p + seq![47u8] + t).take(p.len() as int) == p,
        (p + seq![47u8] + t).skip(p.len() as int + 1) == t,
        decode_segment(t) == t,
{
    let q = p + seq![47u8] + t;
    assert forall|j: int| p.len() < j < q.len() implies q[j] != 47 by {
        assert(q[j] == t[j - p.len() - 1]);
    }
    assert(q[p.len() as int] == 47);
    lemma_last_slash_at(q, p.len() as int);
    assert(q.take(p.len() as int) =~= p);
    assert(q.skip(p.len() as int + 1) =~= t);
    lemma_decode_plain(t);
}

/// The decimal digits of an index hold neither `/` nor `~`.
proof fn lemma_decimal_plain(i: nat)
    ensures
        forall|j: int| 0 <= j < decimal(i).len() ==> decimal(i)[j] != 47 && decimal(i)[j] != 126,
        escape(decimal(i)) == decimal(i),
        decimal(i).len() >= 1,
        48 <= decimal(i)[0] <= 57,
{
    lemma_decimal_digits_no_slash(i);
    lemma_decimal_digit_chars(i);
    assert(crate::strings::is_digit(decimal(i)[0]));
    lemma_escape_plain(decimal(i));
}

/// A `remove` patch for the item at index `i` of the array at `p`.
proof fn lemma_apply_remove_item(d: JsonV, p: Seq<u8>, items: Seq<JsonV>, i: nat, cs: bool)
    requires
        get_pointer(d, p, cs) == Some(JsonV::Array(items)),
        i < items.len(),
        i <= usize::MAX,
    ensures
        apply_patch_spec(d, make_patch(name_remove(), p, Some(decimal(i)), None), cs) == (
            0int,
            set_pointer(d, p, cs, JsonV::Array(items.remove(i as int))),
        ),
{
    let t = decimal(i);
    lemma_decimal_plain(i);
    lemma_split_path(p, t);
    lemma_make_patch_fields(name_remove(), p, Some(t), None, cs);
    lemma_make_patch_operation(p, Some(t), None, cs);
    law_decimal_index(i as usize, Seq::empty());
    assert(t + Seq::<u8>::empty() =~= t);
    assert(decode_index(t) == Some(i as usize));
}

/// An `add` patch that appends `v` to the array at `p`.
proof fn lemma_apply_append_item(d: JsonV, p: Seq<u8>, items: Seq<JsonV>, v: JsonV, cs: bool)
    requires
        get_pointer(d, p, cs) == Some(JsonV::Array(items)),
    ensures
        apply_patch_spec(d, make_patch(name_add(), p, Some(token_end()), Some(v)), cs) == (
            0int,
            set_pointer(d, p, cs, JsonV::Array(items.push(v))),
        ),
{
    let t = token_end();
    lemma_escape_plain(t);
    lemma_split_path(p, t);
    lemma_make_patch_fields(name_add(), p, Some(t), Some(v), cs);
    lemma_make_patch_operation(p, Some(t), Some(v), cs);
    lemma_key_order_reflexive(t, true);
}

/// A `replace` patch for the item at index `i` of the array at `p`.
proof fn lemma_apply_replace_item(d: JsonV, p: Seq<u8>, items: Seq<JsonV>, i: nat, v: JsonV, cs: bool)
    requires
        get_pointer(d, p, cs) == Some(JsonV::Array(items)),
        i < items.len(),
        i <= usize::MAX,
    ensures
        apply_patch_spec(d, make_patch(name_replace(), p + seq![47u8] + decimal(i), None, Some(v)), cs) == (
            0int,
            set_pointer(d, p, cs, JsonV::Array(items.update(i as int, v))),
        ),
{
    let t = decimal(i);
    let path = p + seq![47u8] + t;
    lemma_decimal_plain(i);
    lemma_split_path(p, t);
    lemma_make_patch_fields(name_replace(), path, None, Some(v), cs);
    lemma_make_patch_operation(path, None, Some(v), cs);
    law_decimal_index(i as usize, Seq::empty());
    assert(t + Seq::<u8>::empty() =~= t);
    assert(decode_index(t) == Some(i as usize));
    let removed = JsonV::Array(items.remove(i as int));
    let o1 = set_pointer(d, p, cs, removed);
    law_get_after_set(d, p, cs, removed);
    lemma_key_order_unfold_first(t, token_end());
    assert(!key_eq(t, token_end(), true));
    let inserted = JsonV::Array(items.remove(i as int).insert(i as int, v));
    assert(items.remove(i as int).insert(i as int, v) =~= items.update(i as int, v));
    law_set_twice(d, p, cs, removed, inserted);
}

/// A `replace` patch for the whole document.
proof fn lemma_apply_replace_root(d: JsonV, v: JsonV, cs: bool)
    ensures
        apply_patch_spec(d, make_patch(name_replace(), Seq::empty(), None, Some(v)), cs) == (0int, v),
{
    lemma_make_patch_fields(name_replace(), Seq::empty(), None, Some(v), cs);
    lemma_make_patch_operation(Seq::empty(), None, Some(v), cs);
}

/// The removals that generation makes at the end of an array: each takes
/// out the item at the position where the shorter array ends.
proof fn lemma_apply_removals(d: JsonV, p: Seq<u8>, done: Seq<JsonV>, rest: Seq<JsonV>, cs: bool)
    requires
        get_pointer(d, p, cs) == Some(JsonV::Array(done + rest)),
        done.len() <= usize::MAX,
    ensures
        apply_patches_seq(d, removals(p, done.len(), rest.len()), cs) == (
            0int,
            set_pointer(d, p, cs, JsonV::Array(done)),
        ),
    decreases rest.len(),
{
    let n = done.len();
    if rest.len() == 0 {
        assert(done + rest =~= done);
        assert(removals(p, n, 0) =~= Seq::<JsonV>::empty());
        lemma_set_get(d, p, cs);
    } else {
        let rm = make_patch(name_remove(), p, Some(decimal(n)), None);
        let all = removals(p, n, rest.len());
        assert(all[0] == rm);
        assert(all.drop_first() =~= removals(p, n, (rest.len() - 1) as nat));
        lemma_apply_remove_item(d, p, done + rest, n, cs);
        let shorter = JsonV::Array(done + rest.drop_first());
        assert((done + rest).remove(n as int) =~= done + rest.drop_first());
        let d1 = set_pointer(d, p, cs, shorter);
        law_get_after_set(d, p, cs, shorter);
        lemma_apply_removals(d1, p, done, rest.drop_first(), cs);
        law_set_twice(d, p, cs, shorter, JsonV::Array(done));
    }
}

/// The appends that generation makes at the end of an array.
proof fn lemma_apply_appends(d: JsonV, p: Seq<u8>, items: Seq<JsonV>, ys: Seq<JsonV>, cs: bool)
    requires
        get_pointer(d, p, cs) == Some(JsonV::Array(items)),
    ensures
        apply_patches_seq(d, appends(p, ys), cs) == (0int, set_pointer(d, p, cs, JsonV::Array(items + ys))),
    decreases ys.len(),
{
    if ys.len() == 0 {
        assert(items + ys =~= items);
        assert(appends(p, ys) =~= Seq::<JsonV>::empty());
        lemma_set_get(d, p, cs);
    } else {
        let add = make_patch(name_add(), p, Some(token_end()), Some(ys[0]));
        let all = appends(p, ys);
        assert(all[0] == add);
        assert(all.drop_first() =~= appends(p, ys.drop_first()));
        lemma_apply_append_item(d, p, items, ys[0], cs);
        let longer = JsonV::Array(items.push(ys[0]));
        let d1 = set_pointer(d, p, cs, longer);
        law_get_after_set(d, p, cs, longer);
        lemma_apply_appends(d1, p, items.push(ys[0]), ys.drop_first(), cs);
        assert(items.push(ys[0]) + ys.drop_first() =~= items + ys);
        law_set_twice(d, p, cs, longer, JsonV::Array(items + ys));
    }
}

/// Generation leaves values without objects as they were.
proof fn lemma_diff_keeps(path: Seq<u8>, from: JsonV, to: JsonV, cs: bool)
    requires
        plain(from),
        plain(to),
    ensures
        diff_spec(path, from, to, cs).1 == from,
        diff_spec(path, from, to, cs).2 == to,
    decreases height(from) + 1, 0nat,
{
    if same_kind(from, to) {
        match (from, to) {
            (JsonV::Array(xs), JsonV::Array(ys)) => {
                assert forall|k: int| 0 <= k < xs.len() implies height(#[trigger] xs[k]) < height(from) by {
                    lemma_items_height(xs, k);
                }
                lemma_items_keep(path, xs, ys, cs, 0, height(from));
            },
            _ => {},
        }
    }
}

proof fn lemma_items_keep(path: Seq<u8>, xs: Seq<JsonV>, ys: Seq<JsonV>, cs: bool, index: nat, h: nat)
    requires
        forall|k: int| 0 <= k < xs.len() ==> plain(#[trigger] xs[k]) && height(xs[k]) < h,
        forall|k: int| 0 <= k < ys.len() ==> plain(#[trigger] ys[k]),
    ensures
        diff_items(path, xs, ys, cs, index, h).1 == xs,
        diff_items(path, xs, ys, cs, index, h).2 == ys,
    decreases h, xs.len(),
{
    if xs.len() > 0 && ys.len() > 0 {
        assert(plain(xs[0]) && height(xs[0]) < h);
        assert(plain(ys[0]));
        lemma_diff_keeps(path + seq![47u8] + decimal(index), xs[0], ys[0], cs);
        assert forall|k: int| 0 <= k < xs.drop_first().len() implies plain(#[trigger] xs.drop_first()[k])
            && height(xs.drop_first()[k]) < h by {
            assert(xs.drop_first()[k] == xs[k + 1]);
        }
        assert forall|k: int| 0 <= k < ys.drop_first().len() implies plain(#[trigger] ys.drop_first()[k]) by {
            assert(ys.drop_first()[k] == ys[k + 1]);
        }
        lemma_items_keep(path, xs.drop_first(), ys.drop_first(), cs, index + 1, h);
        assert(seq![xs[0]] + xs.drop_first() =~= xs);
        assert(seq![ys[0]] + ys.drop_first() =~= ys);
    }
}


/// Among members with plain keys, the first whose key matches a plain key
/// under the comparison, in a lookup or in a pointer, where none before
/// position `pos` does and the one there does.
proof fn lemma_first_key_at(ms: Seq<(Seq<u8>, JsonV)>, k: Seq<u8>, pos: int, cs: bool)
    requires
        forall|i: int| 0 <= i < ms.len() ==> plain_key(#[trigger] ms[i].0),
        plain_key(k),
        0 <= pos <= ms.len(),
        forall|j: int| 0 <= j < pos ==> !key_eq(k, (#[trigger] ms[j]).0, cs),
        pos == ms.len() || key_eq(k, ms[pos].0, cs),
    ensures
        first_key_match(ms, k, cs) == pos,
        first_segment_match(ms, k, cs) == pos,
{
    assert(k + Seq::<u8>::empty() =~= k);
    let f = |m: (Seq<u8>, JsonV)| key_eq(k, m.0, cs);
    let g = |m: (Seq<u8>, JsonV)| segment_matches(m.0, k, cs);
    assert forall|j: int| 0 <= j < pos implies !f(#[trigger] ms[j]) && !g(ms[j]) by {
        lemma_segment_plain(ms[j].0, k, Seq::empty(), cs);
        lemma_key_order_antisymmetric(ms[j].0, k, cs);
    }
    if pos < ms.len() {
        lemma_segment_plain(ms[pos].0, k, Seq::empty(), cs);
        lemma_key_order_antisymmetric(ms[pos].0, k, cs);
    }
    lemma_first_where_at(ms, f, pos);
    lemma_first_where_at(ms, g, pos);
}

/// The first member whose key equals `k` ignoring case, where no member
/// before the one with key `k` does.
proof fn lemma_first_ci_at(ms: Seq<(Seq<u8>, JsonV)>, k: Seq<u8>, pos: int)
    requires
        0 <= pos < ms.len(),
        forall|j: int| 0 <= j < pos ==> !key_eq(k, (#[trigger] ms[j]).0, false),
        ms[pos].0 == k,
    ensures
        first_key_match(ms, k, false) == pos,
{
    lemma_key_order_reflexive(k, false);
    lemma_first_where_at(ms, |m: (Seq<u8>, JsonV)| key_eq(k, m.0, false), pos);
}

/// Reading and writing the member with a plain key of an object.
proof fn lemma_key_pointer(ms: Seq<(Seq<u8>, JsonV)>, k: Seq<u8>, pos: int, cs: bool, v: JsonV)
    requires
        forall|i: int| 0 <= i < ms.len() ==> plain_key(#[trigger] ms[i].0),
        plain_key(k),
        0 <= pos < ms.len(),
        forall|j: int| 0 <= j < pos ==> !key_eq(k, (#[trigger] ms[j]).0, cs),
        ms[pos].0 == k,
    ensures
        get_pointer(JsonV::Object(ms), seq![47u8] + k, cs) == Some(ms[pos].1),
        set_pointer(JsonV::Object(ms), seq![47u8] + k, cs, v) == JsonV::Object(ms.update(pos, (k, v))),
{
    let p = seq![47u8] + k;
    assert(p.drop_first() =~= k);
    lemma_key_order_reflexive(k, cs);
    lemma_first_key_at(ms, k, pos, cs);
    lemma_token_len_at(k, k.len() as int);
    assert(k.skip(k.len() as int) =~= Seq::<u8>::empty());
    assert(get_pointer(ms[pos].1, Seq::<u8>::empty(), cs) == Some(ms[pos].1));
    assert(set_pointer(ms[pos].1, Seq::<u8>::empty(), cs, v) == v);
}

/// A `remove` patch for the member with key `k` of the object at `p`.
proof fn lemma_apply_remove_member(d: JsonV, p: Seq<u8>, ms: Seq<(Seq<u8>, JsonV)>, k: Seq<u8>, pos: int, cs: bool)
    requires
        get_pointer(d, p, cs) == Some(JsonV::Object(ms)),
        plain_key(k),
        0 <= pos < ms.len(),
        forall|j: int| 0 <= j < pos ==> !key_eq(k, (#[trigger] ms[j]).0, false),
        ms[pos].0 == k,
    ensures
        apply_patch_spec(d, make_patch(name_remove(), p, Some(k), None), cs) == (
            0int,
            set_pointer(d, p, cs, JsonV::Object(ms.remove(pos))),
        ),
{
    lemma_escape_plain(k);
    lemma_split_path(p, k);
    lemma_make_patch_fields(name_remove(), p, Some(k), None, cs);
    lemma_make_patch_operation(p, Some(k), None, cs);
    lemma_first_ci_at(ms, k, pos);
}

/// An `add` patch for a key that the object at `p` does not hold: the
/// member goes at the end.
proof fn lemma_apply_add_member(d: JsonV, p: Seq<u8>, ms: Seq<(Seq<u8>, JsonV)>, k: Seq<u8>, v: JsonV, cs: bool)
    requires
        get_pointer(d, p, cs) == Some(JsonV::Object(ms)),
        forall|i: int| 0 <= i < ms.len() ==> plain_key(#[trigger] ms[i].0),
        plain_key(k),
        forall|j: int| 0 <= j < ms.len() ==> !key_eq(k, (#[trigger] ms[j]).0, cs),
    ensures
        apply_patch_spec(d, make_patch(name_add(), p, Some(k), Some(v)), cs) == (
            0int,
            set_pointer(d, p, cs, JsonV::Object(ms.push((k, v)))),
        ),
{
    lemma_escape_plain(k);
    lemma_split_path(p, k);
    lemma_make_patch_fields(name_add(), p, Some(k), Some(v), cs);
    lemma_make_patch_operation(p, Some(k), Some(v), cs);
    lemma_first_key_at(ms, k, ms.len() as int, cs);
}

/// A `replace` patch for the member with key `k` of the object at `p`, the
/// only member with that key: it comes out at the end with the new value.
proof fn lemma_apply_replace_member(
    d: JsonV,
    p: Seq<u8>,
    ms: Seq<(Seq<u8>, JsonV)>,
    k: Seq<u8>,
    pos: int,
    v: JsonV,
    cs: bool,
)
    requires
        get_pointer(d, p, cs) == Some(JsonV::Object(ms)),
        forall|i: int| 0 <= i < ms.len() ==> plain_key(#[trigger] ms[i].0),
        plain_key(k),
        0 <= pos < ms.len(),
        forall|j: int| 0 <= j < pos ==> !key_eq(k, (#[trigger] ms[j]).0, false),
        forall|j: int| 0 <= j < ms.len() && j != pos ==> !key_eq(k, (#[trigger] ms[j]).0, cs),
        ms[pos].0 == k,
    ensures
        apply_patch_spec(d, make_patch(name_replace(), p + seq![47u8] + k, None, Some(v)), cs) == (
            0int,
            set_pointer(d, p, cs, JsonV::Object(ms.remove(pos).push((k, v)))),
        ),
{
    let path = p + seq![47u8] + k;
    lemma_escape_plain(k);
    lemma_split_path(p, k);
    lemma_make_patch_fields(name_replace(), path, None, Some(v), cs);
    lemma_make_patch_operation(path, None, Some(v), cs);
    lemma_first_ci_at(ms, k, pos);
    let removed = JsonV::Object(ms.remove(pos));
    let rest = ms.remove(pos);
    law_get_after_set(d, p, cs, removed);
    assert forall|j: int| 0 <= j < rest.len() implies !key_eq(k, (#[trigger] rest[j]).0, cs) && plain_key(rest[j].0) by {
        if j < pos {
            assert(rest[j] == ms[j]);
        } else {
            assert(rest[j] == ms[j + 1]);
        }
    }
    lemma_first_key_at(rest, k, rest.len() as int, cs);
    law_set_twice(d, p, cs, removed, JsonV::Object(rest.push((k, v))));
}

/// Every member has a key fit for the comparison.
pub open spec fn plain_keys(ms: Seq<(Seq<u8>, JsonV)>) -> bool {
    forall|i: int| 0 <= i < ms.len() ==> plain_key(#[trigger] ms[i].0)
}

/// No two keys are equal ignoring case.
spec fn ci_distinct(ms: Seq<(Seq<u8>, JsonV)>) -> bool {
    forall|a: int, b: int| 0 <= a < b < ms.len() ==> !key_eq(#[trigger] ms[a].0, #[trigger] ms[b].0, false)
}

/// No key of `ms` equals a key of `ns` ignoring case.
spec fn ci_apart(ms: Seq<(Seq<u8>, JsonV)>, ns: Seq<(Seq<u8>, JsonV)>) -> bool {
    forall|i: int, j: int|
        0 <= i < ms.len() && 0 <= j < ns.len() ==> !key_eq(#[trigger] ms[i].0, #[trigger] ns[j].0, false)
}

/// What `patchable` says of the members of an object.
proof fn lemma_patchable_object(xs: Seq<(Seq<u8>, JsonV)>)
    requires
        patchable(JsonV::Object(xs)),
    ensures
        plain_keys(xs),
        ci_distinct(xs),
        forall|i: int| 0 <= i < xs.len() ==> patchable(#[trigger] xs[i].1),
{
    let j = JsonV::Object(xs);
    assert(j->Object_0 == xs);
}

/// A patchable value is keyed under either comparison.
proof fn lemma_patchable_keyed(j: JsonV, cs: bool)
    requires
        patchable(j),
    ensures
        keyed(j, cs),
    decreases height(j),
{
    match j {
        JsonV::Array(xs) => {
            assert forall|i: int| 0 <= i < xs.len() implies keyed(#[trigger] xs[i], cs) by {
                lemma_items_height(xs, i);
                lemma_patchable_keyed(xs[i], cs);
            }
        },
        JsonV::Object(xs) => {
            lemma_patchable_object(xs);
            assert forall|a: int, b: int| 0 <= a < b < xs.len() implies !key_eq(
                #[trigger] xs[a].0,
                #[trigger] xs[b].0,
                cs,
            ) by {
                lemma_ci_implies(xs[a].0, xs[b].0, cs);
            }
            assert forall|i: int| 0 <= i < xs.len() implies keyed(#[trigger] xs[i].1, cs) by {
                lemma_members_height(xs, i);
                lemma_patchable_keyed(xs[i].1, cs);
            }
            let o = JsonV::Object(xs);
            assert(o->Object_0 == xs);
        },
        _ => {},
    }
}

/// The members of an object, sorted by key as generation sorts them: as
/// many, each a member of the object, keys fit for the comparison, distinct
/// ignoring case and strictly increasing.
proof fn lemma_sorted_members(xs: Seq<(Seq<u8>, JsonV)>, cs: bool)
    requires
        patchable(JsonV::Object(xs)),
    ensures
        merge_sort(xs, key_lt(cs)).len() == xs.len(),
        plain_keys(merge_sort(xs, key_lt(cs))),
        increasing(merge_sort(xs, key_lt(cs)), cs),
        ci_distinct(merge_sort(xs, key_lt(cs))),
        forall|i: int|
            0 <= i < xs.len() ==> patchable((#[trigger] merge_sort(xs, key_lt(cs))[i]).1) && height(
                merge_sort(xs, key_lt(cs))[i].1,
            ) < height(JsonV::Object(xs)),
        forall|i: int| 0 <= i < xs.len() ==> xs.contains(#[trigger] merge_sort(xs, key_lt(cs))[i]),
{
    let lt = key_lt(cs);
    let sx = merge_sort(xs, lt);
    lemma_patchable_object(xs);
    lemma_merge_sort_multiset(xs, lt);
    lemma_key_lt_order(cs);
    lemma_merge_sort_sorted(xs, lt);
    assert forall|i: int| 0 <= i < xs.len() implies xs.contains(#[trigger] sx[i]) by {
        lemma_merge_sort_contains(xs, lt, i);
    }
    assert forall|a: int, b: int| 0 <= a < xs.len() && 0 <= b < xs.len() && a != b implies !key_eq(
        #[trigger] xs[a].0,
        #[trigger] xs[b].0,
        false,
    ) by {
        if b < a {
            assert(!key_eq(xs[b].0, xs[a].0, false));
            lemma_key_order_antisymmetric(xs[b].0, xs[a].0, false);
        }
    }
    assert(xs.no_duplicates()) by {
        assert forall|i: int, j: int| 0 <= i < xs.len() && 0 <= j < xs.len() && i != j implies xs[i] != xs[j] by {
            assert(!key_eq(xs[i].0, xs[j].0, false));
            lemma_key_order_reflexive(xs[i].0, false);
        }
    }
    xs.lemma_multiset_has_no_duplicates();
    sx.lemma_multiset_has_no_duplicates_conv();
    assert forall|i: int| 0 <= i < xs.len() implies plain_key(#[trigger] sx[i].0) && patchable(sx[i].1)
        && height(sx[i].1) < height(JsonV::Object(xs)) by {
        let a = choose|a: int| 0 <= a < xs.len() && xs[a] == sx[i];
        assert(plain_key(xs[a].0));
        assert(patchable(xs[a].1));
        lemma_members_height(xs, a);
    }
    assert forall|i: int, j: int| 0 <= i < j < sx.len() implies !key_eq(#[trigger] sx[i].0, #[trigger] sx[j].0, false)
        by {
        let a = choose|a: int| 0 <= a < xs.len() && xs[a] == sx[i];
        let b = choose|b: int| 0 <= b < xs.len() && xs[b] == sx[j];
        assert(sx[i] != sx[j]);
        assert(a != b);
        assert(!key_eq(xs[a].0, xs[b].0, false));
    }
    assert forall|i: int, j: int| 0 <= i < j < sx.len() implies key_order(
        #[trigger] sx[i].0,
        #[trigger] sx[j].0,
        cs,
    ) < 0 by {
        assert(!lt(sx[j], sx[i]));
        lemma_key_order_antisymmetric(sx[j].0, sx[i].0, cs);
        assert(!key_eq(sx[i].0, sx[j].0, false));
        lemma_ci_implies(sx[i].0, sx[j].0, cs);
    }
}

/// Generation keeps the keys of the members of `from` in place.
proof fn lemma_diff_members_keys(
    path: Seq<u8>,
    xs: Seq<(Seq<u8>, JsonV)>,
    ys: Seq<(Seq<u8>, JsonV)>,
    cs: bool,
    h: nat,
)
    ensures
        diff_members(path, xs, ys, cs, h).1.len() == xs.len(),
        forall|i: int| 0 <= i < xs.len() ==> (#[trigger] diff_members(path, xs, ys, cs, h).1[i]).0 == xs[i].0,
    decreases h, xs.len() + ys.len(),
{
    if xs.len() > 0 || ys.len() > 0 {
        let diff = if xs.len() == 0 {
            1
        } else if ys.len() == 0 {
            -1
        } else {
            key_order(xs[0].0, ys[0].0, cs)
        };
        if diff == 0 {
            if height(xs[0].1) < h {
                lemma_diff_members_keys(path, xs.drop_first(), ys.drop_first(), cs, h);
                let r = diff_members(path, xs, ys, cs, h).1;
                assert forall|i: int| 0 <= i < xs.len() implies (#[trigger] r[i]).0 == xs[i].0 by {
                    if i > 0 {
                        assert(r[i] == diff_members(path, xs.drop_first(), ys.drop_first(), cs, h).1[i - 1]);
                    }
                }
            }
        } else if diff < 0 {
            lemma_diff_members_keys(path, xs.drop_first(), ys, cs, h);
            let r = diff_members(path, xs, ys, cs, h).1;
            assert forall|i: int| 0 <= i < xs.len() implies (#[trigger] r[i]).0 == xs[i].0 by {
                if i > 0 {
                    assert(r[i] == diff_members(path, xs.drop_first(), ys, cs, h).1[i - 1]);
                }
            }
        } else {
            lemma_diff_members_keys(path, xs, ys.drop_first(), cs, h);
        }
    }
}

proof fn lemma_plain_keys_drop(ms: Seq<(Seq<u8>, JsonV)>)
    requires
        plain_keys(ms),
        ms.len() > 0,
    ensures
        plain_keys(ms.drop_first()),
{
    assert forall|i: int| 0 <= i < ms.drop_first().len() implies plain_key(#[trigger] ms.drop_first()[i].0) by {
        assert(ms.drop_first()[i] == ms[i + 1]);
    }
}

proof fn lemma_plain_keys_push(ms: Seq<(Seq<u8>, JsonV)>, x: (Seq<u8>, JsonV))
    requires
        plain_keys(ms),
        plain_key(x.0),
    ensures
        plain_keys(ms.push(x)),
{
    let m = ms.push(x);
    assert forall|i: int| 0 <= i < m.len() implies plain_key(#[trigger] m[i].0) by {
        if i < ms.len() {
            assert(m[i] == ms[i]);
        }
    }
}

/// The object `a + x + b` at a step of the walk: its keys are plain, and
/// the key `k` of the head of `xs`, known to be above every key of `a` and
/// `b` and below the other keys of `xs`, matches under the comparison only
/// the key at the head of `x`.
proof fn lemma_walk_keys(
    a: Seq<(Seq<u8>, JsonV)>,
    x: Seq<(Seq<u8>, JsonV)>,
    xs: Seq<(Seq<u8>, JsonV)>,
    b: Seq<(Seq<u8>, JsonV)>,
    cs: bool,
)
    requires
        plain_keys(a),
        plain_keys(xs),
        plain_keys(b),
        increasing(xs, cs),
        below(a, xs, cs),
        below(b, xs, cs),
        x.len() == xs.len(),
        forall|i: int| 0 <= i < xs.len() ==> (#[trigger] x[i]).0 == xs[i].0,
    ensures
        plain_keys(a + x + b),
        xs.len() > 0 ==> forall|j: int|
            0 <= j < (a + x + b).len() && j != a.len() ==> !key_eq(xs[0].0, (#[trigger] (a + x + b)[j]).0, cs),
        xs.len() > 0 ==> (a + x + b)[a.len() as int] == x[0],
{
    let cur = a + x + b;
    let pos = a.len() as int;
    assert forall|j: int| 0 <= j < cur.len() implies plain_key(#[trigger] cur[j].0) by {
        if j < pos {
            assert(cur[j] == a[j]);
        } else if j < pos + x.len() {
            assert(cur[j] == x[j - pos]);
            assert(x[j - pos].0 == xs[j - pos].0);
        } else {
            assert(cur[j] == b[j - pos - x.len()]);
        }
    }
    if xs.len() > 0 {
        assert forall|j: int| 0 <= j < cur.len() && j != pos implies !key_eq(xs[0].0, (#[trigger] cur[j]).0, cs) by {
            if j < pos {
                assert(cur[j] == a[j]);
                assert(key_order(a[j].0, xs[0].0, cs) < 0);
                lemma_below_ne(a[j].0, xs[0].0, cs);
            } else if j < pos + x.len() {
                assert(cur[j] == x[j - pos]);
                assert(x[j - pos].0 == xs[j - pos].0);
                assert(key_order(xs[0].0, xs[j - pos].0, cs) < 0);
                lemma_below_ne(xs[0].0, xs[j - pos].0, cs);
            } else {
                let jb = j - pos - x.len();
                assert(cur[j] == b[jb]);
                assert(key_order(b[jb].0, xs[0].0, cs) < 0);
                lemma_below_ne(b[jb].0, xs[0].0, cs);
            }
        }
        assert(cur[pos] == x[0]);
    }
}

/// A pair that is not replaced and holds no container is a pair of equal
/// values.
proof fn lemma_kept_scalar(from: JsonV, to: JsonV)
    requires
        !replaces(from, to),
        patchable(from),
        patchable(to),
        !(from is Array),
        !(from is Object),
    ensures
        from == to,
{
    match (from, to) {
        (JsonV::String(x), JsonV::String(y)) => {
            lemma_cstr_key_eq(x, y);
        },
        _ => {},
    }
}

/// The patches generated for a pair of values that is not replaced,
/// applied where `from` stands as the generation left it, leave the
/// patched value there.
#[verifier::spinoff_prover]
#[verifier::rlimit(40)]
proof fn lemma_value_apply(d: JsonV, p: Seq<u8>, from: JsonV, to: JsonV, cs: bool)
    requires
        p.len() == 0 || p[0] == 47,
        get_pointer(d, p, cs) == Some(diff_spec(p, from, to, cs).1),
        !replaces(from, to),
        patchable(from),
        patchable(to),
    ensures
        apply_patches_seq(d, diff_spec(p, from, to, cs).0, cs) == (
            0int,
            set_pointer(d, p, cs, patched(from, to, cs)),
        ),
    decreases height(from) + 1, 0nat, 0nat,
{
    match (from, to) {
        (JsonV::Array(xs), JsonV::Array(ys)) => {
            let h = height(from);
            assert forall|k: int| 0 <= k < xs.len() implies patchable(#[trigger] xs[k]) && height(xs[k]) < h by {
                lemma_items_height(xs, k);
            }
            let x2 = diff_items(p, xs, ys, cs, 0, h).1;
            assert(Seq::<JsonV>::empty() + x2 =~= x2);
            lemma_items_apply(d, p, Seq::empty(), xs, ys, h, cs);
            assert(Seq::<JsonV>::empty() + patched_items(xs, ys, cs, h) =~= patched_items(xs, ys, cs, h));
        },
        (JsonV::Object(xs), JsonV::Object(ys)) => {
            let h = height(from);
            let sx = merge_sort(xs, key_lt(cs));
            let sy = merge_sort(ys, key_lt(cs));
            lemma_sorted_members(xs, cs);
            lemma_sorted_members(ys, cs);
            let e = Seq::<(Seq<u8>, JsonV)>::empty();
            let x2 = diff_members(p, sx, sy, cs, h).1;
            assert(e + x2 + e =~= x2);
            lemma_members_apply(d, p, e, sx, sy, e, h, cs);
            let pm = patched_members(sx, sy, cs, h);
            assert(e + pm.0 + e + pm.1 =~= pm.0 + pm.1);
        },
        _ => {
            lemma_kept_scalar(from, to);
            lemma_set_get(d, p, cs);
        },
    }
}

/// The patches generated for two lists of array items, from the position
/// where `done` ends, applied to the array at `p` that holds `done`
/// followed by the items as generation left them.
#[verifier::spinoff_prover]
#[verifier::rlimit(40)]
proof fn lemma_items_apply(
    d: JsonV,
    p: Seq<u8>,
    done: Seq<JsonV>,
    xs: Seq<JsonV>,
    ys: Seq<JsonV>,
    h: nat,
    cs: bool,
)
    requires
        p.len() == 0 || p[0] == 47,
        get_pointer(d, p, cs) == Some(JsonV::Array(done + diff_items(p, xs, ys, cs, done.len(), h).1)),
        done.len() + xs.len() <= usize::MAX,
        forall|k: int| 0 <= k < xs.len() ==> patchable(#[trigger] xs[k]) && height(xs[k]) < h,
        forall|k: int| 0 <= k < ys.len() ==> patchable(#[trigger] ys[k]),
    ensures
        apply_patches_seq(d, diff_items(p, xs, ys, cs, done.len(), h).0, cs) == (
            0int,
            set_pointer(d, p, cs, JsonV::Array(done + patched_items(xs, ys, cs, h))),
        ),
    decreases h, xs.len(), 0nat,
{
    let n = done.len();
    if xs.len() > 0 && ys.len() > 0 {
        let x0 = xs[0];
        let y0 = ys[0];
        assert(patchable(x0) && height(x0) < h);
        assert(patchable(y0));
        let c = p + seq![47u8] + decimal(n);
        let first = diff_spec(c, x0, y0, cs);
        let rest = diff_items(p, xs.drop_first(), ys.drop_first(), cs, n + 1, h);
        assert(diff_items(p, xs, ys, cs, n, h).0 == first.0 + rest.0);
        assert(diff_items(p, xs, ys, cs, n, h).1 == seq![first.1] + rest.1);
        let items = done + (seq![first.1] + rest.1);
        assert(items[n as int] == first.1);
        let pv = patched(x0, y0, cs);
        if replaces(x0, y0) {
            let rp = make_patch(name_replace(), c, None, Some(y0));
            assert(first.0 == seq![rp]);
            lemma_apply_replace_item(d, p, items, n, y0, cs);
            lemma_apply_single(d, rp, cs);
        } else {
            let tail = seq![47u8] + decimal(n);
            assert(c =~= p + tail);
            lemma_get_compose(d, p, tail, cs);
            lemma_index_pointer(items, n, cs, pv);
            lemma_value_apply(d, c, x0, y0, cs);
            lemma_set_compose(d, p, tail, cs, pv);
        }
        let next = JsonV::Array(items.update(n as int, pv));
        let d1 = set_pointer(d, p, cs, next);
        assert(items.update(n as int, pv) =~= done.push(pv) + rest.1);
        law_get_after_set(d, p, cs, next);
        assert forall|k: int| 0 <= k < xs.drop_first().len() implies patchable(#[trigger] xs.drop_first()[k])
            && height(xs.drop_first()[k]) < h by {
            assert(xs.drop_first()[k] == xs[k + 1]);
        }
        assert forall|k: int| 0 <= k < ys.drop_first().len() implies patchable(#[trigger] ys.drop_first()[k]) by {
            assert(ys.drop_first()[k] == ys[k + 1]);
        }
        assert(done.push(pv).len() == n + 1);
        lemma_items_apply(d1, p, done.push(pv), xs.drop_first(), ys.drop_first(), h, cs);
        lemma_apply_append(d, first.0, rest.0, cs);
        let result = patched_items(xs, ys, cs, h);
        assert(done.push(pv) + patched_items(xs.drop_first(), ys.drop_first(), cs, h) =~= done + result);
        law_set_twice(d, p, cs, next, JsonV::Array(done + result));
    } else {
        let rm = removals(p, n, xs.len());
        let ad = appends(p, ys);
        assert(diff_items(p, xs, ys, cs, n, h).0 == rm + ad);
        assert(diff_items(p, xs, ys, cs, n, h).1 == xs);
        lemma_apply_removals(d, p, done, xs, cs);
        let shorter = JsonV::Array(done);
        let d1 = set_pointer(d, p, cs, shorter);
        law_get_after_set(d, p, cs, shorter);
        lemma_apply_appends(d1, p, done, ys, cs);
        lemma_apply_append(d, rm, ad, cs);
        law_set_twice(d, p, cs, shorter, JsonV::Array(done + ys));
    }
}

proof fn lemma_ci_distinct_drop(xs: Seq<(Seq<u8>, JsonV)>)
    requires
        ci_distinct(xs),
        xs.len() > 0,
    ensures
        ci_distinct(xs.drop_first()),
{
    let t = xs.drop_first();
    assert forall|a: int, b: int| 0 <= a < b < t.len() implies !key_eq(#[trigger] t[a].0, #[trigger] t[b].0, false) by {
        assert(t[a] == xs[a + 1] && t[b] == xs[b + 1]);
    }
}

proof fn lemma_ci_apart_drop(a: Seq<(Seq<u8>, JsonV)>, xs: Seq<(Seq<u8>, JsonV)>)
    requires
        ci_apart(a, xs),
        xs.len() > 0,
    ensures
        ci_apart(a, xs.drop_first()),
{
    let t = xs.drop_first();
    assert forall|i: int, j: int| 0 <= i < a.len() && 0 <= j < t.len() implies !key_eq(
        #[trigger] a[i].0,
        #[trigger] t[j].0,
        false,
    ) by {
        assert(t[j] == xs[j + 1]);
    }
}

/// Handing the head of `xs` over to the members kept in place keeps them
/// apart, ignoring case, from the rest of `xs`.
proof fn lemma_ci_apart_push(a: Seq<(Seq<u8>, JsonV)>, x: (Seq<u8>, JsonV), xs: Seq<(Seq<u8>, JsonV)>)
    requires
        ci_apart(a, xs),
        ci_distinct(xs),
        xs.len() > 0,
        x.0 == xs[0].0,
    ensures
        ci_apart(a.push(x), xs.drop_first()),
{
    let m = a.push(x);
    let t = xs.drop_first();
    assert forall|i: int, j: int| 0 <= i < m.len() && 0 <= j < t.len() implies !key_eq(
        #[trigger] m[i].0,
        #[trigger] t[j].0,
        false,
    ) by {
        assert(t[j] == xs[j + 1]);
        if i < a.len() {
            assert(m[i] == a[i]);
        } else {
            assert(!key_eq(xs[0].0, xs[j + 1].0, false));
        }
    }
}

/// No member kept in place before the head of `xs` matches its key
/// ignoring case.
proof fn lemma_ci_before(
    a: Seq<(Seq<u8>, JsonV)>,
    x: Seq<(Seq<u8>, JsonV)>,
    xs: Seq<(Seq<u8>, JsonV)>,
    b: Seq<(Seq<u8>, JsonV)>,
)
    requires
        ci_apart(a, xs),
        xs.len() > 0,
    ensures
        forall|j: int| 0 <= j < a.len() ==> !key_eq(xs[0].0, (#[trigger] (a + x + b)[j]).0, false),
{
    assert forall|j: int| 0 <= j < a.len() implies !key_eq(xs[0].0, (#[trigger] (a + x + b)[j]).0, false) by {
        assert((a + x + b)[j] == a[j]);
        assert(!key_eq(a[j].0, xs[0].0, false));
        lemma_key_order_antisymmetric(a[j].0, xs[0].0, false);
    }
}

/// A key equal under the comparison to the first of increasing keys is
/// below the others.
proof fn lemma_after_shared(k: Seq<u8>, ys: Seq<(Seq<u8>, JsonV)>, cs: bool)
    requires
        increasing(ys, cs),
        ys.len() > 0,
        key_order(k, ys[0].0, cs) == 0,
    ensures
        forall|j: int| 0 <= j < ys.drop_first().len() ==> key_order(k, #[trigger] ys.drop_first()[j].0, cs) < 0,
{
    lemma_before_all(k, ys, cs);
    assert forall|j: int| 0 <= j < ys.drop_first().len() implies key_order(k, #[trigger] ys.drop_first()[j].0, cs)
        < 0 by {
        assert(ys.drop_first()[j] == ys[j + 1]);
    }
}

/// The walk over two key-sorted member lists, applied to the object at `p`
/// that holds `a` (members already handled and kept in place), the members
/// of `xs` as generation left them, then `b` (members already put at the
/// end): the members that the walk keeps join `a`, those it puts at the end
/// join `b`.
#[verifier::spinoff_prover]
#[verifier::rlimit(40)]
proof fn lemma_members_apply(
    d: JsonV,
    p: Seq<u8>,
    a: Seq<(Seq<u8>, JsonV)>,
    xs: Seq<(Seq<u8>, JsonV)>,
    ys: Seq<(Seq<u8>, JsonV)>,
    b: Seq<(Seq<u8>, JsonV)>,
    h: nat,
    cs: bool,
)
    requires
        p.len() == 0 || p[0] == 47,
        get_pointer(d, p, cs) == Some(JsonV::Object(a + diff_members(p, xs, ys, cs, h).1 + b)),
        plain_keys(a),
        plain_keys(xs),
        plain_keys(ys),
        plain_keys(b),
        increasing(xs, cs),
        increasing(ys, cs),
        below(a, xs, cs),
        below(a, ys, cs),
        below(b, xs, cs),
        below(b, ys, cs),
        ci_distinct(xs),
        ci_apart(a, xs),
        forall|k: int| 0 <= k < xs.len() ==> patchable(#[trigger] xs[k].1) && height(xs[k].1) < h,
        forall|k: int| 0 <= k < ys.len() ==> patchable(#[trigger] ys[k].1),
    ensures
        apply_patches_seq(d, diff_members(p, xs, ys, cs, h).0, cs) == (
            0int,
            set_pointer(
                d,
                p,
                cs,
                JsonV::Object(a + patched_members(xs, ys, cs, h).0 + b + patched_members(xs, ys, cs, h).1),
            ),
        ),
    decreases h, xs.len() + ys.len(), 1nat,
{
    let x2 = diff_members(p, xs, ys, cs, h).1;
    lemma_diff_members_keys(p, xs, ys, cs, h);
    if xs.len() == 0 && ys.len() == 0 {
        let pm = patched_members(xs, ys, cs, h);
        assert(x2.len() == 0);
        assert(a + pm.0 + b + pm.1 =~= a + x2 + b);
        lemma_set_get(d, p, cs);
    } else {
        if xs.len() > 0 && ys.len() > 0 && key_order(xs[0].0, ys[0].0, cs) == 0 {
            if replaces(xs[0].1, ys[0].1) {
                lemma_members_apply_replaced(d, p, a, xs, ys, b, h, cs);
            } else {
                lemma_members_apply_patched(d, p, a, xs, ys, b, h, cs);
            }
        } else if xs.len() > 0 && (ys.len() == 0 || key_order(xs[0].0, ys[0].0, cs) < 0) {
            lemma_members_apply_removed(d, p, a, xs, ys, b, h, cs);
        } else {
            lemma_members_apply_added(d, p, a, xs, ys, b, h, cs);
        }
    }
}

proof fn lemma_values_drop(xs: Seq<(Seq<u8>, JsonV)>, h: nat)
    requires
        xs.len() > 0,
        forall|k: int| 0 <= k < xs.len() ==> patchable(#[trigger] xs[k].1) && height(xs[k].1) < h,
    ensures
        forall|k: int| 0 <= k < xs.drop_first().len() ==> patchable(#[trigger] xs.drop_first()[k].1) && height(
            xs.drop_first()[k].1,
        ) < h,
{
    assert forall|k: int| 0 <= k < xs.drop_first().len() implies patchable(#[trigger] xs.drop_first()[k].1)
        && height(xs.drop_first()[k].1) < h by {
        assert(xs.drop_first()[k] == xs[k + 1]);
    }
}

proof fn lemma_to_values_drop(ys: Seq<(Seq<u8>, JsonV)>)
    requires
        ys.len() > 0,
        forall|k: int| 0 <= k < ys.len() ==> patchable(#[trigger] ys[k].1),
    ensures
        forall|k: int| 0 <= k < ys.drop_first().len() ==> patchable(#[trigger] ys.drop_first()[k].1),
{
    assert forall|k: int| 0 <= k < ys.drop_first().len() implies patchable(#[trigger] ys.drop_first()[k].1) by {
        assert(ys.drop_first()[k] == ys[k + 1]);
    }
}

/// A step of the walk on a key that both lists hold, whose values are
/// replaced.
#[verifier::spinoff_prover]
#[verifier::rlimit(40)]
proof fn lemma_members_apply_replaced(
    d: JsonV,
    p: Seq<u8>,
    a: Seq<(Seq<u8>, JsonV)>,
    xs: Seq<(Seq<u8>, JsonV)>,
    ys: Seq<(Seq<u8>, JsonV)>,
    b: Seq<(Seq<u8>, JsonV)>,
    h: nat,
    cs: bool,
)
    requires
        p.len() == 0 || p[0] == 47,
        get_pointer(d, p, cs) == Some(JsonV::Object(a + diff_members(p, xs, ys, cs, h).1 + b)),
        plain_keys(a),
        plain_keys(xs),
        plain_keys(ys),
        plain_keys(b),
        increasing(xs, cs),
        increasing(ys, cs),
        below(a, xs, cs),
        below(a, ys, cs),
        below(b, xs, cs),
        below(b, ys, cs),
        ci_distinct(xs),
        ci_apart(a, xs),
        forall|k: int| 0 <= k < xs.len() ==> patchable(#[trigger] xs[k].1) && height(xs[k].1) < h,
        forall|k: int| 0 <= k < ys.len() ==> patchable(#[trigger] ys[k].1),
        xs.len() > 0,
        ys.len() > 0,
        key_order(xs[0].0, ys[0].0, cs) == 0,
        replaces(xs[0].1, ys[0].1),
    ensures
        apply_patches_seq(d, diff_members(p, xs, ys, cs, h).0, cs) == (
            0int,
            set_pointer(
                d,
                p,
                cs,
                JsonV::Object(a + patched_members(xs, ys, cs, h).0 + b + patched_members(xs, ys, cs, h).1),
            ),
        ),
    decreases h, xs.len() + ys.len(), 0nat,
{
    let k = xs[0].0;
    assert(patchable(xs[0].1) && height(xs[0].1) < h);
    assert(patchable(ys[0].1));
    assert(plain_key(k));
    lemma_diff_members_unfold(p, xs, ys, cs, h);
    lemma_escape_plain(k);
    let c = p + seq![47u8] + k;
    let first = diff_spec(c, xs[0].1, ys[0].1, cs);
    let t = diff_members(p, xs.drop_first(), ys.drop_first(), cs, h);
    let x2 = diff_members(p, xs, ys, cs, h).1;
    assert(x2 == seq![(k, first.1)] + t.1);
    assert(diff_members(p, xs, ys, cs, h).0 == first.0 + t.0);
    lemma_diff_members_keys(p, xs, ys, cs, h);
    lemma_walk_keys(a, x2, xs, b, cs);
    let cur = a + x2 + b;
    let pos = a.len() as int;
    assert(cur[pos] == (k, first.1));
    let pv = patched(xs[0].1, ys[0].1, cs);
    let pm_r = patched_members(xs.drop_first(), ys.drop_first(), cs, h);
    let pm = patched_members(xs, ys, cs, h);
    lemma_plain_keys_drop(xs);
    lemma_plain_keys_drop(ys);
    lemma_increasing_drop(xs, cs);
    lemma_increasing_drop(ys, cs);
    lemma_below_drop(a, xs, cs);
    lemma_below_drop(a, ys, cs);
    lemma_below_drop(b, xs, cs);
    lemma_below_drop(b, ys, cs);
    lemma_values_drop(xs, h);
    lemma_to_values_drop(ys);
    let v = ys[0].1;
    let rp = make_patch(name_replace(), c, None, Some(v));
    assert(first.0 == seq![rp]);
    lemma_ci_before(a, x2, xs, b);
    lemma_apply_replace_member(d, p, cur, k, pos, v, cs);
    lemma_apply_single(d, rp, cs);
    let b2 = b.push((k, v));
    let cur2 = cur.remove(pos).push((k, v));
    assert(cur2 =~= a + t.1 + b2);
    let d1 = set_pointer(d, p, cs, JsonV::Object(cur2));
    law_get_after_set(d, p, cs, JsonV::Object(cur2));
    lemma_after_shared(k, ys, cs);
    lemma_below_push(b, (k, v), xs.drop_first(), cs);
    lemma_below_push(b, (k, v), ys.drop_first(), cs);
    lemma_plain_keys_push(b, (k, v));
    lemma_ci_distinct_drop(xs);
    lemma_ci_apart_drop(a, xs);
    lemma_members_apply(d1, p, a, xs.drop_first(), ys.drop_first(), b2, h, cs);
    lemma_apply_append(d, first.0, t.0, cs);
    assert(pm == (pm_r.0, seq![(k, v)] + pm_r.1));
    assert(a + pm_r.0 + b2 + pm_r.1 =~= a + pm.0 + b + pm.1);
    law_set_twice(d, p, cs, JsonV::Object(cur2), JsonV::Object(a + pm.0 + b + pm.1));
}

/// A step of the walk on a key that both lists hold, whose values are
/// patched in place.
#[verifier::spinoff_prover]
#[verifier::rlimit(40)]
proof fn lemma_members_apply_patched(
    d: JsonV,
    p: Seq<u8>,
    a: Seq<(Seq<u8>, JsonV)>,
    xs: Seq<(Seq<u8>, JsonV)>,
    ys: Seq<(Seq<u8>, JsonV)>,
    b: Seq<(Seq<u8>, JsonV)>,
    h: nat,
    cs: bool,
)
    requires
        p.len() == 0 || p[0] == 47,
        get_pointer(d, p, cs) == Some(JsonV::Object(a + diff_members(p, xs, ys, cs, h).1 + b)),
        plain_keys(a),
        plain_keys(xs),
        plain_keys(ys),
        plain_keys(b),
        increasing(xs, cs),
        increasing(ys, cs),
        below(a, xs, cs),
        below(a, ys, cs),
        below(b, xs, cs),
        below(b, ys, cs),
        ci_distinct(xs),
        ci_apart(a, xs),
        forall|k: int| 0 <= k < xs.len() ==> patchable(#[trigger] xs[k].1) && height(xs[k].1) < h,
        forall|k: int| 0 <= k < ys.len() ==> patchable(#[trigger] ys[k].1),
        xs.len() > 0,
        ys.len() > 0,
        key_order(xs[0].0, ys[0].0, cs) == 0,
        !replaces(xs[0].1, ys[0].1),
    ensures
        apply_patches_seq(d, diff_members(p, xs, ys, cs, h).0, cs) == (
            0int,
            set_pointer(
                d,
                p,
                cs,
                JsonV::Object(a + patched_members(xs, ys, cs, h).0 + b + patched_members(xs, ys, cs, h).1),
            ),
        ),
    decreases h, xs.len() + ys.len(), 0nat,
{
    let k = xs[0].0;
    assert(patchable(xs[0].1) && height(xs[0].1) < h);
    assert(patchable(ys[0].1));
    assert(plain_key(k));
    lemma_diff_members_unfold(p, xs, ys, cs, h);
    lemma_escape_plain(k);
    let c = p + seq![47u8] + k;
    let first = diff_spec(c, xs[0].1, ys[0].1, cs);
    let t = diff_members(p, xs.drop_first(), ys.drop_first(), cs, h);
    let x2 = diff_members(p, xs, ys, cs, h).1;
    assert(x2 == seq![(k, first.1)] + t.1);
    assert(diff_members(p, xs, ys, cs, h).0 == first.0 + t.0);
    lemma_diff_members_keys(p, xs, ys, cs, h);
    lemma_walk_keys(a, x2, xs, b, cs);
    let cur = a + x2 + b;
    let pos = a.len() as int;
    assert(cur[pos] == (k, first.1));
    let pv = patched(xs[0].1, ys[0].1, cs);
    let pm_r = patched_members(xs.drop_first(), ys.drop_first(), cs, h);
    let pm = patched_members(xs, ys, cs, h);
    lemma_plain_keys_drop(xs);
    lemma_plain_keys_drop(ys);
    lemma_increasing_drop(xs, cs);
    lemma_increasing_drop(ys, cs);
    lemma_below_drop(a, xs, cs);
    lemma_below_drop(a, ys, cs);
    lemma_below_drop(b, xs, cs);
    lemma_below_drop(b, ys, cs);
    lemma_values_drop(xs, h);
    lemma_to_values_drop(ys);
    let tail = seq![47u8] + k;
    assert(c =~= p + tail);
    lemma_get_compose(d, p, tail, cs);
    lemma_key_pointer(cur, k, pos, cs, pv);
    lemma_value_apply(d, c, xs[0].1, ys[0].1, cs);
    lemma_set_compose(d, p, tail, cs, pv);
    let a2 = a.push((k, pv));
    let cur2 = cur.update(pos, (k, pv));
    assert(cur2 =~= a2 + t.1 + b);
    let d1 = set_pointer(d, p, cs, JsonV::Object(cur2));
    law_get_after_set(d, p, cs, JsonV::Object(cur2));
    lemma_after_shared(k, ys, cs);
    lemma_below_push(a, (k, pv), xs.drop_first(), cs);
    lemma_below_push(a, (k, pv), ys.drop_first(), cs);
    lemma_plain_keys_push(a, (k, pv));
    lemma_ci_distinct_drop(xs);
    lemma_ci_apart_push(a, (k, pv), xs);
    lemma_members_apply(d1, p, a2, xs.drop_first(), ys.drop_first(), b, h, cs);
    lemma_apply_append(d, first.0, t.0, cs);
    assert(pm == (seq![(k, pv)] + pm_r.0, pm_r.1));
    assert(a2 + pm_r.0 + b + pm_r.1 =~= a + pm.0 + b + pm.1);
    law_set_twice(d, p, cs, JsonV::Object(cur2), JsonV::Object(a + pm.0 + b + pm.1));
}

/// A step of the walk on a key that only `from` holds.
#[verifier::spinoff_prover]
#[verifier::rlimit(40)]
proof fn lemma_members_apply_removed(
    d: JsonV,
    p: Seq<u8>,
    a: Seq<(Seq<u8>, JsonV)>,
    xs: Seq<(Seq<u8>, JsonV)>,
    ys: Seq<(Seq<u8>, JsonV)>,
    b: Seq<(Seq<u8>, JsonV)>,
    h: nat,
    cs: bool,
)
    requires
        p.len() == 0 || p[0] == 47,
        get_pointer(d, p, cs) == Some(JsonV::Object(a + diff_members(p, xs, ys, cs, h).1 + b)),
        plain_keys(a),
        plain_keys(xs),
        plain_keys(ys),
        plain_keys(b),
        increasing(xs, cs),
        increasing(ys, cs),
        below(a, xs, cs),
        below(a, ys, cs),
        below(b, xs, cs),
        below(b, ys, cs),
        ci_distinct(xs),
        ci_apart(a, xs),
        forall|k: int| 0 <= k < xs.len() ==> patchable(#[trigger] xs[k].1) && height(xs[k].1) < h,
        forall|k: int| 0 <= k < ys.len() ==> patchable(#[trigger] ys[k].1),
        xs.len() > 0,
        ys.len() == 0 || key_order(xs[0].0, ys[0].0, cs) < 0,
    ensures
        apply_patches_seq(d, diff_members(p, xs, ys, cs, h).0, cs) == (
            0int,
            set_pointer(
                d,
                p,
                cs,
                JsonV::Object(a + patched_members(xs, ys, cs, h).0 + b + patched_members(xs, ys, cs, h).1),
            ),
        ),
    decreases h, xs.len() + ys.len(), 0nat,
{
    let k = xs[0].0;
    assert(plain_key(k));
    lemma_diff_members_unfold(p, xs, ys, cs, h);
    let t = diff_members(p, xs.drop_first(), ys, cs, h);
    let rm = make_patch(name_remove(), p, Some(k), None);
    let x2 = diff_members(p, xs, ys, cs, h).1;
    assert(x2 == seq![xs[0]] + t.1);
    assert(diff_members(p, xs, ys, cs, h).0 == seq![rm] + t.0);
    lemma_diff_members_keys(p, xs, ys, cs, h);
    lemma_walk_keys(a, x2, xs, b, cs);
    let cur = a + x2 + b;
    let pos = a.len() as int;
    lemma_ci_before(a, x2, xs, b);
    lemma_apply_remove_member(d, p, cur, k, pos, cs);
    lemma_apply_single(d, rm, cs);
    let cur2 = cur.remove(pos);
    assert(cur2 =~= a + t.1 + b);
    let d1 = set_pointer(d, p, cs, JsonV::Object(cur2));
    law_get_after_set(d, p, cs, JsonV::Object(cur2));
    lemma_plain_keys_drop(xs);
    lemma_increasing_drop(xs, cs);
    lemma_below_drop(a, xs, cs);
    lemma_below_drop(b, xs, cs);
    lemma_values_drop(xs, h);
    lemma_ci_distinct_drop(xs);
    lemma_ci_apart_drop(a, xs);
    lemma_members_apply(d1, p, a, xs.drop_first(), ys, b, h, cs);
    lemma_apply_append(d, seq![rm], t.0, cs);
    let pm = patched_members(xs, ys, cs, h);
    assert(pm == patched_members(xs.drop_first(), ys, cs, h));
    law_set_twice(d, p, cs, JsonV::Object(cur2), JsonV::Object(a + pm.0 + b + pm.1));
}

/// A step of the walk on a key that only `to` holds.
#[verifier::spinoff_prover]
#[verifier::rlimit(40)]
proof fn lemma_members_apply_added(
    d: JsonV,
    p: Seq<u8>,
    a: Seq<(Seq<u8>, JsonV)>,
    xs: Seq<(Seq<u8>, JsonV)>,
    ys: Seq<(Seq<u8>, JsonV)>,
    b: Seq<(Seq<u8>, JsonV)>,
    h: nat,
    cs: bool,
)
    requires
        p.len() == 0 || p[0] == 47,
        get_pointer(d, p, cs) == Some(JsonV::Object(a + diff_members(p, xs, ys, cs, h).1 + b)),
        plain_keys(a),
        plain_keys(xs),
        plain_keys(ys),
        plain_keys(b),
        increasing(xs, cs),
        increasing(ys, cs),
        below(a, xs, cs),
        below(a, ys, cs),
        below(b, xs, cs),
        below(b, ys, cs),
        ci_distinct(xs),
        ci_apart(a, xs),
        forall|k: int| 0 <= k < xs.len() ==> patchable(#[trigger] xs[k].1) && height(xs[k].1) < h,
        forall|k: int| 0 <= k < ys.len() ==> patchable(#[trigger] ys[k].1),
        ys.len() > 0,
        xs.len() == 0 || key_order(xs[0].0, ys[0].0, cs) > 0,
    ensures
        apply_patches_seq(d, diff_members(p, xs, ys, cs, h).0, cs) == (
            0int,
            set_pointer(
                d,
                p,
                cs,
                JsonV::Object(a + patched_members(xs, ys, cs, h).0 + b + patched_members(xs, ys, cs, h).1),
            ),
        ),
    decreases h, xs.len() + ys.len(), 0nat,
{
    let k = ys[0].0;
    let v = ys[0].1;
    assert(plain_key(k));
    lemma_diff_members_unfold(p, xs, ys, cs, h);
    let t = diff_members(p, xs, ys.drop_first(), cs, h);
    let ad = make_patch(name_add(), p, Some(k), Some(v));
    let x2 = diff_members(p, xs, ys, cs, h).1;
    assert(x2 == t.1);
    assert(diff_members(p, xs, ys, cs, h).0 == seq![ad] + t.0);
    lemma_diff_members_keys(p, xs, ys, cs, h);
    lemma_walk_keys(a, x2, xs, b, cs);
    let cur = a + x2 + b;
    let pos = a.len() as int;
    if xs.len() > 0 {
        lemma_key_order_antisymmetric(xs[0].0, k, cs);
        lemma_before_all(k, xs, cs);
    }
    assert forall|j: int| 0 <= j < cur.len() implies !key_eq(k, (#[trigger] cur[j]).0, cs) by {
        if j < pos {
            assert(cur[j] == a[j]);
            assert(key_order(a[j].0, ys[0].0, cs) < 0);
            lemma_below_ne(a[j].0, k, cs);
        } else if j < pos + x2.len() {
            assert(cur[j] == x2[j - pos]);
            assert(x2[j - pos].0 == xs[j - pos].0);
            assert(key_order(k, xs[j - pos].0, cs) < 0);
            lemma_below_ne(k, xs[j - pos].0, cs);
        } else {
            let jb = j - pos - x2.len();
            assert(cur[j] == b[jb]);
            assert(key_order(b[jb].0, ys[0].0, cs) < 0);
            lemma_below_ne(b[jb].0, k, cs);
        }
    }
    lemma_apply_add_member(d, p, cur, k, v, cs);
    lemma_apply_single(d, ad, cs);
    let b2 = b.push(ys[0]);
    let cur2 = cur.push((k, v));
    assert(cur2 =~= a + t.1 + b2);
    let d1 = set_pointer(d, p, cs, JsonV::Object(cur2));
    law_get_after_set(d, p, cs, JsonV::Object(cur2));
    lemma_plain_keys_drop(ys);
    lemma_increasing_drop(ys, cs);
    lemma_below_drop(a, ys, cs);
    lemma_below_drop(b, ys, cs);
    lemma_below_push(b, ys[0], xs, cs);
    lemma_below_push(b, ys[0], ys.drop_first(), cs);
    lemma_plain_keys_push(b, ys[0]);
    lemma_to_values_drop(ys);
    lemma_members_apply(d1, p, a, xs, ys.drop_first(), b2, h, cs);
    lemma_apply_append(d, seq![ad], t.0, cs);
    let pm_r = patched_members(xs, ys.drop_first(), cs, h);
    let pm = patched_members(xs, ys, cs, h);
    assert(pm == (pm_r.0, seq![ys[0]] + pm_r.1));
    assert(a + pm_r.0 + b2 + pm_r.1 =~= a + pm.0 + b + pm.1);
    law_set_twice(d, p, cs, JsonV::Object(cur2), JsonV::Object(a + pm.0 + b + pm.1));
}

/// The patched value is alike to the value patched towards.
#[verifier::spinoff_prover]
#[verifier::rlimit(40)]
proof fn lemma_patched_same(from: JsonV, to: JsonV, cs: bool)
    requires
        patchable(from),
        patchable(to),
    ensures
        same_doc(patched(from, to, cs), to, cs),
    decreases height(from) + 1, 0nat, 0nat,
{
    if replaces(from, to) {
        lemma_patchable_keyed(to, cs);
        lemma_same_refl_keyed(to, cs);
    } else {
        match (from, to) {
            (JsonV::Array(xs), JsonV::Array(ys)) => {
                let h = height(from);
                assert forall|k: int| 0 <= k < xs.len() implies patchable(#[trigger] xs[k]) && height(xs[k]) < h by {
                    lemma_items_height(xs, k);
                }
                lemma_patched_items_same(xs, ys, cs, h);
                let r = patched_items(xs, ys, cs, h);
                let pa = JsonV::Array(r);
                assert(pa->Array_0 == r);
            },
            (JsonV::Object(xs), JsonV::Object(ys)) => {
                let h = height(from);
                let sx = merge_sort(xs, key_lt(cs));
                let sy = merge_sort(ys, key_lt(cs));
                lemma_sorted_members(xs, cs);
                lemma_sorted_members(ys, cs);
                lemma_patched_members_match(sx, sy, cs, h);
                let pm = patched_members(sx, sy, cs, h);
                let ms = pm.0 + pm.1;
                assert forall|i: int| 0 <= i < ms.len() implies found_in(#[trigger] ms[i], sy, cs) by {
                    if i < pm.0.len() {
                        assert(ms[i] == pm.0[i]);
                    } else {
                        assert(ms[i] == pm.1[i - pm.0.len()]);
                    }
                }
                lemma_patchable_keyed(to, cs);
                lemma_object_same_keyed(ms, sy, ys, cs);
            },
            _ => {
                lemma_kept_scalar(from, to);
                lemma_patchable_keyed(to, cs);
        lemma_same_refl_keyed(to, cs);
            },
        }
    }
}

#[verifier::spinoff_prover]
#[verifier::rlimit(40)]
proof fn lemma_patched_items_same(xs: Seq<JsonV>, ys: Seq<JsonV>, cs: bool, h: nat)
    requires
        forall|k: int| 0 <= k < xs.len() ==> patchable(#[trigger] xs[k]) && height(xs[k]) < h,
        forall|k: int| 0 <= k < ys.len() ==> patchable(#[trigger] ys[k]),
    ensures
        patched_items(xs, ys, cs, h).len() == ys.len(),
        forall|i: int| 0 <= i < ys.len() ==> same_doc(#[trigger] patched_items(xs, ys, cs, h)[i], ys[i], cs),
    decreases h, xs.len(), 0nat,
{
    let r = patched_items(xs, ys, cs, h);
    if xs.len() > 0 && ys.len() > 0 {
        assert(patchable(xs[0]) && height(xs[0]) < h);
        assert(patchable(ys[0]));
        lemma_patched_same(xs[0], ys[0], cs);
        assert forall|k: int| 0 <= k < xs.drop_first().len() implies patchable(#[trigger] xs.drop_first()[k])
            && height(xs.drop_first()[k]) < h by {
            assert(xs.drop_first()[k] == xs[k + 1]);
        }
        assert forall|k: int| 0 <= k < ys.drop_first().len() implies patchable(#[trigger] ys.drop_first()[k]) by {
            assert(ys.drop_first()[k] == ys[k + 1]);
        }
        lemma_patched_items_same(xs.drop_first(), ys.drop_first(), cs, h);
        let t = patched_items(xs.drop_first(), ys.drop_first(), cs, h);
        assert(r == seq![patched(xs[0], ys[0], cs)] + t);
        assert forall|i: int| 0 <= i < ys.len() implies same_doc(#[trigger] r[i], ys[i], cs) by {
            if i > 0 {
                assert(r[i] == t[i - 1]);
                assert(ys[i] == ys.drop_first()[i - 1]);
            }
        }
    } else {
        assert forall|i: int| 0 <= i < ys.len() implies same_doc(#[trigger] r[i], ys[i], cs) by {
            lemma_patchable_keyed(ys[i], cs);
            lemma_same_refl_keyed(ys[i], cs);
        }
    }
}

#[verifier::spinoff_prover]
#[verifier::rlimit(40)]
proof fn lemma_patched_members_match(
    xs: Seq<(Seq<u8>, JsonV)>,
    ys: Seq<(Seq<u8>, JsonV)>,
    cs: bool,
    h: nat,
)
    requires
        plain_keys(xs),
        plain_keys(ys),
        forall|k: int| 0 <= k < xs.len() ==> patchable(#[trigger] xs[k].1) && height(xs[k].1) < h,
        forall|k: int| 0 <= k < ys.len() ==> patchable(#[trigger] ys[k].1),
    ensures
        patched_members(xs, ys, cs, h).0.len() + patched_members(xs, ys, cs, h).1.len() == ys.len(),
        members_match(patched_members(xs, ys, cs, h).0, ys, cs),
        members_match(patched_members(xs, ys, cs, h).1, ys, cs),
    decreases h, xs.len() + ys.len(), 0nat,
{
    let pm = patched_members(xs, ys, cs, h);
    if xs.len() == 0 && ys.len() == 0 {
    } else {
        if xs.len() > 0 && ys.len() > 0 && key_order(xs[0].0, ys[0].0, cs) == 0 {
            assert(patchable(xs[0].1) && height(xs[0].1) < h);
            assert(patchable(ys[0].1));
            lemma_plain_keys_drop(xs);
            lemma_plain_keys_drop(ys);
            lemma_values_drop(xs, h);
            lemma_to_values_drop(ys);
            lemma_patched_members_match(xs.drop_first(), ys.drop_first(), cs, h);
            let r = patched_members(xs.drop_first(), ys.drop_first(), cs, h);
            if replaces(xs[0].1, ys[0].1) {
                lemma_patchable_keyed(ys[0].1, cs);
                lemma_same_refl_keyed(ys[0].1, cs);
                lemma_members_match_shift(r.0, ys, cs);
                lemma_members_match_cons((xs[0].0, ys[0].1), r.1, ys, cs);
            } else {
                lemma_patched_same(xs[0].1, ys[0].1, cs);
                lemma_members_match_cons((xs[0].0, patched(xs[0].1, ys[0].1, cs)), r.0, ys, cs);
                lemma_members_match_shift(r.1, ys, cs);
            }
        } else if xs.len() > 0 && (ys.len() == 0 || key_order(xs[0].0, ys[0].0, cs) < 0) {
            lemma_plain_keys_drop(xs);
            lemma_values_drop(xs, h);
            lemma_patched_members_match(xs.drop_first(), ys, cs, h);
        } else {
            assert(patchable(ys[0].1));
            lemma_plain_keys_drop(ys);
            lemma_to_values_drop(ys);
            lemma_patched_members_match(xs, ys.drop_first(), cs, h);
            let r = patched_members(xs, ys.drop_first(), cs, h);
            lemma_patchable_keyed(ys[0].1, cs);
                lemma_same_refl_keyed(ys[0].1, cs);
            lemma_key_order_reflexive(ys[0].0, cs);
            lemma_members_match_shift(r.0, ys, cs);
            lemma_members_match_cons(ys[0], r.1, ys, cs);
        }
    }
}

/// A value without objects is patchable.
proof fn lemma_plain_patchable(j: JsonV)
    requires
        plain(j),
    ensures
        patchable(j),
    decreases height(j),
{
    match j {
        JsonV::Array(xs) => {
            assert forall|i: int| 0 <= i < xs.len() implies patchable(#[trigger] xs[i]) by {
                lemma_items_height(xs, i);
                lemma_plain_patchable(xs[i]);
            }
        },
        _ => {},
    }
}

/// Between values without objects, the patched value is the target itself.
proof fn lemma_patched_plain(from: JsonV, to: JsonV, cs: bool)
    requires
        plain(from),
        plain(to),
    ensures
        patched(from, to, cs) == to,
    decreases height(from) + 1, 0nat,
{
    lemma_plain_patchable(from);
    lemma_plain_patchable(to);
    if !replaces(from, to) {
        match (from, to) {
            (JsonV::Array(xs), JsonV::Array(ys)) => {
                let h = height(from);
                assert forall|k: int| 0 <= k < xs.len() implies plain(#[trigger] xs[k]) && height(xs[k]) < h by {
                    lemma_items_height(xs, k);
                }
                lemma_patched_items_plain(xs, ys, cs, h);
            },
            _ => {
                lemma_kept_scalar(from, to);
            },
        }
    }
}

proof fn lemma_patched_items_plain(xs: Seq<JsonV>, ys: Seq<JsonV>, cs: bool, h: nat)
    requires
        forall|k: int| 0 <= k < xs.len() ==> plain(#[trigger] xs[k]) && height(xs[k]) < h,
        forall|k: int| 0 <= k < ys.len() ==> plain(#[trigger] ys[k]),
    ensures
        patched_items(xs, ys, cs, h) == ys,
    decreases h, xs.len(),
{
    if xs.len() > 0 && ys.len() > 0 {
        assert(plain(xs[0]) && height(xs[0]) < h);
        assert(plain(ys[0]));
        lemma_patched_plain(xs[0], ys[0], cs);
        assert forall|k: int| 0 <= k < xs.drop_first().len() implies plain(#[trigger] xs.drop_first()[k])
            && height(xs.drop_first()[k]) < h by {
            assert(xs.drop_first()[k] == xs[k + 1]);
        }
        assert forall|k: int| 0 <= k < ys.drop_first().len() implies plain(#[trigger] ys.drop_first()[k]) by {
            assert(ys.drop_first()[k] == ys[k + 1]);
        }
        lemma_patched_items_plain(xs.drop_first(), ys.drop_first(), cs, h);
        assert(seq![ys[0]] + ys.drop_first() =~= ys);
    }
}

/// An `add` patch whose path names a plain key `k` under an object whose
/// keys are plain and distinct under the comparison succeeds, and reading
/// its path afterwards gives the value it added (the member comes last,
/// in place of any member whose key equals `k`).
pub proof fn law_add_to_object_then_get(
    object: JsonV,
    patch: JsonV,
    parent_pointer: Seq<u8>,
    k: Seq<u8>,
    v: JsonV,
    case_sensitive: bool,
)
    requires
        parent_pointer.len() == 0 || parent_pointer[0] == 47,
        object_get(patch, key_path(), case_sensitive) == Some(JsonV::String(parent_pointer + seq![47u8] + k)),
        patch_operation(patch, case_sensitive) is Add,
        object_get(patch, key_value(), case_sensitive) == Some(v),
        plain_key(k),
        get_pointer(object, parent_pointer, case_sensitive) matches Some(JsonV::Object(ms)) && plain_keys(ms)
            && keys_distinct(ms, case_sensitive),
    ensures
        apply_patch_spec(object, patch, case_sensitive).0 == 0,
        get_pointer(apply_patch_spec(object, patch, case_sensitive).1, parent_pointer + seq![47u8] + k, case_sensitive)
            == Some(v),
{
    let cs = case_sensitive;
    let ms = get_pointer(object, parent_pointer, cs).unwrap()->Object_0;
    let path = parent_pointer + seq![47u8] + k;
    lemma_split_path(parent_pointer, k);
    lemma_detach_distinct(ms, k, cs);
    let rest = object_detach(JsonV::Object(ms), k, cs).0->Object_0;
    let ms2 = rest.push((k, v));
    let new_parent = JsonV::Object(ms2);
    assert(insert_child(JsonV::Object(ms), k, v, cs) == (0int, new_parent));
    let o2 = set_pointer(object, parent_pointer, cs, new_parent);
    assert(add_at_spec(object, path, v, cs) == (0int, o2));
    assert(apply_patch_spec(object, patch, cs) == (0int, o2));
    let f = |m: (Seq<u8>, JsonV)| key_eq(k, m.0, cs);
    lemma_first_where(ms, f);
    let d = first_key_match(ms, k, cs);
    assert forall|i: int| 0 <= i < ms2.len() implies plain_key(#[trigger] ms2[i].0) by {
        if i < rest.len() {
            assert(ms2[i] == rest[i]);
            if d < ms.len() {
                let i0 = if i < d { i } else { i + 1 };
                assert(rest[i] == ms.remove(d)[i]);
                assert(ms.remove(d)[i] == ms[i0]);
            } else {
                assert(rest[i] == ms[i]);
            }
        }
    }
    assert forall|j: int| 0 <= j < rest.len() implies !key_eq(k, (#[trigger] ms2[j]).0, cs) by {
        assert(ms2[j] == rest[j]);
    }
    lemma_key_pointer(ms2, k, rest.len() as int, cs, v);
    law_get_after_set(object, parent_pointer, cs, new_parent);
    lemma_get_compose(o2, parent_pointer, seq![47u8] + k, cs);
    assert(path =~= parent_pointer + (seq![47u8] + k));
}

/// A `remove` patch whose path names a plain key `k` under an object whose
/// keys are plain and distinct even ignoring case, one of them equal to
/// `k` under the comparison, succeeds, and reading its path afterwards
/// finds nothing.
pub proof fn law_remove_member_then_get(
    object: JsonV,
    patch: JsonV,
    parent_pointer: Seq<u8>,
    k: Seq<u8>,
    case_sensitive: bool,
)
    requires
        parent_pointer.len() == 0 || parent_pointer[0] == 47,
        object_get(patch, key_path(), case_sensitive) == Some(JsonV::String(parent_pointer + seq![47u8] + k)),
        patch_operation(patch, case_sensitive) is Remove,
        plain_key(k),
        get_pointer(object, parent_pointer, case_sensitive) matches Some(JsonV::Object(ms)) && plain_keys(ms)
            && keys_distinct(ms, false) && exists|i: int| 0 <= i < ms.len() && key_eq(k, #[trigger] ms[i].0, case_sensitive),
    ensures
        apply_patch_spec(object, patch, case_sensitive).0 == 0,
        get_pointer(apply_patch_spec(object, patch, case_sensitive).1, parent_pointer + seq![47u8] + k, case_sensitive)
            is None,
{
    let cs = case_sensitive;
    let ms = get_pointer(object, parent_pointer, cs).unwrap()->Object_0;
    let path = parent_pointer + seq![47u8] + k;
    let i = choose|i: int| 0 <= i < ms.len() && key_eq(k, #[trigger] ms[i].0, cs);
    lemma_ci_implies_eq(k, ms[i].0, cs);
    lemma_split_path(parent_pointer, k);
    lemma_detach_distinct(ms, k, false);
    let (np, taken) = object_detach(JsonV::Object(ms), k, false);
    let rest = np->Object_0;
    lemma_get_distinct(ms, k, false);
    assert(key_eq(k, ms[i].0, false));
    assert(taken is Some);
    assert(detach_path_spec(object, path, cs) == (set_pointer(object, parent_pointer, cs, np), taken));
    let o2 = set_pointer(object, parent_pointer, cs, np);
    assert(apply_patch_spec(object, patch, cs) == (0int, o2));
    let f = |m: (Seq<u8>, JsonV)| key_eq(k, m.0, false);
    lemma_first_where(ms, f);
    let d = first_key_match(ms, k, false);
    assert forall|j: int| 0 <= j < rest.len() implies plain_key(#[trigger] rest[j].0) && !key_eq(k, rest[j].0, cs) by {
        let j0 = if j < d { j } else { j + 1 };
        assert(rest[j] == ms.remove(d)[j]);
        assert(ms.remove(d)[j] == ms[j0]);
        lemma_ci_implies(k, rest[j].0, cs);
    }
    lemma_first_key_at(rest, k, rest.len() as int, cs);
    law_get_after_set(object, parent_pointer, cs, np);
    lemma_get_compose(o2, parent_pointer, seq![47u8] + k, cs);
    assert(path =~= parent_pointer + (seq![47u8] + k));
    let tail = seq![47u8] + k;
    assert(tail.drop_first() =~= k);
}

/// A `replace` patch whose path names a plain key `k` under an object whose
/// keys are plain and distinct even ignoring case, one of them equal to
/// `k` under the comparison, succeeds, and reading its path afterwards
/// gives the new value (the member comes last).
pub proof fn law_replace_member_then_get(
    object: JsonV,
    patch: JsonV,
    parent_pointer: Seq<u8>,
    k: Seq<u8>,
    v: JsonV,
    case_sensitive: bool,
)
    requires
        parent_pointer.len() == 0 || parent_pointer[0] == 47,
        object_get(patch, key_path(), case_sensitive) == Some(JsonV::String(parent_pointer + seq![47u8] + k)),
        patch_operation(patch, case_sensitive) is Replace,
        object_get(patch, key_value(), case_sensitive) == Some(v),
        plain_key(k),
        get_pointer(object, parent_pointer, case_sensitive) matches Some(JsonV::Object(ms)) && plain_keys(ms)
            && keys_distinct(ms, false) && exists|i: int| 0 <= i < ms.len() && key_eq(k, #[trigger] ms[i].0, case_sensitive),
    ensures
        apply_patch_spec(object, patch, case_sensitive).0 == 0,
        get_pointer(apply_patch_spec(object, patch, case_sensitive).1, parent_pointer + seq![47u8] + k, case_sensitive)
            == Some(v),
{
    let cs = case_sensitive;
    let ms = get_pointer(object, parent_pointer, cs).unwrap()->Object_0;
    let path = parent_pointer + seq![47u8] + k;
    let i = choose|i: int| 0 <= i < ms.len() && key_eq(k, #[trigger] ms[i].0, cs);
    lemma_ci_implies_eq(k, ms[i].0, cs);
    lemma_split_path(parent_pointer, k);
    lemma_detach_distinct(ms, k, false);
    let (np, taken) = object_detach(JsonV::Object(ms), k, false);
    let rest = np->Object_0;
    lemma_get_distinct(ms, k, false);
    assert(key_eq(k, ms[i].0, false));
    assert(taken is Some);
    let o1 = set_pointer(object, parent_pointer, cs, np);
    assert(detach_path_spec(object, path, cs) == (o1, taken));
    let f = |m: (Seq<u8>, JsonV)| key_eq(k, m.0, false);
    lemma_first_where(ms, f);
    let d = first_key_match(ms, k, false);
    assert forall|j: int| 0 <= j < rest.len() implies plain_key(#[trigger] rest[j].0) && !key_eq(k, rest[j].0, cs) by {
        let j0 = if j < d { j } else { j + 1 };
        assert(rest[j] == ms.remove(d)[j]);
        assert(ms.remove(d)[j] == ms[j0]);
        lemma_ci_implies(k, rest[j].0, cs);
    }
    law_get_after_set(object, parent_pointer, cs, np);
    lemma_first_key_at(rest, k, rest.len() as int, cs);
    let ms2 = rest.push((k, v));
    let new_parent = JsonV::Object(ms2);
    assert(object_detach(np, k, cs).0 == np);
    assert(insert_child(np, k, v, cs) == (0int, new_parent));
    let o2 = set_pointer(o1, parent_pointer, cs, new_parent);
    assert(add_at_spec(o1, path, v, cs) == (0int, o2));
    assert(apply_patch_spec(object, patch, cs) == (0int, o2));
    assert forall|j: int| 0 <= j < ms2.len() implies plain_key(#[trigger] ms2[j].0) by {
        if j < rest.len() {
            assert(ms2[j] == rest[j]);
        }
    }
    assert forall|j: int| 0 <= j < rest.len() implies !key_eq(k, (#[trigger] ms2[j]).0, cs) by {
        assert(ms2[j] == rest[j]);
    }
    lemma_key_pointer(ms2, k, rest.len() as int, cs, v);
    law_get_after_set(o1, parent_pointer, cs, new_parent);
    lemma_get_compose(o2, parent_pointer, seq![47u8] + k, cs);
    assert(path =~= parent_pointer + (seq![47u8] + k));
}

/// A key equal to the first key of an increasing list equals no key found
/// in the rest of the list.
proof fn lemma_apart_from_rest(
    k: Seq<u8>,
    r: (Seq<u8>, JsonV),
    ys: Seq<(Seq<u8>, JsonV)>,
    cs: bool,
)
    requires
        ys.len() > 0,
        increasing(ys, cs),
        key_eq(k, ys[0].0, cs),
        found_in(r, ys.drop_first(), cs),
    ensures
        !key_eq(k, r.0, cs),
        !key_eq(r.0, k, cs),
{
    let t = ys.drop_first();
    let j = choose|j: int| 0 <= j < t.len() && key_eq(r.0, (#[trigger] t[j]).0, cs) && same_doc(r.1, t[j].1, cs);
    assert(t[j] == ys[j + 1]);
    assert(key_order(ys[0].0, ys[j + 1].0, cs) < 0);
    lemma_key_order_antisymmetric(k, r.0, cs);
    if key_eq(k, r.0, cs) {
        lemma_key_eq_congruent(k, ys[0].0, r.0, cs);
        lemma_key_order_antisymmetric(ys[0].0, r.0, cs);
        lemma_key_eq_congruent(r.0, t[j].0, ys[0].0, cs);
        lemma_key_order_antisymmetric(t[j].0, ys[0].0, cs);
    }
}

/// A member whose key equals no key of a list with distinct keys can stand
/// anywhere in it: the keys stay distinct, and the values stay keyed.
proof fn lemma_distinct_insert(
    a: Seq<(Seq<u8>, JsonV)>,
    e: (Seq<u8>, JsonV),
    b: Seq<(Seq<u8>, JsonV)>,
    cs: bool,
)
    requires
        keys_distinct(a + b, cs),
        forall|i: int| 0 <= i < (a + b).len() ==> keyed(#[trigger] (a + b)[i].1, cs),
        forall|i: int|
            0 <= i < (a + b).len() ==> !key_eq(e.0, #[trigger] (a + b)[i].0, cs) && !key_eq((a + b)[i].0, e.0, cs),
        keyed(e.1, cs),
    ensures
        keys_distinct(a + seq![e] + b, cs),
        forall|i: int| 0 <= i < (a + seq![e] + b).len() ==> keyed(#[trigger] (a + seq![e] + b)[i].1, cs),
{
    let c = a + seq![e] + b;
    let d = a + b;
    let n = a.len() as int;
    assert forall|x: int, y: int| 0 <= x < y < c.len() implies !key_eq(#[trigger] c[x].0, #[trigger] c[y].0, cs) by {
        if x < n {
            assert(c[x] == d[x]);
            if y < n {
                assert(c[y] == d[y]);
            } else if y == n {
                assert(c[y] == e);
            } else {
                assert(c[y] == d[y - 1]);
            }
        } else if x == n {
            assert(c[x] == e);
            assert(c[y] == d[y - 1]);
        } else {
            assert(c[x] == d[x - 1]);
            assert(c[y] == d[y - 1]);
        }
    }
    assert forall|i: int| 0 <= i < c.len() implies keyed(#[trigger] c[i].1, cs) by {
        if i < n {
            assert(c[i] == d[i]);
        } else if i == n {
            assert(c[i] == e);
        } else {
            assert(c[i] == d[i - 1]);
        }
    }
}

/// The patched value holds no object with two keys equal under the
/// comparison.
#[verifier::spinoff_prover]
#[verifier::rlimit(40)]
proof fn lemma_patched_keyed(from: JsonV, to: JsonV, cs: bool)
    requires
        patchable(from),
        patchable(to),
    ensures
        keyed(patched(from, to, cs), cs),
    decreases height(from) + 1, 0nat, 0nat,
{
    if replaces(from, to) {
        lemma_patchable_keyed(to, cs);
    } else {
        match (from, to) {
            (JsonV::Array(xs), JsonV::Array(ys)) => {
                let h = height(from);
                assert forall|k: int| 0 <= k < xs.len() implies patchable(#[trigger] xs[k]) && height(xs[k]) < h by {
                    lemma_items_height(xs, k);
                }
                lemma_patched_items_keyed(xs, ys, cs, h);
                let r = patched_items(xs, ys, cs, h);
                let pa = JsonV::Array(r);
                assert(pa->Array_0 == r);
            },
            (JsonV::Object(xs), JsonV::Object(ys)) => {
                let h = height(from);
                let sx = merge_sort(xs, key_lt(cs));
                let sy = merge_sort(ys, key_lt(cs));
                lemma_sorted_members(xs, cs);
                lemma_sorted_members(ys, cs);
                lemma_patched_members_keyed(sx, sy, cs, h);
                let pm = patched_members(sx, sy, cs, h);
                let po = JsonV::Object(pm.0 + pm.1);
                assert(po->Object_0 == pm.0 + pm.1);
            },
            _ => {
                lemma_patchable_keyed(from, cs);
            },
        }
    }
}

#[verifier::spinoff_prover]
#[verifier::rlimit(40)]
proof fn lemma_patched_items_keyed(xs: Seq<JsonV>, ys: Seq<JsonV>, cs: bool, h: nat)
    requires
        forall|k: int| 0 <= k < xs.len() ==> patchable(#[trigger] xs[k]) && height(xs[k]) < h,
        forall|k: int| 0 <= k < ys.len() ==> patchable(#[trigger] ys[k]),
    ensures
        forall|i: int|
            0 <= i < patched_items(xs, ys, cs, h).len() ==> keyed(#[trigger] patched_items(xs, ys, cs, h)[i], cs),
    decreases h, xs.len(), 0nat,
{
    let r = patched_items(xs, ys, cs, h);
    if xs.len() > 0 && ys.len() > 0 && height(xs[0]) < h {
        assert(patchable(xs[0]) && patchable(ys[0]));
        lemma_patched_keyed(xs[0], ys[0], cs);
        assert forall|k: int| 0 <= k < xs.drop_first().len() implies patchable(#[trigger] xs.drop_first()[k])
            && height(xs.drop_first()[k]) < h by {
            assert(xs.drop_first()[k] == xs[k + 1]);
        }
        assert forall|k: int| 0 <= k < ys.drop_first().len() implies patchable(#[trigger] ys.drop_first()[k]) by {
            assert(ys.drop_first()[k] == ys[k + 1]);
        }
        lemma_patched_items_keyed(xs.drop_first(), ys.drop_first(), cs, h);
        let t = patched_items(xs.drop_first(), ys.drop_first(), cs, h);
        assert(r == seq![patched(xs[0], ys[0], cs)] + t);
        assert forall|i: int| 0 <= i < r.len() implies keyed(#[trigger] r[i], cs) by {
            if i > 0 {
                assert(r[i] == t[i - 1]);
            }
        }
    } else {
        assert forall|i: int| 0 <= i < r.len() implies keyed(#[trigger] r[i], cs) by {
            lemma_patchable_keyed(ys[i], cs);
        }
    }
}

#[verifier::spinoff_prover]
#[verifier::rlimit(40)]
proof fn lemma_patched_members_keyed(
    xs: Seq<(Seq<u8>, JsonV)>,
    ys: Seq<(Seq<u8>, JsonV)>,
    cs: bool,
    h: nat,
)
    requires
        plain_keys(xs),
        plain_keys(ys),
        increasing(ys, cs),
        forall|k: int| 0 <= k < xs.len() ==> patchable(#[trigger] xs[k].1) && height(xs[k].1) < h,
        forall|k: int| 0 <= k < ys.len() ==> patchable(#[trigger] ys[k].1),
    ensures
        keys_distinct(patched_members(xs, ys, cs, h).0 + patched_members(xs, ys, cs, h).1, cs),
        forall|i: int|
            0 <= i < (patched_members(xs, ys, cs, h).0 + patched_members(xs, ys, cs, h).1).len() ==> keyed(
                #[trigger] (patched_members(xs, ys, cs, h).0 + patched_members(xs, ys, cs, h).1)[i].1,
                cs,
            ),
    decreases h, xs.len() + ys.len(), 0nat,
{
    let pm = patched_members(xs, ys, cs, h);
    if xs.len() == 0 && ys.len() == 0 {
        assert(pm.0 + pm.1 =~= Seq::<(Seq<u8>, JsonV)>::empty());
    } else {
        if xs.len() > 0 && ys.len() > 0 && key_order(xs[0].0, ys[0].0, cs) == 0 {
            if height(xs[0].1) >= h {
                assert(false);
            }
            lemma_plain_keys_drop(xs);
            lemma_plain_keys_drop(ys);
            lemma_values_drop(xs, h);
            lemma_to_values_drop(ys);
            lemma_increasing_drop(ys, cs);
            lemma_patched_members_keyed(xs.drop_first(), ys.drop_first(), cs, h);
            lemma_patched_members_match(xs.drop_first(), ys.drop_first(), cs, h);
            let r = patched_members(xs.drop_first(), ys.drop_first(), cs, h);
            let d = r.0 + r.1;
            assert forall|i: int| 0 <= i < d.len() implies !key_eq(xs[0].0, #[trigger] d[i].0, cs) && !key_eq(
                d[i].0,
                xs[0].0,
                cs,
            ) by {
                if i < r.0.len() {
                    assert(d[i] == r.0[i]);
                } else {
                    assert(d[i] == r.1[i - r.0.len()]);
                }
                lemma_apart_from_rest(xs[0].0, d[i], ys, cs);
            }
            if replaces(xs[0].1, ys[0].1) {
                let e = (xs[0].0, ys[0].1);
                lemma_patchable_keyed(ys[0].1, cs);
                lemma_distinct_insert(r.0, e, r.1, cs);
                assert(pm.0 + pm.1 =~= r.0 + seq![e] + r.1);
            } else {
                let e = (xs[0].0, patched(xs[0].1, ys[0].1, cs));
                lemma_patched_keyed(xs[0].1, ys[0].1, cs);
                let em = Seq::<(Seq<u8>, JsonV)>::empty();
                assert(em + d =~= d);
                lemma_distinct_insert(em, e, d, cs);
                assert(pm.0 + pm.1 =~= em + seq![e] + d);
            }
        } else if xs.len() > 0 && (ys.len() == 0 || key_order(xs[0].0, ys[0].0, cs) < 0) {
            lemma_plain_keys_drop(xs);
            lemma_values_drop(xs, h);
            lemma_patched_members_keyed(xs.drop_first(), ys, cs, h);
        } else {
            lemma_plain_keys_drop(ys);
            lemma_to_values_drop(ys);
            lemma_increasing_drop(ys, cs);
            lemma_patched_members_keyed(xs, ys.drop_first(), cs, h);
            lemma_patched_members_match(xs, ys.drop_first(), cs, h);
            let r = patched_members(xs, ys.drop_first(), cs, h);
            let d = r.0 + r.1;
            lemma_key_order_reflexive(ys[0].0, cs);
            assert forall|i: int| 0 <= i < d.len() implies !key_eq(ys[0].0, #[trigger] d[i].0, cs) && !key_eq(
                d[i].0,
                ys[0].0,
                cs,
            ) by {
                if i < r.0.len() {
                    assert(d[i] == r.0[i]);
                } else {
                    assert(d[i] == r.1[i - r.0.len()]);
                }
                lemma_apart_from_rest(ys[0].0, d[i], ys, cs);
            }
            lemma_patchable_keyed(ys[0].1, cs);
            lemma_distinct_insert(r.0, ys[0], r.1, cs);
            assert(pm.0 + pm.1 =~= r.0 + seq![ys[0]] + r.1);
        }
    }
}

/// The patches that `cJSONUtils_GeneratePatches` (or its case-sensitive
/// form) makes from `from` to `to` all succeed when applied to `from` as
/// the generation leaves it (its objects sorted by key), and turn it into a
/// document alike to `to`: the same but for the order of object members
/// and, for the form that ignores case, the case of keys; `compare_json`
/// under the same comparison finds that document equal to `to`. This holds where
/// strings are C strings, arrays can be indexed by `usize`, no value is raw
/// text, every object key is a C string without `/` or `~`, and the keys of
/// each object are distinct even ignoring case. Where neither document
/// holds an object, the generation leaves both as they were and the result
/// is `to` itself.
pub proof fn law_apply_generated_patches(from: JsonV, to: JsonV, case_sensitive: bool)
    requires
        patchable(from),
        patchable(to),
    ensures
        ({
            let generated = generate_patches_spec(from, to, case_sensitive);
            let applied = apply_patches_spec(generated.1, generated.0, case_sensitive);
            &&& applied.0 == 0
            &&& same_doc(applied.1, to, case_sensitive)
            &&& compare_spec(applied.1, to, case_sensitive).0
        }),
        plain(from) && plain(to) ==> ({
            let generated = generate_patches_spec(from, to, case_sensitive);
            &&& generated.1 == from
            &&& generated.2 == to
            &&& apply_patches_spec(from, generated.0, case_sensitive) == (0int, to)
        }),
{
    let cs = case_sensitive;
    let root = Seq::<u8>::empty();
    let d = diff_spec(root, from, to, cs);
    let f = d.1;
    if replaces(from, to) {
        let replace = make_patch(name_replace(), root, None, Some(to));
        assert(d.0 == seq![replace]);
        lemma_apply_replace_root(f, to, cs);
        lemma_apply_single(f, replace, cs);
        lemma_patchable_keyed(to, cs);
        lemma_same_refl_keyed(to, cs);
        law_alike_compare_equal(to, to, cs);
    } else {
        assert(get_pointer(f, root, cs) == Some(f));
        lemma_value_apply(f, root, from, to, cs);
        lemma_patched_same(from, to, cs);
        lemma_patched_keyed(from, to, cs);
        lemma_patchable_keyed(to, cs);
        law_alike_compare_equal(patched(from, to, cs), to, cs);
    }
    if plain(from) && plain(to) {
        lemma_diff_keeps(root, from, to, cs);
        lemma_patched_plain(from, to, cs);
    }
}

/// A pointer to the item at index `i` of the array that `parent_pointer`
/// designates: its last `/` stands before the decimal index, which decodes
/// as itself and names index `i`, not the end of the array.
proof fn lemma_index_path(parent_pointer: Seq<u8>, i: usize)
    ensures
        last_slash(parent_pointer + seq![47u8] + decimal(i as nat)) == parent_pointer.len(),
        (parent_pointer + seq![47u8] + decimal(i as nat)).take(parent_pointer.len() as int) == parent_pointer,
        decode_segment((parent_pointer + seq![47u8] + decimal(i as nat)).skip(parent_pointer.len() as int + 1))
            == decimal(i as nat),
        decode_index(decimal(i as nat)) == Some(i),
        !key_eq(decimal(i as nat), token_end(), true),
{
    let d = decimal(i as nat);
    let path = parent_pointer + seq![47u8] + d;
    lemma_decimal_digits_no_slash(i as nat);
    lemma_decimal_digit_chars(i as nat);
    let s = parent_pointer.len() as int;
    assert forall|j: int| s < j < path.len() implies path[j] != 47 by {
        assert(path[j] == d[j - s - 1]);
    }
    assert(path[s] == 47);
    lemma_last_slash_at(path, s);
    assert(path.take(s) =~= parent_pointer);
    assert(path.skip(s + 1) =~= d);
    lemma_decode_plain(d);
    law_decimal_index(i, Seq::empty());
    assert(d + Seq::<u8>::empty() =~= d);
    lemma_key_order_unfold_first(d, token_end());
}

/// A `move` patch does what removing the value at its `from` and then
/// adding that value at its `path` does, in that order: where a `remove`
/// patch on `from` succeeds, taking out `v`, the `move` gives exactly what
/// an `add` patch of `v` at `path` gives on the document that the removal
/// leaves.
pub proof fn law_move_is_remove_then_add(
    object: JsonV,
    patch: JsonV,
    from: Seq<u8>,
    path: Seq<u8>,
    v: JsonV,
    case_sensitive: bool,
)
    requires
        object_get(patch, key_path(), case_sensitive) == Some(JsonV::String(path)),
        object_get(patch, key_from(), case_sensitive) == Some(JsonV::String(from)),
        patch_operation(patch, case_sensitive) is Move,
        path.len() > 0,
        from.len() > 0,
        detach_path_spec(object, from, case_sensitive).1 == Some(v),
    ensures
        ({
            let removed = apply_patch_spec(object, make_patch(name_remove(), from, None, None), case_sensitive);
            &&& removed == (0int, detach_path_spec(object, from, case_sensitive).0)
            &&& apply_patch_spec(object, patch, case_sensitive) == apply_patch_spec(
                removed.1,
                make_patch(name_add(), path, None, Some(v)),
                case_sensitive,
            )
        }),
{
    let cs = case_sensitive;
    lemma_make_patch_fields(name_remove(), from, None, None, cs);
    lemma_make_patch_fields(name_add(), path, None, Some(v), cs);
    lemma_make_patch_operation(from, None, None, cs);
    lemma_make_patch_operation(path, None, Some(v), cs);
}

/// Moving an item of an array to another index of the same array takes it
/// out first and then puts it at the target index of the shortened array:
/// the patch succeeds and the array becomes `items` without the item at
/// `i`, with that item inserted at `j`; nothing else changes.
#[verifier::spinoff_prover]
#[verifier::rlimit(30)]
pub proof fn law_move_within_array(
    object: JsonV,
    patch: JsonV,
    parent_pointer: Seq<u8>,
    i: usize,
    j: usize,
    case_sensitive: bool,
)
    requires
        object_get(patch, key_path(), case_sensitive) == Some(
            JsonV::String(parent_pointer + seq![47u8] + decimal(j as nat)),
        ),
        object_get(patch, key_from(), case_sensitive) == Some(
            JsonV::String(parent_pointer + seq![47u8] + decimal(i as nat)),
        ),
        patch_operation(patch, case_sensitive) is Move,
        get_pointer(object, parent_pointer, case_sensitive) matches Some(JsonV::Array(items)) && i < items.len()
            && j < items.len(),
    ensures
        ({
            let items = get_pointer(object, parent_pointer, case_sensitive).unwrap()->Array_0;
            let moved = items.remove(i as int).insert(j as int, items[i as int]);
            &&& apply_patch_spec(object, patch, case_sensitive) == (
                0int,
                set_pointer(object, parent_pointer, case_sensitive, JsonV::Array(moved)),
            )
            &&& get_pointer(apply_patch_spec(object, patch, case_sensitive).1, parent_pointer, case_sensitive)
                == Some(JsonV::Array(moved))
            &&& moved.len() == items.len()
            &&& moved[j as int] == items[i as int]
        }),
{
    let cs = case_sensitive;
    let items = get_pointer(object, parent_pointer, cs).unwrap()->Array_0;
    let from = parent_pointer + seq![47u8] + decimal(i as nat);
    let path = parent_pointer + seq![47u8] + decimal(j as nat);
    lemma_index_path(parent_pointer, i);
    lemma_index_path(parent_pointer, j);
    let shorter = items.remove(i as int);
    let x = items[i as int];
    assert(detach_child(JsonV::Array(items), decimal(i as nat)) == (JsonV::Array(shorter), Some(x)));
    let o2 = set_pointer(object, parent_pointer, cs, JsonV::Array(shorter));
    assert(detach_path_spec(object, from, cs) == (o2, Some(x)));
    law_get_after_set(object, parent_pointer, cs, JsonV::Array(shorter));
    let moved = shorter.insert(j as int, x);
    assert(insert_child(JsonV::Array(shorter), decimal(j as nat), x, cs) == (0int, JsonV::Array(moved)));
    law_set_twice(object, parent_pointer, cs, JsonV::Array(shorter), JsonV::Array(moved));
    assert(add_at_spec(o2, path, x, cs) == (0int, set_pointer(object, parent_pointer, cs, JsonV::Array(moved))));
    assert(apply_patch_spec(object, patch, cs) == (0int, set_pointer(object, parent_pointer, cs, JsonV::Array(moved))));
    law_get_after_set(object, parent_pointer, cs, JsonV::Array(moved));
}

/// A `remove` or `replace` patch whose `path` designates nothing to take
/// out fails with status 13 and leaves the document as it was: `replace`
/// never adds what was not there.
pub proof fn law_replace_or_remove_missing_fails(object: JsonV, patch: JsonV, path: Seq<u8>, case_sensitive: bool)
    requires
        object_get(patch, key_path(), case_sensitive) == Some(JsonV::String(path)),
        patch_operation(patch, case_sensitive) is Replace || patch_operation(patch, case_sensitive) is Remove,
        path.len() > 0,
        detach_path_spec(object, path, case_sensitive).1 is None,
    ensures
        apply_patch_spec(object, patch, case_sensitive) == (13int, object),
{
}

/// A `replace` patch on a member of an object that the object does not
/// hold (under any case, as the removal looks keys up) fails with status 13
/// and leaves the document unchanged.
pub proof fn law_replace_absent_member_fails(
    object: JsonV,
    patch: JsonV,
    parent_pointer: Seq<u8>,
    k: Seq<u8>,
    case_sensitive: bool,
)
    requires
        object_get(patch, key_path(), case_sensitive) == Some(JsonV::String(parent_pointer + seq![47u8] + k)),
        patch_operation(patch, case_sensitive) is Replace,
        plain_key(k),
        get_pointer(object, parent_pointer, case_sensitive) matches Some(JsonV::Object(ms)) && forall|q: int|
            0 <= q < ms.len() ==> !key_eq(k, #[trigger] ms[q].0, false),
    ensures
        apply_patch_spec(object, patch, case_sensitive) == (13int, object),
{
    let cs = case_sensitive;
    let ms = get_pointer(object, parent_pointer, cs).unwrap()->Object_0;
    let path = parent_pointer + seq![47u8] + k;
    lemma_split_path(parent_pointer, k);
    let f = |m: (Seq<u8>, JsonV)| key_eq(k, m.0, false);
    lemma_first_where(ms, f);
    assert(first_key_match(ms, k, false) == ms.len());
    assert(detach_child(JsonV::Object(ms), k).1 is None);
    assert(detach_path_spec(object, path, cs).1 is None);
}

/// A `copy` patch does what an `add` patch of the value at its `from`
/// does at its `path`: the document keeps the original at `from`.
pub proof fn law_copy_is_add(
    object: JsonV,
    patch: JsonV,
    from: Seq<u8>,
    path: Seq<u8>,
    case_sensitive: bool,
)
    requires
        object_get(patch, key_path(), case_sensitive) == Some(JsonV::String(path)),
        object_get(patch, key_from(), case_sensitive) == Some(JsonV::String(from)),
        patch_operation(patch, case_sensitive) is Copy,
        path.len() > 0,
        get_pointer(object, from, case_sensitive) is Some,
    ensures
        apply_patch_spec(object, patch, case_sensitive) == apply_patch_spec(
            object,
            make_patch(name_add(), path, None, get_pointer(object, from, case_sensitive)),
            case_sensitive,
        ),
{
    let cs = case_sensitive;
    lemma_make_patch_fields(name_add(), path, None, get_pointer(object, from, cs), cs);
    lemma_make_patch_operation(path, None, get_pointer(object, from, cs), cs);
}

/// A `replace` patch with a value does what removing the value at its
/// `path` and then adding its value there does, in that order; where the
/// removal finds nothing, see `law_replace_or_remove_missing_fails`.
pub proof fn law_replace_is_remove_then_add(
    object: JsonV,
    patch: JsonV,
    path: Seq<u8>,
    v: JsonV,
    case_sensitive: bool,
)
    requires
        object_get(patch, key_path(), case_sensitive) == Some(JsonV::String(path)),
        object_get(patch, key_value(), case_sensitive) == Some(v),
        patch_operation(patch, case_sensitive) is Replace,
        path.len() > 0,
        detach_path_spec(object, path, case_sensitive).1 is Some,
    ensures
        ({
            let removed = apply_patch_spec(object, make_patch(name_remove(), path, None, None), case_sensitive);
            &&& removed.0 == 0
            &&& apply_patch_spec(object, patch, case_sensitive) == apply_patch_spec(
                removed.1,
                make_patch(name_add(), path, None, Some(v)),
                case_sensitive,
            )
        }),
{
    let cs = case_sensitive;
    lemma_make_patch_fields(name_remove(), path, None, None, cs);
    lemma_make_patch_fields(name_add(), path, None, Some(v), cs);
    lemma_make_patch_operation(path, None, None, cs);
    lemma_make_patch_operation(path, None, Some(v), cs);
}

/// A `remove` patch on the item at index `i` of an array succeeds and
/// leaves the array without that item, the others in order.
pub proof fn law_remove_array_item(
    object: JsonV,
    patch: JsonV,
    parent_pointer: Seq<u8>,
    i: usize,
    case_sensitive: bool,
)
    requires
        object_get(patch, key_path(), case_sensitive) == Some(
            JsonV::String(parent_pointer + seq![47u8] + decimal(i as nat)),
        ),
        patch_operation(patch, case_sensitive) is Remove,
        get_pointer(object, parent_pointer, case_sensitive) matches Some(JsonV::Array(items)) && i < items.len(),
    ensures
        ({
            let items = get_pointer(object, parent_pointer, case_sensitive).unwrap()->Array_0;
            apply_patch_spec(object, patch, case_sensitive) == (
                0int,
                set_pointer(object, parent_pointer, case_sensitive, JsonV::Array(items.remove(i as int))),
            )
        }),
{
    let cs = case_sensitive;
    let items = get_pointer(object, parent_pointer, cs).unwrap()->Array_0;
    let path = parent_pointer + seq![47u8] + decimal(i as nat);
    lemma_index_path(parent_pointer, i);
    assert(detach_child(JsonV::Array(items), decimal(i as nat)) == (
        JsonV::Array(items.remove(i as int)),
        Some(items[i as int]),
    ));
}

/// A `test` patch succeeds exactly when the value at its `path` and its
/// own `value` are both there and compare equal; it fails with status 1
/// otherwise.
pub proof fn law_test_status(object: JsonV, patch: JsonV, path: Seq<u8>, case_sensitive: bool)
    requires
        object_get(patch, key_path(), case_sensitive) == Some(JsonV::String(path)),
        patch_operation(patch, case_sensitive) is Test,
    ensures
        apply_patch_spec(object, patch, case_sensitive).0 == 0 || apply_patch_spec(object, patch, case_sensitive).0
            == 1,
        apply_patch_spec(object, patch, case_sensitive).0 == 0 <==> (get_pointer(object, path, case_sensitive) is Some
            && object_get(patch, key_value(), case_sensitive) is Some && compare_spec(
            get_pointer(object, path, case_sensitive).unwrap(),
            object_get(patch, key_value(), case_sensitive).unwrap(),
            case_sensitive,
        ).0),
        get_pointer(object, path, case_sensitive) is None ==> apply_patch_spec(object, patch, case_sensitive) == (
            1int,
            object,
        ),
{
}

} // verus!
