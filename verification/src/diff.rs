//! Generating the JSON Patch that turns one document into another
//! (`cJSONUtils_GeneratePatches`).

use vstd::prelude::*;
use crate::json::{
    Json, JsonV, Member, items_view, members_view, height, same_kind, copy_bytes,
    lemma_items_height, lemma_members_height,
};
use crate::strings::{
    lemma_key_order_reflexive, key_eq, key_order, escape, decimal, push_decimal,
    encode_string_as_pointer, compare_strings,
};
use crate::sort::{merge_sort, key_lt};
use crate::patch::{
    make_patch, name_replace, name_remove, name_add, token_end, compose_patch, bytes_remove,
    bytes_add, bytes_end, bytes_replace,
};
use crate::sort::{sort_object, lemma_merge_sort_multiset, lemma_merge_sort_contains};
use crate::compare::{compare_spec, compare_items_spec, compare_members_spec};

verus! {

/// The patches that turn `from` into `to` at `path`, and both values as
/// the generation leaves them (objects that it reaches come out sorted by
/// key). Values of different types, and numbers or strings that differ,
/// are replaced; arrays are compared item by item at their common length,
/// then the items beyond it are removed from the end of the common part or
/// appended; objects, once sorted, are walked in key order: a key only in
/// `from` is removed, a key only in `to` is added, a shared key is compared
/// further.
pub open spec fn diff_spec(path: Seq<u8>, from: JsonV, to: JsonV, case_sensitive: bool) -> (
    Seq<JsonV>,
    JsonV,
    JsonV,
)
    decreases height(from) + 1, 0nat,
{
    let replace = seq![make_patch(name_replace(), path, None, Some(to))];
    if !same_kind(from, to) {
        (replace, from, to)
    } else {
        match (from, to) {
            (JsonV::Number(x), JsonV::Number(y)) => (if x != y { replace } else { seq![] }, from, to),
            (JsonV::String(x), JsonV::String(y)) => (
                if !key_eq(x, y, true) { replace } else { seq![] },
                from,
                to,
            ),
            (JsonV::Array(xs), JsonV::Array(ys)) => {
                let (ps, xs2, ys2) = diff_items(path, xs, ys, case_sensitive, 0, height(from));
                (ps, JsonV::Array(xs2), JsonV::Array(ys2))
            },
            (JsonV::Object(xs), JsonV::Object(ys)) => {
                let sx = merge_sort(xs, key_lt(case_sensitive));
                let sy = merge_sort(ys, key_lt(case_sensitive));
                let (ps, xs2, ys2) = diff_members(path, sx, sy, case_sensitive, height(from));
                (ps, JsonV::Object(xs2), JsonV::Object(ys2))
            },
            _ => (seq![], from, to),
        }
    }
}

/// `n` patches that each remove the item at `index` of the array at `path`.
pub open spec fn removals(path: Seq<u8>, index: nat, n: nat) -> Seq<JsonV> {
    Seq::new(n, |k: int| make_patch(name_remove(), path, Some(decimal(index)), None))
}

/// Patches that append each of `ys` to the array at `path`.
pub open spec fn appends(path: Seq<u8>, ys: Seq<JsonV>) -> Seq<JsonV> {
    Seq::new(ys.len(), |k: int| make_patch(name_add(), path, Some(token_end()), Some(ys[k])))
}

/// The patches for two lists of array items from position `index` on; the
/// items must be lower than `h`.
pub open spec fn diff_items(
    path: Seq<u8>,
    xs: Seq<JsonV>,
    ys: Seq<JsonV>,
    case_sensitive: bool,
    index: nat,
    h: nat,
) -> (Seq<JsonV>, Seq<JsonV>, Seq<JsonV>)
    decreases h, xs.len(),
{
    if xs.len() > 0 && ys.len() > 0 {
        if height(xs[0]) >= h {
            (seq![], xs, ys)
        } else {
            let (p0, x0, y0) = diff_spec(
                path + seq![47u8] + decimal(index),
                xs[0],
                ys[0],
                case_sensitive,
            );
            let (pr, xr, yr) = diff_items(
                path,
                xs.drop_first(),
                ys.drop_first(),
                case_sensitive,
                index + 1,
                h,
            );
            (p0 + pr, seq![x0] + xr, seq![y0] + yr)
        }
    } else {
        (removals(path, index, xs.len()) + appends(path, ys), xs, ys)
    }
}

/// The patches for two key-sorted lists of object members; the values must
/// be lower than `h`.
pub open spec fn diff_members(
    path: Seq<u8>,
    xs: Seq<(Seq<u8>, JsonV)>,
    ys: Seq<(Seq<u8>, JsonV)>,
    case_sensitive: bool,
    h: nat,
) -> (Seq<JsonV>, Seq<(Seq<u8>, JsonV)>, Seq<(Seq<u8>, JsonV)>)
    decreases h, xs.len() + ys.len(),
{
    if xs.len() == 0 && ys.len() == 0 {
        (seq![], xs, ys)
    } else {
        let diff = if xs.len() == 0 {
            1
        } else if ys.len() == 0 {
            -1
        } else {
            key_order(xs[0].0, ys[0].0, case_sensitive)
        };
        if diff == 0 {
            if height(xs[0].1) >= h {
                (seq![], xs, ys)
            } else {
                let (p0, x0, y0) = diff_spec(
                    path + seq![47u8] + escape(xs[0].0),
                    xs[0].1,
                    ys[0].1,
                    case_sensitive,
                );
                let (pr, xr, yr) = diff_members(
                    path,
                    xs.drop_first(),
                    ys.drop_first(),
                    case_sensitive,
                    h,
                );
                (p0 + pr, seq![(xs[0].0, x0)] + xr, seq![(ys[0].0, y0)] + yr)
            }
        } else if diff < 0 {
            let (pr, xr, yr) = diff_members(path, xs.drop_first(), ys, case_sensitive, h);
            (seq![make_patch(name_remove(), path, Some(xs[0].0), None)] + pr, seq![xs[0]] + xr, yr)
        } else {
            let (pr, xr, yr) = diff_members(path, xs, ys.drop_first(), case_sensitive, h);
            (
                seq![make_patch(name_add(), path, Some(ys[0].0), Some(ys[0].1))] + pr,
                xr,
                seq![ys[0]] + yr,
            )
        }
    }
}


proof fn lemma_diff_items_unfold(
    path: Seq<u8>,
    xs: Seq<JsonV>,
    ys: Seq<JsonV>,
    case_sensitive: bool,
    index: nat,
    h: nat,
)
    requires
        xs.len() > 0,
        ys.len() > 0,
        height(xs[0]) < h,
    ensures
        ({
            let d = diff_spec(path + seq![47u8] + decimal(index), xs[0], ys[0], case_sensitive);
            let t = diff_items(path, xs.drop_first(), ys.drop_first(), case_sensitive, index + 1, h);
            diff_items(path, xs, ys, case_sensitive, index, h) == (d.0 + t.0, seq![d.1] + t.1, seq![d.2] + t.2)
        }),
{
}

pub proof fn lemma_diff_members_unfold(
    path: Seq<u8>,
    xs: Seq<(Seq<u8>, JsonV)>,
    ys: Seq<(Seq<u8>, JsonV)>,
    case_sensitive: bool,
    h: nat,
)
    requires
        xs.len() > 0 || ys.len() > 0,
        xs.len() > 0 && ys.len() > 0 && key_order(xs[0].0, ys[0].0, case_sensitive) == 0 ==> height(
            xs[0].1,
        ) < h,
    ensures
        xs.len() > 0 && ys.len() > 0 && key_order(xs[0].0, ys[0].0, case_sensitive) == 0 ==> ({
            let d = diff_spec(path + seq![47u8] + escape(xs[0].0), xs[0].1, ys[0].1, case_sensitive);
            let t = diff_members(path, xs.drop_first(), ys.drop_first(), case_sensitive, h);
            diff_members(path, xs, ys, case_sensitive, h) == (
                d.0 + t.0,
                seq![(xs[0].0, d.1)] + t.1,
                seq![(ys[0].0, d.2)] + t.2,
            )
        }),
        xs.len() > 0 && (ys.len() == 0 || key_order(xs[0].0, ys[0].0, case_sensitive) < 0) ==> ({
            let t = diff_members(path, xs.drop_first(), ys, case_sensitive, h);
            diff_members(path, xs, ys, case_sensitive, h) == (
                seq![make_patch(name_remove(), path, Some(xs[0].0), None)] + t.0,
                seq![xs[0]] + t.1,
                t.2,
            )
        }),
        ys.len() > 0 && (xs.len() == 0 || key_order(xs[0].0, ys[0].0, case_sensitive) > 0) ==> ({
            let t = diff_members(path, xs, ys.drop_first(), case_sensitive, h);
            diff_members(path, xs, ys, case_sensitive, h) == (
                seq![make_patch(name_add(), path, Some(ys[0].0), Some(ys[0].1))] + t.0,
                t.1,
                seq![ys[0]] + t.2,
            )
        }),
{
}

/// `path` + `/` + the decimal digits of `index`.
fn path_with_index(path: &[u8], index: usize) -> (r: Vec<u8>)
    ensures
        r@ == path@ + seq![47u8] + decimal(index as nat),
{
    let mut r = copy_bytes(path);
    r.push(47);
    push_decimal(&mut r, index);
    r
}

/// `path` + `/` + `key` escaped as a reference token.
fn path_with_key(path: &[u8], key: &[u8]) -> (r: Vec<u8>)
    ensures
        r@ == path@ + seq![47u8] + escape(key@),
{
    let mut r = copy_bytes(path);
    r.push(47);
    encode_string_as_pointer(&mut r, key);
    r
}

fn decimal_bytes(index: usize) -> (r: Vec<u8>)
    ensures
        r@ == decimal(index as nat),
{
    let mut r: Vec<u8> = Vec::new();
    push_decimal(&mut r, index);
    assert(r@ =~= decimal(index as nat));
    r
}

fn create_item_patches(
    patches: &mut Vec<Json>,
    path: &[u8],
    xs: &mut Vec<Json>,
    ys: &mut Vec<Json>,
    case_sensitive: bool,
    Ghost(h): Ghost<nat>,
)
    requires
        forall|k: int| 0 <= k < old(xs)@.len() ==> height(#[trigger] items_view(old(xs)@)[k]) < h,
    ensures
        ({
            let d = diff_items(path@, items_view(old(xs)@), items_view(old(ys)@), case_sensitive, 0, h);
            &&& items_view(final(patches)@) == items_view(old(patches)@) + d.0
            &&& items_view(final(xs)@) == d.1
            &&& items_view(final(ys)@) == d.2
        }),
    decreases h, 1nat,
{
    let ghost ox = items_view(xs@);
    let ghost oy = items_view(ys@);
    let ghost base = items_view(patches@);
    let ghost total = diff_items(path@, ox, oy, case_sensitive, 0, h);
    let mut i: usize = 0;
    proof {
        assert(ox.skip(0) =~= ox);
        assert(oy.skip(0) =~= oy);
        assert(items_view(xs@).take(0) + total.1 =~= total.1);
        assert(items_view(ys@).take(0) + total.2 =~= total.2);
        assert(base + total.0 =~= items_view(patches@) + total.0);
    }
    while i < xs.len() && i < ys.len()
        invariant
            ox == items_view(old(xs)@),
            oy == items_view(old(ys)@),
            base == items_view(old(patches)@),
            total == diff_items(path@, ox, oy, case_sensitive, 0, h),
            xs@.len() == ox.len(),
            ys@.len() == oy.len(),
            i <= xs@.len(),
            i <= ys@.len(),
            forall|k: int| i <= k < xs@.len() ==> #[trigger] items_view(xs@)[k] == ox[k],
            forall|k: int| i <= k < ys@.len() ==> #[trigger] items_view(ys@)[k] == oy[k],
            forall|k: int| 0 <= k < ox.len() ==> height(#[trigger] ox[k]) < h,
            ({
                let t = diff_items(path@, ox.skip(i as int), oy.skip(i as int), case_sensitive, i as nat, h);
                &&& base + total.0 == items_view(patches@) + t.0
                &&& total.1 == items_view(xs@).take(i as int) + t.1
                &&& total.2 == items_view(ys@).take(i as int) + t.2
            }),
        decreases xs@.len() - i,
    {
        let ghost bx = items_view(xs@);
        let ghost by = items_view(ys@);
        let ghost bp = items_view(patches@);
        proof {
            assert(bx[i as int] == ox[i as int]);
            assert(by[i as int] == oy[i as int]);
            assert(ox.skip(i as int)[0] == ox[i as int]);
            assert(oy.skip(i as int)[0] == oy[i as int]);
            assert(ox.skip(i as int).drop_first() =~= ox.skip(i + 1));
            assert(oy.skip(i as int).drop_first() =~= oy.skip(i + 1));
            lemma_diff_items_unfold(path@, ox.skip(i as int), oy.skip(i as int), case_sensitive, i as nat, h);
        }
        let new_path = path_with_index(path, i);
        create_patches(patches, new_path.as_slice(), &mut xs[i], &mut ys[i], case_sensitive);
        proof {
            crate::json::lemma_items_view_update(xs@, i as int, xs@[i as int]);
        }
        let ghost x0 = items_view(xs@)[i as int];
        let ghost y0 = items_view(ys@)[i as int];
        proof {
            assert(items_view(xs@) =~= bx.update(i as int, x0));
            assert(items_view(ys@) =~= by.update(i as int, y0));
            let d = diff_spec(path@ + seq![47u8] + decimal(i as nat), ox[i as int], oy[i as int], case_sensitive);
            let t = diff_items(path@, ox.skip(i + 1), oy.skip(i + 1), case_sensitive, (i + 1) as nat, h);
            assert(items_view(xs@).take(i + 1) =~= bx.take(i as int) + seq![x0]);
            assert(items_view(ys@).take(i + 1) =~= by.take(i as int) + seq![y0]);
            assert(bx.take(i as int) + (seq![x0] + t.1) =~= items_view(xs@).take(i + 1) + t.1);
            assert(by.take(i as int) + (seq![y0] + t.2) =~= items_view(ys@).take(i + 1) + t.2);
            assert(bp + (d.0 + t.0) =~= items_view(patches@) + t.0);
            assert forall|k: int| i + 1 <= k < xs@.len() implies #[trigger] items_view(xs@)[k] == ox[k] by {
                assert(items_view(xs@)[k] == bx[k]);
            }
            assert forall|k: int| i + 1 <= k < ys@.len() implies #[trigger] items_view(ys@)[k] == oy[k] by {
                assert(items_view(ys@)[k] == by[k]);
            }
        }
        i = i + 1;
    }
    let ghost rest_x = ox.skip(i as int);
    let ghost rest_y = oy.skip(i as int);
    let ghost after_common = items_view(patches@);
    proof {
        assert(rest_x.len() == 0 || rest_y.len() == 0);
        assert(items_view(xs@).take(i as int) + rest_x =~= items_view(xs@));
        assert(items_view(ys@).take(i as int) + rest_y =~= items_view(ys@));
    }
    let index_digits = decimal_bytes(i);
    let remove_name = bytes_remove();
    let mut k: usize = i;
    proof {
        assert(removals(path@, i as nat, 0) =~= Seq::<JsonV>::empty());
        assert(after_common =~= after_common + removals(path@, i as nat, 0));
    }
    while k < xs.len()
        invariant
            i <= k <= xs@.len(),
            remove_name@ == name_remove(),
            index_digits@ == decimal(i as nat),
            items_view(patches@) == after_common + removals(path@, i as nat, (k - i) as nat),
        decreases xs@.len() - k,
    {
        let ghost bp = items_view(patches@);
        compose_patch(patches, remove_name.as_slice(), path, Some(index_digits.as_slice()), None);
        proof {
            assert(removals(path@, i as nat, (k + 1 - i) as nat) =~= removals(path@, i as nat, (k - i) as nat).push(
                make_patch(name_remove(), path@, Some(decimal(i as nat)), None),
            ));
        }
        k = k + 1;
    }
    let ghost after_removals = items_view(patches@);
    let add_name = bytes_add();
    let end_token = bytes_end();
    let mut j: usize = i;
    proof {
        assert(appends(path@, rest_y).take(0) =~= Seq::<JsonV>::empty());
        assert(after_removals =~= after_removals + appends(path@, rest_y).take(0));
    }
    while j < ys.len()
        invariant
            i <= j <= ys@.len(),
            ys@.len() == oy.len(),
            rest_y == oy.skip(i as int),
            forall|k: int| i <= k < ys@.len() ==> #[trigger] items_view(ys@)[k] == oy[k],
            add_name@ == name_add(),
            end_token@ == token_end(),
            items_view(patches@) == after_removals + appends(path@, rest_y).take(j - i),
        decreases ys@.len() - j,
    {
        assert(items_view(ys@)[j as int] == oy[j as int]);
        compose_patch(patches, add_name.as_slice(), path, Some(end_token.as_slice()), Some(&ys[j]));
        proof {
            assert(appends(path@, rest_y).take(j + 1 - i) =~= appends(path@, rest_y).take(j - i).push(
                make_patch(name_add(), path@, Some(token_end()), Some(oy[j as int])),
            ));
        }
        j = j + 1;
    }
    proof {
        assert(appends(path@, rest_y).take(j - i) =~= appends(path@, rest_y));
        assert(items_view(patches@) =~= after_common + (removals(path@, i as nat, rest_x.len()) + appends(path@, rest_y)));
    }
}

fn create_member_patches(
    patches: &mut Vec<Json>,
    path: &[u8],
    xs: &mut Vec<Member>,
    ys: &mut Vec<Member>,
    case_sensitive: bool,
    Ghost(h): Ghost<nat>,
)
    requires
        forall|k: int| 0 <= k < old(xs)@.len() ==> height(#[trigger] members_view(old(xs)@)[k].1) < h,
    ensures
        ({
            let d = diff_members(path@, members_view(old(xs)@), members_view(old(ys)@), case_sensitive, h);
            &&& items_view(final(patches)@) == items_view(old(patches)@) + d.0
            &&& members_view(final(xs)@) == d.1
            &&& members_view(final(ys)@) == d.2
        }),
    decreases h, 1nat,
{
    let ghost ox = members_view(xs@);
    let ghost oy = members_view(ys@);
    let ghost base = items_view(patches@);
    let ghost total = diff_members(path@, ox, oy, case_sensitive, h);
    let remove_name = bytes_remove();
    let add_name = bytes_add();
    let mut i: usize = 0;
    let mut j: usize = 0;
    proof {
        assert(ox.skip(0) =~= ox);
        assert(oy.skip(0) =~= oy);
        assert(members_view(xs@).take(0) + total.1 =~= total.1);
        assert(members_view(ys@).take(0) + total.2 =~= total.2);
        assert(base + total.0 =~= items_view(patches@) + total.0);
    }
    while i < xs.len() || j < ys.len()
        invariant
            ox == members_view(old(xs)@),
            oy == members_view(old(ys)@),
            base == items_view(old(patches)@),
            total == diff_members(path@, ox, oy, case_sensitive, h),
            remove_name@ == name_remove(),
            add_name@ == name_add(),
            xs@.len() == ox.len(),
            ys@.len() == oy.len(),
            i <= xs@.len(),
            j <= ys@.len(),
            forall|k: int| i <= k < xs@.len() ==> #[trigger] members_view(xs@)[k] == ox[k],
            forall|k: int| j <= k < ys@.len() ==> #[trigger] members_view(ys@)[k] == oy[k],
            forall|k: int| 0 <= k < ox.len() ==> height(#[trigger] ox[k].1) < h,
            ({
                let t = diff_members(path@, ox.skip(i as int), oy.skip(j as int), case_sensitive, h);
                &&& base + total.0 == items_view(patches@) + t.0
                &&& total.1 == members_view(xs@).take(i as int) + t.1
                &&& total.2 == members_view(ys@).take(j as int) + t.2
            }),
        decreases xs@.len() + ys@.len() - i - j,
    {
        let ghost bx = members_view(xs@);
        let ghost by = members_view(ys@);
        let ghost bp = items_view(patches@);
        let ghost sx = ox.skip(i as int);
        let ghost sy = oy.skip(j as int);
        proof {
            if i < xs@.len() {
                assert(bx[i as int] == ox[i as int]);
                assert(sx[0] == ox[i as int]);
                assert(sx.drop_first() =~= ox.skip(i + 1));
            }
            if j < ys@.len() {
                assert(by[j as int] == oy[j as int]);
                assert(sy[0] == oy[j as int]);
                assert(sy.drop_first() =~= oy.skip(j + 1));
            }
            lemma_diff_members_unfold(path@, sx, sy, case_sensitive, h);
        }
        let diff: i32 = if i == xs.len() {
            1
        } else if j == ys.len() {
            -1
        } else {
            compare_strings(xs[i].key.as_slice(), ys[j].key.as_slice(), case_sensitive)
        };
        if diff == 0 {
            let new_path = path_with_key(path, xs[i].key.as_slice());
            create_patches(patches, new_path.as_slice(), &mut xs[i].value, &mut ys[j].value, case_sensitive);
            proof {
                crate::json::lemma_members_view_update(xs@, i as int, xs@[i as int]);
                crate::json::lemma_members_view_update(ys@, j as int, ys@[j as int]);
            }
            let ghost x0 = members_view(xs@)[i as int];
            let ghost y0 = members_view(ys@)[j as int];
            proof {
                assert(members_view(xs@) =~= bx.update(i as int, x0));
                assert(members_view(ys@) =~= by.update(j as int, y0));
                let d = diff_spec(path@ + seq![47u8] + escape(ox[i as int].0), ox[i as int].1, oy[j as int].1, case_sensitive);
                let t = diff_members(path@, ox.skip(i + 1), oy.skip(j + 1), case_sensitive, h);
                assert(x0 == (ox[i as int].0, d.1));
                assert(y0 == (oy[j as int].0, d.2));
                assert(members_view(xs@).take(i + 1) =~= bx.take(i as int) + seq![x0]);
                assert(members_view(ys@).take(j + 1) =~= by.take(j as int) + seq![y0]);
                assert(bx.take(i as int) + (seq![x0] + t.1) =~= members_view(xs@).take(i + 1) + t.1);
                assert(by.take(j as int) + (seq![y0] + t.2) =~= members_view(ys@).take(j + 1) + t.2);
                assert(bp + (d.0 + t.0) =~= items_view(patches@) + t.0);
                assert forall|k: int| i + 1 <= k < xs@.len() implies #[trigger] members_view(xs@)[k] == ox[k] by {
                    assert(members_view(xs@)[k] == bx[k]);
                }
                assert forall|k: int| j + 1 <= k < ys@.len() implies #[trigger] members_view(ys@)[k] == oy[k] by {
                    assert(members_view(ys@)[k] == by[k]);
                }
            }
            i = i + 1;
            j = j + 1;
        } else if diff < 0 {
            compose_patch(patches, remove_name.as_slice(), path, Some(xs[i].key.as_slice()), None);
            proof {
                let t = diff_members(path@, ox.skip(i + 1), oy.skip(j as int), case_sensitive, h);
                let p = make_patch(name_remove(), path@, Some(ox[i as int].0), None);
                assert(bx.take(i as int) + (seq![ox[i as int]] + t.1) =~= members_view(xs@).take(i + 1) + t.1);
                assert(bp + (seq![p] + t.0) =~= items_view(patches@) + t.0);
            }
            i = i + 1;
        } else {
            compose_patch(patches, add_name.as_slice(), path, Some(ys[j].key.as_slice()), Some(&ys[j].value));
            proof {
                let t = diff_members(path@, ox.skip(i as int), oy.skip(j + 1), case_sensitive, h);
                let p = make_patch(name_add(), path@, Some(oy[j as int].0), Some(oy[j as int].1));
                assert(by.take(j as int) + (seq![oy[j as int]] + t.2) =~= members_view(ys@).take(j + 1) + t.2);
                assert(bp + (seq![p] + t.0) =~= items_view(patches@) + t.0);
            }
            j = j + 1;
        }
    }
    proof {
        assert(ox.skip(i as int).len() == 0);
        assert(oy.skip(j as int).len() == 0);
        assert(members_view(xs@).take(i as int) + ox.skip(i as int) =~= members_view(xs@));
        assert(members_view(ys@).take(j as int) + oy.skip(j as int) =~= members_view(ys@));
        assert(items_view(patches@) + Seq::<JsonV>::empty() =~= items_view(patches@));
    }
}

/// Appends to `patches` the patches that turn `from` into `to` at `path`
/// (`create_patches`); see `diff_spec`.
pub fn create_patches(patches: &mut Vec<Json>, path: &[u8], from: &mut Json, to: &mut Json, case_sensitive: bool)
    ensures
        ({
            let d = diff_spec(path@, old(from)@, old(to)@, case_sensitive);
            &&& items_view(final(patches)@) == items_view(old(patches)@) + d.0
            &&& final(from)@ == d.1
            &&& final(to)@ == d.2
        }),
    decreases height(old(from)@) + 1, 0nat,
{
    let ghost bp = items_view(patches@);
    if from.type_of() != to.type_of() {
        compose_patch(patches, bytes_replace().as_slice(), path, None, Some(&*to));
        proof {
            assert(items_view(patches@) =~= bp + seq![make_patch(name_replace(), path@, None, Some(to@))]);
        }
        return;
    }
    let ghost h = height(from@);
    match from {
        Json::Number(x) => match to {
            Json::Number(y) => {
                if *x != *y {
                    compose_patch(patches, bytes_replace().as_slice(), path, None, Some(&*to));
                    proof {
                        assert(items_view(patches@) =~= bp + seq![make_patch(name_replace(), path@, None, Some(to@))]);
                    }
                } else {
                    assert(items_view(patches@) =~= bp + Seq::<JsonV>::empty());
                }
            },
            _ => {},
        },
        Json::String(x) => match to {
            Json::String(y) => {
                if compare_strings(x.as_slice(), y.as_slice(), true) != 0 {
                    compose_patch(patches, bytes_replace().as_slice(), path, None, Some(&*to));
                    proof {
                        assert(items_view(patches@) =~= bp + seq![make_patch(name_replace(), path@, None, Some(to@))]);
                    }
                } else {
                    assert(items_view(patches@) =~= bp + Seq::<JsonV>::empty());
                }
            },
            _ => {},
        },
        Json::Array(xs) => match to {
            Json::Array(ys) => {
                assert(old(from)@ == JsonV::Array(items_view(xs@)));
                assert(old(to)@ == JsonV::Array(items_view(ys@)));
                proof {
                    assert forall|k: int| 0 <= k < xs@.len() implies height(
                        #[trigger] items_view(xs@)[k],
                    ) < h by {
                        lemma_items_height(items_view(xs@), k);
                    }
                }
                create_item_patches(patches, path, xs, ys, case_sensitive, Ghost(h));
            },
            _ => {},
        },
        Json::Object(_) => {
            sort_object(from, case_sensitive);
            sort_object(to, case_sensitive);
            match from {
                Json::Object(xs) => match to {
                    Json::Object(ys) => {
                        proof {
                            let ms = old(from)@->Object_0;
                            assert(members_view(xs@) == merge_sort(ms, key_lt(case_sensitive)));
                            lemma_merge_sort_multiset(ms, key_lt(case_sensitive));
                            assert forall|k: int| 0 <= k < xs@.len() implies height(
                                #[trigger] members_view(xs@)[k].1,
                            ) < h by {
                                lemma_merge_sort_contains(ms, key_lt(case_sensitive), k);
                                let i = choose|i: int| 0 <= i < ms.len() && ms[i] == members_view(xs@)[k];
                                lemma_members_height(ms, i);
                            }
                        }
                        create_member_patches(patches, path, xs, ys, case_sensitive, Ghost(h));
                    },
                    _ => {},
                },
                _ => {},
            }
        },
        _ => {
            assert(items_view(patches@) =~= bp + Seq::<JsonV>::empty());
        },
    }
}

/// The patch document that turns `from` into `to`, and both values as the
/// generation leaves them.
pub open spec fn generate_patches_spec(from: JsonV, to: JsonV, case_sensitive: bool) -> (JsonV, JsonV, JsonV) {
    let d = diff_spec(Seq::empty(), from, to, case_sensitive);
    (JsonV::Array(d.0), d.1, d.2)
}

fn generate_patches(from: &mut Json, to: &mut Json, case_sensitive: bool) -> (patches: Json)
    ensures
        (patches@, final(from)@, final(to)@) == generate_patches_spec(old(from)@, old(to)@, case_sensitive),
{
    let mut items: Vec<Json> = Vec::new();
    let path: Vec<u8> = Vec::new();
    create_patches(&mut items, path.as_slice(), from, to, case_sensitive);
    proof {
        assert(path@ =~= Seq::<u8>::empty());
        assert(items_view(Seq::<Json>::empty()) =~= Seq::<JsonV>::empty());
        assert(Seq::<JsonV>::empty() + diff_spec(path@, old(from)@, old(to)@, case_sensitive).0 =~= diff_spec(path@, old(from)@, old(to)@, case_sensitive).0);
    }
    Json::Array(items)
}

/// The JSON Patch that turns `from` into `to`, matching keys ignoring case.
/// The objects that the generation reaches in `from` and `to` are left
/// sorted by key.
pub fn cJSONUtils_GeneratePatches(from: &mut Json, to: &mut Json) -> (patches: Json)
    ensures
        (patches@, final(from)@, final(to)@) == generate_patches_spec(old(from)@, old(to)@, false),
{
    generate_patches(from, to, false)
}

/// The JSON Patch that turns `from` into `to`, matching keys exactly.
pub fn cJSONUtils_GeneratePatchesCaseSensitive(from: &mut Json, to: &mut Json) -> (patches: Json)
    ensures
        (patches@, final(from)@, final(to)@) == generate_patches_spec(old(from)@, old(to)@, true),
{
    generate_patches(from, to, true)
}

/// There is nothing to patch between a value and itself: the generated
/// list is empty, and both copies come out alike.
pub proof fn law_diff_self_empty(path: Seq<u8>, a: JsonV, case_sensitive: bool)
    ensures
        diff_spec(path, a, a, case_sensitive).0 == Seq::<JsonV>::empty(),
        diff_spec(path, a, a, case_sensitive).1 == diff_spec(path, a, a, case_sensitive).2,
    decreases height(a) + 1, 0nat,
{
    match a {
        JsonV::String(x) => {
            lemma_key_order_reflexive(x, true);
        },
        JsonV::Array(xs) => {
            assert forall|k: int| 0 <= k < xs.len() implies height(#[trigger] xs[k]) < height(a) by {
                lemma_items_height(xs, k);
            }
            lemma_diff_items_self(path, xs, case_sensitive, 0, height(a));
        },
        JsonV::Object(xs) => {
            let sx = merge_sort(xs, key_lt(case_sensitive));
            lemma_merge_sort_multiset(xs, key_lt(case_sensitive));
            assert forall|k: int| 0 <= k < sx.len() implies height(#[trigger] sx[k].1) < height(a) by {
                lemma_merge_sort_contains(xs, key_lt(case_sensitive), k);
                let i = choose|i: int| 0 <= i < xs.len() && xs[i] == sx[k];
                lemma_members_height(xs, i);
            }
            lemma_diff_members_self(path, sx, case_sensitive, height(a));
        },
        _ => {},
    }
}

proof fn lemma_diff_items_self(path: Seq<u8>, xs: Seq<JsonV>, case_sensitive: bool, index: nat, h: nat)
    requires
        forall|k: int| 0 <= k < xs.len() ==> height(#[trigger] xs[k]) < h,
    ensures
        diff_items(path, xs, xs, case_sensitive, index, h).0 == Seq::<JsonV>::empty(),
        diff_items(path, xs, xs, case_sensitive, index, h).1 == diff_items(path, xs, xs, case_sensitive, index, h).2,
    decreases h, xs.len(),
{
    if xs.len() > 0 {
        assert(height(xs[0]) < h);
        law_diff_self_empty(path + seq![47u8] + decimal(index), xs[0], case_sensitive);
        assert forall|k: int| 0 <= k < xs.drop_first().len() implies height(#[trigger] xs.drop_first()[k]) < h by {
            assert(xs.drop_first()[k] == xs[k + 1]);
        }
        lemma_diff_items_self(path, xs.drop_first(), case_sensitive, index + 1, h);
        assert(Seq::<JsonV>::empty() + Seq::<JsonV>::empty() =~= Seq::<JsonV>::empty());
    } else {
        assert(removals(path, index, 0) + appends(path, xs) =~= Seq::<JsonV>::empty());
    }
}

proof fn lemma_diff_members_self(path: Seq<u8>, xs: Seq<(Seq<u8>, JsonV)>, case_sensitive: bool, h: nat)
    requires
        forall|k: int| 0 <= k < xs.len() ==> height(#[trigger] xs[k].1) < h,
    ensures
        diff_members(path, xs, xs, case_sensitive, h).0 == Seq::<JsonV>::empty(),
        diff_members(path, xs, xs, case_sensitive, h).1 == diff_members(path, xs, xs, case_sensitive, h).2,
    decreases h, xs.len(),
{
    if xs.len() > 0 {
        assert(height(xs[0].1) < h);
        lemma_key_order_reflexive(xs[0].0, case_sensitive);
        law_diff_self_empty(path + seq![47u8] + escape(xs[0].0), xs[0].1, case_sensitive);
        assert forall|k: int| 0 <= k < xs.drop_first().len() implies height(#[trigger] xs.drop_first()[k].1) < h by {
            assert(xs.drop_first()[k] == xs[k + 1]);
        }
        lemma_diff_members_self(path, xs.drop_first(), case_sensitive, h);
        assert(Seq::<JsonV>::empty() + Seq::<JsonV>::empty() =~= Seq::<JsonV>::empty());
    }
}

/// The patch document generated from a value to itself is empty.
pub proof fn law_generate_patches_self(a: JsonV, case_sensitive: bool)
    ensures
        generate_patches_spec(a, a, case_sensitive).0 == JsonV::Array(Seq::empty()),
        generate_patches_spec(a, a, case_sensitive).1 == generate_patches_spec(a, a, case_sensitive).2,
{
    law_diff_self_empty(Seq::empty(), a, case_sensitive);
}

/// Generation finds nothing to patch exactly where the comparison finds
/// the two values equal.
pub proof fn law_diff_empty_iff_equal(path: Seq<u8>, from: JsonV, to: JsonV, case_sensitive: bool)
    ensures
        (diff_spec(path, from, to, case_sensitive).0.len() == 0) == compare_spec(from, to, case_sensitive).0,
    decreases height(from) + 1, 0nat,
{
    if same_kind(from, to) {
        match (from, to) {
            (JsonV::Array(xs), JsonV::Array(ys)) => {
                assert forall|k: int| 0 <= k < xs.len() implies height(#[trigger] xs[k]) < height(from) by {
                    lemma_items_height(xs, k);
                }
                lemma_diff_items_iff(path, xs, ys, case_sensitive, 0, height(from));
            },
            (JsonV::Object(xs), JsonV::Object(ys)) => {
                let sx = merge_sort(xs, key_lt(case_sensitive));
                lemma_merge_sort_multiset(xs, key_lt(case_sensitive));
                assert forall|k: int| 0 <= k < sx.len() implies height(#[trigger] sx[k].1) < height(from) by {
                    lemma_merge_sort_contains(xs, key_lt(case_sensitive), k);
                    let i = choose|i: int| 0 <= i < xs.len() && xs[i] == sx[k];
                    lemma_members_height(xs, i);
                }
                lemma_diff_members_iff(path, sx, merge_sort(ys, key_lt(case_sensitive)), case_sensitive, height(from));
            },
            _ => {},
        }
    }
}

proof fn lemma_diff_items_iff(path: Seq<u8>, xs: Seq<JsonV>, ys: Seq<JsonV>, case_sensitive: bool, index: nat, h: nat)
    requires
        forall|k: int| 0 <= k < xs.len() ==> height(#[trigger] xs[k]) < h,
    ensures
        (diff_items(path, xs, ys, case_sensitive, index, h).0.len() == 0) == compare_items_spec(
            xs,
            ys,
            case_sensitive,
            h,
        ).0,
    decreases h, xs.len(),
{
    if xs.len() > 0 && ys.len() > 0 {
        assert(height(xs[0]) < h);
        law_diff_empty_iff_equal(path + seq![47u8] + decimal(index), xs[0], ys[0], case_sensitive);
        assert forall|k: int| 0 <= k < xs.drop_first().len() implies height(#[trigger] xs.drop_first()[k]) < h by {
            assert(xs.drop_first()[k] == xs[k + 1]);
        }
        lemma_diff_items_iff(path, xs.drop_first(), ys.drop_first(), case_sensitive, index + 1, h);
    } else {
        let d = removals(path, index, xs.len()) + appends(path, ys);
        assert(d.len() == xs.len() + ys.len());
    }
}

proof fn lemma_diff_members_iff(
    path: Seq<u8>,
    xs: Seq<(Seq<u8>, JsonV)>,
    ys: Seq<(Seq<u8>, JsonV)>,
    case_sensitive: bool,
    h: nat,
)
    requires
        forall|k: int| 0 <= k < xs.len() ==> height(#[trigger] xs[k].1) < h,
    ensures
        (diff_members(path, xs, ys, case_sensitive, h).0.len() == 0) == compare_members_spec(
            xs,
            ys,
            case_sensitive,
            h,
        ).0,
    decreases h, xs.len() + ys.len(),
{
    if xs.len() > 0 || ys.len() > 0 {
        if xs.len() > 0 {
            assert(height(xs[0].1) < h);
        }
        lemma_diff_members_unfold(path, xs, ys, case_sensitive, h);
        if xs.len() > 0 && ys.len() > 0 && key_order(xs[0].0, ys[0].0, case_sensitive) == 0 {
            law_diff_empty_iff_equal(path + seq![47u8] + escape(xs[0].0), xs[0].1, ys[0].1, case_sensitive);
            assert forall|k: int| 0 <= k < xs.drop_first().len() implies height(#[trigger] xs.drop_first()[k].1)
                < h by {
                assert(xs.drop_first()[k] == xs[k + 1]);
            }
            lemma_diff_members_iff(path, xs.drop_first(), ys.drop_first(), case_sensitive, h);
        }
    }
}

} // verus!
