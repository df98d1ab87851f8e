//! JSON Merge Patch (RFC 7386): applying a merge patch, and generating the
//! merge patch that turns one document into another.

use vstd::prelude::*;
use crate::json::{
    Json, JsonV, Member, members_view, height, object_detach, object_add, detach_item_from_object,
    add_item_to_object, copy_bytes, lemma_members_height, object_get, first_key_match, lemma_first_where,
};
use crate::strings::{key_order, key_eq, compare_strings, lemma_key_order_reflexive, lemma_key_order_antisymmetric};
use crate::alike::{lemma_key_eq_congruent, keyed, lemma_keyed_object};
use crate::sort::{
    merge_sort, key_lt, sort_object, lemma_merge_sort_multiset, lemma_merge_sort_contains,
};
use crate::compare::{compare_spec, compare_json, lemma_compare_height, law_compare_reflexive};
use crate::pointer::opt_json_view;

verus! {

/// The result of merging `patch` into `target` (absent target: none).
/// A patch that is not an object replaces the target. An object patch
/// turns a target that is not an object into an empty object, then goes
/// through its members in order: a `null` member deletes the first member
/// of the target with its key; any other member takes the first member
/// with its key out of the target, merges its own value into it, and
/// appends the result under the patch's key.
pub open spec fn merge_patch_spec(target: Option<JsonV>, patch: JsonV, case_sensitive: bool) -> JsonV
    decreases patch,
{
    match patch {
        JsonV::Object(ps) => {
            let start = match target {
                Some(JsonV::Object(ms)) => JsonV::Object(ms),
                _ => JsonV::Object(Seq::empty()),
            };
            merge_members_spec(start, ps, case_sensitive)
        },
        _ => patch,
    }
}

/// Merges the members `ps` of an object patch, in order, into `target`.
pub open spec fn merge_members_spec(target: JsonV, ps: Seq<(Seq<u8>, JsonV)>, case_sensitive: bool) -> JsonV
    decreases ps,
{
    if ps.len() == 0 {
        target
    } else {
        let next = if ps[0].1 is Null {
            object_detach(target, ps[0].0, case_sensitive).0
        } else {
            let (rest, taken) = object_detach(target, ps[0].0, case_sensitive);
            object_add(rest, ps[0].0, merge_patch_spec(taken, ps[0].1, case_sensitive))
        };
        merge_members_spec(next, ps.drop_first(), case_sensitive)
    }
}

/// Merges `patch` into `target` (`merge_patch`).
#[verifier::loop_isolation(false)]
pub fn merge_patch(target: Option<Json>, patch: &Json, case_sensitive: bool) -> (r: Json)
    ensures
        r@ == merge_patch_spec(opt_json_view(target), patch@, case_sensitive),
    decreases patch,
{
    let ps = match patch {
        Json::Object(ps) => ps,
        _ => {
            return patch.duplicate();
        },
    };
    let mut current = match target {
        Some(Json::Object(ms)) => Json::Object(ms),
        _ => Json::Object(Vec::new()),
    };
    proof {
        assert(members_view(Seq::<Member>::empty()) =~= Seq::<(Seq<u8>, JsonV)>::empty());
    }
    let ghost pv = members_view(ps@);
    let mut i: usize = 0;
    proof {
        assert(pv.skip(0) =~= pv);
    }
    while i < ps.len()
        invariant
            pv == members_view(ps@),
            i <= ps@.len(),
            merge_patch_spec(opt_json_view(target), patch@, case_sensitive) == merge_members_spec(
                current@,
                pv.skip(i as int),
                case_sensitive,
            ),
        decreases ps@.len() - i,
    {
        proof {
            vstd::std_specs::vec::axiom_vec_index_decreases(*ps, i as int);
            assert(pv.skip(i as int)[0] == pv[i as int]);
            assert(pv.skip(i as int).drop_first() =~= pv.skip(i + 1));
        }
        let key = ps[i].key.as_slice();
        let value = &ps[i].value;
        if let Json::Null = value {
            let _ = detach_item_from_object(&mut current, key, case_sensitive);
        } else {
            let replace_me = detach_item_from_object(&mut current, key, case_sensitive);
            let replacement = merge_patch(replace_me, value, case_sensitive);
            add_item_to_object(&mut current, key, replacement);
        }
        i = i + 1;
    }
    current
}

/// Merges `patch` into `target`, matching keys ignoring case.
pub fn cJSONUtils_MergePatch(target: Option<Json>, patch: &Json) -> (r: Json)
    ensures
        r@ == merge_patch_spec(opt_json_view(target), patch@, false),
{
    merge_patch(target, patch, false)
}

/// Merges `patch` into `target`, matching keys exactly.
pub fn cJSONUtils_MergePatchCaseSensitive(target: Option<Json>, patch: &Json) -> (r: Json)
    ensures
        r@ == merge_patch_spec(opt_json_view(target), patch@, true),
{
    merge_patch(target, patch, true)
}


/// The merge patch that turns `from` into `to` (none where there is
/// nothing to change), and both values as the generation leaves them. Where
/// either value is not an object, the patch is `to` itself. Two objects are
/// sorted by key and walked in byte order of their keys: a key only in
/// `from` gets `null`, a key only in `to` gets its value, a shared key whose
/// values compare unequal gets the merge patch between them, generated
/// ignoring case.
pub open spec fn generate_merge_patch_spec(from: JsonV, to: JsonV, case_sensitive: bool) -> (
    Option<JsonV>,
    JsonV,
    JsonV,
)
    decreases height(from) + 1, 0nat,
{
    match (from, to) {
        (JsonV::Object(xs), JsonV::Object(ys)) => {
            let sx = merge_sort(xs, key_lt(case_sensitive));
            let sy = merge_sort(ys, key_lt(case_sensitive));
            let (pm, xs2, ys2) = merge_patch_members(sx, sy, case_sensitive, height(from));
            (
                if pm.len() == 0 {
                    None
                } else {
                    Some(JsonV::Object(pm))
                },
                JsonV::Object(xs2),
                JsonV::Object(ys2),
            )
        },
        _ => (Some(to), from, to),
    }
}

/// The members of the merge patch between two key-sorted lists of members;
/// the values must be lower than `h`.
pub open spec fn merge_patch_members(
    xs: Seq<(Seq<u8>, JsonV)>,
    ys: Seq<(Seq<u8>, JsonV)>,
    case_sensitive: bool,
    h: nat,
) -> (Seq<(Seq<u8>, JsonV)>, Seq<(Seq<u8>, JsonV)>, Seq<(Seq<u8>, JsonV)>)
    decreases h, xs.len() + ys.len(),
{
    if xs.len() == 0 && ys.len() == 0 {
        (seq![], xs, ys)
    } else {
        let diff = if xs.len() > 0 {
            if ys.len() > 0 {
                key_order(xs[0].0, ys[0].0, true)
            } else {
                -1
            }
        } else {
            1
        };
        if diff < 0 {
            let t = merge_patch_members(xs.drop_first(), ys, case_sensitive, h);
            (seq![(xs[0].0, JsonV::Null)] + t.0, seq![xs[0]] + t.1, t.2)
        } else if diff > 0 {
            let t = merge_patch_members(xs, ys.drop_first(), case_sensitive, h);
            (seq![ys[0]] + t.0, t.1, seq![ys[0]] + t.2)
        } else if height(xs[0].1) >= h {
            (seq![], xs, ys)
        } else {
            let c = compare_spec(xs[0].1, ys[0].1, case_sensitive);
            let t = merge_patch_members(xs.drop_first(), ys.drop_first(), case_sensitive, h);
            if c.0 {
                (t.0, seq![(xs[0].0, c.1)] + t.1, seq![(ys[0].0, c.2)] + t.2)
            } else if height(c.1) >= h {
                (seq![], xs, ys)
            } else {
                let g = generate_merge_patch_spec(c.1, c.2, false);
                (
                    match g.0 {
                        Some(p) => seq![(ys[0].0, p)] + t.0,
                        None => t.0,
                    },
                    seq![(xs[0].0, g.1)] + t.1,
                    seq![(ys[0].0, g.2)] + t.2,
                )
            }
        }
    }
}


pub proof fn lemma_merge_patch_members_unfold(
    xs: Seq<(Seq<u8>, JsonV)>,
    ys: Seq<(Seq<u8>, JsonV)>,
    case_sensitive: bool,
    h: nat,
)
    requires
        xs.len() > 0 || ys.len() > 0,
    ensures
        xs.len() > 0 && (ys.len() == 0 || key_order(xs[0].0, ys[0].0, true) < 0) ==> ({
            let t = merge_patch_members(xs.drop_first(), ys, case_sensitive, h);
            merge_patch_members(xs, ys, case_sensitive, h) == (
                seq![(xs[0].0, JsonV::Null)] + t.0,
                seq![xs[0]] + t.1,
                t.2,
            )
        }),
        ys.len() > 0 && (xs.len() == 0 || key_order(xs[0].0, ys[0].0, true) > 0) ==> ({
            let t = merge_patch_members(xs, ys.drop_first(), case_sensitive, h);
            merge_patch_members(xs, ys, case_sensitive, h) == (seq![ys[0]] + t.0, t.1, seq![ys[0]] + t.2)
        }),
        xs.len() > 0 && ys.len() > 0 && key_order(xs[0].0, ys[0].0, true) == 0 && height(xs[0].1) < h
            ==> ({
            let c = compare_spec(xs[0].1, ys[0].1, case_sensitive);
            let t = merge_patch_members(xs.drop_first(), ys.drop_first(), case_sensitive, h);
            c.0 ==> merge_patch_members(xs, ys, case_sensitive, h) == (
                t.0,
                seq![(xs[0].0, c.1)] + t.1,
                seq![(ys[0].0, c.2)] + t.2,
            )
        }),
        xs.len() > 0 && ys.len() > 0 && key_order(xs[0].0, ys[0].0, true) == 0 && height(xs[0].1) < h
            ==> ({
            let c = compare_spec(xs[0].1, ys[0].1, case_sensitive);
            let t = merge_patch_members(xs.drop_first(), ys.drop_first(), case_sensitive, h);
            let g = generate_merge_patch_spec(c.1, c.2, false);
            !c.0 && height(c.1) < h ==> merge_patch_members(xs, ys, case_sensitive, h) == (
                match g.0 {
                    Some(p) => seq![(ys[0].0, p)] + t.0,
                    None => t.0,
                },
                seq![(xs[0].0, g.1)] + t.1,
                seq![(ys[0].0, g.2)] + t.2,
            )
        }),
{
}

#[verifier::spinoff_prover]
#[verifier::rlimit(40)]
fn merge_patch_member_list(
    xs: &mut Vec<Member>,
    ys: &mut Vec<Member>,
    case_sensitive: bool,
    Ghost(h): Ghost<nat>,
) -> (out: Vec<Member>)
    requires
        forall|k: int| 0 <= k < old(xs)@.len() ==> height(#[trigger] members_view(old(xs)@)[k].1) < h,
    ensures
        (members_view(out@), members_view(final(xs)@), members_view(final(ys)@)) == merge_patch_members(
            members_view(old(xs)@),
            members_view(old(ys)@),
            case_sensitive,
            h,
        ),
    decreases h, 1nat,
{
    let ghost ox = members_view(xs@);
    let ghost oy = members_view(ys@);
    let ghost total = merge_patch_members(ox, oy, case_sensitive, h);
    let mut out: Vec<Member> = Vec::new();
    let mut i: usize = 0;
    let mut j: usize = 0;
    proof {
        assert(ox.skip(0) =~= ox);
        assert(oy.skip(0) =~= oy);
        assert(members_view(xs@).take(0) + total.1 =~= total.1);
        assert(members_view(ys@).take(0) + total.2 =~= total.2);
        assert(members_view(out@) + total.0 =~= total.0);
    }
    while i < xs.len() || j < ys.len()
        invariant
            ox == members_view(old(xs)@),
            oy == members_view(old(ys)@),
            total == merge_patch_members(ox, oy, case_sensitive, h),
            xs@.len() == ox.len(),
            ys@.len() == oy.len(),
            i <= xs@.len(),
            j <= ys@.len(),
            forall|k: int| i <= k < xs@.len() ==> #[trigger] members_view(xs@)[k] == ox[k],
            forall|k: int| j <= k < ys@.len() ==> #[trigger] members_view(ys@)[k] == oy[k],
            forall|k: int| 0 <= k < ox.len() ==> height(#[trigger] ox[k].1) < h,
            ({
                let t = merge_patch_members(ox.skip(i as int), oy.skip(j as int), case_sensitive, h);
                &&& total.0 == members_view(out@) + t.0
                &&& total.1 == members_view(xs@).take(i as int) + t.1
                &&& total.2 == members_view(ys@).take(j as int) + t.2
            }),
        decreases xs@.len() + ys@.len() - i - j,
    {
        let ghost bx = members_view(xs@);
        let ghost by = members_view(ys@);
        let ghost bo = members_view(out@);
        let ghost sx = ox.skip(i as int);
        let ghost sy = oy.skip(j as int);
        proof {
            if i < xs@.len() {
                assert(bx[i as int] == ox[i as int]);
                assert(sx[0] == ox[i as int]);
                assert(sx.drop_first() =~= ox.skip(i + 1));
            }
            if j < ys@.len() {
                assert(by[j as int] == oy[j as int]);
                assert(sy[0] == oy[j as int]);
                assert(sy.drop_first() =~= oy.skip(j + 1));
            }
            lemma_merge_patch_members_unfold(sx, sy, case_sensitive, h);
        }
        let diff: i32 = if i < xs.len() {
            if j < ys.len() {
                compare_strings(xs[i].key.as_slice(), ys[j].key.as_slice(), true)
            } else {
                -1
            }
        } else {
            1
        };
        if diff < 0 {
            let key = copy_bytes(xs[i].key.as_slice());
            out.push(Member { key, value: Json::Null });
            proof {
                let t = merge_patch_members(ox.skip(i + 1), oy.skip(j as int), case_sensitive, h);
                assert(bx.take(i as int) + (seq![ox[i as int]] + t.1) =~= members_view(xs@).take(i + 1) + t.1);
                assert(bo + (seq![(ox[i as int].0, JsonV::Null)] + t.0) =~= members_view(out@) + t.0);
            }
            i = i + 1;
        } else if diff > 0 {
            let key = copy_bytes(ys[j].key.as_slice());
            let value = ys[j].value.duplicate();
            out.push(Member { key, value });
            proof {
                let t = merge_patch_members(ox.skip(i as int), oy.skip(j + 1), case_sensitive, h);
                assert(by.take(j as int) + (seq![oy[j as int]] + t.2) =~= members_view(ys@).take(j + 1) + t.2);
                assert(bo + (seq![oy[j as int]] + t.0) =~= members_view(out@) + t.0);
            }
            j = j + 1;
        } else {
            let equal = compare_json(&mut xs[i].value, &mut ys[j].value, case_sensitive);
            proof {
                crate::json::lemma_members_view_update(xs@, i as int, xs@[i as int]);
                crate::json::lemma_members_view_update(ys@, j as int, ys@[j as int]);
                lemma_compare_height(ox[i as int].1, oy[j as int].1, case_sensitive);
            }
            let ghost cx = members_view(xs@);
            let ghost cy = members_view(ys@);
            proof {
                assert(cx =~= bx.update(i as int, cx[i as int]));
                assert(cy =~= by.update(j as int, cy[j as int]));
            }
            if !equal {
                let g = generate_merge_patch(&mut xs[i].value, &mut ys[j].value, false);
                proof {
                    crate::json::lemma_members_view_update(xs@, i as int, xs@[i as int]);
                    crate::json::lemma_members_view_update(ys@, j as int, ys@[j as int]);
                    assert(members_view(xs@) =~= bx.update(i as int, members_view(xs@)[i as int]));
                    assert(members_view(ys@) =~= by.update(j as int, members_view(ys@)[j as int]));
                }
                match g {
                    Some(p) => {
                        let key = copy_bytes(ys[j].key.as_slice());
                        out.push(Member { key, value: p });
                    },
                    None => {},
                }
            }
            proof {
                let c = compare_spec(ox[i as int].1, oy[j as int].1, case_sensitive);
                let t = merge_patch_members(ox.skip(i + 1), oy.skip(j + 1), case_sensitive, h);
                let x0 = members_view(xs@)[i as int];
                let y0 = members_view(ys@)[j as int];
                assert(members_view(xs@).take(i + 1) =~= bx.take(i as int) + seq![x0]);
                assert(members_view(ys@).take(j + 1) =~= by.take(j as int) + seq![y0]);
                assert(bx.take(i as int) + (seq![x0] + t.1) =~= members_view(xs@).take(i + 1) + t.1);
                assert(by.take(j as int) + (seq![y0] + t.2) =~= members_view(ys@).take(j + 1) + t.2);
                if c.0 {
                    assert(bo + t.0 =~= members_view(out@) + t.0);
                } else {
                    let g = generate_merge_patch_spec(c.1, c.2, false);
                    match g.0 {
                        Some(p) => {
                            assert(bo + (seq![(oy[j as int].0, p)] + t.0) =~= members_view(out@) + t.0);
                        },
                        None => {
                            assert(bo + t.0 =~= members_view(out@) + t.0);
                        },
                    }
                }
                assert forall|k: int| i + 1 <= k < xs@.len() implies #[trigger] members_view(xs@)[k] == ox[k] by {
                    assert(members_view(xs@)[k] == bx[k]);
                }
                assert forall|k: int| j + 1 <= k < ys@.len() implies #[trigger] members_view(ys@)[k] == oy[k] by {
                    assert(members_view(ys@)[k] == by[k]);
                }
            }
            i = i + 1;
            j = j + 1;
        }
    }
    proof {
        assert(ox.skip(i as int).len() == 0);
        assert(oy.skip(j as int).len() == 0);
        assert(members_view(xs@).take(i as int) + ox.skip(i as int) =~= members_view(xs@));
        assert(members_view(ys@).take(j as int) + oy.skip(j as int) =~= members_view(ys@));
        assert(members_view(out@) + Seq::<(Seq<u8>, JsonV)>::empty() =~= members_view(out@));
    }
    out
}

/// Generates the merge patch that turns `from` into `to`
/// (`generate_merge_patch`); see `generate_merge_patch_spec`.
pub fn generate_merge_patch(from: &mut Json, to: &mut Json, case_sensitive: bool) -> (r: Option<Json>)
    ensures
        (opt_json_view(r), final(from)@, final(to)@) == generate_merge_patch_spec(
            old(from)@,
            old(to)@,
            case_sensitive,
        ),
    decreases height(old(from)@) + 1, 0nat,
{
    if !to.is_object() || !from.is_object() {
        return Some(to.duplicate());
    }
    let ghost h = height(from@);
    sort_object(from, case_sensitive);
    sort_object(to, case_sensitive);
    match from {
        Json::Object(xs) => match to {
            Json::Object(ys) => {
                proof {
                    let ms = old(from)@->Object_0;
                    assert(members_view(xs@) == merge_sort(ms, key_lt(case_sensitive)));
                    lemma_merge_sort_multiset(ms, key_lt(case_sensitive));
                    assert forall|k: int| 0 <= k < xs@.len() implies height(
                        #[trigger] members_view(xs@)[k].1,
                    ) < h by {
                        lemma_merge_sort_contains(ms, key_lt(case_sensitive), k);
                        let i = choose|i: int| 0 <= i < ms.len() && ms[i] == members_view(xs@)[k];
                        lemma_members_height(ms, i);
                    }
                }
                let out = merge_patch_member_list(xs, ys, case_sensitive, Ghost(h));
                if out.len() == 0 {
                    None
                } else {
                    Some(Json::Object(out))
                }
            },
            _ => None,
        },
        _ => None,
    }
}

/// What the generation gives where the target document may be absent:
/// a `null` (remove everything) where it is, the target left absent and
/// `from` untouched; else as `generate_merge_patch_spec`.
pub open spec fn generate_merge_patch_opt_spec(from: JsonV, to: Option<JsonV>, case_sensitive: bool) -> (
    Option<JsonV>,
    JsonV,
    Option<JsonV>,
) {
    match to {
        None => (Some(JsonV::Null), from, None),
        Some(t) => {
            let g = generate_merge_patch_spec(from, t, case_sensitive);
            (g.0, g.1, Some(g.2))
        },
    }
}

fn generate_merge_patch_opt(from: &mut Json, to: &mut Option<Json>, case_sensitive: bool) -> (r: Option<Json>)
    ensures
        (opt_json_view(r), final(from)@, opt_json_view(*final(to))) == generate_merge_patch_opt_spec(
            old(from)@,
            opt_json_view(*old(to)),
            case_sensitive,
        ),
{
    match to {
        Some(t) => generate_merge_patch(from, t, case_sensitive),
        None => Some(Json::Null),
    }
}

/// The merge patch that turns `from` into `to`, ordering keys ignoring
/// case (`None` where there is nothing to change); an absent `to` gives
/// `null`.
pub fn cJSONUtils_GenerateMergePatch(from: &mut Json, to: &mut Option<Json>) -> (r: Option<Json>)
    ensures
        (opt_json_view(r), final(from)@, opt_json_view(*final(to))) == generate_merge_patch_opt_spec(
            old(from)@,
            opt_json_view(*old(to)),
            false,
        ),
{
    generate_merge_patch_opt(from, to, false)
}

/// The merge patch that turns `from` into `to`, ordering keys exactly; an
/// absent `to` gives `null`.
pub fn cJSONUtils_GenerateMergePatchCaseSensitive(from: &mut Json, to: &mut Option<Json>) -> (r: Option<Json>)
    ensures
        (opt_json_view(r), final(from)@, opt_json_view(*final(to))) == generate_merge_patch_opt_spec(
            old(from)@,
            opt_json_view(*old(to)),
            true,
        ),
{
    generate_merge_patch_opt(from, to, true)
}


/// The merge patch from an object to itself is empty (none), and both
/// copies come out alike.
pub proof fn law_generate_merge_patch_self(a: JsonV, case_sensitive: bool)
    requires
        a is Object,
    ensures
        generate_merge_patch_spec(a, a, case_sensitive).0 is None,
        generate_merge_patch_spec(a, a, case_sensitive).1 == generate_merge_patch_spec(a, a, case_sensitive).2,
{
    let xs = a->Object_0;
    let sx = merge_sort(xs, key_lt(case_sensitive));
    lemma_merge_sort_multiset(xs, key_lt(case_sensitive));
    assert forall|k: int| 0 <= k < sx.len() implies height(#[trigger] sx[k].1) < height(a) by {
        lemma_merge_sort_contains(xs, key_lt(case_sensitive), k);
        let i = choose|i: int| 0 <= i < xs.len() && xs[i] == sx[k];
        lemma_members_height(xs, i);
    }
    lemma_merge_patch_members_self(sx, case_sensitive, height(a));
}

proof fn lemma_merge_patch_members_self(xs: Seq<(Seq<u8>, JsonV)>, case_sensitive: bool, h: nat)
    requires
        forall|k: int| 0 <= k < xs.len() ==> height(#[trigger] xs[k].1) < h,
    ensures
        merge_patch_members(xs, xs, case_sensitive, h).0.len() == 0,
        merge_patch_members(xs, xs, case_sensitive, h).1 == merge_patch_members(xs, xs, case_sensitive, h).2,
    decreases xs.len(),
{
    if xs.len() > 0 {
        assert(height(xs[0].1) < h);
        lemma_key_order_reflexive(xs[0].0, true);
        law_compare_reflexive(xs[0].1, case_sensitive);
        assert forall|k: int| 0 <= k < xs.drop_first().len() implies height(#[trigger] xs.drop_first()[k].1) < h by {
            assert(xs.drop_first()[k] == xs[k + 1]);
        }
        lemma_merge_patch_members_self(xs.drop_first(), case_sensitive, h);
    }
}

/// Merging an object patch without members leaves an object target as it
/// is.
pub proof fn law_merge_empty_patch(target: JsonV, case_sensitive: bool)
    requires
        target is Object,
    ensures
        merge_patch_spec(Some(target), JsonV::Object(Seq::empty()), case_sensitive) == target,
{
}

/// A patch that is not an object replaces the target whatever it is.
pub proof fn law_merge_scalar_patch(target: Option<JsonV>, patch: JsonV, case_sensitive: bool)
    requires
        !(patch is Object),
    ensures
        merge_patch_spec(target, patch, case_sensitive) == patch,
{
}

/// The keys of the members are distinct under the comparison.
pub open spec fn keys_distinct(ms: Seq<(Seq<u8>, JsonV)>, case_sensitive: bool) -> bool {
    forall|a: int, b: int| 0 <= a < b < ms.len() ==> !key_eq(#[trigger] ms[a].0, #[trigger] ms[b].0, case_sensitive)
}

/// What a merge patch leaves under a key, from what the target held there
/// and what the patch holds there: the target's value where the patch holds
/// nothing, nothing where it holds `null`, else the patch's value merged
/// into the target's.
pub open spec fn merged_at(before: Option<JsonV>, patched: Option<JsonV>, case_sensitive: bool) -> Option<JsonV> {
    match patched {
        None => before,
        Some(JsonV::Null) => None,
        Some(v) => Some(merge_patch_spec(before, v, case_sensitive)),
    }
}

proof fn lemma_key_eq_symmetric(a: Seq<u8>, b: Seq<u8>, cs: bool)
    ensures
        key_eq(a, b, cs) == key_eq(b, a, cs),
{
    lemma_key_order_antisymmetric(a, b, cs);
}

/// Two keys equal to a third are equal.
proof fn lemma_key_eq_both(a: Seq<u8>, b: Seq<u8>, m: Seq<u8>, cs: bool)
    requires
        key_eq(a, m, cs),
        key_eq(b, m, cs),
    ensures
        key_eq(a, b, cs),
{
    lemma_key_eq_symmetric(b, m, cs);
    lemma_key_eq_congruent(a, m, b, cs);
}

/// In an object with distinct keys, a key finds the one member whose key
/// it equals, or nothing.
pub proof fn lemma_get_distinct(ms: Seq<(Seq<u8>, JsonV)>, q: Seq<u8>, cs: bool)
    requires
        keys_distinct(ms, cs),
    ensures
        forall|i: int|
            0 <= i < ms.len() && key_eq(q, #[trigger] ms[i].0, cs) ==> object_get(JsonV::Object(ms), q, cs) == Some(
                ms[i].1,
            ),
        (forall|i: int| 0 <= i < ms.len() ==> !key_eq(q, #[trigger] ms[i].0, cs)) ==> object_get(
            JsonV::Object(ms),
            q,
            cs,
        ) is None,
{
    let f = |m: (Seq<u8>, JsonV)| key_eq(q, m.0, cs);
    lemma_first_where(ms, f);
    let d = first_key_match(ms, q, cs);
    assert forall|i: int| 0 <= i < ms.len() && key_eq(q, #[trigger] ms[i].0, cs) implies object_get(
        JsonV::Object(ms),
        q,
        cs,
    ) == Some(ms[i].1) by {
        assert(f(ms[i]));
        if d < i {
            assert(f(ms[d]));
            lemma_key_eq_symmetric(q, ms[d].0, cs);
            lemma_key_eq_symmetric(q, ms[i].0, cs);
            lemma_key_eq_both(ms[d].0, ms[i].0, q, cs);
        }
    }
}

/// Taking the member with key `p` out of an object with distinct keys: the
/// keys stay distinct, the value taken is the one under `p`, and nothing is
/// left under a key equal to `p` while other keys keep their values.
pub proof fn lemma_detach_distinct(ms: Seq<(Seq<u8>, JsonV)>, p: Seq<u8>, cs: bool)
    requires
        keys_distinct(ms, cs),
    ensures
        ({
            let (o2, taken) = object_detach(JsonV::Object(ms), p, cs);
            &&& o2 is Object
            &&& keys_distinct(o2->Object_0, cs)
            &&& taken == object_get(JsonV::Object(ms), p, cs)
            &&& forall|i: int| 0 <= i < o2->Object_0.len() ==> !key_eq(p, #[trigger] o2->Object_0[i].0, cs)
            &&& forall|q: Seq<u8>| #[trigger]
                object_get(o2, q, cs) == if key_eq(q, p, cs) {
                    None
                } else {
                    object_get(JsonV::Object(ms), q, cs)
                }
        }),
{
    let o = JsonV::Object(ms);
    let (o2, taken) = object_detach(o, p, cs);
    let f = |m: (Seq<u8>, JsonV)| key_eq(p, m.0, cs);
    lemma_first_where(ms, f);
    let d = first_key_match(ms, p, cs);
    let rest = o2->Object_0;
    // which members of `ms` stay, and where
    if d < ms.len() {
        assert(rest == ms.remove(d));
        assert forall|a: int, b: int| 0 <= a < b < rest.len() implies !key_eq(
            #[trigger] rest[a].0,
            #[trigger] rest[b].0,
            cs,
        ) by {
            let a0 = if a < d { a } else { a + 1 };
            let b0 = if b < d { b } else { b + 1 };
            assert(rest[a] == ms[a0] && rest[b] == ms[b0]);
        }
        assert forall|i: int| 0 <= i < rest.len() implies !key_eq(p, #[trigger] rest[i].0, cs) by {
            let i0 = if i < d { i } else { i + 1 };
            assert(rest[i] == ms[i0]);
            if key_eq(p, ms[i0].0, cs) {
                lemma_key_eq_symmetric(p, ms[i0].0, cs);
                lemma_key_eq_symmetric(p, ms[d].0, cs);
                lemma_key_eq_both(ms[i0].0, ms[d].0, p, cs);
                lemma_key_eq_symmetric(ms[i0].0, ms[d].0, cs);
            }
        }
    } else {
        assert forall|i: int| 0 <= i < rest.len() implies !key_eq(p, #[trigger] rest[i].0, cs) by {
            assert(!f(ms[i]));
        }
    }
    lemma_get_distinct(ms, p, cs);
    assert forall|q: Seq<u8>| #[trigger]
        object_get(o2, q, cs) == if key_eq(q, p, cs) {
            None
        } else {
            object_get(o, q, cs)
        } by {
        lemma_get_distinct(rest, q, cs);
        lemma_get_distinct(ms, q, cs);
        if key_eq(q, p, cs) {
            assert forall|i: int| 0 <= i < rest.len() implies !key_eq(q, #[trigger] rest[i].0, cs) by {
                lemma_key_eq_congruent(q, p, rest[i].0, cs);
            }
        } else if exists|i: int| 0 <= i < ms.len() && key_eq(q, #[trigger] ms[i].0, cs) {
            let i = choose|i: int| 0 <= i < ms.len() && key_eq(q, #[trigger] ms[i].0, cs);
            if d < ms.len() {
                if i == d {
                    lemma_key_eq_symmetric(p, ms[d].0, cs);
                    lemma_key_eq_both(q, p, ms[d].0, cs);
                }
                let i2 = if i < d { i } else { i - 1 };
                assert(rest[i2] == ms[i]);
            }
        } else {
            assert forall|i: int| 0 <= i < rest.len() implies !key_eq(q, #[trigger] rest[i].0, cs) by {
                if d < ms.len() {
                    let i0 = if i < d { i } else { i + 1 };
                    assert(rest[i] == ms[i0]);
                }
            }
        }
    }
}

/// Appending a member under a key that no member equals: the keys stay
/// distinct, and the new value is found under keys equal to it.
proof fn lemma_add_distinct(ms: Seq<(Seq<u8>, JsonV)>, p: Seq<u8>, w: JsonV, cs: bool)
    requires
        keys_distinct(ms, cs),
        forall|i: int| 0 <= i < ms.len() ==> !key_eq(p, #[trigger] ms[i].0, cs),
    ensures
        keys_distinct(ms.push((p, w)), cs),
        forall|q: Seq<u8>| #[trigger]
            object_get(JsonV::Object(ms.push((p, w))), q, cs) == if key_eq(q, p, cs) {
                Some(w)
            } else {
                object_get(JsonV::Object(ms), q, cs)
            },
{
    let ms2 = ms.push((p, w));
    assert forall|a: int, b: int| 0 <= a < b < ms2.len() implies !key_eq(#[trigger] ms2[a].0, #[trigger] ms2[b].0, cs)
        by {
        assert(ms2[a] == ms[a]);
        if b == ms.len() {
            lemma_key_eq_symmetric(p, ms[a].0, cs);
        } else {
            assert(ms2[b] == ms[b]);
        }
    }
    assert forall|q: Seq<u8>| #[trigger]
        object_get(JsonV::Object(ms2), q, cs) == if key_eq(q, p, cs) {
            Some(w)
        } else {
            object_get(JsonV::Object(ms), q, cs)
        } by {
        lemma_get_distinct(ms2, q, cs);
        lemma_get_distinct(ms, q, cs);
        if key_eq(q, p, cs) {
            assert(ms2[ms.len() as int] == (p, w));
            assert(key_eq(q, ms2[ms.len() as int].0, cs));
        } else if exists|i: int| 0 <= i < ms.len() && key_eq(q, #[trigger] ms[i].0, cs) {
            let i = choose|i: int| 0 <= i < ms.len() && key_eq(q, #[trigger] ms[i].0, cs);
            assert(ms2[i] == ms[i]);
            assert(key_eq(q, ms2[i].0, cs));
        } else {
            assert forall|i: int| 0 <= i < ms2.len() implies !key_eq(q, #[trigger] ms2[i].0, cs) by {
                if i < ms.len() {
                    assert(ms2[i] == ms[i]);
                }
            }
        }
    }
}

/// Merging the members of an object patch with distinct keys, in order,
/// into an object with distinct keys, key by key.
proof fn lemma_merge_members_key(ms: Seq<(Seq<u8>, JsonV)>, ps: Seq<(Seq<u8>, JsonV)>, q: Seq<u8>, cs: bool)
    requires
        keys_distinct(ms, cs),
        keys_distinct(ps, cs),
    ensures
        merge_members_spec(JsonV::Object(ms), ps, cs) is Object,
        keys_distinct(merge_members_spec(JsonV::Object(ms), ps, cs)->Object_0, cs),
        object_get(merge_members_spec(JsonV::Object(ms), ps, cs), q, cs) == merged_at(
            object_get(JsonV::Object(ms), q, cs),
            object_get(JsonV::Object(ps), q, cs),
            cs,
        ),
    decreases ps.len(),
{
    if ps.len() == 0 {
        lemma_get_distinct(ps, q, cs);
    } else {
        let (p, v) = ps[0];
        let o = JsonV::Object(ms);
        lemma_detach_distinct(ms, p, cs);
        let (o2, taken) = object_detach(o, p, cs);
        let rest = o2->Object_0;
        let next = if v is Null {
            o2
        } else {
            object_add(o2, p, merge_patch_spec(taken, v, cs))
        };
        if !(v is Null) {
            lemma_add_distinct(rest, p, merge_patch_spec(taken, v, cs), cs);
        }
        assert(merge_members_spec(o, ps, cs) == merge_members_spec(next, ps.drop_first(), cs));
        let t = ps.drop_first();
        assert forall|a: int, b: int| 0 <= a < b < t.len() implies !key_eq(#[trigger] t[a].0, #[trigger] t[b].0, cs) by {
            assert(t[a] == ps[a + 1] && t[b] == ps[b + 1]);
        }
        lemma_merge_members_key(next->Object_0, t, q, cs);
        lemma_get_distinct(ps, q, cs);
        lemma_get_distinct(t, q, cs);
        if key_eq(q, p, cs) {
            assert forall|i: int| 0 <= i < t.len() implies !key_eq(q, #[trigger] t[i].0, cs) by {
                assert(t[i] == ps[i + 1]);
                lemma_key_eq_congruent(q, p, ps[i + 1].0, cs);
            }
            lemma_detach_distinct(ms, q, cs);
            let a = |m: (Seq<u8>, JsonV)| key_eq(q, m.0, cs);
            let b = |m: (Seq<u8>, JsonV)| key_eq(p, m.0, cs);
            assert forall|m: (Seq<u8>, JsonV)| #[trigger] a(m) == b(m) by {
                lemma_key_eq_congruent(q, p, m.0, cs);
            }
            assert(a =~= b);
        } else {
            if exists|i: int| 0 <= i < t.len() && key_eq(q, #[trigger] t[i].0, cs) {
                let i = choose|i: int| 0 <= i < t.len() && key_eq(q, #[trigger] t[i].0, cs);
                assert(t[i] == ps[i + 1]);
            } else {
                assert forall|i: int| 0 <= i < ps.len() implies !key_eq(q, #[trigger] ps[i].0, cs) by {
                    if i > 0 {
                        assert(t[i - 1] == ps[i]);
                    }
                }
            }
        }
    }
}

/// Merging an object patch whose keys are distinct (under the comparison)
/// into a target whose keys are distinct works key by key (RFC 7386):
/// under a key that the patch does not hold the target keeps its value, a
/// `null` in the patch removes the member, and any other value is merged
/// into the target's value there (or into nothing); a target that is not
/// an object counts as an empty object. The keys of the result are
/// distinct.
pub proof fn law_merge_key_by_key(
    target: Option<JsonV>,
    patch: Seq<(Seq<u8>, JsonV)>,
    key: Seq<u8>,
    case_sensitive: bool,
)
    requires
        target matches Some(JsonV::Object(ms)) ==> keys_distinct(ms, case_sensitive),
        keys_distinct(patch, case_sensitive),
    ensures
        ({
            let start = match target {
                Some(JsonV::Object(ms)) => ms,
                _ => Seq::empty(),
            };
            let merged = merge_patch_spec(target, JsonV::Object(patch), case_sensitive);
            &&& merged is Object
            &&& keys_distinct(merged->Object_0, case_sensitive)
            &&& object_get(merged, key, case_sensitive) == merged_at(
                object_get(JsonV::Object(start), key, case_sensitive),
                object_get(JsonV::Object(patch), key, case_sensitive),
                case_sensitive,
            )
        }),
{
    let start = match target {
        Some(JsonV::Object(ms)) => ms,
        _ => Seq::empty(),
    };
    lemma_merge_members_key(start, patch, key, case_sensitive);
}

/// A key that some member of the patch `ps` holds, under the comparison.
pub open spec fn touched(k: Seq<u8>, ps: Seq<(Seq<u8>, JsonV)>, case_sensitive: bool) -> bool {
    exists|i: int| 0 <= i < ps.len() && key_eq(k, #[trigger] ps[i].0, case_sensitive)
}

/// The members of `ms` whose keys the patch `ps` does not hold, in order.
pub open spec fn untouched(ms: Seq<(Seq<u8>, JsonV)>, ps: Seq<(Seq<u8>, JsonV)>, case_sensitive: bool) -> Seq<
    (Seq<u8>, JsonV),
>
    decreases ms.len(),
{
    if ms.len() == 0 {
        ms
    } else {
        let r = untouched(ms.drop_last(), ps, case_sensitive);
        if touched(ms.last().0, ps, case_sensitive) {
            r
        } else {
            r.push(ms.last())
        }
    }
}

/// The members that the patch `ps` appends to an object with members
/// `ms`: for each member of the patch that is not `null`, in order, its key
/// and its value merged into the object's value under that key.
pub open spec fn merged_in(ms: Seq<(Seq<u8>, JsonV)>, ps: Seq<(Seq<u8>, JsonV)>, case_sensitive: bool) -> Seq<
    (Seq<u8>, JsonV),
>
    decreases ps.len(),
{
    if ps.len() == 0 {
        Seq::empty()
    } else {
        let rest = merged_in(ms, ps.drop_first(), case_sensitive);
        if ps[0].1 is Null {
            rest
        } else {
            seq![(ps[0].0, merge_patch_spec(object_get(JsonV::Object(ms), ps[0].0, case_sensitive), ps[0].1, case_sensitive))]
                + rest
        }
    }
}

proof fn lemma_untouched_append(a: Seq<(Seq<u8>, JsonV)>, b: Seq<(Seq<u8>, JsonV)>, ps: Seq<(Seq<u8>, JsonV)>, cs: bool)
    ensures
        untouched(a + b, ps, cs) == untouched(a, ps, cs) + untouched(b, ps, cs),
    decreases b.len(),
{
    if b.len() == 0 {
        assert(a + b =~= a);
        assert(untouched(a, ps, cs) + untouched(b, ps, cs) =~= untouched(a, ps, cs));
    } else {
        assert((a + b).drop_last() =~= a + b.drop_last());
        assert((a + b).last() == b.last());
        lemma_untouched_append(a, b.drop_last(), ps, cs);
        if !touched(b.last().0, ps, cs) {
            assert(untouched(a, ps, cs) + untouched(b.drop_last(), ps, cs).push(b.last()) =~= (untouched(a, ps, cs)
                + untouched(b.drop_last(), ps, cs)).push(b.last()));
        }
    }
}

/// Where two patches touch the same keys of `ms`, they leave the same
/// members untouched.
proof fn lemma_untouched_same(ms: Seq<(Seq<u8>, JsonV)>, ps: Seq<(Seq<u8>, JsonV)>, qs: Seq<(Seq<u8>, JsonV)>, cs: bool)
    requires
        forall|i: int| 0 <= i < ms.len() ==> touched(#[trigger] ms[i].0, ps, cs) == touched(ms[i].0, qs, cs),
    ensures
        untouched(ms, ps, cs) == untouched(ms, qs, cs),
    decreases ms.len(),
{
    if ms.len() > 0 {
        assert forall|i: int| 0 <= i < ms.drop_last().len() implies touched(#[trigger] ms.drop_last()[i].0, ps, cs)
            == touched(ms.drop_last()[i].0, qs, cs) by {
            assert(ms.drop_last()[i] == ms[i]);
        }
        lemma_untouched_same(ms.drop_last(), ps, qs, cs);
        assert(ms.last() == ms[ms.len() - 1]);
    }
}

/// Members all of whose keys the patch holds are all taken; members none
/// of whose keys it holds are all kept; what is kept comes from `ms`.
proof fn lemma_untouched_facts(ms: Seq<(Seq<u8>, JsonV)>, ps: Seq<(Seq<u8>, JsonV)>, cs: bool)
    ensures
        (forall|i: int| 0 <= i < ms.len() ==> touched(#[trigger] ms[i].0, ps, cs)) ==> untouched(ms, ps, cs).len()
            == 0,
        (forall|i: int| 0 <= i < ms.len() ==> !touched(#[trigger] ms[i].0, ps, cs)) ==> untouched(ms, ps, cs) == ms,
        forall|j: int|
            #![trigger untouched(ms, ps, cs)[j]]
            0 <= j < untouched(ms, ps, cs).len() ==> !touched(untouched(ms, ps, cs)[j].0, ps, cs) && ms.contains(
                untouched(ms, ps, cs)[j],
            ),
    decreases ms.len(),
{
    if ms.len() > 0 {
        let d = ms.drop_last();
        lemma_untouched_facts(d, ps, cs);
        assert(ms.last() == ms[ms.len() - 1]);
        assert(ms =~= d.push(ms.last()));
        let u = untouched(ms, ps, cs);
        let ud = untouched(d, ps, cs);
        assert forall|j: int| 0 <= j < u.len() implies !touched(#[trigger] u[j].0, ps, cs) && ms.contains(u[j]) by {
            assert(u == untouched(ms, ps, cs));
            if j < ud.len() {
                assert(u[j] == ud[j]);
                assert(!touched(ud[j].0, ps, cs) && d.contains(ud[j]));
                let i = choose|i: int| 0 <= i < d.len() && d[i] == ud[j];
                assert(ms[i] == d[i]);
            } else {
                assert(u[j] == ms.last());
            }
        }
        if forall|i: int| 0 <= i < ms.len() ==> touched(#[trigger] ms[i].0, ps, cs) {
            assert forall|i: int| 0 <= i < d.len() implies touched(#[trigger] d[i].0, ps, cs) by {
                assert(d[i] == ms[i]);
            }
        }
        if forall|i: int| 0 <= i < ms.len() ==> !touched(#[trigger] ms[i].0, ps, cs) {
            assert forall|i: int| 0 <= i < d.len() implies !touched(#[trigger] d[i].0, ps, cs) by {
                assert(d[i] == ms[i]);
            }
        }
    }
}

/// `merged_in` reads the object only through its values under the patch's
/// keys.
proof fn lemma_merged_in_same(
    ms: Seq<(Seq<u8>, JsonV)>,
    ns: Seq<(Seq<u8>, JsonV)>,
    ps: Seq<(Seq<u8>, JsonV)>,
    cs: bool,
)
    requires
        forall|i: int|
            0 <= i < ps.len() ==> object_get(JsonV::Object(ms), #[trigger] ps[i].0, cs) == object_get(
                JsonV::Object(ns),
                ps[i].0,
                cs,
            ),
    ensures
        merged_in(ms, ps, cs) == merged_in(ns, ps, cs),
    decreases ps.len(),
{
    if ps.len() > 0 {
        assert(ps[0].0 == ps[0].0);
        assert forall|i: int| 0 <= i < ps.drop_first().len() implies object_get(
            JsonV::Object(ms),
            #[trigger] ps.drop_first()[i].0,
            cs,
        ) == object_get(JsonV::Object(ns), ps.drop_first()[i].0, cs) by {
            assert(ps.drop_first()[i] == ps[i + 1]);
        }
        lemma_merged_in_same(ms, ns, ps.drop_first(), cs);
    }
}

/// Each member that `merged_in` gives comes from a member of the patch,
/// their keys are distinct, and each patch member that is not `null` gives
/// one.
proof fn lemma_merged_in_facts(ms: Seq<(Seq<u8>, JsonV)>, ps: Seq<(Seq<u8>, JsonV)>, cs: bool)
    requires
        keys_distinct(ps, cs),
    ensures
        keys_distinct(merged_in(ms, ps, cs), cs),
        forall|j: int|
            0 <= j < merged_in(ms, ps, cs).len() ==> touched(#[trigger] merged_in(ms, ps, cs)[j].0, ps, cs),
        forall|i: int|
            0 <= i < ps.len() && !(ps[i].1 is Null) ==> exists|j: int|
                0 <= j < merged_in(ms, ps, cs).len() && #[trigger] merged_in(ms, ps, cs)[j] == (
                    ps[i].0,
                    merge_patch_spec(object_get(JsonV::Object(ms), ps[i].0, cs), #[trigger] ps[i].1, cs),
                ),
    decreases ps.len(),
{
    if ps.len() > 0 {
        let t = ps.drop_first();
        assert forall|a: int, b: int| 0 <= a < b < t.len() implies !key_eq(#[trigger] t[a].0, #[trigger] t[b].0, cs) by {
            assert(t[a] == ps[a + 1] && t[b] == ps[b + 1]);
        }
        lemma_merged_in_facts(ms, t, cs);
        let r = merged_in(ms, t, cs);
        let m = merged_in(ms, ps, cs);
        lemma_key_order_reflexive(ps[0].0, cs);
        assert forall|j: int| 0 <= j < r.len() implies touched(#[trigger] r[j].0, ps, cs) && !key_eq(
            ps[0].0,
            r[j].0,
            cs,
        ) by {
            assert(touched(r[j].0, t, cs));
            let i = choose|i: int| 0 <= i < t.len() && key_eq(r[j].0, #[trigger] t[i].0, cs);
            assert(t[i] == ps[i + 1]);
            if key_eq(ps[0].0, r[j].0, cs) {
                lemma_key_eq_congruent(ps[0].0, r[j].0, ps[i + 1].0, cs);
            }
        }
        assert forall|i: int|
            0 <= i < ps.len() && !(ps[i].1 is Null) implies exists|j: int|
                0 <= j < m.len() && #[trigger] m[j] == (
                    ps[i].0,
                    merge_patch_spec(object_get(JsonV::Object(ms), ps[i].0, cs), #[trigger] ps[i].1, cs),
                ) by {
            if i == 0 {
                assert(m[0] == (ps[0].0, merge_patch_spec(object_get(JsonV::Object(ms), ps[0].0, cs), ps[0].1, cs)));
            } else {
                assert(ps[i] == t[i - 1]);
                let j = choose|j: int|
                    0 <= j < r.len() && #[trigger] r[j] == (
                        t[i - 1].0,
                        merge_patch_spec(object_get(JsonV::Object(ms), t[i - 1].0, cs), t[i - 1].1, cs),
                    );
                if ps[0].1 is Null {
                    assert(m[j] == r[j]);
                } else {
                    assert(m[j + 1] == r[j]);
                }
            }
        }
        if !(ps[0].1 is Null) {
            assert forall|a: int, b: int| 0 <= a < b < m.len() implies !key_eq(#[trigger] m[a].0, #[trigger] m[b].0, cs)
                by {
                assert(m[b] == r[b - 1]);
                if a > 0 {
                    assert(m[a] == r[a - 1]);
                }
            }
            assert forall|j: int| 0 <= j < m.len() implies touched(#[trigger] m[j].0, ps, cs) by {
                if j > 0 {
                    assert(m[j] == r[j - 1]);
                } else {
                    assert(key_eq(m[0].0, ps[0].0, cs));
                }
            }
        }
    }
}

/// Merging the members of a patch with distinct keys into an object with
/// distinct keys keeps, in order, the members whose keys the patch does not
/// hold, and appends those that `merged_in` gives.
proof fn lemma_merge_members_shape(ms: Seq<(Seq<u8>, JsonV)>, ps: Seq<(Seq<u8>, JsonV)>, cs: bool)
    requires
        keys_distinct(ms, cs),
        keys_distinct(ps, cs),
    ensures
        merge_members_spec(JsonV::Object(ms), ps, cs) == JsonV::Object(untouched(ms, ps, cs) + merged_in(ms, ps, cs)),
    decreases ps.len(),
{
    if ps.len() == 0 {
        lemma_untouched_facts(ms, ps, cs);
        assert(ms + Seq::<(Seq<u8>, JsonV)>::empty() =~= ms);
    } else {
        let (k, v) = ps[0];
        let t = ps.drop_first();
        let o = JsonV::Object(ms);
        lemma_detach_distinct(ms, k, cs);
        let (o2, taken) = object_detach(o, k, cs);
        let rest = o2->Object_0;
        let w = merge_patch_spec(taken, v, cs);
        let next_ms = if v is Null { rest } else { rest.push((k, w)) };
        if !(v is Null) {
            lemma_add_distinct(rest, k, w, cs);
        }
        assert(merge_members_spec(o, ps, cs) == merge_members_spec(JsonV::Object(next_ms), t, cs));
        assert forall|a: int, b: int| 0 <= a < b < t.len() implies !key_eq(#[trigger] t[a].0, #[trigger] t[b].0, cs) by {
            assert(t[a] == ps[a + 1] && t[b] == ps[b + 1]);
        }
        lemma_merge_members_shape(next_ms, t, cs);
        // the later patch members see the same values
        assert forall|i: int| 0 <= i < t.len() implies object_get(JsonV::Object(next_ms), #[trigger] t[i].0, cs)
            == object_get(o, t[i].0, cs) by {
            assert(t[i] == ps[i + 1]);
            assert(!key_eq(ps[0].0, ps[i + 1].0, cs));
            lemma_key_eq_symmetric(ps[0].0, ps[i + 1].0, cs);
            assert(object_get(o2, t[i].0, cs) == object_get(o, t[i].0, cs));
        }
        lemma_merged_in_same(next_ms, ms, t, cs);
        // the untouched members
        let f = |m: (Seq<u8>, JsonV)| key_eq(k, m.0, cs);
        lemma_first_where(ms, f);
        let d = first_key_match(ms, k, cs);
        // touched by ps is touched by k or by t
        assert forall|kk: Seq<u8>| #[trigger] touched(kk, ps, cs) == (key_eq(kk, k, cs) || touched(kk, t, cs)) by {
            if touched(kk, ps, cs) {
                let i = choose|i: int| 0 <= i < ps.len() && key_eq(kk, #[trigger] ps[i].0, cs);
                if i > 0 {
                    assert(t[i - 1] == ps[i]);
                }
            }
            if touched(kk, t, cs) {
                let i = choose|i: int| 0 <= i < t.len() && key_eq(kk, #[trigger] t[i].0, cs);
                assert(t[i] == ps[i + 1]);
            }
            if key_eq(kk, k, cs) {
                assert(key_eq(kk, ps[0].0, cs));
            }
        }
        assert forall|i: int| 0 <= i < rest.len() implies touched(#[trigger] rest[i].0, ps, cs) == touched(
            rest[i].0,
            t,
            cs,
        ) by {
            lemma_key_eq_symmetric(k, rest[i].0, cs);
        }
        lemma_untouched_same(rest, ps, t, cs);
        if d < ms.len() {
            assert(rest == ms.remove(d));
            let a = ms.take(d);
            let b = ms.skip(d + 1);
            assert(ms =~= a + seq![ms[d]] + b);
            assert(rest =~= a + b);
            lemma_untouched_append(a + seq![ms[d]], b, ps, cs);
            lemma_untouched_append(a, seq![ms[d]], ps, cs);
            lemma_untouched_append(a, b, ps, cs);
            assert(f(ms[d]));
            lemma_key_eq_symmetric(k, ms[d].0, cs);
            assert(touched(ms[d].0, ps, cs));
            let sd = seq![ms[d]];
            assert(sd.last() == ms[d]);
            assert(sd.drop_last() =~= Seq::<(Seq<u8>, JsonV)>::empty());
            assert(untouched(sd.drop_last(), ps, cs) =~= Seq::<(Seq<u8>, JsonV)>::empty());
            assert(untouched(sd, ps, cs) =~= Seq::<(Seq<u8>, JsonV)>::empty());
            assert(untouched(ms, ps, cs) =~= untouched(rest, ps, cs));
        }
        let u = untouched(ms, ps, cs);
        if !(v is Null) {
            lemma_untouched_facts(seq![(k, w)], t, cs);
            lemma_untouched_append(rest, seq![(k, w)], t, cs);
            assert forall|i: int| 0 <= i < t.len() implies !key_eq(k, #[trigger] t[i].0, cs) by {
                assert(t[i] == ps[i + 1]);
            }
            assert(!touched(k, t, cs));
            assert(rest.push((k, w)) =~= rest + seq![(k, w)]);
            assert(seq![(k, w)][0] == (k, w));
            assert(taken == object_get(o, k, cs));
            assert(u + seq![(k, w)] + merged_in(ms, t, cs) =~= u + merged_in(ms, ps, cs));
        }
    }
}

/// Merging the same merge patch a second time changes nothing, where no
/// object of the target or of the patch holds two keys that are equal
/// under the comparison.
pub proof fn law_merge_twice(target: Option<JsonV>, patch: JsonV, case_sensitive: bool)
    requires
        target matches Some(t) ==> keyed(t, case_sensitive),
        keyed(patch, case_sensitive),
    ensures
        merge_patch_spec(Some(merge_patch_spec(target, patch, case_sensitive)), patch, case_sensitive)
            == merge_patch_spec(target, patch, case_sensitive),
    decreases height(patch) + 1, 0nat,
{
    let cs = case_sensitive;
    match patch {
        JsonV::Object(ps) => {
            let ms = match target {
                Some(JsonV::Object(ms)) => ms,
                _ => Seq::empty(),
            };
            if let Some(JsonV::Object(tm)) = target {
                lemma_keyed_object(tm, cs);
            }
            lemma_keyed_object(ps, cs);
            lemma_merge_members_shape(ms, ps, cs);
            let u = untouched(ms, ps, cs);
            let m = merged_in(ms, ps, cs);
            let y = u + m;
            lemma_untouched_facts(ms, ps, cs);
            lemma_merged_in_facts(ms, ps, cs);
            // the keys of the first result are distinct
            assert forall|a: int, b: int| 0 <= a < b < y.len() implies !key_eq(#[trigger] y[a].0, #[trigger] y[b].0, cs)
                by {
                if b < u.len() {
                    assert(y[a] == u[a] && y[b] == u[b]);
                    let ia = choose|i: int| 0 <= i < ms.len() && ms[i] == u[a];
                    let ib = choose|i: int| 0 <= i < ms.len() && ms[i] == u[b];
                    lemma_untouched_order(ms, ps, cs, a, b);
                } else if a >= u.len() {
                    assert(y[a] == m[a - u.len()] && y[b] == m[b - u.len()]);
                } else {
                    assert(y[a] == u[a] && y[b] == m[b - u.len()]);
                    assert(touched(m[b - u.len()].0, ps, cs));
                    if key_eq(y[a].0, y[b].0, cs) {
                        let i = choose|i: int| 0 <= i < ps.len() && key_eq(m[b - u.len()].0, #[trigger] ps[i].0, cs);
                        lemma_key_eq_congruent(y[a].0, y[b].0, ps[i].0, cs);
                        assert(key_eq(u[a].0, ps[i].0, cs));
                        assert(touched(u[a].0, ps, cs));
                    }
                }
            }
            lemma_merge_members_shape(y, ps, cs);
            lemma_untouched_append(u, m, ps, cs);
            lemma_untouched_facts(u, ps, cs);
            lemma_untouched_facts(m, ps, cs);
            assert(untouched(y, ps, cs) =~= u);
            // each patch member sees, the second time, what it left the first time
            assert forall|i: int| 0 <= i < ps.len() && !(ps[i].1 is Null) implies object_get(
                JsonV::Object(y),
                #[trigger] ps[i].0,
                cs,
            ) == Some(merge_patch_spec(object_get(JsonV::Object(ms), ps[i].0, cs), ps[i].1, cs)) by {
                let j = choose|j: int|
                    0 <= j < m.len() && #[trigger] m[j] == (
                        ps[i].0,
                        merge_patch_spec(object_get(JsonV::Object(ms), ps[i].0, cs), ps[i].1, cs),
                    );
                assert(y[u.len() + j] == m[j]);
                lemma_key_order_reflexive(ps[i].0, cs);
                lemma_get_distinct(y, ps[i].0, cs);
                assert(key_eq(ps[i].0, y[u.len() + j].0, cs));
            }
            assert forall|i: int| 0 <= i < ps.len() implies keyed(#[trigger] ps[i].1, cs) && height(ps[i].1) < height(
                patch,
            ) by {
                lemma_members_height(ps, i);
            }
            lemma_merged_in_again(ms, y, ps, cs, height(patch));
        },
        _ => {},
    }
}

/// The members that the patch appends a second time are those it appended
/// the first time.
proof fn lemma_merged_in_again(
    ms: Seq<(Seq<u8>, JsonV)>,
    y: Seq<(Seq<u8>, JsonV)>,
    ps: Seq<(Seq<u8>, JsonV)>,
    cs: bool,
    h: nat,
)
    requires
        keys_distinct(ms, cs),
        forall|i: int| 0 <= i < ms.len() ==> keyed(#[trigger] ms[i].1, cs),
        forall|i: int| 0 <= i < ps.len() ==> keyed(#[trigger] ps[i].1, cs) && height(ps[i].1) < h,
        forall|i: int|
            0 <= i < ps.len() && !(ps[i].1 is Null) ==> object_get(JsonV::Object(y), #[trigger] ps[i].0, cs) == Some(
                merge_patch_spec(object_get(JsonV::Object(ms), ps[i].0, cs), ps[i].1, cs),
            ),
    ensures
        merged_in(y, ps, cs) == merged_in(ms, ps, cs),
    decreases h, ps.len(),
{
    if ps.len() > 0 {
        let t = ps.drop_first();
        assert forall|i: int| 0 <= i < t.len() implies keyed(#[trigger] t[i].1, cs) && height(t[i].1) < h by {
            assert(t[i] == ps[i + 1]);
        }
        assert forall|i: int|
            0 <= i < t.len() && !(t[i].1 is Null) implies object_get(JsonV::Object(y), #[trigger] t[i].0, cs) == Some(
                merge_patch_spec(object_get(JsonV::Object(ms), t[i].0, cs), t[i].1, cs),
            ) by {
            assert(t[i] == ps[i + 1]);
        }
        lemma_merged_in_again(ms, y, t, cs, h);
        if !(ps[0].1 is Null) {
            assert(keyed(ps[0].1, cs) && height(ps[0].1) < h);
            let x = object_get(JsonV::Object(ms), ps[0].0, cs);
            lemma_get_keyed(ms, ps[0].0, cs);
            law_merge_twice(x, ps[0].1, cs);
        }
    }
}

/// A value that an object with keyed values holds under a key is keyed.
proof fn lemma_get_keyed(ms: Seq<(Seq<u8>, JsonV)>, k: Seq<u8>, cs: bool)
    requires
        forall|i: int| 0 <= i < ms.len() ==> keyed(#[trigger] ms[i].1, cs),
    ensures
        object_get(JsonV::Object(ms), k, cs) matches Some(t) ==> keyed(t, cs),
{
    lemma_first_where(ms, |m: (Seq<u8>, JsonV)| key_eq(k, m.0, cs));
}

/// The members kept untouched keep their order, so their keys stay
/// distinct.
proof fn lemma_untouched_order(ms: Seq<(Seq<u8>, JsonV)>, ps: Seq<(Seq<u8>, JsonV)>, cs: bool, a: int, b: int)
    requires
        keys_distinct(ms, cs),
        0 <= a < b < untouched(ms, ps, cs).len(),
    ensures
        !key_eq(untouched(ms, ps, cs)[a].0, untouched(ms, ps, cs)[b].0, cs),
    decreases ms.len(),
{
    let d = ms.drop_last();
    let u = untouched(ms, ps, cs);
    let ud = untouched(d, ps, cs);
    assert forall|x: int, z: int| 0 <= x < z < d.len() implies !key_eq(#[trigger] d[x].0, #[trigger] d[z].0, cs) by {
        assert(d[x] == ms[x] && d[z] == ms[z]);
    }
    if b < ud.len() {
        assert(u[a] == ud[a] && u[b] == ud[b]);
        lemma_untouched_order(d, ps, cs, a, b);
    } else {
        assert(u[b] == ms.last());
        assert(u[a] == ud[a]);
        lemma_untouched_facts(d, ps, cs);
        assert(!touched(ud[a].0, ps, cs) && d.contains(ud[a]));
        let i = choose|i: int| 0 <= i < d.len() && d[i] == ud[a];
        assert(ms[i] == d[i]);
        assert(ms.last() == ms[ms.len() - 1]);
    }
}

} // verus!
