//! The merge patch that `cJSONUtils_GenerateMergePatch` makes from one
//! document to another, merged into the first, gives the second back (up to
//! the order of object members).

use vstd::prelude::*;
use crate::json::{JsonV, height, type_flag, lemma_items_height, lemma_members_height};
use crate::sort::{merge_sort, key_lt};
use crate::compare::{compare_spec, compare_items_spec, compare_members_spec};
use crate::merge::{
    merge_patch_spec, merge_members_spec, generate_merge_patch_spec, merge_patch_members,
    lemma_merge_patch_members_unfold,
};
use crate::alike::{
    fit_key, fit_keys, tidy, same_doc, found_in, members_match, increasing, lemma_tidy_object,
    lemma_fit_key_eq, lemma_same_refl, lemma_object_same, lemma_sorted_tidy, lemma_below_ne,
    lemma_first_key_match_at, lemma_same_trans, tidy_top, lemma_tidy_top, below, lemma_fit_keys_drop, lemma_fit_keys_push,
    lemma_increasing_drop, lemma_below_drop, lemma_below_push, lemma_before_all, lemma_tidy_keyed,
    lemma_tidy_weaken,
};
use crate::json::{object_get, first_key_match, lemma_first_where};
use crate::reorder::law_alike_compare_equal;
use crate::strings::{key_order, key_eq};

verus! {

/// No member of an object, in `j` or in an object that members lead to
/// from it, has the value `null` (the one value that a merge patch cannot
/// carry, since it means "remove").
pub open spec fn no_null_members(j: JsonV) -> bool
    decreases j,
{
    match j {
        JsonV::Object(ms) => forall|i: int|
            0 <= i < ms.len() ==> !((#[trigger] ms[i]).1 is Null) && no_null_members(ms[i].1),
        _ => true,
    }
}

/// What `no_null_members` says of the members of an object.
proof fn lemma_no_null_object(xs: Seq<(Seq<u8>, JsonV)>)
    requires
        no_null_members(JsonV::Object(xs)),
    ensures
        forall|i: int| 0 <= i < xs.len() ==> !((#[trigger] xs[i]).1 is Null) && no_null_members(xs[i].1),
{
    let j = JsonV::Object(xs);
    assert(j->Object_0 == xs);
}

/// Members that agree index by index, key for key and value for alike
/// value, are found in one another.
proof fn lemma_members_match_aligned(ms: Seq<(Seq<u8>, JsonV)>, ns: Seq<(Seq<u8>, JsonV)>)
    requires
        ms.len() == ns.len(),
        forall|k: int| 0 <= k < ms.len() ==> (#[trigger] ms[k]).0 == ns[k].0 && same_doc(ms[k].1, ns[k].1, true),
    ensures
        members_match(ms, ns, true),
{
    assert forall|i: int| 0 <= i < ms.len() implies found_in(#[trigger] ms[i], ns, true) by {
        crate::strings::lemma_key_order_reflexive(ms[i].0, true);
        assert(key_eq(ms[i].0, ns[i].0, true) && same_doc(ms[i].1, ns[i].1, true));
    }
}

/// An object built from members with fit keys in strictly increasing
/// order and tidy values is tidy.
proof fn lemma_tidy_sorted_object(ms: Seq<(Seq<u8>, JsonV)>, ex: bool)
    requires
        fit_keys(ms, ex),
        increasing(ms, true),
        forall|k: int| 0 <= k < ms.len() ==> tidy(#[trigger] ms[k].1, ex),
    ensures
        tidy(JsonV::Object(ms), ex),
{
    assert forall|a: int, b: int| 0 <= a < b < ms.len() implies #[trigger] ms[a].0 != #[trigger] ms[b].0 by {
        lemma_below_ne(ms[a].0, ms[b].0, true);
    }
    let o = JsonV::Object(ms);
    assert(o->Object_0 == ms);
}

/// What comparison does to two tidy values: both stay tidy, the second
/// stays alike to what it was and of its type, keeps having no `null`
/// member, and where the comparison finds them equal the first becomes
/// alike to the second.
#[verifier::spinoff_prover]
#[verifier::rlimit(40)]
proof fn lemma_compare_facts(a: JsonV, b: JsonV, cs: bool, ex: bool)
    requires
        ex ==> cs,
        tidy(a, ex),
        tidy(b, ex),
    ensures
        tidy(compare_spec(a, b, cs).1, ex),
        tidy(compare_spec(a, b, cs).2, ex),
        same_doc(compare_spec(a, b, cs).2, b, true),
        type_flag(compare_spec(a, b, cs).2) == type_flag(b),
        no_null_members(b) ==> no_null_members(compare_spec(a, b, cs).2),
        compare_spec(a, b, cs).0 ==> same_doc(compare_spec(a, b, cs).1, b, true),
    decreases height(a) + 1, 0nat,
{
    let c = compare_spec(a, b, cs);
    if !crate::json::same_kind(a, b) {
        lemma_same_refl(b, true, ex);
    } else {
        match (a, b) {
            (JsonV::Array(xs), JsonV::Array(ys)) => {
                let h = height(a);
                assert forall|k: int| 0 <= k < xs.len() implies tidy(#[trigger] xs[k], ex) && height(xs[k]) < h by {
                    lemma_items_height(xs, k);
                }
                lemma_compare_items_facts(xs, ys, cs, h, ex);
                let r = compare_items_spec(xs, ys, cs, h);
                let c1 = JsonV::Array(r.1);
                let c2 = JsonV::Array(r.2);
                assert(c1->Array_0 == r.1);
                assert(c2->Array_0 == r.2);
            },
            (JsonV::Object(xs), JsonV::Object(ys)) => {
                let h = height(a);
                let sx = merge_sort(xs, key_lt(cs));
                let sy = merge_sort(ys, key_lt(cs));
                lemma_sorted_tidy(xs, cs, ex);
                lemma_sorted_tidy(ys, cs, ex);
                lemma_compare_members_facts(sx, sy, cs, h, ex);
                let r = compare_members_spec(sx, sy, cs, h);
                assert forall|i: int, j: int| 0 <= i < j < r.1.len() implies crate::strings::key_order(
                    #[trigger] r.1[i].0,
                    #[trigger] r.1[j].0,
                    true,
                ) < 0 by {
                    assert(r.1[i].0 == sx[i].0 && r.1[j].0 == sx[j].0);
                }
                assert forall|i: int, j: int| 0 <= i < j < r.2.len() implies crate::strings::key_order(
                    #[trigger] r.2[i].0,
                    #[trigger] r.2[j].0,
                    true,
                ) < 0 by {
                    assert(r.2[i].0 == sy[i].0 && r.2[j].0 == sy[j].0);
                }
                assert forall|i: int| 0 <= i < r.1.len() implies fit_key(#[trigger] r.1[i].0, ex) by {
                    assert(r.1[i].0 == sx[i].0);
                }
                assert forall|i: int| 0 <= i < r.2.len() implies fit_key(#[trigger] r.2[i].0, ex) by {
                    assert(r.2[i].0 == sy[i].0);
                }
                lemma_tidy_sorted_object(r.1, ex);
                lemma_tidy_sorted_object(r.2, ex);
                lemma_members_match_aligned(r.2, sy);
                lemma_object_same(r.2, sy, ys, true, ex);
                if c.0 {
                    lemma_members_match_aligned(r.1, sy);
                    lemma_object_same(r.1, sy, ys, true, ex);
                }
                if no_null_members(b) {
                    lemma_no_null_object(ys);
                    assert forall|i: int| 0 <= i < r.2.len() implies !((#[trigger] r.2[i]).1 is Null)
                        && no_null_members(r.2[i].1) by {
                        let q = choose|q: int| 0 <= q < ys.len() && ys[q] == sy[i];
                        assert(!(ys[q].1 is Null) && no_null_members(ys[q].1));
                    }
                    let c2 = JsonV::Object(r.2);
                    assert(c2->Object_0 == r.2);
                }
            },
            (JsonV::String(x), JsonV::String(y)) => {
                lemma_same_refl(b, true, ex);
                if c.0 {
                    crate::alike::lemma_cstr_key_eq(x, y);
                }
            },
            _ => {
                lemma_same_refl(b, true, ex);
            },
        }
    }
}

#[verifier::spinoff_prover]
#[verifier::rlimit(40)]
proof fn lemma_compare_items_facts(xs: Seq<JsonV>, ys: Seq<JsonV>, cs: bool, h: nat, ex: bool)
    requires
        ex ==> cs,
        forall|k: int| 0 <= k < xs.len() ==> tidy(#[trigger] xs[k], ex) && height(xs[k]) < h,
        forall|k: int| 0 <= k < ys.len() ==> tidy(#[trigger] ys[k], ex),
    ensures
        ({
            let r = compare_items_spec(xs, ys, cs, h);
            &&& r.1.len() == xs.len()
            &&& r.2.len() == ys.len()
            &&& forall|k: int| 0 <= k < xs.len() ==> tidy(#[trigger] r.1[k], ex)
            &&& forall|k: int| 0 <= k < ys.len() ==> tidy(#[trigger] r.2[k], ex) && same_doc(r.2[k], ys[k], true)
            &&& r.0 ==> xs.len() == ys.len() && forall|k: int| 0 <= k < xs.len() ==> same_doc(#[trigger] r.1[k], ys[k], true)
        }),
    decreases h, xs.len(),
{
    let r = compare_items_spec(xs, ys, cs, h);
    if xs.len() == 0 || ys.len() == 0 || height(xs[0]) >= h {
        assert forall|k: int| 0 <= k < ys.len() implies tidy(#[trigger] r.2[k], ex) && same_doc(r.2[k], ys[k], true) by {
            lemma_same_refl(ys[k], true, ex);
        }
    } else {
        assert(tidy(xs[0], ex) && tidy(ys[0], ex));
        lemma_compare_facts(xs[0], ys[0], cs, ex);
        let c0 = compare_spec(xs[0], ys[0], cs);
        if !c0.0 {
            assert forall|k: int| 0 <= k < ys.len() implies tidy(#[trigger] r.2[k], ex) && same_doc(r.2[k], ys[k], true) by {
                if k > 0 {
                    lemma_same_refl(ys[k], true, ex);
                }
            }
        } else {
            assert forall|k: int| 0 <= k < xs.drop_first().len() implies tidy(#[trigger] xs.drop_first()[k], ex)
                && height(xs.drop_first()[k]) < h by {
                assert(xs.drop_first()[k] == xs[k + 1]);
            }
            assert forall|k: int| 0 <= k < ys.drop_first().len() implies tidy(#[trigger] ys.drop_first()[k], ex) by {
                assert(ys.drop_first()[k] == ys[k + 1]);
            }
            lemma_compare_items_facts(xs.drop_first(), ys.drop_first(), cs, h, ex);
            let t = compare_items_spec(xs.drop_first(), ys.drop_first(), cs, h);
            assert(r.1 == seq![c0.1] + t.1);
            assert(r.2 == seq![c0.2] + t.2);
            assert forall|k: int| 0 <= k < xs.len() implies tidy(#[trigger] r.1[k], ex) by {
                if k > 0 {
                    assert(r.1[k] == t.1[k - 1]);
                }
            }
            assert forall|k: int| 0 <= k < ys.len() implies tidy(#[trigger] r.2[k], ex) && same_doc(r.2[k], ys[k], true) by {
                if k > 0 {
                    assert(r.2[k] == t.2[k - 1]);
                    assert(ys[k] == ys.drop_first()[k - 1]);
                }
            }
            if r.0 {
                assert forall|k: int| 0 <= k < xs.len() implies same_doc(#[trigger] r.1[k], ys[k], true) by {
                    if k > 0 {
                        assert(r.1[k] == t.1[k - 1]);
                        assert(ys[k] == ys.drop_first()[k - 1]);
                    }
                }
            }
        }
    }
}

#[verifier::spinoff_prover]
#[verifier::rlimit(40)]
proof fn lemma_compare_members_facts(
    xs: Seq<(Seq<u8>, JsonV)>,
    ys: Seq<(Seq<u8>, JsonV)>,
    cs: bool,
    h: nat,
    ex: bool,
)
    requires
        ex ==> cs,
        fit_keys(xs, ex),
        fit_keys(ys, ex),
        forall|k: int| 0 <= k < xs.len() ==> tidy(#[trigger] xs[k].1, ex) && height(xs[k].1) < h,
        forall|k: int| 0 <= k < ys.len() ==> tidy(#[trigger] ys[k].1, ex),
    ensures
        ({
            let r = compare_members_spec(xs, ys, cs, h);
            &&& r.1.len() == xs.len()
            &&& r.2.len() == ys.len()
            &&& forall|k: int| 0 <= k < xs.len() ==> (#[trigger] r.1[k]).0 == xs[k].0 && tidy(r.1[k].1, ex)
            &&& forall|k: int|
                0 <= k < ys.len() ==> (#[trigger] r.2[k]).0 == ys[k].0 && tidy(r.2[k].1, ex) && same_doc(
                    r.2[k].1,
                    ys[k].1,
                    true,
                ) && type_flag(r.2[k].1) == type_flag(ys[k].1) && (no_null_members(ys[k].1)
                    ==> no_null_members(r.2[k].1))
            &&& r.0 ==> xs.len() == ys.len() && forall|k: int|
                0 <= k < xs.len() ==> (#[trigger] r.1[k]).0 == ys[k].0 && same_doc(r.1[k].1, ys[k].1, true)
        }),
    decreases h, xs.len(),
{
    let r = compare_members_spec(xs, ys, cs, h);
    if xs.len() == 0 || ys.len() == 0 || crate::strings::key_order(xs[0].0, ys[0].0, cs) != 0 || height(xs[0].1)
        >= h {
        assert forall|k: int|
            0 <= k < ys.len() implies (#[trigger] r.2[k]).0 == ys[k].0 && tidy(r.2[k].1, ex) && same_doc(
            r.2[k].1,
            ys[k].1,
            true,
        ) by {
            lemma_same_refl(ys[k].1, true, ex);
        }
    } else {
        assert(tidy(xs[0].1, ex) && tidy(ys[0].1, ex));
        assert(fit_key(xs[0].0, ex) && fit_key(ys[0].0, ex));
        lemma_fit_key_eq(xs[0].0, ys[0].0, cs, ex);
        lemma_compare_facts(xs[0].1, ys[0].1, cs, ex);
        let c0 = compare_spec(xs[0].1, ys[0].1, cs);
        if !c0.0 {
            assert forall|k: int|
                0 <= k < ys.len() implies (#[trigger] r.2[k]).0 == ys[k].0 && tidy(r.2[k].1, ex) && same_doc(
                r.2[k].1,
                ys[k].1,
                true,
            ) by {
                if k > 0 {
                    lemma_same_refl(ys[k].1, true, ex);
                }
            }
        } else {
            assert forall|k: int| 0 <= k < xs.drop_first().len() implies tidy(#[trigger] xs.drop_first()[k].1, ex)
                && height(xs.drop_first()[k].1) < h by {
                assert(xs.drop_first()[k] == xs[k + 1]);
            }
            assert forall|k: int| 0 <= k < ys.drop_first().len() implies tidy(#[trigger] ys.drop_first()[k].1, ex) by {
                assert(ys.drop_first()[k] == ys[k + 1]);
            }
            lemma_fit_keys_drop(xs, ex);
            lemma_fit_keys_drop(ys, ex);
            lemma_compare_members_facts(xs.drop_first(), ys.drop_first(), cs, h, ex);
            let t = compare_members_spec(xs.drop_first(), ys.drop_first(), cs, h);
            assert(r.1 == seq![(xs[0].0, c0.1)] + t.1);
            assert(r.2 == seq![(ys[0].0, c0.2)] + t.2);
            assert forall|k: int| 0 <= k < xs.len() implies (#[trigger] r.1[k]).0 == xs[k].0 && tidy(r.1[k].1, ex) by {
                if k > 0 {
                    assert(r.1[k] == t.1[k - 1]);
                    assert(xs[k] == xs.drop_first()[k - 1]);
                }
            }
            assert forall|k: int|
                0 <= k < ys.len() implies (#[trigger] r.2[k]).0 == ys[k].0 && tidy(r.2[k].1, ex) && same_doc(
                r.2[k].1,
                ys[k].1,
                true,
            ) && type_flag(r.2[k].1) == type_flag(ys[k].1) && (no_null_members(ys[k].1) ==> no_null_members(
                r.2[k].1,
            )) by {
                if k > 0 {
                    assert(r.2[k] == t.2[k - 1]);
                    assert(ys[k] == ys.drop_first()[k - 1]);
                }
            }
            if r.0 {
                assert forall|k: int| 0 <= k < xs.len() implies (#[trigger] r.1[k]).0 == ys[k].0 && same_doc(
                    r.1[k].1,
                    ys[k].1,
                    true,
                ) by {
                    if k > 0 {
                        assert(r.1[k] == t.1[k - 1]);
                        assert(ys[k] == ys.drop_first()[k - 1]);
                    }
                }
            }
        }
    }
}

/// The members of a patch merged into nothing, key by key.
pub open spec fn merged_into_nothing(ms: Seq<(Seq<u8>, JsonV)>, mcs: bool) -> Seq<(Seq<u8>, JsonV)> {
    Seq::new(ms.len(), |i: int| (ms[i].0, merge_patch_spec(None, ms[i].1, mcs)))
}

/// Merging members whose keys the object does not hold yet, none `null`,
/// appends them in order, each merged into nothing.
proof fn lemma_merge_fresh_members(done: Seq<(Seq<u8>, JsonV)>, rest: Seq<(Seq<u8>, JsonV)>, mcs: bool, ex: bool)
    requires
        ex ==> mcs,
        fit_keys(done, ex),
        fit_keys(rest, ex),
        forall|i: int, j: int| 0 <= i < done.len() && 0 <= j < rest.len() ==> #[trigger] done[i].0 != #[trigger] rest[j].0,
        forall|a: int, b: int| 0 <= a < b < rest.len() ==> #[trigger] rest[a].0 != #[trigger] rest[b].0,
        forall|i: int| 0 <= i < rest.len() ==> !((#[trigger] rest[i]).1 is Null),
    ensures
        merge_members_spec(JsonV::Object(done), rest, mcs) == JsonV::Object(done + merged_into_nothing(rest, mcs)),
    decreases rest.len(),
{
    if rest.len() == 0 {
        assert(done + merged_into_nothing(rest, mcs) =~= done);
    } else {
        let k = rest[0].0;
        assert(fit_key(k, ex));
        assert forall|j: int| 0 <= j < done.len() implies (#[trigger] done[j]).0 != k by {
            assert(done[j].0 != rest[0].0);
        }
        lemma_first_key_match_at(done, k, done.len() as int, mcs, ex);
        let m = (k, merge_patch_spec(None, rest[0].1, mcs));
        let done2 = done.push(m);
        let rest2 = rest.drop_first();
        lemma_fit_keys_push(done, m, ex);
        lemma_fit_keys_drop(rest, ex);
        assert forall|i: int, j: int| 0 <= i < done2.len() && 0 <= j < rest2.len() implies #[trigger] done2[i].0
            != #[trigger] rest2[j].0 by {
            assert(rest2[j] == rest[j + 1]);
            if i < done.len() {
                assert(done2[i] == done[i]);
            } else {
                assert(rest[0].0 != rest[j + 1].0);
            }
        }
        assert forall|a: int, b: int| 0 <= a < b < rest2.len() implies #[trigger] rest2[a].0 != #[trigger] rest2[b].0 by {
            assert(rest2[a] == rest[a + 1] && rest2[b] == rest[b + 1]);
        }
        assert forall|i: int| 0 <= i < rest2.len() implies !((#[trigger] rest2[i]).1 is Null) by {
            assert(rest2[i] == rest[i + 1]);
        }
        lemma_merge_fresh_members(done2, rest2, mcs, ex);
        assert(done2 + merged_into_nothing(rest2, mcs) =~= done + merged_into_nothing(rest, mcs));
    }
}

/// A value without `null` members, merged into nothing, is alike to itself,
/// and as tidy.
proof fn lemma_merge_into_nothing(v: JsonV, mcs: bool, ex: bool)
    requires
        ex ==> mcs,
        tidy(v, ex),
        no_null_members(v),
    ensures
        same_doc(merge_patch_spec(None, v, mcs), v, true),
        tidy(merge_patch_spec(None, v, mcs), ex),
    decreases height(v),
{
    match v {
        JsonV::Object(ys) => {
            lemma_tidy_object(ys, ex);
            lemma_no_null_object(ys);
            let e = Seq::<(Seq<u8>, JsonV)>::empty();
            assert(fit_keys(ys, ex));
            lemma_merge_fresh_members(e, ys, mcs, ex);
            assert(e + merged_into_nothing(ys, mcs) =~= merged_into_nothing(ys, mcs));
            let ms = merged_into_nothing(ys, mcs);
            assert forall|k: int| 0 <= k < ms.len() implies (#[trigger] ms[k]).0 == ys[k].0 && same_doc(
                ms[k].1,
                ys[k].1,
                true,
            ) && tidy(ms[k].1, ex) by {
                lemma_members_height(ys, k);
                lemma_merge_into_nothing(ys[k].1, mcs, ex);
            }
            assert forall|a: int, b: int| 0 <= a < b < ms.len() implies #[trigger] ms[a].0 != #[trigger] ms[b].0 by {
                assert(ms[a].0 == ys[a].0 && ms[b].0 == ys[b].0);
            }
            assert forall|i: int| 0 <= i < ms.len() implies fit_key(#[trigger] ms[i].0, ex) by {
                assert(ms[i].0 == ys[i].0);
            }
            let mo = JsonV::Object(ms);
            assert(mo->Object_0 == ms);
            assert(tidy(mo, ex));
            lemma_members_match_aligned(ms, ys);
            assert forall|j: int| 0 <= j < ys.len() implies ys.contains(#[trigger] ys[j]) by {}
            lemma_object_same(ms, ys, ys, true, ex);
        },
        _ => {
            lemma_same_refl(v, true, ex);
        },
    }
}

/// The members that merging the generated merge patch leaves, for two
/// key-sorted member lists: those kept in place (shared keys whose values
/// compare equal, or whose nested patch is empty), and those put at the end
/// (added keys, and shared keys whose values the patch merges), each in key
/// order; the values of `xs` must be lower than `h`.
pub open spec fn merged_members(
    xs: Seq<(Seq<u8>, JsonV)>,
    ys: Seq<(Seq<u8>, JsonV)>,
    gcs: bool,
    mcs: bool,
    h: nat,
) -> (Seq<(Seq<u8>, JsonV)>, Seq<(Seq<u8>, JsonV)>)
    decreases h, xs.len() + ys.len(),
{
    if xs.len() == 0 && ys.len() == 0 {
        (Seq::empty(), Seq::empty())
    } else {
        let diff = if xs.len() > 0 {
            if ys.len() > 0 {
                key_order(xs[0].0, ys[0].0, true)
            } else {
                -1
            }
        } else {
            1
        };
        if diff < 0 {
            merged_members(xs.drop_first(), ys, gcs, mcs, h)
        } else if diff > 0 {
            let (kept, added) = merged_members(xs, ys.drop_first(), gcs, mcs, h);
            (kept, seq![(ys[0].0, merge_patch_spec(None, ys[0].1, mcs))] + added)
        } else if height(xs[0].1) >= h {
            (Seq::empty(), Seq::empty())
        } else {
            let c = compare_spec(xs[0].1, ys[0].1, gcs);
            let (kept, added) = merged_members(xs.drop_first(), ys.drop_first(), gcs, mcs, h);
            if c.0 {
                (seq![(xs[0].0, c.1)] + kept, added)
            } else if height(c.1) >= h {
                (Seq::empty(), Seq::empty())
            } else {
                let g = generate_merge_patch_spec(c.1, c.2, false);
                match g.0 {
                    Some(p) => (kept, seq![(ys[0].0, merge_patch_spec(Some(g.1), p, mcs))] + added),
                    None => (seq![(xs[0].0, g.1)] + kept, added),
                }
            }
        }
    }
}

/// Generation keeps the keys of the members of `from` in place.
proof fn lemma_merge_members_keys(xs: Seq<(Seq<u8>, JsonV)>, ys: Seq<(Seq<u8>, JsonV)>, gcs: bool, h: nat)
    ensures
        merge_patch_members(xs, ys, gcs, h).1.len() == xs.len(),
        forall|i: int| 0 <= i < xs.len() ==> (#[trigger] merge_patch_members(xs, ys, gcs, h).1[i]).0 == xs[i].0,
    decreases h, xs.len() + ys.len(),
{
    if xs.len() > 0 || ys.len() > 0 {
        let diff = if xs.len() > 0 {
            if ys.len() > 0 {
                key_order(xs[0].0, ys[0].0, true)
            } else {
                -1
            }
        } else {
            1
        };
        let r = merge_patch_members(xs, ys, gcs, h).1;
        if diff < 0 {
            lemma_merge_members_keys(xs.drop_first(), ys, gcs, h);
            assert forall|i: int| 0 <= i < xs.len() implies (#[trigger] r[i]).0 == xs[i].0 by {
                if i > 0 {
                    assert(r[i] == merge_patch_members(xs.drop_first(), ys, gcs, h).1[i - 1]);
                }
            }
        } else if diff > 0 {
            lemma_merge_members_keys(xs, ys.drop_first(), gcs, h);
        } else if height(xs[0].1) < h {
            lemma_merge_members_keys(xs.drop_first(), ys.drop_first(), gcs, h);
            let c = compare_spec(xs[0].1, ys[0].1, gcs);
            if c.0 || height(c.1) < h {
                assert forall|i: int| 0 <= i < xs.len() implies (#[trigger] r[i]).0 == xs[i].0 by {
                    if i > 0 {
                        assert(r[i] == merge_patch_members(xs.drop_first(), ys.drop_first(), gcs, h).1[i - 1]);
                    }
                }
            }
        }
    }
}

/// The object `a + x + b` at a step of the walk: its keys are fit, and
/// the key of the head of `xs` stands only at the head of `x`.
proof fn lemma_walk_keys_fit(
    a: Seq<(Seq<u8>, JsonV)>,
    x: Seq<(Seq<u8>, JsonV)>,
    xs: Seq<(Seq<u8>, JsonV)>,
    b: Seq<(Seq<u8>, JsonV)>,
    ex: bool,
)
    requires
        fit_keys(a, ex),
        fit_keys(xs, ex),
        fit_keys(b, ex),
        increasing(xs, true),
        below(a, xs, true),
        below(b, xs, true),
        x.len() == xs.len(),
        forall|i: int| 0 <= i < xs.len() ==> (#[trigger] x[i]).0 == xs[i].0,
    ensures
        fit_keys(a + x + b, ex),
        xs.len() > 0 ==> forall|j: int|
            0 <= j < (a + x + b).len() && j != a.len() ==> (#[trigger] (a + x + b)[j]).0 != xs[0].0,
        xs.len() > 0 ==> (a + x + b)[a.len() as int] == x[0],
{
    let cur = a + x + b;
    let pos = a.len() as int;
    assert forall|j: int| 0 <= j < cur.len() implies fit_key(#[trigger] cur[j].0, ex) by {
        if j < pos {
            assert(cur[j] == a[j]);
        } else if j < pos + x.len() {
            assert(cur[j] == x[j - pos]);
            assert(x[j - pos].0 == xs[j - pos].0);
        } else {
            assert(cur[j] == b[j - pos - x.len()]);
        }
    }
    if xs.len() > 0 {
        assert forall|j: int| 0 <= j < cur.len() && j != pos implies (#[trigger] cur[j]).0 != xs[0].0 by {
            if j < pos {
                assert(cur[j] == a[j]);
                assert(key_order(a[j].0, xs[0].0, true) < 0);
                lemma_below_ne(a[j].0, xs[0].0, true);
            } else if j < pos + x.len() {
                assert(cur[j] == x[j - pos]);
                assert(x[j - pos].0 == xs[j - pos].0);
                assert(key_order(xs[0].0, xs[j - pos].0, true) < 0);
                lemma_below_ne(xs[0].0, xs[j - pos].0, true);
            } else {
                let jb = j - pos - x.len();
                assert(cur[j] == b[jb]);
                assert(key_order(b[jb].0, xs[0].0, true) < 0);
                lemma_below_ne(b[jb].0, xs[0].0, true);
            }
        }
        assert(cur[pos] == x[0]);
    }
}

proof fn lemma_x_values_drop(xs: Seq<(Seq<u8>, JsonV)>, h: nat)
    requires
        xs.len() > 0,
        forall|k: int| 0 <= k < xs.len() ==> tidy(#[trigger] xs[k].1, false) && height(xs[k].1) < h,
    ensures
        forall|k: int| 0 <= k < xs.drop_first().len() ==> tidy(#[trigger] xs.drop_first()[k].1, false) && height(
            xs.drop_first()[k].1,
        ) < h,
{
    assert forall|k: int| 0 <= k < xs.drop_first().len() implies tidy(#[trigger] xs.drop_first()[k].1, false) && height(
        xs.drop_first()[k].1,
    ) < h by {
        assert(xs.drop_first()[k] == xs[k + 1]);
    }
}

proof fn lemma_y_values_drop(ys: Seq<(Seq<u8>, JsonV)>)
    requires
        ys.len() > 0,
        forall|k: int| 0 <= k < ys.len() ==> tidy(#[trigger] ys[k].1, false) && !(ys[k].1 is Null),
    ensures
        forall|k: int| 0 <= k < ys.drop_first().len() ==> tidy(#[trigger] ys.drop_first()[k].1, false) && !(
        ys.drop_first()[k].1 is Null),
{
    assert forall|k: int| 0 <= k < ys.drop_first().len() implies tidy(#[trigger] ys.drop_first()[k].1, false) && !(
    ys.drop_first()[k].1 is Null) by {
        assert(ys.drop_first()[k] == ys[k + 1]);
    }
}

/// Merging the generated merge patch into the object that holds `a`
/// (members already handled and kept in place), the members of `xs` as
/// generation left them, then `b` (members already put at the end).
proof fn lemma_merge_walk(
    a: Seq<(Seq<u8>, JsonV)>,
    xs: Seq<(Seq<u8>, JsonV)>,
    ys: Seq<(Seq<u8>, JsonV)>,
    b: Seq<(Seq<u8>, JsonV)>,
    gcs: bool,
    mcs: bool,
    h: nat,
    ex: bool,
)
    requires
        ex ==> gcs,
        ex ==> mcs,
        fit_keys(a, ex),
        fit_keys(xs, ex),
        fit_keys(ys, ex),
        fit_keys(b, ex),
        increasing(xs, true),
        increasing(ys, true),
        below(a, xs, true),
        below(a, ys, true),
        below(b, xs, true),
        below(b, ys, true),
        forall|k: int| 0 <= k < xs.len() ==> tidy(#[trigger] xs[k].1, false) && height(xs[k].1) < h,
        forall|k: int| 0 <= k < ys.len() ==> tidy(#[trigger] ys[k].1, false) && !(ys[k].1 is Null),
    ensures
        merge_members_spec(
            JsonV::Object(a + merge_patch_members(xs, ys, gcs, h).1 + b),
            merge_patch_members(xs, ys, gcs, h).0,
            mcs,
        ) == JsonV::Object(a + merged_members(xs, ys, gcs, mcs, h).0 + b + merged_members(xs, ys, gcs, mcs, h).1),
    decreases xs.len() + ys.len(), 1nat,
{
    if xs.len() == 0 && ys.len() == 0 {
        let e = Seq::<(Seq<u8>, JsonV)>::empty();
        assert(a + e + b + e =~= a + e + b);
    } else if xs.len() > 0 && (ys.len() == 0 || key_order(xs[0].0, ys[0].0, true) < 0) {
        lemma_merge_walk_removed(a, xs, ys, b, gcs, mcs, h, ex);
    } else if ys.len() > 0 && (xs.len() == 0 || key_order(xs[0].0, ys[0].0, true) > 0) {
        lemma_merge_walk_added(a, xs, ys, b, gcs, mcs, h, ex);
    } else if compare_spec(xs[0].1, ys[0].1, gcs).0 {
        lemma_merge_walk_equal(a, xs, ys, b, gcs, mcs, h, ex);
    } else if generate_merge_patch_spec(
        compare_spec(xs[0].1, ys[0].1, gcs).1,
        compare_spec(xs[0].1, ys[0].1, gcs).2,
        false,
    ).0 is Some {
        lemma_merge_walk_merged(a, xs, ys, b, gcs, mcs, h, ex);
    } else {
        lemma_merge_walk_unpatched(a, xs, ys, b, gcs, mcs, h, ex);
    }
}

/// A step of the merge on a key that only `from` holds: its `null` takes
/// the member out.
#[verifier::spinoff_prover]
proof fn lemma_merge_walk_removed(
    a: Seq<(Seq<u8>, JsonV)>,
    xs: Seq<(Seq<u8>, JsonV)>,
    ys: Seq<(Seq<u8>, JsonV)>,
    b: Seq<(Seq<u8>, JsonV)>,
    gcs: bool,
    mcs: bool,
    h: nat,
    ex: bool,
)
    requires
        ex ==> gcs,
        ex ==> mcs,
        fit_keys(a, ex),
        fit_keys(xs, ex),
        fit_keys(ys, ex),
        fit_keys(b, ex),
        increasing(xs, true),
        increasing(ys, true),
        below(a, xs, true),
        below(a, ys, true),
        below(b, xs, true),
        below(b, ys, true),
        forall|k: int| 0 <= k < xs.len() ==> tidy(#[trigger] xs[k].1, false) && height(xs[k].1) < h,
        forall|k: int| 0 <= k < ys.len() ==> tidy(#[trigger] ys[k].1, false) && !(ys[k].1 is Null),
        xs.len() > 0,
        ys.len() == 0 || key_order(xs[0].0, ys[0].0, true) < 0,
    ensures
        merge_members_spec(
            JsonV::Object(a + merge_patch_members(xs, ys, gcs, h).1 + b),
            merge_patch_members(xs, ys, gcs, h).0,
            mcs,
        ) == JsonV::Object(a + merged_members(xs, ys, gcs, mcs, h).0 + b + merged_members(xs, ys, gcs, mcs, h).1),
    decreases xs.len() + ys.len(), 0nat,
{
    let k = xs[0].0;
    lemma_merge_patch_members_unfold(xs, ys, gcs, h);
    let t = merge_patch_members(xs.drop_first(), ys, gcs, h);
    let x2 = merge_patch_members(xs, ys, gcs, h).1;
    let ps = merge_patch_members(xs, ys, gcs, h).0;
    assert(x2 == seq![xs[0]] + t.1);
    assert(ps == seq![(k, JsonV::Null)] + t.0);
    lemma_merge_members_keys(xs, ys, gcs, h);
    lemma_walk_keys_fit(a, x2, xs, b, ex);
    let cur = a + x2 + b;
    let pos = a.len() as int;
    assert(fit_key(k, ex));
    lemma_first_key_match_at(cur, k, pos, mcs, ex);
    assert(ps[0] == (k, JsonV::Null));
    assert(ps.drop_first() =~= t.0);
    assert(cur.remove(pos) =~= a + t.1 + b);
    lemma_fit_keys_drop(xs, ex);
    lemma_increasing_drop(xs, true);
    lemma_below_drop(a, xs, true);
    lemma_below_drop(b, xs, true);
    lemma_x_values_drop(xs, h);
    lemma_merge_walk(a, xs.drop_first(), ys, b, gcs, mcs, h, ex);
}

/// A step of the merge on a key that only `to` holds: the member is added
/// at the end, its value merged into nothing.
#[verifier::spinoff_prover]
proof fn lemma_merge_walk_added(
    a: Seq<(Seq<u8>, JsonV)>,
    xs: Seq<(Seq<u8>, JsonV)>,
    ys: Seq<(Seq<u8>, JsonV)>,
    b: Seq<(Seq<u8>, JsonV)>,
    gcs: bool,
    mcs: bool,
    h: nat,
    ex: bool,
)
    requires
        ex ==> gcs,
        ex ==> mcs,
        fit_keys(a, ex),
        fit_keys(xs, ex),
        fit_keys(ys, ex),
        fit_keys(b, ex),
        increasing(xs, true),
        increasing(ys, true),
        below(a, xs, true),
        below(a, ys, true),
        below(b, xs, true),
        below(b, ys, true),
        forall|k: int| 0 <= k < xs.len() ==> tidy(#[trigger] xs[k].1, false) && height(xs[k].1) < h,
        forall|k: int| 0 <= k < ys.len() ==> tidy(#[trigger] ys[k].1, false) && !(ys[k].1 is Null),
        ys.len() > 0,
        xs.len() == 0 || key_order(xs[0].0, ys[0].0, true) > 0,
    ensures
        merge_members_spec(
            JsonV::Object(a + merge_patch_members(xs, ys, gcs, h).1 + b),
            merge_patch_members(xs, ys, gcs, h).0,
            mcs,
        ) == JsonV::Object(a + merged_members(xs, ys, gcs, mcs, h).0 + b + merged_members(xs, ys, gcs, mcs, h).1),
    decreases xs.len() + ys.len(), 0nat,
{
    let k = ys[0].0;
    assert(fit_key(k, ex));
    assert(tidy(ys[0].1, false) && !(ys[0].1 is Null));
    lemma_merge_patch_members_unfold(xs, ys, gcs, h);
    let t = merge_patch_members(xs, ys.drop_first(), gcs, h);
    let x2 = merge_patch_members(xs, ys, gcs, h).1;
    let ps = merge_patch_members(xs, ys, gcs, h).0;
    assert(x2 == t.1);
    assert(ps == seq![ys[0]] + t.0);
    lemma_merge_members_keys(xs, ys, gcs, h);
    lemma_walk_keys_fit(a, x2, xs, b, ex);
    let cur = a + x2 + b;
    let pos = a.len() as int;
    if xs.len() > 0 {
        crate::strings::lemma_key_order_antisymmetric(xs[0].0, k, true);
        lemma_before_all(k, xs, true);
    }
    assert forall|j: int| 0 <= j < cur.len() implies (#[trigger] cur[j]).0 != k by {
        if j < pos {
            assert(cur[j] == a[j]);
            assert(key_order(a[j].0, ys[0].0, true) < 0);
            lemma_below_ne(a[j].0, k, true);
        } else if j < pos + x2.len() {
            assert(cur[j] == x2[j - pos]);
            assert(x2[j - pos].0 == xs[j - pos].0);
            assert(key_order(k, xs[j - pos].0, true) < 0);
            lemma_below_ne(k, xs[j - pos].0, true);
        } else {
            let jb = j - pos - x2.len();
            assert(cur[j] == b[jb]);
            assert(key_order(b[jb].0, ys[0].0, true) < 0);
            lemma_below_ne(b[jb].0, k, true);
        }
    }
    lemma_first_key_match_at(cur, k, cur.len() as int, mcs, ex);
    assert(ps[0] == ys[0]);
    assert(ps.drop_first() =~= t.0);
    let m = (k, merge_patch_spec(None, ys[0].1, mcs));
    let b2 = b.push(m);
    assert(cur.push(m) =~= a + t.1 + b2);
    lemma_fit_keys_drop(ys, ex);
    lemma_increasing_drop(ys, true);
    lemma_below_drop(a, ys, true);
    lemma_below_drop(b, ys, true);
    lemma_y_values_drop(ys);
    lemma_below_push(b, m, xs, true);
    lemma_below_push(b, m, ys.drop_first(), true);
    lemma_fit_keys_push(b, m, ex);
    lemma_merge_walk(a, xs, ys.drop_first(), b2, gcs, mcs, h, ex);
    let r = merged_members(xs, ys.drop_first(), gcs, mcs, h);
    assert(a + r.0 + b2 + r.1 =~= a + r.0 + b + (seq![m] + r.1));
}

/// A step of the merge on a shared key whose values compare equal: nothing
/// to merge, the member stays in place.
#[verifier::spinoff_prover]
proof fn lemma_merge_walk_equal(
    a: Seq<(Seq<u8>, JsonV)>,
    xs: Seq<(Seq<u8>, JsonV)>,
    ys: Seq<(Seq<u8>, JsonV)>,
    b: Seq<(Seq<u8>, JsonV)>,
    gcs: bool,
    mcs: bool,
    h: nat,
    ex: bool,
)
    requires
        ex ==> gcs,
        ex ==> mcs,
        fit_keys(a, ex),
        fit_keys(xs, ex),
        fit_keys(ys, ex),
        fit_keys(b, ex),
        increasing(xs, true),
        increasing(ys, true),
        below(a, xs, true),
        below(a, ys, true),
        below(b, xs, true),
        below(b, ys, true),
        forall|k: int| 0 <= k < xs.len() ==> tidy(#[trigger] xs[k].1, false) && height(xs[k].1) < h,
        forall|k: int| 0 <= k < ys.len() ==> tidy(#[trigger] ys[k].1, false) && !(ys[k].1 is Null),
        xs.len() > 0,
        ys.len() > 0,
        key_order(xs[0].0, ys[0].0, true) == 0,
        compare_spec(xs[0].1, ys[0].1, gcs).0,
    ensures
        merge_members_spec(
            JsonV::Object(a + merge_patch_members(xs, ys, gcs, h).1 + b),
            merge_patch_members(xs, ys, gcs, h).0,
            mcs,
        ) == JsonV::Object(a + merged_members(xs, ys, gcs, mcs, h).0 + b + merged_members(xs, ys, gcs, mcs, h).1),
    decreases xs.len() + ys.len(), 0nat,
{
    let k = xs[0].0;
    assert(fit_key(k, ex) && fit_key(ys[0].0, ex));
    lemma_fit_key_eq(k, ys[0].0, true, ex);
    assert(tidy(xs[0].1, false) && height(xs[0].1) < h);
    lemma_merge_patch_members_unfold(xs, ys, gcs, h);
    let c = compare_spec(xs[0].1, ys[0].1, gcs);
    let t = merge_patch_members(xs.drop_first(), ys.drop_first(), gcs, h);
    let x2 = merge_patch_members(xs, ys, gcs, h).1;
    let ps = merge_patch_members(xs, ys, gcs, h).0;
    assert(x2 == seq![(k, c.1)] + t.1);
    assert(ps == t.0);
    let m = (k, c.1);
    let a2 = a.push(m);
    assert(a + x2 + b =~= a2 + t.1 + b);
    lemma_fit_keys_drop(xs, ex);
    lemma_fit_keys_drop(ys, ex);
    lemma_increasing_drop(xs, true);
    lemma_increasing_drop(ys, true);
    lemma_below_drop(a, xs, true);
    lemma_below_drop(a, ys, true);
    lemma_below_drop(b, xs, true);
    lemma_below_drop(b, ys, true);
    lemma_x_values_drop(xs, h);
    lemma_y_values_drop(ys);
    lemma_below_push(a, m, xs.drop_first(), true);
    lemma_below_push(a, m, ys.drop_first(), true);
    lemma_fit_keys_push(a, m, ex);
    lemma_merge_walk(a2, xs.drop_first(), ys.drop_first(), b, gcs, mcs, h, ex);
    let r = merged_members(xs.drop_first(), ys.drop_first(), gcs, mcs, h);
    assert(a2 + r.0 + b + r.1 =~= a + (seq![m] + r.0) + b + r.1);
}

/// A step of the merge on a shared key whose values differ and whose
/// nested patch is merged into the member, which goes to the end.
#[verifier::spinoff_prover]
#[verifier::rlimit(40)]
proof fn lemma_merge_walk_merged(
    a: Seq<(Seq<u8>, JsonV)>,
    xs: Seq<(Seq<u8>, JsonV)>,
    ys: Seq<(Seq<u8>, JsonV)>,
    b: Seq<(Seq<u8>, JsonV)>,
    gcs: bool,
    mcs: bool,
    h: nat,
    ex: bool,
)
    requires
        ex ==> gcs,
        ex ==> mcs,
        fit_keys(a, ex),
        fit_keys(xs, ex),
        fit_keys(ys, ex),
        fit_keys(b, ex),
        increasing(xs, true),
        increasing(ys, true),
        below(a, xs, true),
        below(a, ys, true),
        below(b, xs, true),
        below(b, ys, true),
        forall|k: int| 0 <= k < xs.len() ==> tidy(#[trigger] xs[k].1, false) && height(xs[k].1) < h,
        forall|k: int| 0 <= k < ys.len() ==> tidy(#[trigger] ys[k].1, false) && !(ys[k].1 is Null),
        xs.len() > 0,
        ys.len() > 0,
        key_order(xs[0].0, ys[0].0, true) == 0,
        !compare_spec(xs[0].1, ys[0].1, gcs).0,
        generate_merge_patch_spec(compare_spec(xs[0].1, ys[0].1, gcs).1, compare_spec(xs[0].1, ys[0].1, gcs).2, false).0 is Some,
    ensures
        merge_members_spec(
            JsonV::Object(a + merge_patch_members(xs, ys, gcs, h).1 + b),
            merge_patch_members(xs, ys, gcs, h).0,
            mcs,
        ) == JsonV::Object(a + merged_members(xs, ys, gcs, mcs, h).0 + b + merged_members(xs, ys, gcs, mcs, h).1),
    decreases xs.len() + ys.len(), 0nat,
{
    let k = xs[0].0;
    assert(fit_key(k, ex) && fit_key(ys[0].0, ex));
    lemma_fit_key_eq(k, ys[0].0, true, ex);
    assert(tidy(xs[0].1, false) && height(xs[0].1) < h);
    assert(tidy(ys[0].1, false) && !(ys[0].1 is Null));
    let c = compare_spec(xs[0].1, ys[0].1, gcs);
    crate::compare::lemma_compare_height(xs[0].1, ys[0].1, gcs);
    lemma_compare_facts(xs[0].1, ys[0].1, gcs, false);
    lemma_merge_patch_members_unfold(xs, ys, gcs, h);
    let g = generate_merge_patch_spec(c.1, c.2, false);
    let t = merge_patch_members(xs.drop_first(), ys.drop_first(), gcs, h);
    let x2 = merge_patch_members(xs, ys, gcs, h).1;
    let ps = merge_patch_members(xs, ys, gcs, h).0;
    assert(x2 == seq![(k, g.1)] + t.1);
    lemma_merge_members_keys(xs, ys, gcs, h);
    lemma_fit_keys_drop(xs, ex);
    lemma_fit_keys_drop(ys, ex);
    lemma_increasing_drop(xs, true);
    lemma_increasing_drop(ys, true);
    lemma_below_drop(a, xs, true);
    lemma_below_drop(a, ys, true);
    lemma_below_drop(b, xs, true);
    lemma_below_drop(b, ys, true);
    lemma_x_values_drop(xs, h);
    lemma_y_values_drop(ys);
    let r = merged_members(xs.drop_first(), ys.drop_first(), gcs, mcs, h);
    let p = g.0.unwrap();
    assert(ps == seq![(k, p)] + t.0);
    assert(!(p is Null)) by {
        if !(c.1 is Object && c.2 is Object) {
            assert(p == c.2);
        }
    }
    lemma_walk_keys_fit(a, x2, xs, b, ex);
    let cur = a + x2 + b;
    let pos = a.len() as int;
    lemma_first_key_match_at(cur, k, pos, mcs, ex);
    assert(ps[0] == (k, p));
    assert(ps.drop_first() =~= t.0);
    let m = (k, merge_patch_spec(Some(g.1), p, mcs));
    let b2 = b.push(m);
    assert(cur.remove(pos).push(m) =~= a + t.1 + b2);
    lemma_below_push(b, m, xs.drop_first(), true);
    lemma_below_push(b, m, ys.drop_first(), true);
    lemma_fit_keys_push(b, m, ex);
    lemma_merge_walk(a, xs.drop_first(), ys.drop_first(), b2, gcs, mcs, h, ex);
    assert(a + r.0 + b2 + r.1 =~= a + r.0 + b + (seq![m] + r.1));
}

/// A step of the merge on a shared key whose values differ but whose
/// nested patch is empty: the member stays in place.
#[verifier::spinoff_prover]
#[verifier::rlimit(40)]
proof fn lemma_merge_walk_unpatched(
    a: Seq<(Seq<u8>, JsonV)>,
    xs: Seq<(Seq<u8>, JsonV)>,
    ys: Seq<(Seq<u8>, JsonV)>,
    b: Seq<(Seq<u8>, JsonV)>,
    gcs: bool,
    mcs: bool,
    h: nat,
    ex: bool,
)
    requires
        ex ==> gcs,
        ex ==> mcs,
        fit_keys(a, ex),
        fit_keys(xs, ex),
        fit_keys(ys, ex),
        fit_keys(b, ex),
        increasing(xs, true),
        increasing(ys, true),
        below(a, xs, true),
        below(a, ys, true),
        below(b, xs, true),
        below(b, ys, true),
        forall|k: int| 0 <= k < xs.len() ==> tidy(#[trigger] xs[k].1, false) && height(xs[k].1) < h,
        forall|k: int| 0 <= k < ys.len() ==> tidy(#[trigger] ys[k].1, false) && !(ys[k].1 is Null),
        xs.len() > 0,
        ys.len() > 0,
        key_order(xs[0].0, ys[0].0, true) == 0,
        !compare_spec(xs[0].1, ys[0].1, gcs).0,
        generate_merge_patch_spec(compare_spec(xs[0].1, ys[0].1, gcs).1, compare_spec(xs[0].1, ys[0].1, gcs).2, false).0 is None,
    ensures
        merge_members_spec(
            JsonV::Object(a + merge_patch_members(xs, ys, gcs, h).1 + b),
            merge_patch_members(xs, ys, gcs, h).0,
            mcs,
        ) == JsonV::Object(a + merged_members(xs, ys, gcs, mcs, h).0 + b + merged_members(xs, ys, gcs, mcs, h).1),
    decreases xs.len() + ys.len(), 0nat,
{
    let k = xs[0].0;
    assert(fit_key(k, ex) && fit_key(ys[0].0, ex));
    lemma_fit_key_eq(k, ys[0].0, true, ex);
    assert(tidy(xs[0].1, false) && height(xs[0].1) < h);
    assert(tidy(ys[0].1, false) && !(ys[0].1 is Null));
    let c = compare_spec(xs[0].1, ys[0].1, gcs);
    crate::compare::lemma_compare_height(xs[0].1, ys[0].1, gcs);
    lemma_compare_facts(xs[0].1, ys[0].1, gcs, false);
    lemma_merge_patch_members_unfold(xs, ys, gcs, h);
    let g = generate_merge_patch_spec(c.1, c.2, false);
    let t = merge_patch_members(xs.drop_first(), ys.drop_first(), gcs, h);
    let x2 = merge_patch_members(xs, ys, gcs, h).1;
    let ps = merge_patch_members(xs, ys, gcs, h).0;
    assert(x2 == seq![(k, g.1)] + t.1);
    lemma_merge_members_keys(xs, ys, gcs, h);
    lemma_fit_keys_drop(xs, ex);
    lemma_fit_keys_drop(ys, ex);
    lemma_increasing_drop(xs, true);
    lemma_increasing_drop(ys, true);
    lemma_below_drop(a, xs, true);
    lemma_below_drop(a, ys, true);
    lemma_below_drop(b, xs, true);
    lemma_below_drop(b, ys, true);
    lemma_x_values_drop(xs, h);
    lemma_y_values_drop(ys);
    let r = merged_members(xs.drop_first(), ys.drop_first(), gcs, mcs, h);
    assert(ps == t.0);
    let m = (k, g.1);
    let a2 = a.push(m);
    assert(a + x2 + b =~= a2 + t.1 + b);
    lemma_below_push(a, m, xs.drop_first(), true);
    lemma_below_push(a, m, ys.drop_first(), true);
    lemma_fit_keys_push(a, m, ex);
    lemma_merge_walk(a2, xs.drop_first(), ys.drop_first(), b, gcs, mcs, h, ex);
    assert(a2 + r.0 + b + r.1 =~= a + (seq![m] + r.0) + b + r.1);
}

/// The members that merging the generated merge patch leaves are found,
/// one for one, among the members of `to`.
#[verifier::spinoff_prover]
#[verifier::rlimit(40)]
proof fn lemma_merged_match(
    xs: Seq<(Seq<u8>, JsonV)>,
    ys: Seq<(Seq<u8>, JsonV)>,
    gcs: bool,
    mcs: bool,
    h: nat,
    ex: bool,
)
    requires
        ex ==> gcs,
        ex ==> mcs,
        fit_keys(xs, ex),
        fit_keys(ys, ex),
        forall|k: int| 0 <= k < xs.len() ==> tidy(#[trigger] xs[k].1, false) && height(xs[k].1) < h,
        forall|k: int|
            0 <= k < ys.len() ==> tidy(#[trigger] ys[k].1, false) && !(ys[k].1 is Null) && no_null_members(ys[k].1),
    ensures
        merged_members(xs, ys, gcs, mcs, h).0.len() + merged_members(xs, ys, gcs, mcs, h).1.len() == ys.len(),
        members_match(merged_members(xs, ys, gcs, mcs, h).0, ys, true),
        members_match(merged_members(xs, ys, gcs, mcs, h).1, ys, true),
    decreases h, xs.len() + ys.len(), 0nat,
{
    if xs.len() == 0 && ys.len() == 0 {
    } else if xs.len() > 0 && (ys.len() == 0 || key_order(xs[0].0, ys[0].0, true) < 0) {
        lemma_fit_keys_drop(xs, ex);
        lemma_x_values_drop(xs, h);
        lemma_merged_match(xs.drop_first(), ys, gcs, mcs, h, ex);
    } else if ys.len() > 0 && (xs.len() == 0 || key_order(xs[0].0, ys[0].0, true) > 0) {
        assert(tidy(ys[0].1, false) && no_null_members(ys[0].1));
        lemma_fit_keys_drop(ys, ex);
        lemma_y_full_drop(ys);
        lemma_merged_match(xs, ys.drop_first(), gcs, mcs, h, ex);
        let r = merged_members(xs, ys.drop_first(), gcs, mcs, h);
        lemma_merge_into_nothing(ys[0].1, mcs, false);
        crate::alike::lemma_members_match_shift(r.0, ys, true);
        crate::strings::lemma_key_order_reflexive(ys[0].0, true);
        crate::alike::lemma_members_match_cons((ys[0].0, merge_patch_spec(None, ys[0].1, mcs)), r.1, ys, true);
    } else {
        let k = xs[0].0;
        assert(fit_key(k, ex) && fit_key(ys[0].0, ex));
        lemma_fit_key_eq(k, ys[0].0, true, ex);
        assert(tidy(xs[0].1, false) && height(xs[0].1) < h);
        assert(tidy(ys[0].1, false) && !(ys[0].1 is Null) && no_null_members(ys[0].1));
        let c = compare_spec(xs[0].1, ys[0].1, gcs);
        lemma_compare_facts(xs[0].1, ys[0].1, gcs, false);
        crate::compare::lemma_compare_height(xs[0].1, ys[0].1, gcs);
        lemma_fit_keys_drop(xs, ex);
        lemma_fit_keys_drop(ys, ex);
        lemma_x_values_drop(xs, h);
        lemma_y_full_drop(ys);
        lemma_merged_match(xs.drop_first(), ys.drop_first(), gcs, mcs, h, ex);
        let r = merged_members(xs.drop_first(), ys.drop_first(), gcs, mcs, h);
        if c.0 {
            crate::strings::lemma_key_order_reflexive(k, true);
            crate::alike::lemma_members_match_cons((k, c.1), r.0, ys, true);
            crate::alike::lemma_members_match_shift(r.1, ys, true);
        } else {
            let g = generate_merge_patch_spec(c.1, c.2, false);
            lemma_merged_back_alike(c.1, c.2, false, mcs);
            match g.0 {
                Some(p) => {
                    let v = merge_patch_spec(Some(g.1), p, mcs);
                    lemma_same_trans(v, c.2, ys[0].1, true);
                    crate::alike::lemma_members_match_shift(r.0, ys, true);
                    crate::strings::lemma_key_order_reflexive(ys[0].0, true);
                    crate::alike::lemma_members_match_cons((ys[0].0, v), r.1, ys, true);
                },
                None => {
                    lemma_same_trans(g.1, c.2, ys[0].1, true);
                    crate::strings::lemma_key_order_reflexive(k, true);
                    crate::alike::lemma_members_match_cons((k, g.1), r.0, ys, true);
                    crate::alike::lemma_members_match_shift(r.1, ys, true);
                },
            }
        }
    }
}

proof fn lemma_y_full_drop(ys: Seq<(Seq<u8>, JsonV)>)
    requires
        ys.len() > 0,
        forall|k: int|
            0 <= k < ys.len() ==> tidy(#[trigger] ys[k].1, false) && !(ys[k].1 is Null) && no_null_members(ys[k].1),
    ensures
        forall|k: int|
            0 <= k < ys.drop_first().len() ==> tidy(#[trigger] ys.drop_first()[k].1, false) && !(ys.drop_first()[k].1 is Null)
                && no_null_members(ys.drop_first()[k].1),
{
    assert forall|k: int| 0 <= k < ys.drop_first().len() implies tidy(#[trigger] ys.drop_first()[k].1, false) && !(
    ys.drop_first()[k].1 is Null) && no_null_members(ys.drop_first()[k].1) by {
        assert(ys.drop_first()[k] == ys[k + 1]);
    }
}

#[verifier::spinoff_prover]
#[verifier::rlimit(40)]
proof fn lemma_merged_back_alike(from: JsonV, to: JsonV, generate_cs: bool, merge_cs: bool)
    requires
        tidy_top(from, generate_cs && merge_cs),
        tidy_top(to, generate_cs && merge_cs),
        no_null_members(to),
    ensures
        match generate_merge_patch_spec(from, to, generate_cs) {
            (Some(patch), from2, _) => same_doc(merge_patch_spec(Some(from2), patch, merge_cs), to, true),
            (None, from2, _) => same_doc(from2, to, true),
        },
    decreases height(from) + 1, 0nat, 0nat,
{
    let gcs = generate_cs;
    let mcs = merge_cs;
    let ex = gcs && mcs;
    match (from, to) {
        (JsonV::Object(xs), JsonV::Object(ys)) => {
            let h = height(from);
            let sx = merge_sort(xs, key_lt(gcs));
            let sy = merge_sort(ys, key_lt(gcs));
            lemma_tidy_top(from, ex);
            lemma_tidy_top(to, ex);
            lemma_sorted_tidy(xs, gcs, ex);
            lemma_sorted_tidy(ys, gcs, ex);
            lemma_no_null_object(ys);
            assert forall|k: int| 0 <= k < sx.len() implies tidy(#[trigger] sx[k].1, false) by {
                let q = choose|q: int| 0 <= q < xs.len() && xs[q] == sx[k];
                assert(tidy(xs[q].1, false));
            }
            assert forall|k: int| 0 <= k < sy.len() implies tidy(#[trigger] sy[k].1, false) && !(sy[k].1 is Null)
                && no_null_members(sy[k].1) by {
                let q = choose|q: int| 0 <= q < ys.len() && ys[q] == sy[k];
                assert(tidy(ys[q].1, false));
                assert(!(ys[q].1 is Null) && no_null_members(ys[q].1));
            }
            let e = Seq::<(Seq<u8>, JsonV)>::empty();
            lemma_merge_walk(e, sx, sy, e, gcs, mcs, h, ex);
            lemma_merged_match(sx, sy, gcs, mcs, h, ex);
            let r = merge_patch_members(sx, sy, gcs, h);
            let mm = merged_members(sx, sy, gcs, mcs, h);
            let ms = mm.0 + mm.1;
            assert(e + r.1 + e =~= r.1);
            assert(e + mm.0 + e + mm.1 =~= ms);
            assert forall|i: int| 0 <= i < ms.len() implies found_in(#[trigger] ms[i], sy, true) by {
                if i < mm.0.len() {
                    assert(ms[i] == mm.0[i]);
                } else {
                    assert(ms[i] == mm.1[i - mm.0.len()]);
                }
            }
            lemma_object_same(ms, sy, ys, true, ex);
        },
        (_, JsonV::Object(ys)) => {
            lemma_tidy_top(to, ex);
            lemma_merge_into_nothing(to, mcs, ex);
            assert(merge_patch_spec(Some(from), to, mcs) == merge_patch_spec(None, to, mcs));
        },
        _ => {
            lemma_tidy_top(to, ex);
            lemma_same_refl(to, true, ex);
        },
    }
}

/// What merging the merge patch generated from `from` to `to` into `from`
/// (as the generation leaves it) gives; where there is no patch, `from` as
/// the generation leaves it.
pub open spec fn merged_back(from: JsonV, to: JsonV, generate_cs: bool, merge_cs: bool) -> JsonV {
    match generate_merge_patch_spec(from, to, generate_cs) {
        (Some(patch), from2, _) => merge_patch_spec(Some(from2), patch, merge_cs),
        (None, from2, _) => from2,
    }
}

/// `k` is the key of some member of `ys`.
spec fn key_among(k: Seq<u8>, ys: Seq<(Seq<u8>, JsonV)>) -> bool {
    exists|j: int| 0 <= j < ys.len() && (#[trigger] ys[j]).0 == k
}

/// The members have distinct keys, each a key of a member of `ys`, and
/// tidy values.
spec fn drawn_from(ms: Seq<(Seq<u8>, JsonV)>, ys: Seq<(Seq<u8>, JsonV)>) -> bool {
    &&& forall|a: int, b: int| 0 <= a < b < ms.len() ==> #[trigger] ms[a].0 != #[trigger] ms[b].0
    &&& forall|i: int| 0 <= i < ms.len() ==> tidy((#[trigger] ms[i]).1, false) && key_among(ms[i].0, ys)
}

/// A member with the first key of a list with increasing keys can stand
/// anywhere among members drawn from the rest of the list.
proof fn lemma_drawn_insert(
    a: Seq<(Seq<u8>, JsonV)>,
    e: (Seq<u8>, JsonV),
    b: Seq<(Seq<u8>, JsonV)>,
    ys: Seq<(Seq<u8>, JsonV)>,
)
    requires
        ys.len() > 0,
        increasing(ys, true),
        drawn_from(a + b, ys.drop_first()),
        e.0 == ys[0].0,
        tidy(e.1, false),
    ensures
        drawn_from(a + seq![e] + b, ys),
{
    let c = a + seq![e] + b;
    let d = a + b;
    let t = ys.drop_first();
    let n = a.len() as int;
    assert forall|i: int| 0 <= i < d.len() implies (#[trigger] d[i]).0 != e.0 && key_among(d[i].0, ys) by {
        assert(key_among(d[i].0, t));
        let j = choose|j: int| 0 <= j < t.len() && (#[trigger] t[j]).0 == d[i].0;
        assert(t[j] == ys[j + 1]);
        assert(key_order(ys[0].0, ys[j + 1].0, true) < 0);
        crate::strings::lemma_key_order_reflexive(ys[0].0, true);
    }
    assert(key_among(e.0, ys)) by {
        assert(ys[0].0 == e.0);
    }
    assert forall|x: int, y: int| 0 <= x < y < c.len() implies #[trigger] c[x].0 != #[trigger] c[y].0 by {
        if x < n {
            assert(c[x] == d[x]);
            if y < n {
                assert(c[y] == d[y]);
            } else if y == n {
                assert(c[y] == e);
            } else {
                assert(c[y] == d[y - 1]);
            }
        } else if x == n {
            assert(c[x] == e);
            assert(c[y] == d[y - 1]);
        } else {
            assert(c[x] == d[x - 1]);
            assert(c[y] == d[y - 1]);
        }
    }
    assert forall|i: int| 0 <= i < c.len() implies tidy((#[trigger] c[i]).1, false) && key_among(c[i].0, ys) by {
        if i < n {
            assert(c[i] == d[i]);
        } else if i == n {
            assert(c[i] == e);
        } else {
            assert(c[i] == d[i - 1]);
        }
    }
}

/// The members that merging the generated merge patch leaves have distinct
/// keys, each a key of `to`, and tidy values.
proof fn lemma_merged_drawn(
    xs: Seq<(Seq<u8>, JsonV)>,
    ys: Seq<(Seq<u8>, JsonV)>,
    gcs: bool,
    mcs: bool,
    h: nat,
    ex: bool,
)
    requires
        ex ==> gcs,
        ex ==> mcs,
        fit_keys(xs, ex),
        fit_keys(ys, ex),
        increasing(ys, true),
        forall|k: int| 0 <= k < xs.len() ==> tidy(#[trigger] xs[k].1, false) && height(xs[k].1) < h,
        forall|k: int|
            0 <= k < ys.len() ==> tidy(#[trigger] ys[k].1, false) && !(ys[k].1 is Null) && no_null_members(ys[k].1),
    ensures
        drawn_from(merged_members(xs, ys, gcs, mcs, h).0 + merged_members(xs, ys, gcs, mcs, h).1, ys),
    decreases h, xs.len() + ys.len(), 1nat,
{
    let mm = merged_members(xs, ys, gcs, mcs, h);
    if xs.len() == 0 && ys.len() == 0 {
        assert(mm.0 + mm.1 =~= Seq::<(Seq<u8>, JsonV)>::empty());
    } else if xs.len() > 0 && (ys.len() == 0 || key_order(xs[0].0, ys[0].0, true) < 0) {
        lemma_fit_keys_drop(xs, ex);
        lemma_x_values_drop(xs, h);
        lemma_merged_drawn(xs.drop_first(), ys, gcs, mcs, h, ex);
    } else if ys.len() > 0 && (xs.len() == 0 || key_order(xs[0].0, ys[0].0, true) > 0) {
        lemma_merged_drawn_added(xs, ys, gcs, mcs, h, ex);
    } else {
        lemma_merged_drawn_shared(xs, ys, gcs, mcs, h, ex);
    }
}

/// A step of `lemma_merged_drawn` on a key that only `to` holds.
#[verifier::spinoff_prover]
proof fn lemma_merged_drawn_added(
    xs: Seq<(Seq<u8>, JsonV)>,
    ys: Seq<(Seq<u8>, JsonV)>,
    gcs: bool,
    mcs: bool,
    h: nat,
    ex: bool,
)
    requires
        ex ==> gcs,
        ex ==> mcs,
        fit_keys(xs, ex),
        fit_keys(ys, ex),
        increasing(ys, true),
        forall|k: int| 0 <= k < xs.len() ==> tidy(#[trigger] xs[k].1, false) && height(xs[k].1) < h,
        forall|k: int|
            0 <= k < ys.len() ==> tidy(#[trigger] ys[k].1, false) && !(ys[k].1 is Null) && no_null_members(ys[k].1),
        ys.len() > 0,
        xs.len() == 0 || key_order(xs[0].0, ys[0].0, true) > 0,
    ensures
        drawn_from(merged_members(xs, ys, gcs, mcs, h).0 + merged_members(xs, ys, gcs, mcs, h).1, ys),
    decreases h, xs.len() + ys.len(), 0nat,
{
    let mm = merged_members(xs, ys, gcs, mcs, h);
    assert(tidy(ys[0].1, false) && no_null_members(ys[0].1));
    lemma_fit_keys_drop(ys, ex);
    lemma_y_full_drop(ys);
    lemma_increasing_drop(ys, true);
    lemma_merged_drawn(xs, ys.drop_first(), gcs, mcs, h, ex);
    let r = merged_members(xs, ys.drop_first(), gcs, mcs, h);
    lemma_merge_into_nothing(ys[0].1, mcs, false);
    let e = (ys[0].0, merge_patch_spec(None, ys[0].1, mcs));
    assert(mm == (r.0, seq![e] + r.1));
    lemma_drawn_insert(r.0, e, r.1, ys);
    assert(mm.0 + mm.1 =~= r.0 + seq![e] + r.1);
}

/// A step of `lemma_merged_drawn` on a key that both documents hold.
#[verifier::spinoff_prover]
#[verifier::rlimit(40)]
proof fn lemma_merged_drawn_shared(
    xs: Seq<(Seq<u8>, JsonV)>,
    ys: Seq<(Seq<u8>, JsonV)>,
    gcs: bool,
    mcs: bool,
    h: nat,
    ex: bool,
)
    requires
        ex ==> gcs,
        ex ==> mcs,
        fit_keys(xs, ex),
        fit_keys(ys, ex),
        increasing(ys, true),
        forall|k: int| 0 <= k < xs.len() ==> tidy(#[trigger] xs[k].1, false) && height(xs[k].1) < h,
        forall|k: int|
            0 <= k < ys.len() ==> tidy(#[trigger] ys[k].1, false) && !(ys[k].1 is Null) && no_null_members(ys[k].1),
        xs.len() > 0,
        ys.len() > 0,
        key_order(xs[0].0, ys[0].0, true) == 0,
    ensures
        drawn_from(merged_members(xs, ys, gcs, mcs, h).0 + merged_members(xs, ys, gcs, mcs, h).1, ys),
    decreases h, xs.len() + ys.len(), 0nat,
{
    let mm = merged_members(xs, ys, gcs, mcs, h);
    let em = Seq::<(Seq<u8>, JsonV)>::empty();
    let k = xs[0].0;
    assert(fit_key(k, ex) && fit_key(ys[0].0, ex));
    lemma_fit_key_eq(k, ys[0].0, true, ex);
    assert(tidy(xs[0].1, false) && height(xs[0].1) < h);
    assert(tidy(ys[0].1, false) && !(ys[0].1 is Null) && no_null_members(ys[0].1));
    let c = compare_spec(xs[0].1, ys[0].1, gcs);
    lemma_compare_facts(xs[0].1, ys[0].1, gcs, false);
    crate::compare::lemma_compare_height(xs[0].1, ys[0].1, gcs);
    lemma_fit_keys_drop(xs, ex);
    lemma_fit_keys_drop(ys, ex);
    lemma_x_values_drop(xs, h);
    lemma_y_full_drop(ys);
    lemma_increasing_drop(ys, true);
    lemma_merged_drawn(xs.drop_first(), ys.drop_first(), gcs, mcs, h, ex);
    let r = merged_members(xs.drop_first(), ys.drop_first(), gcs, mcs, h);
    let d = r.0 + r.1;
    if c.0 {
        let e = (k, c.1);
        assert(mm == (seq![e] + r.0, r.1));
        assert(em + d =~= d);
        lemma_drawn_insert(em, e, d, ys);
        assert(mm.0 + mm.1 =~= em + seq![e] + d);
    } else {
        let g = generate_merge_patch_spec(c.1, c.2, false);
        lemma_merged_back_tidy(c.1, c.2, false, mcs);
        match g.0 {
            Some(p) => {
                let e = (ys[0].0, merge_patch_spec(Some(g.1), p, mcs));
                assert(mm == (r.0, seq![e] + r.1));
                lemma_drawn_insert(r.0, e, r.1, ys);
                assert(mm.0 + mm.1 =~= r.0 + seq![e] + r.1);
            },
            None => {
                let e = (k, g.1);
                assert(mm == (seq![e] + r.0, r.1));
                assert(em + d =~= d);
                lemma_drawn_insert(em, e, d, ys);
                assert(mm.0 + mm.1 =~= em + seq![e] + d);
            },
        }
    }
}

/// What merging the generated merge patch gives is as tidy as the
/// documents it was generated from.
#[verifier::spinoff_prover]
#[verifier::rlimit(40)]
proof fn lemma_merged_back_tidy(from: JsonV, to: JsonV, gcs: bool, mcs: bool)
    requires
        tidy_top(from, gcs && mcs),
        tidy_top(to, gcs && mcs),
        no_null_members(to),
    ensures
        tidy(merged_back(from, to, gcs, mcs), gcs && mcs),
    decreases height(from) + 1, 0nat, 0nat,
{
    let ex = gcs && mcs;
    match (from, to) {
        (JsonV::Object(xs), JsonV::Object(ys)) => {
            let h = height(from);
            let sx = merge_sort(xs, key_lt(gcs));
            let sy = merge_sort(ys, key_lt(gcs));
            lemma_tidy_top(from, ex);
            lemma_tidy_top(to, ex);
            lemma_sorted_tidy(xs, gcs, ex);
            lemma_sorted_tidy(ys, gcs, ex);
            lemma_no_null_object(ys);
            assert forall|k: int| 0 <= k < sx.len() implies tidy(#[trigger] sx[k].1, false) by {
                let q = choose|q: int| 0 <= q < xs.len() && xs[q] == sx[k];
                assert(tidy(xs[q].1, false));
            }
            assert forall|k: int| 0 <= k < sy.len() implies tidy(#[trigger] sy[k].1, false) && !(sy[k].1 is Null)
                && no_null_members(sy[k].1) by {
                let q = choose|q: int| 0 <= q < ys.len() && ys[q] == sy[k];
                assert(tidy(ys[q].1, false));
                assert(!(ys[q].1 is Null) && no_null_members(ys[q].1));
            }
            let e = Seq::<(Seq<u8>, JsonV)>::empty();
            lemma_merge_walk(e, sx, sy, e, gcs, mcs, h, ex);
            lemma_merged_drawn(sx, sy, gcs, mcs, h, ex);
            let r = merge_patch_members(sx, sy, gcs, h);
            let mm = merged_members(sx, sy, gcs, mcs, h);
            let ms = mm.0 + mm.1;
            assert(e + r.1 + e =~= r.1);
            assert(e + mm.0 + e + mm.1 =~= ms);
            if r.0.len() == 0 {
                assert(merge_members_spec(JsonV::Object(r.1), r.0, mcs) == JsonV::Object(r.1));
            }
            assert(merged_back(from, to, gcs, mcs) == JsonV::Object(ms));
            assert forall|i: int| 0 <= i < ms.len() implies fit_key(#[trigger] ms[i].0, ex) && tidy(ms[i].1, ex) by {
                assert(key_among(ms[i].0, sy));
                let j = choose|j: int| 0 <= j < sy.len() && (#[trigger] sy[j]).0 == ms[i].0;
                lemma_tidy_weaken(ms[i].1, ex);
            }
            let mo = JsonV::Object(ms);
            assert(mo->Object_0 == ms);
        },
        (_, JsonV::Object(ys)) => {
            lemma_tidy_top(to, ex);
            lemma_merge_into_nothing(to, mcs, ex);
            assert(merge_patch_spec(Some(from), to, mcs) == merge_patch_spec(None, to, mcs));
        },
        _ => {
            lemma_tidy_top(to, ex);
        },
    }
}

/// Between tidy values, likeness under the byte comparison of keys is
/// likeness under any comparison fit for their keys.
proof fn lemma_same_any_case(a: JsonV, b: JsonV, cs: bool, ex: bool)
    requires
        ex ==> cs,
        tidy(a, ex),
        tidy(b, ex),
        same_doc(a, b, true),
    ensures
        same_doc(a, b, cs),
    decreases height(a),
{
    match (a, b) {
        (JsonV::Array(xs), JsonV::Array(ys)) => {
            assert forall|i: int| 0 <= i < xs.len() implies same_doc(#[trigger] xs[i], ys[i], cs) by {
                lemma_items_height(xs, i);
                assert(same_doc(xs[i], ys[i], true));
                lemma_same_any_case(xs[i], ys[i], cs, ex);
            }
        },
        (JsonV::Object(xs), JsonV::Object(ys)) => {
            lemma_tidy_object(xs, ex);
            lemma_tidy_object(ys, ex);
            assert forall|i: int| 0 <= i < xs.len() implies match object_get(b, (#[trigger] xs[i]).0, cs) {
                Some(v) => same_doc(xs[i].1, v, cs),
                None => false,
            } by {
                let k = xs[i].0;
                assert(match object_get(b, k, true) {
                    Some(v) => same_doc(xs[i].1, v, true),
                    None => false,
                });
                let f = |m: (Seq<u8>, JsonV)| key_eq(k, m.0, true);
                lemma_first_where(ys, f);
                let q = first_key_match(ys, k, true);
                assert(0 <= q < ys.len());
                lemma_fit_key_eq(k, ys[q].0, true, ex);
                assert forall|j: int| 0 <= j < q implies (#[trigger] ys[j]).0 != k by {
                    assert(ys[j].0 != ys[q].0);
                }
                lemma_first_key_match_at(ys, k, q, cs, ex);
                lemma_members_height(xs, i);
                lemma_same_any_case(xs[i].1, ys[q].1, cs, ex);
            }
        },
        _ => {},
    }
}

/// Merging the merge patch that `cJSONUtils_GenerateMergePatch` (or its
/// case-sensitive form) makes from `from` to `to` into `from` as the
/// generation leaves it (its objects sorted by key), with
/// `cJSONUtils_MergePatch` or its case-sensitive form, gives a document
/// alike to `to`: the same but for the order of object members. Where the
/// generation finds nothing to change, `from` as it leaves it is already
/// alike to `to`. This holds where strings are C strings, no value is raw
/// text, the keys of each object are distinct C strings without upper-case
/// letters, and no object member of `to` (in objects that members lead to)
/// is `null`; where both forms respect case, the keys of the documents'
/// own members may also hold upper-case letters (nested objects are always
/// compared by the form that ignores case). `compare_json` finds what the
/// merge gives equal to `to`: with the case-sensitive comparison always,
/// and with the one that ignores case unless both forms respect case.
pub proof fn law_merge_generated_patch(from: JsonV, to: JsonV, generate_cs: bool, merge_cs: bool)
    requires
        tidy_top(from, generate_cs && merge_cs),
        tidy_top(to, generate_cs && merge_cs),
        no_null_members(to),
    ensures
        match generate_merge_patch_spec(from, to, generate_cs) {
            (Some(patch), from2, _) => same_doc(merge_patch_spec(Some(from2), patch, merge_cs), to, true),
            (None, from2, _) => same_doc(from2, to, true),
        },
        compare_spec(merged_back(from, to, generate_cs, merge_cs), to, true).0,
        !(generate_cs && merge_cs) ==> compare_spec(merged_back(from, to, generate_cs, merge_cs), to, false).0,
{
    let ex = generate_cs && merge_cs;
    let res = merged_back(from, to, generate_cs, merge_cs);
    lemma_merged_back_alike(from, to, generate_cs, merge_cs);
    lemma_merged_back_tidy(from, to, generate_cs, merge_cs);
    lemma_tidy_top(to, ex);
    lemma_tidy_keyed(res, true, ex);
    lemma_tidy_keyed(to, true, ex);
    law_alike_compare_equal(res, to, true);
    if !ex {
        lemma_tidy_keyed(res, false, false);
        lemma_tidy_keyed(to, false, false);
        lemma_same_any_case(res, to, false, false);
        law_alike_compare_equal(res, to, false);
    }
}

} // verus!
