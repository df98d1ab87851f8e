//! Values equal but for the order of object members, and the operations
//! that only reorder: comparison, patch generation, and the `test`
//! operation leave the documents they sort equal to what they were, up to
//! that order.

use vstd::prelude::*;
use crate::json::{JsonV, height, lemma_items_height, lemma_members_height, lemma_first_where};
use crate::sort::{merge_sort, key_lt, lemma_merge_sort_multiset};
use crate::compare::{compare_spec, compare_items_spec, compare_members_spec, law_compare_symmetric};
use crate::diff::{diff_spec, diff_items, diff_members, generate_patches_spec, lemma_diff_members_unfold};
use crate::pointer::{get_pointer, set_pointer, pointer_step, step_index, with_child, lemma_token_len};
use crate::patch::{apply_patch_spec, patch_operation, key_path, key_value};
use crate::strings::{key_order, key_eq, segment_matches, lemma_key_order_reflexive, lemma_key_order_antisymmetric,
    lemma_key_order_transitive};
use crate::alike::{keyed, same_doc, increasing, lemma_keyed_object, lemma_key_eq_congruent};

verus! {

/// `p` lists each position below `n` exactly once.
pub open spec fn is_perm(p: Seq<int>, n: nat) -> bool {
    &&& p.len() == n
    &&& forall|i: int| 0 <= i < n ==> 0 <= #[trigger] p[i] < n
    &&& forall|i: int, j: int| 0 <= i < j < n ==> #[trigger] p[i] != #[trigger] p[j]
}

/// Two values equal but for the order of the members of each object: the
/// same scalars; arrays of the same length whose items are so, position by
/// position; objects whose members are those of the first, each once, in
/// some order, with the same keys and values so.
pub open spec fn reordered(a: JsonV, b: JsonV) -> bool
    decreases a,
{
    match (a, b) {
        (JsonV::Array(xs), JsonV::Array(ys)) => {
            &&& xs.len() == ys.len()
            &&& forall|i: int| 0 <= i < xs.len() ==> reordered(#[trigger] xs[i], ys[i])
        },
        (JsonV::Object(xs), JsonV::Object(ys)) => {
            &&& xs.len() == ys.len()
            &&& exists|p: Seq<int>|
                is_perm(p, xs.len()) && forall|i: int|
                    0 <= i < ys.len() ==> (#[trigger] ys[i]).0 == xs[p[i]].0 && reordered(xs[p[i]].1, ys[i].1)
        },
        _ => a == b,
    }
}


/// Every value is equal to itself up to member order.
pub proof fn lemma_reordered_refl(a: JsonV)
    ensures
        reordered(a, a),
    decreases height(a),
{
    match a {
        JsonV::Array(xs) => {
            assert forall|i: int| 0 <= i < xs.len() implies reordered(#[trigger] xs[i], xs[i]) by {
                lemma_items_height(xs, i);
                lemma_reordered_refl(xs[i]);
            }
        },
        JsonV::Object(xs) => {
            let p = Seq::new(xs.len(), |i: int| i);
            assert forall|i: int| 0 <= i < xs.len() implies (#[trigger] xs[i]).0 == xs[p[i]].0 && reordered(
                xs[p[i]].1,
                xs[i].1,
            ) by {
                lemma_members_height(xs, i);
                lemma_reordered_refl(xs[i].1);
            }
            assert(is_perm(p, xs.len()));
        },
        _ => {},
    }
}

/// Sequences holding the same elements, each as often, are one the other
/// reordered: `p` gives, for each position of `s2`, the position of `s1`
/// that holds the same element.
pub proof fn lemma_perm_of_multiset<A>(s1: Seq<A>, s2: Seq<A>) -> (p: Seq<int>)
    requires
        s1.to_multiset() == s2.to_multiset(),
    ensures
        s1.len() == s2.len(),
        is_perm(p, s1.len()),
        forall|i: int| 0 <= i < s2.len() ==> s2[i] == s1[#[trigger] p[i]],
    decreases s2.len(),
{
    broadcast use vstd::seq_lib::group_to_multiset_ensures;

    if s2.len() == 0 {
        assert(s1.to_multiset().len() == 0);
        Seq::empty()
    } else {
        let x = s2[0];
        assert(s2.to_multiset().count(x) > 0);
        assert(s1.contains(x));
        let k = choose|k: int| 0 <= k < s1.len() && s1[k] == x;
        let s1r = s1.remove(k);
        let s2r = s2.remove(0);
        assert(s2r =~= s2.drop_first());
        assert(s1r.to_multiset() == s2r.to_multiset());
        let q = lemma_perm_of_multiset(s1r, s2r);
        let p = seq![k] + Seq::new(q.len(), |i: int| if q[i] < k { q[i] } else { q[i] + 1 });
        assert forall|i: int| 0 <= i < s2.len() implies s2[i] == s1[#[trigger] p[i]] by {
            if i > 0 {
                assert(s2[i] == s2r[i - 1]);
                assert(s2r[i - 1] == s1r[q[i - 1]]);
            }
        }
        assert forall|i: int, j: int| 0 <= i < j < s1.len() implies #[trigger] p[i] != #[trigger] p[j] by {
            if i > 0 {
                assert(q[i - 1] != q[j - 1]);
            }
        }
        p
    }
}

proof fn lemma_compare_items_reordered(xs: Seq<JsonV>, ys: Seq<JsonV>, cs: bool, h: nat)
    requires
        forall|k: int| 0 <= k < xs.len() ==> height(#[trigger] xs[k]) < h,
    ensures
        compare_items_spec(xs, ys, cs, h).1.len() == xs.len(),
        forall|k: int| 0 <= k < xs.len() ==> reordered(#[trigger] xs[k], compare_items_spec(xs, ys, cs, h).1[k]),
    decreases h, xs.len(),
{
    let r = compare_items_spec(xs, ys, cs, h);
    if xs.len() > 0 && ys.len() > 0 {
        assert(height(xs[0]) < h);
        lemma_compare_reordered(xs[0], ys[0], cs);
        let c = compare_spec(xs[0], ys[0], cs);
        if c.0 {
            assert forall|k: int| 0 <= k < xs.drop_first().len() implies height(#[trigger] xs.drop_first()[k]) < h by {
                assert(xs.drop_first()[k] == xs[k + 1]);
            }
            lemma_compare_items_reordered(xs.drop_first(), ys.drop_first(), cs, h);
            let t = compare_items_spec(xs.drop_first(), ys.drop_first(), cs, h);
            assert(r.1 == seq![c.1] + t.1);
            assert forall|k: int| 0 <= k < xs.len() implies reordered(#[trigger] xs[k], r.1[k]) by {
                if k > 0 {
                    assert(r.1[k] == t.1[k - 1]);
                    assert(xs[k] == xs.drop_first()[k - 1]);
                }
            }
        } else {
            assert(r.1 == xs.update(0, c.1));
            assert forall|k: int| 0 <= k < xs.len() implies reordered(#[trigger] xs[k], r.1[k]) by {
                if k > 0 {
                    lemma_reordered_refl(xs[k]);
                }
            }
        }
    } else {
        assert forall|k: int| 0 <= k < xs.len() implies reordered(#[trigger] xs[k], r.1[k]) by {
            lemma_reordered_refl(xs[k]);
        }
    }
}

proof fn lemma_compare_members_reordered(
    xs: Seq<(Seq<u8>, JsonV)>,
    ys: Seq<(Seq<u8>, JsonV)>,
    cs: bool,
    h: nat,
)
    requires
        forall|k: int| 0 <= k < xs.len() ==> height(#[trigger] xs[k].1) < h,
    ensures
        compare_members_spec(xs, ys, cs, h).1.len() == xs.len(),
        forall|k: int|
            0 <= k < xs.len() ==> (#[trigger] compare_members_spec(xs, ys, cs, h).1[k]).0 == xs[k].0 && reordered(
                xs[k].1,
                compare_members_spec(xs, ys, cs, h).1[k].1,
            ),
    decreases h, xs.len(),
{
    let r = compare_members_spec(xs, ys, cs, h);
    assert forall|k: int| 0 <= k < xs.len() implies reordered(xs[k].1, #[trigger] xs[k].1) by {
        lemma_reordered_refl(xs[k].1);
    }
    if xs.len() > 0 && ys.len() > 0 && key_order(xs[0].0, ys[0].0, cs) == 0 {
        assert(height(xs[0].1) < h);
        lemma_compare_reordered(xs[0].1, ys[0].1, cs);
        let c = compare_spec(xs[0].1, ys[0].1, cs);
        if c.0 {
            assert forall|k: int| 0 <= k < xs.drop_first().len() implies height(#[trigger] xs.drop_first()[k].1) < h by {
                assert(xs.drop_first()[k] == xs[k + 1]);
            }
            lemma_compare_members_reordered(xs.drop_first(), ys.drop_first(), cs, h);
            let t = compare_members_spec(xs.drop_first(), ys.drop_first(), cs, h);
            assert forall|k: int| 0 <= k < xs.len() implies (#[trigger] r.1[k]).0 == xs[k].0 && reordered(xs[k].1, r.1[k].1) by {
                if k > 0 {
                    assert(r.1[k] == t.1[k - 1]);
                    assert(xs[k] == xs.drop_first()[k - 1]);
                }
            }
        } else {
            assert forall|k: int| 0 <= k < xs.len() implies (#[trigger] r.1[k]).0 == xs[k].0 && reordered(xs[k].1, r.1[k].1) by {
                if k > 0 {
                    assert(r.1[k] == xs[k]);
                }
            }
        }
    } else {
        assert forall|k: int| 0 <= k < xs.len() implies (#[trigger] r.1[k]).0 == xs[k].0 && reordered(xs[k].1, r.1[k].1) by {
            assert(r.1[k] == xs[k]);
        }
    }
}

/// The members of an object sorted by key, each value then replaced by one
/// equal to it up to member order, make an object equal to the first up
/// to member order.
proof fn lemma_sorted_reordered(xs: Seq<(Seq<u8>, JsonV)>, cs: bool, out: Seq<(Seq<u8>, JsonV)>)
    requires
        out.len() == xs.len(),
        forall|k: int|
            0 <= k < xs.len() ==> (#[trigger] out[k]).0 == merge_sort(xs, key_lt(cs))[k].0 && reordered(
                merge_sort(xs, key_lt(cs))[k].1,
                out[k].1,
            ),
    ensures
        reordered(JsonV::Object(xs), JsonV::Object(out)),
{
    let sx = merge_sort(xs, key_lt(cs));
    lemma_merge_sort_multiset(xs, key_lt(cs));
    let p = lemma_perm_of_multiset(xs, sx);
    assert forall|i: int| 0 <= i < out.len() implies (#[trigger] out[i]).0 == xs[p[i]].0 && reordered(
        xs[p[i]].1,
        out[i].1,
    ) by {
        assert(sx[i] == xs[p[i]]);
    }
}

proof fn lemma_compare_reordered(a: JsonV, b: JsonV, cs: bool)
    ensures
        reordered(a, compare_spec(a, b, cs).1),
    decreases height(a) + 1, 0nat,
{
    lemma_reordered_refl(a);
    if crate::json::same_kind(a, b) {
        match (a, b) {
            (JsonV::Array(xs), JsonV::Array(ys)) => {
                assert forall|k: int| 0 <= k < xs.len() implies height(#[trigger] xs[k]) < height(a) by {
                    lemma_items_height(xs, k);
                }
                lemma_compare_items_reordered(xs, ys, cs, height(a));
            },
            (JsonV::Object(xs), JsonV::Object(ys)) => {
                let sx = merge_sort(xs, key_lt(cs));
                let sy = merge_sort(ys, key_lt(cs));
                lemma_merge_sort_multiset(xs, key_lt(cs));
                assert forall|k: int| 0 <= k < sx.len() implies height(#[trigger] sx[k].1) < height(a) by {
                    crate::sort::lemma_merge_sort_contains(xs, key_lt(cs), k);
                    let i = choose|i: int| 0 <= i < xs.len() && xs[i] == sx[k];
                    lemma_members_height(xs, i);
                }
                lemma_compare_members_reordered(sx, sy, cs, height(a));
                lemma_sorted_reordered(xs, cs, compare_members_spec(sx, sy, cs, height(a)).1);
            },
            _ => {},
        }
    }
}

/// Comparison leaves both values equal to what they were up to the order
/// of the members of each object.
pub proof fn law_compare_keeps_values(a: JsonV, b: JsonV, case_sensitive: bool)
    ensures
        reordered(a, compare_spec(a, b, case_sensitive).1),
        reordered(b, compare_spec(a, b, case_sensitive).2),
{
    lemma_compare_reordered(a, b, case_sensitive);
    lemma_compare_reordered(b, a, case_sensitive);
    law_compare_symmetric(a, b, case_sensitive);
}

proof fn lemma_diff_items_reordered(path: Seq<u8>, xs: Seq<JsonV>, ys: Seq<JsonV>, cs: bool, index: nat, h: nat)
    requires
        forall|k: int| 0 <= k < xs.len() ==> height(#[trigger] xs[k]) < h,
    ensures
        ({
            let r = diff_items(path, xs, ys, cs, index, h);
            &&& r.1.len() == xs.len()
            &&& r.2.len() == ys.len()
            &&& forall|k: int| 0 <= k < xs.len() ==> reordered(#[trigger] xs[k], r.1[k])
            &&& forall|k: int| 0 <= k < ys.len() ==> reordered(#[trigger] ys[k], r.2[k])
        }),
    decreases h, xs.len(),
{
    let r = diff_items(path, xs, ys, cs, index, h);
    if xs.len() > 0 && ys.len() > 0 {
        assert(height(xs[0]) < h);
        lemma_diff_reordered(path + seq![47u8] + crate::strings::decimal(index), xs[0], ys[0], cs);
        assert forall|k: int| 0 <= k < xs.drop_first().len() implies height(#[trigger] xs.drop_first()[k]) < h by {
            assert(xs.drop_first()[k] == xs[k + 1]);
        }
        lemma_diff_items_reordered(path, xs.drop_first(), ys.drop_first(), cs, index + 1, h);
        let t = diff_items(path, xs.drop_first(), ys.drop_first(), cs, index + 1, h);
        assert forall|k: int| 0 <= k < xs.len() implies reordered(#[trigger] xs[k], r.1[k]) by {
            if k > 0 {
                assert(r.1[k] == t.1[k - 1]);
                assert(xs[k] == xs.drop_first()[k - 1]);
            }
        }
        assert forall|k: int| 0 <= k < ys.len() implies reordered(#[trigger] ys[k], r.2[k]) by {
            if k > 0 {
                assert(r.2[k] == t.2[k - 1]);
                assert(ys[k] == ys.drop_first()[k - 1]);
            }
        }
    } else {
        assert forall|k: int| 0 <= k < xs.len() implies reordered(#[trigger] xs[k], r.1[k]) by {
            lemma_reordered_refl(xs[k]);
        }
        assert forall|k: int| 0 <= k < ys.len() implies reordered(#[trigger] ys[k], r.2[k]) by {
            lemma_reordered_refl(ys[k]);
        }
    }
}

#[verifier::spinoff_prover]
#[verifier::rlimit(40)]
proof fn lemma_diff_members_reordered(
    path: Seq<u8>,
    xs: Seq<(Seq<u8>, JsonV)>,
    ys: Seq<(Seq<u8>, JsonV)>,
    cs: bool,
    h: nat,
)
    requires
        forall|k: int| 0 <= k < xs.len() ==> height(#[trigger] xs[k].1) < h,
    ensures
        ({
            let r = diff_members(path, xs, ys, cs, h);
            &&& r.1.len() == xs.len()
            &&& r.2.len() == ys.len()
            &&& forall|k: int| 0 <= k < xs.len() ==> (#[trigger] r.1[k]).0 == xs[k].0 && reordered(xs[k].1, r.1[k].1)
            &&& forall|k: int| 0 <= k < ys.len() ==> (#[trigger] r.2[k]).0 == ys[k].0 && reordered(ys[k].1, r.2[k].1)
        }),
    decreases h, xs.len() + ys.len(),
{
    let r = diff_members(path, xs, ys, cs, h);
    if xs.len() > 0 || ys.len() > 0 {
        if xs.len() > 0 {
            assert(height(xs[0].1) < h);
            assert forall|k: int| 0 <= k < xs.drop_first().len() implies height(#[trigger] xs.drop_first()[k].1) < h by {
                assert(xs.drop_first()[k] == xs[k + 1]);
            }
        }
        lemma_diff_members_unfold(path, xs, ys, cs, h);
        if xs.len() > 0 && ys.len() > 0 && key_order(xs[0].0, ys[0].0, cs) == 0 {
            lemma_diff_reordered(path + seq![47u8] + crate::strings::escape(xs[0].0), xs[0].1, ys[0].1, cs);
            lemma_diff_members_reordered(path, xs.drop_first(), ys.drop_first(), cs, h);
            let t = diff_members(path, xs.drop_first(), ys.drop_first(), cs, h);
            assert forall|k: int| 0 <= k < xs.len() implies (#[trigger] r.1[k]).0 == xs[k].0 && reordered(xs[k].1, r.1[k].1) by {
                if k > 0 {
                    assert(r.1[k] == t.1[k - 1]);
                    assert(xs[k] == xs.drop_first()[k - 1]);
                }
            }
            assert forall|k: int| 0 <= k < ys.len() implies (#[trigger] r.2[k]).0 == ys[k].0 && reordered(ys[k].1, r.2[k].1) by {
                if k > 0 {
                    assert(r.2[k] == t.2[k - 1]);
                    assert(ys[k] == ys.drop_first()[k - 1]);
                }
            }
        } else if xs.len() > 0 && (ys.len() == 0 || key_order(xs[0].0, ys[0].0, cs) < 0) {
            lemma_diff_members_reordered(path, xs.drop_first(), ys, cs, h);
            let t = diff_members(path, xs.drop_first(), ys, cs, h);
            assert forall|k: int| 0 <= k < xs.len() implies (#[trigger] r.1[k]).0 == xs[k].0 && reordered(xs[k].1, r.1[k].1) by {
                if k > 0 {
                    assert(r.1[k] == t.1[k - 1]);
                    assert(xs[k] == xs.drop_first()[k - 1]);
                } else {
                    lemma_reordered_refl(xs[0].1);
                }
            }
        } else {
            lemma_diff_members_reordered(path, xs, ys.drop_first(), cs, h);
            let t = diff_members(path, xs, ys.drop_first(), cs, h);
            assert forall|k: int| 0 <= k < ys.len() implies (#[trigger] r.2[k]).0 == ys[k].0 && reordered(ys[k].1, r.2[k].1) by {
                if k > 0 {
                    assert(r.2[k] == t.2[k - 1]);
                    assert(ys[k] == ys.drop_first()[k - 1]);
                } else {
                    lemma_reordered_refl(ys[0].1);
                }
            }
        }
    }
}

#[verifier::spinoff_prover]
#[verifier::rlimit(40)]
proof fn lemma_diff_reordered(path: Seq<u8>, a: JsonV, b: JsonV, cs: bool)
    ensures
        reordered(a, diff_spec(path, a, b, cs).1),
        reordered(b, diff_spec(path, a, b, cs).2),
    decreases height(a) + 1, 0nat,
{
    if !crate::json::same_kind(a, b) {
        lemma_reordered_refl(a);
        lemma_reordered_refl(b);
    } else {
        match (a, b) {
            (JsonV::Array(xs), JsonV::Array(ys)) => {
                assert forall|k: int| 0 <= k < xs.len() implies height(#[trigger] xs[k]) < height(a) by {
                    lemma_items_height(xs, k);
                }
                lemma_diff_items_reordered(path, xs, ys, cs, 0, height(a));
            },
            (JsonV::Object(xs), JsonV::Object(ys)) => {
                let sx = merge_sort(xs, key_lt(cs));
                let sy = merge_sort(ys, key_lt(cs));
                lemma_merge_sort_multiset(xs, key_lt(cs));
                lemma_merge_sort_multiset(ys, key_lt(cs));
                assert forall|k: int| 0 <= k < sx.len() implies height(#[trigger] sx[k].1) < height(a) by {
                    crate::sort::lemma_merge_sort_contains(xs, key_lt(cs), k);
                    let i = choose|i: int| 0 <= i < xs.len() && xs[i] == sx[k];
                    lemma_members_height(xs, i);
                }
                lemma_diff_members_reordered(path, sx, sy, cs, height(a));
                let r = diff_members(path, sx, sy, cs, height(a));
                lemma_sorted_reordered(xs, cs, r.1);
                lemma_sorted_reordered(ys, cs, r.2);
            },
            _ => {
                lemma_reordered_refl(a);
                lemma_reordered_refl(b);
            },
        }
    }
}

/// Generating the patches between two documents leaves both equal to what
/// they were up to the order of the members of each object.
pub proof fn law_generate_patches_keeps_values(from: JsonV, to: JsonV, case_sensitive: bool)
    ensures
        reordered(from, generate_patches_spec(from, to, case_sensitive).1),
        reordered(to, generate_patches_spec(from, to, case_sensitive).2),
{
    lemma_diff_reordered(Seq::empty(), from, to, case_sensitive);
}

/// Replacing a child of a container by a value equal to it up to member
/// order gives a container equal to the first up to member order.
#[verifier::spinoff_prover]
proof fn lemma_with_child_reordered(j: JsonV, k: int, c2: JsonV)
    requires
        j matches JsonV::Array(items) ==> 0 <= k < items.len() && reordered(items[k], c2),
        j matches JsonV::Object(ms) ==> 0 <= k < ms.len() && reordered(ms[k].1, c2),
    ensures
        reordered(j, with_child(j, k, c2)),
{
    match j {
        JsonV::Array(items) => {
            let items2 = items.update(k, c2);
            assert forall|i: int| 0 <= i < items.len() implies reordered(#[trigger] items[i], items2[i]) by {
                if i != k {
                    lemma_reordered_refl(items[i]);
                }
            }
        },
        JsonV::Object(ms) => {
            let ms2 = ms.update(k, (ms[k].0, c2));
            let q = Seq::new(ms.len(), |i: int| i);
            assert forall|i: int| 0 <= i < ms2.len() implies (#[trigger] ms2[i]).0 == ms[q[i]].0 && reordered(
                ms[q[i]].1,
                ms2[i].1,
            ) by {
                if i != k {
                    lemma_reordered_refl(ms[i].1);
                }
            }
            assert(is_perm(q, ms.len()));
        },
        _ => {
            lemma_reordered_refl(j);
        },
    }
}

/// Putting, at the place that a pointer reaches, a value equal up to
/// member order to the one there gives a document equal up to member
/// order to the first.
#[verifier::spinoff_prover]
proof fn lemma_set_reordered(j: JsonV, p: Seq<u8>, cs: bool, x: JsonV)
    requires
        get_pointer(j, p, cs) matches Some(t) && reordered(t, x),
    ensures
        reordered(j, set_pointer(j, p, cs, x)),
    decreases p.len(),
{
    if p.len() > 0 && p[0] == 47 {
        let rest = p.drop_first();
        let c = pointer_step(j, rest, cs).unwrap();
        lemma_token_len(rest);
        let next = rest.skip(crate::pointer::token_len(rest) as int);
        lemma_set_reordered(c, next, cs, x);
        let c2 = set_pointer(c, next, cs, x);
        let k = step_index(j, rest, cs);
        if let JsonV::Object(ms) = j {
            lemma_first_where(ms, |m: (Seq<u8>, JsonV)| segment_matches(m.0, rest, cs));
        }
        lemma_with_child_reordered(j, k, c2);
    }
}

/// A `test` patch leaves the document equal to what it was up to the order
/// of the members of each object.
pub proof fn law_test_keeps_value(object: JsonV, patch: JsonV, case_sensitive: bool)
    requires
        patch_operation(patch, case_sensitive) is Test,
    ensures
        reordered(object, apply_patch_spec(object, patch, case_sensitive).1),
{
    lemma_reordered_refl(object);
    match crate::json::object_get(patch, key_path(), case_sensitive) {
        Some(JsonV::String(path)) => {
            match (get_pointer(object, path, case_sensitive), crate::json::object_get(patch, key_value(), case_sensitive)) {
                (Some(t), Some(v)) => {
                    law_compare_keeps_values(t, v, case_sensitive);
                    lemma_set_reordered(object, path, case_sensitive, compare_spec(t, v, case_sensitive).1);
                },
                _ => {},
            }
        },
        _ => {},
    }
}

/// A strictly increasing map of `0..n` into itself is the identity.
proof fn lemma_increasing_map_identity(f: spec_fn(int) -> int, n: int)
    requires
        forall|i: int| 0 <= i < n ==> 0 <= #[trigger] f(i) < n,
        forall|i: int, j: int| 0 <= i < j < n ==> #[trigger] f(i) < #[trigger] f(j),
    ensures
        forall|i: int| 0 <= i < n ==> #[trigger] f(i) == i,
{
    assert forall|i: int| 0 <= i < n implies #[trigger] f(i) == i by {
        lemma_map_at_least(f, n, i);
        lemma_map_at_most(f, n, i);
    }
}

proof fn lemma_map_at_least(f: spec_fn(int) -> int, n: int, i: int)
    requires
        forall|i: int| 0 <= i < n ==> 0 <= #[trigger] f(i) < n,
        forall|i: int, j: int| 0 <= i < j < n ==> #[trigger] f(i) < #[trigger] f(j),
        0 <= i < n,
    ensures
        f(i) >= i,
    decreases i,
{
    if i > 0 {
        lemma_map_at_least(f, n, i - 1);
        assert(f(i - 1) < f(i));
    } else {
        assert(0 <= f(i));
    }
}

proof fn lemma_map_at_most(f: spec_fn(int) -> int, n: int, i: int)
    requires
        forall|i: int| 0 <= i < n ==> 0 <= #[trigger] f(i) < n,
        forall|i: int, j: int| 0 <= i < j < n ==> #[trigger] f(i) < #[trigger] f(j),
        0 <= i < n,
    ensures
        f(i) <= i,
    decreases n - i,
{
    if i < n - 1 {
        lemma_map_at_most(f, n, i + 1);
        assert(f(i) < f(i + 1));
    } else {
        assert(f(i) < n);
    }
}

/// Some member of `ms` has a key equal to `k` under the comparison.
spec fn key_in(k: Seq<u8>, ms: Seq<(Seq<u8>, JsonV)>, cs: bool) -> bool {
    exists|j: int| 0 <= j < ms.len() && key_eq((#[trigger] ms[j]).0, k, cs)
}

/// The keys of `ms` are distinct under the comparison.
spec fn distinct_under(ms: Seq<(Seq<u8>, JsonV)>, cs: bool) -> bool {
    forall|a: int, b: int| 0 <= a < b < ms.len() ==> !key_eq(#[trigger] ms[a].0, #[trigger] ms[b].0, cs)
}

/// The members of an object with distinct keys, sorted by key: as many,
/// each a member of the object and each member there, keys strictly
/// increasing.
proof fn lemma_sorted_distinct(xs: Seq<(Seq<u8>, JsonV)>, cs: bool)
    requires
        distinct_under(xs, cs),
    ensures
        merge_sort(xs, key_lt(cs)).len() == xs.len(),
        increasing(merge_sort(xs, key_lt(cs)), cs),
        forall|i: int| 0 <= i < xs.len() ==> xs.contains(#[trigger] merge_sort(xs, key_lt(cs))[i]),
        forall|i: int| 0 <= i < xs.len() ==> merge_sort(xs, key_lt(cs)).contains(#[trigger] xs[i]),
{
    broadcast use vstd::seq_lib::group_to_multiset_ensures;

    let lt = key_lt(cs);
    let sx = merge_sort(xs, lt);
    lemma_merge_sort_multiset(xs, lt);
    crate::sort::lemma_key_lt_order(cs);
    crate::sort::lemma_merge_sort_sorted(xs, lt);
    assert forall|i: int| 0 <= i < xs.len() implies xs.contains(#[trigger] sx[i]) by {
        crate::sort::lemma_merge_sort_contains(xs, lt, i);
    }
    assert forall|i: int| 0 <= i < xs.len() implies sx.contains(#[trigger] xs[i]) by {
        assert(xs.contains(xs[i]));
        assert(xs.to_multiset().count(xs[i]) > 0);
    }
    assert forall|a: int, b: int| 0 <= a < xs.len() && 0 <= b < xs.len() && a != b implies !key_eq(
        #[trigger] xs[a].0,
        #[trigger] xs[b].0,
        cs,
    ) by {
        if b < a {
            assert(!key_eq(xs[b].0, xs[a].0, cs));
            lemma_key_order_antisymmetric(xs[b].0, xs[a].0, cs);
        }
    }
    assert(xs.no_duplicates()) by {
        assert forall|i: int, j: int| 0 <= i < xs.len() && 0 <= j < xs.len() && i != j implies xs[i] != xs[j] by {
            assert(!key_eq(xs[i].0, xs[j].0, cs));
            lemma_key_order_reflexive(xs[i].0, cs);
        }
    }
    xs.lemma_multiset_has_no_duplicates();
    sx.lemma_multiset_has_no_duplicates_conv();
    assert forall|i: int, j: int| 0 <= i < j < sx.len() implies key_order(#[trigger] sx[i].0, #[trigger] sx[j].0, cs)
        < 0 by {
        assert(!lt(sx[j], sx[i]));
        lemma_key_order_antisymmetric(sx[j].0, sx[i].0, cs);
        let a = choose|a: int| 0 <= a < xs.len() && xs[a] == sx[i];
        let b = choose|b: int| 0 <= b < xs.len() && xs[b] == sx[j];
        assert(sx[i] != sx[j]);
        assert(a != b);
        assert(!key_eq(xs[a].0, xs[b].0, cs));
    }
}

/// Two lists of members with strictly increasing keys, as many in each,
/// where every key of the first equals a key of the second, hold equal keys
/// position by position.
proof fn lemma_align_keys(sx: Seq<(Seq<u8>, JsonV)>, sy: Seq<(Seq<u8>, JsonV)>, cs: bool)
    requires
        sx.len() == sy.len(),
        increasing(sx, cs),
        increasing(sy, cs),
        forall|i: int| 0 <= i < sx.len() ==> key_in((#[trigger] sx[i]).0, sy, cs),
    ensures
        forall|i: int| 0 <= i < sx.len() ==> key_eq((#[trigger] sx[i]).0, sy[i].0, cs),
{
    let n = sx.len() as int;
    let f = |i: int| if 0 <= i < n { choose|j: int| 0 <= j < n && key_eq((#[trigger] sy[j]).0, sx[i].0, cs) } else { 0 };
    assert forall|i: int| 0 <= i < n implies 0 <= #[trigger] f(i) < n && key_eq(sy[f(i)].0, sx[i].0, cs) by {
        assert(key_in(sx[i].0, sy, cs));
    }
    assert forall|i: int, j: int| 0 <= i < j < n implies #[trigger] f(i) < #[trigger] f(j) by {
        assert(key_order(sx[i].0, sx[j].0, cs) < 0);
        let (a, b) = (sy[f(i)].0, sy[f(j)].0);
        assert(key_eq(a, sx[i].0, cs) && key_eq(b, sx[j].0, cs));
        lemma_key_order_antisymmetric(a, sx[i].0, cs);
        lemma_key_order_antisymmetric(b, sx[j].0, cs);
        if f(i) == f(j) {
            lemma_key_order_transitive(sx[i].0, a, sx[j].0, cs);
            lemma_key_order_transitive(sx[j].0, a, sx[i].0, cs);
            lemma_key_order_antisymmetric(sx[i].0, sx[j].0, cs);
        } else if f(j) < f(i) {
            assert(key_order(b, a, cs) < 0);
            lemma_key_order_transitive(sx[j].0, b, a, cs);
            lemma_key_order_transitive(sx[j].0, a, sx[i].0, cs);
            lemma_key_order_antisymmetric(sx[i].0, sx[j].0, cs);
        }
    }
    lemma_increasing_map_identity(f, n);
    assert forall|i: int| 0 <= i < sx.len() implies key_eq((#[trigger] sx[i]).0, sy[i].0, cs) by {
        assert(f(i) == i);
        lemma_key_order_antisymmetric(sy[i].0, sx[i].0, cs);
    }
}

proof fn lemma_items_alike_compare(xs: Seq<JsonV>, ys: Seq<JsonV>, cs: bool, h: nat)
    requires
        xs.len() == ys.len(),
        forall|k: int| 0 <= k < xs.len() ==> keyed(#[trigger] xs[k], cs) && height(xs[k]) < h,
        forall|k: int| 0 <= k < ys.len() ==> keyed(#[trigger] ys[k], cs),
        forall|k: int| 0 <= k < xs.len() ==> same_doc(#[trigger] xs[k], ys[k], cs),
    ensures
        compare_items_spec(xs, ys, cs, h).0,
    decreases h, xs.len(),
{
    if xs.len() > 0 {
        assert(keyed(xs[0], cs) && keyed(ys[0], cs) && height(xs[0]) < h && same_doc(xs[0], ys[0], cs));
        lemma_alike_compare(xs[0], ys[0], cs);
        assert forall|k: int| 0 <= k < xs.drop_first().len() implies keyed(#[trigger] xs.drop_first()[k], cs)
            && height(xs.drop_first()[k]) < h by {
            assert(xs.drop_first()[k] == xs[k + 1]);
        }
        assert forall|k: int| 0 <= k < ys.drop_first().len() implies keyed(#[trigger] ys.drop_first()[k], cs) by {
            assert(ys.drop_first()[k] == ys[k + 1]);
        }
        assert forall|k: int| 0 <= k < xs.drop_first().len() implies same_doc(
            #[trigger] xs.drop_first()[k],
            ys.drop_first()[k],
            cs,
        ) by {
            assert(xs.drop_first()[k] == xs[k + 1] && ys.drop_first()[k] == ys[k + 1]);
        }
        lemma_items_alike_compare(xs.drop_first(), ys.drop_first(), cs, h);
    }
}

proof fn lemma_members_alike_compare(xs: Seq<(Seq<u8>, JsonV)>, ys: Seq<(Seq<u8>, JsonV)>, cs: bool, h: nat)
    requires
        xs.len() == ys.len(),
        forall|k: int| 0 <= k < xs.len() ==> keyed(#[trigger] xs[k].1, cs) && height(xs[k].1) < h,
        forall|k: int| 0 <= k < ys.len() ==> keyed(#[trigger] ys[k].1, cs),
        forall|k: int| 0 <= k < xs.len() ==> key_eq((#[trigger] xs[k]).0, ys[k].0, cs) && same_doc(xs[k].1, ys[k].1, cs),
    ensures
        compare_members_spec(xs, ys, cs, h).0,
    decreases h, xs.len(),
{
    if xs.len() > 0 {
        assert(key_eq(xs[0].0, ys[0].0, cs));
        assert(keyed(xs[0].1, cs) && keyed(ys[0].1, cs) && height(xs[0].1) < h);
        lemma_alike_compare(xs[0].1, ys[0].1, cs);
        assert forall|k: int| 0 <= k < xs.drop_first().len() implies keyed(#[trigger] xs.drop_first()[k].1, cs)
            && height(xs.drop_first()[k].1) < h by {
            assert(xs.drop_first()[k] == xs[k + 1]);
        }
        assert forall|k: int| 0 <= k < ys.drop_first().len() implies keyed(#[trigger] ys.drop_first()[k].1, cs) by {
            assert(ys.drop_first()[k] == ys[k + 1]);
        }
        assert forall|k: int| 0 <= k < xs.drop_first().len() implies key_eq((#[trigger] xs.drop_first()[k]).0,
            ys.drop_first()[k].0, cs) && same_doc(xs.drop_first()[k].1, ys.drop_first()[k].1, cs) by {
            assert(xs.drop_first()[k] == xs[k + 1] && ys.drop_first()[k] == ys[k + 1]);
        }
        lemma_members_alike_compare(xs.drop_first(), ys.drop_first(), cs, h);
    }
}

#[verifier::spinoff_prover]
#[verifier::rlimit(40)]
proof fn lemma_alike_compare(a: JsonV, b: JsonV, cs: bool)
    requires
        keyed(a, cs),
        keyed(b, cs),
        same_doc(a, b, cs),
    ensures
        compare_spec(a, b, cs).0,
    decreases height(a) + 1, 0nat,
{
    broadcast use vstd::seq_lib::group_to_multiset_ensures;

    match (a, b) {
        (JsonV::Array(xs), JsonV::Array(ys)) => {
            let h = height(a);
            assert forall|k: int| 0 <= k < xs.len() implies keyed(#[trigger] xs[k], cs) && height(xs[k]) < h by {
                lemma_items_height(xs, k);
            }
            lemma_items_alike_compare(xs, ys, cs, h);
        },
        (JsonV::Object(xs), JsonV::Object(ys)) => {
            let h = height(a);
            let sx = merge_sort(xs, key_lt(cs));
            let sy = merge_sort(ys, key_lt(cs));
            lemma_keyed_object(xs, cs);
            lemma_keyed_object(ys, cs);
            lemma_sorted_distinct(xs, cs);
            lemma_sorted_distinct(ys, cs);
            // each member of `sx` finds, in `ys` and so in `sy`, a member with an equal key
            assert forall|i: int| 0 <= i < sx.len() implies exists|p: int|
                0 <= p < sy.len() && key_eq((#[trigger] sy[p]).0, (#[trigger] sx[i]).0, cs) && same_doc(
                    sx[i].1,
                    sy[p].1,
                    cs,
                ) && keyed(sx[i].1, cs) && keyed(sy[p].1, cs) && height(sx[i].1) < h by {
                let q = choose|q: int| 0 <= q < xs.len() && xs[q] == sx[i];
                lemma_members_height(xs, q);
                assert(match crate::json::object_get(b, xs[q].0, cs) {
                    Some(v) => same_doc(xs[q].1, v, cs),
                    None => false,
                });
                let fk = |m: (Seq<u8>, JsonV)| key_eq(xs[q].0, m.0, cs);
                lemma_first_where(ys, fk);
                let r = crate::json::first_key_match(ys, xs[q].0, cs);
                assert(sy.contains(ys[r]));
                let p = choose|p: int| 0 <= p < sy.len() && sy[p] == ys[r];
                lemma_key_order_antisymmetric(xs[q].0, ys[r].0, cs);
                assert(key_eq(sy[p].0, sx[i].0, cs));
            }
            assert forall|i: int| 0 <= i < sx.len() implies key_in((#[trigger] sx[i]).0, sy, cs) by {
                let p = choose|p: int|
                    0 <= p < sy.len() && key_eq((#[trigger] sy[p]).0, (#[trigger] sx[i]).0, cs) && same_doc(
                        sx[i].1,
                        sy[p].1,
                        cs,
                    ) && keyed(sx[i].1, cs) && keyed(sy[p].1, cs) && height(sx[i].1) < h;
                assert(key_eq(sy[p].0, sx[i].0, cs));
            }
            lemma_align_keys(sx, sy, cs);
            // keys are distinct, so the member found is the one at the same place
            assert forall|k: int| 0 <= k < sx.len() implies key_eq((#[trigger] sx[k]).0, sy[k].0, cs) && same_doc(
                sx[k].1,
                sy[k].1,
                cs,
            ) && keyed(sx[k].1, cs) && keyed(sy[k].1, cs) && height(sx[k].1) < h by {
                let p = choose|p: int|
                    0 <= p < sy.len() && key_eq((#[trigger] sy[p]).0, (#[trigger] sx[k]).0, cs) && same_doc(
                        sx[k].1,
                        sy[p].1,
                        cs,
                    ) && keyed(sx[k].1, cs) && keyed(sy[p].1, cs) && height(sx[k].1) < h;
                if p != k {
                    lemma_key_order_antisymmetric(sx[k].0, sy[k].0, cs);
                    lemma_key_eq_congruent(sy[k].0, sx[k].0, sy[p].0, cs);
                    lemma_key_order_antisymmetric(sy[p].0, sx[k].0, cs);
                    if p < k {
                        assert(key_order(sy[p].0, sy[k].0, cs) < 0);
                        lemma_key_order_antisymmetric(sy[p].0, sy[k].0, cs);
                    } else {
                        assert(key_order(sy[k].0, sy[p].0, cs) < 0);
                    }
                }
            }
            assert forall|k: int| 0 <= k < sy.len() implies keyed(#[trigger] sy[k].1, cs) by {
                let q = choose|q: int| 0 <= q < ys.len() && ys[q] == sy[k];
            }
            lemma_members_alike_compare(sx, sy, cs, h);
        },
        (JsonV::String(x), JsonV::String(y)) => {
            lemma_key_order_reflexive(x, true);
        },
        _ => {},
    }
}

/// Documents alike key for key under the comparison (the same but for the
/// order of object members and, ignoring case, the case of keys) compare
/// equal, where neither holds an object with two keys equal under that
/// comparison.
pub proof fn law_alike_compare_equal(a: JsonV, b: JsonV, case_sensitive: bool)
    requires
        keyed(a, case_sensitive),
        keyed(b, case_sensitive),
        same_doc(a, b, case_sensitive),
    ensures
        compare_spec(a, b, case_sensitive).0,
{
    lemma_alike_compare(a, b, case_sensitive);
}

} // verus!
