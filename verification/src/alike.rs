//! Documents alike up to the order of object members (and, under the key
//! comparison that ignores case, up to the case of keys), and keys that
//! the comparisons at hand treat as their bytes.

use vstd::prelude::*;
use crate::json::{
    JsonV, height, object_get, first_key_match, lemma_first_where, lemma_first_where_at,
    lemma_items_height, lemma_members_height,
};
use crate::sort::{
    merge_sort, key_lt, lemma_merge_sort_multiset, lemma_key_lt_order, lemma_merge_sort_sorted,
    lemma_merge_sort_contains,
};
use crate::strings::{
    is_cstr, key_order, key_eq, lemma_key_order_reflexive, lemma_key_order_transitive,
    lemma_key_order_antisymmetric,
};

verus! {

/// A key that the comparisons at hand treat as they treat its bytes: a C
/// string, and, unless only the comparison that respects case is at hand
/// (`exact`), one without upper-case letter.
pub open spec fn fit_key(k: Seq<u8>, exact: bool) -> bool {
    forall|i: int| 0 <= i < k.len() ==> #[trigger] k[i] != 0 && (exact || !(65 <= k[i] <= 90))
}

/// A value whose strings are C strings, whose objects hold distinct fit
/// keys, and that holds no raw text.
pub open spec fn tidy(j: JsonV, exact: bool) -> bool
    decreases j,
{
    match j {
        JsonV::String(s) => is_cstr(s),
        JsonV::Array(items) => forall|i: int| 0 <= i < items.len() ==> tidy(#[trigger] items[i], exact),
        JsonV::Object(ms) => {
            &&& forall|i: int| 0 <= i < ms.len() ==> fit_key(#[trigger] ms[i].0, exact)
            &&& forall|a: int, b: int| 0 <= a < b < ms.len() ==> #[trigger] ms[a].0 != #[trigger] ms[b].0
            &&& forall|i: int| 0 <= i < ms.len() ==> tidy(#[trigger] ms[i].1, exact)
        },
        JsonV::Raw(_) => false,
        _ => true,
    }
}

/// A value tidy for the comparison that ignores case, but for the keys of
/// its own members, where it is an object: those need only be fit for the
/// comparisons at hand.
pub open spec fn tidy_top(j: JsonV, exact: bool) -> bool {
    match j {
        JsonV::Object(ms) => {
            &&& forall|i: int| 0 <= i < ms.len() ==> fit_key(#[trigger] ms[i].0, exact)
            &&& forall|a: int, b: int| 0 <= a < b < ms.len() ==> #[trigger] ms[a].0 != #[trigger] ms[b].0
            &&& forall|i: int| 0 <= i < ms.len() ==> tidy(#[trigger] ms[i].1, false)
        },
        _ => tidy(j, exact),
    }
}

/// A key fit for the comparison that ignores case is fit for any.
pub proof fn lemma_fit_key_weaken(k: Seq<u8>, exact: bool)
    requires
        fit_key(k, false),
    ensures
        fit_key(k, exact),
{
}

/// A value tidy for the comparison that ignores case is tidy for any.
pub proof fn lemma_tidy_weaken(j: JsonV, exact: bool)
    requires
        tidy(j, false),
    ensures
        tidy(j, exact),
    decreases height(j),
{
    match j {
        JsonV::Array(xs) => {
            assert forall|i: int| 0 <= i < xs.len() implies tidy(#[trigger] xs[i], exact) by {
                lemma_items_height(xs, i);
                lemma_tidy_weaken(xs[i], exact);
            }
        },
        JsonV::Object(xs) => {
            lemma_tidy_object(xs, false);
            assert forall|i: int| 0 <= i < xs.len() implies tidy(#[trigger] xs[i].1, exact) by {
                lemma_members_height(xs, i);
                lemma_tidy_weaken(xs[i].1, exact);
            }
            assert forall|i: int| 0 <= i < xs.len() implies fit_key(#[trigger] xs[i].0, exact) by {
                lemma_fit_key_weaken(xs[i].0, exact);
            }
            let o = JsonV::Object(xs);
            assert(o->Object_0 == xs);
        },
        _ => {},
    }
}

/// A value tidy at its top level is tidy.
pub proof fn lemma_tidy_top(j: JsonV, exact: bool)
    requires
        tidy_top(j, exact),
    ensures
        tidy(j, exact),
{
    match j {
        JsonV::Object(xs) => {
            assert forall|i: int| 0 <= i < xs.len() implies tidy(#[trigger] xs[i].1, exact) by {
                lemma_tidy_weaken(xs[i].1, exact);
            }
        },
        _ => {},
    }
}

/// A value whose objects hold keys that are distinct under the chosen
/// comparison.
pub open spec fn keyed(j: JsonV, cs: bool) -> bool
    decreases j,
{
    match j {
        JsonV::Array(items) => forall|i: int| 0 <= i < items.len() ==> keyed(#[trigger] items[i], cs),
        JsonV::Object(ms) => {
            &&& forall|a: int, b: int| 0 <= a < b < ms.len() ==> !key_eq(#[trigger] ms[a].0, #[trigger] ms[b].0, cs)
            &&& forall|i: int| 0 <= i < ms.len() ==> keyed(#[trigger] ms[i].1, cs)
        },
        _ => true,
    }
}

/// Two values alike up to the order of object members, keys compared
/// under the chosen comparison: the same scalars, arrays of the same length
/// with alike items, objects with as many members where each member of `a`
/// has, under its key, an alike value in `b`.
pub open spec fn same_doc(a: JsonV, b: JsonV, cs: bool) -> bool
    decreases a,
{
    match (a, b) {
        (JsonV::Array(xs), JsonV::Array(ys)) => {
            &&& xs.len() == ys.len()
            &&& forall|i: int| 0 <= i < xs.len() ==> same_doc(#[trigger] xs[i], ys[i], cs)
        },
        (JsonV::Object(xs), JsonV::Object(ys)) => {
            &&& xs.len() == ys.len()
            &&& forall|i: int|
                0 <= i < xs.len() ==> match object_get(b, (#[trigger] xs[i]).0, cs) {
                    Some(v) => same_doc(xs[i].1, v, cs),
                    None => false,
                }
        },
        _ => a == b,
    }
}

/// Two C strings that compare equal byte for byte are the same string.
pub proof fn lemma_cstr_key_eq(a: Seq<u8>, b: Seq<u8>)
    requires
        is_cstr(a),
        is_cstr(b),
        key_order(a, b, true) == 0,
    ensures
        a == b,
    decreases a.len(),
{
    if a.len() == 0 || b.len() == 0 {
        assert(a.len() == 0 && b.len() == 0);
        assert(a =~= b);
    } else {
        assert(a[0] == b[0]);
        assert(key_order(a.drop_first(), b.drop_first(), true) == 0);
        lemma_cstr_key_eq(a.drop_first(), b.drop_first());
        assert(a =~= seq![a[0]] + a.drop_first());
        assert(b =~= seq![b[0]] + b.drop_first());
    }
}

/// Fit keys compare under the comparison at hand as they compare byte for
/// byte.
pub proof fn lemma_fit_key_order(a: Seq<u8>, b: Seq<u8>, cs: bool, exact: bool)
    requires
        fit_key(a, exact),
        fit_key(b, exact),
        exact ==> cs,
    ensures
        key_order(a, b, cs) == key_order(a, b, true),
    decreases a.len(),
{
    if !exact {
        if a.len() > 0 {
            assert(!(65 <= a[0] <= 90));
        }
        if b.len() > 0 {
            assert(!(65 <= b[0] <= 90));
        }
        if a.len() > 0 && b.len() > 0 && a[0] == b[0] {
            lemma_fit_key_order(a.drop_first(), b.drop_first(), cs, exact);
        }
    }
}

/// Fit keys are equal exactly when they compare equal under the
/// comparison at hand.
pub proof fn lemma_fit_key_eq(a: Seq<u8>, b: Seq<u8>, cs: bool, exact: bool)
    requires
        fit_key(a, exact),
        fit_key(b, exact),
        exact ==> cs,
    ensures
        key_eq(a, b, cs) == (a == b),
{
    lemma_fit_key_order(a, b, cs, exact);
    lemma_key_order_reflexive(a, true);
    if key_order(a, b, true) == 0 {
        assert forall|i: int| 0 <= i < a.len() implies a[i] != 0 by {}
        assert forall|i: int| 0 <= i < b.len() implies b[i] != 0 by {}
        lemma_cstr_key_eq(a, b);
    }
}

/// What `tidy` says of the members of an object.
pub proof fn lemma_tidy_object(xs: Seq<(Seq<u8>, JsonV)>, exact: bool)
    requires
        tidy(JsonV::Object(xs), exact),
    ensures
        forall|i: int| 0 <= i < xs.len() ==> fit_key(#[trigger] xs[i].0, exact),
        forall|a: int, b: int| 0 <= a < b < xs.len() ==> #[trigger] xs[a].0 != #[trigger] xs[b].0,
        forall|i: int| 0 <= i < xs.len() ==> tidy(#[trigger] xs[i].1, exact),
{
    let j = JsonV::Object(xs);
    assert(j->Object_0 == xs);
}

/// Among members with fit keys, the first whose key matches a fit key
/// under the comparison at hand is the first with that very key.
pub proof fn lemma_first_key_match_at(ms: Seq<(Seq<u8>, JsonV)>, k: Seq<u8>, pos: int, cs: bool, exact: bool)
    requires
        exact ==> cs,
        forall|i: int| 0 <= i < ms.len() ==> fit_key(#[trigger] ms[i].0, exact),
        fit_key(k, exact),
        0 <= pos <= ms.len(),
        forall|j: int| 0 <= j < pos ==> (#[trigger] ms[j]).0 != k,
        pos == ms.len() || ms[pos].0 == k,
    ensures
        first_key_match(ms, k, cs) == pos,
{
    let f = |m: (Seq<u8>, JsonV)| key_eq(k, m.0, cs);
    assert forall|j: int| 0 <= j < pos implies !f(#[trigger] ms[j]) by {
        lemma_fit_key_eq(k, ms[j].0, cs, exact);
    }
    if pos < ms.len() {
        lemma_fit_key_eq(k, ms[pos].0, cs, exact);
    }
    lemma_first_where_at(ms, f, pos);
}

/// Some member of `ns` has a key equal to that of `m` under the chosen
/// comparison, and a value alike to its value.
pub open spec fn found_in(m: (Seq<u8>, JsonV), ns: Seq<(Seq<u8>, JsonV)>, cs: bool) -> bool {
    exists|j: int| 0 <= j < ns.len() && key_eq(m.0, (#[trigger] ns[j]).0, cs) && same_doc(m.1, ns[j].1, cs)
}

/// Every member of `ms` is found in `ns`.
pub open spec fn members_match(ms: Seq<(Seq<u8>, JsonV)>, ns: Seq<(Seq<u8>, JsonV)>, cs: bool) -> bool {
    forall|i: int| 0 <= i < ms.len() ==> found_in(#[trigger] ms[i], ns, cs)
}

pub proof fn lemma_found_shift(m: (Seq<u8>, JsonV), ns: Seq<(Seq<u8>, JsonV)>, cs: bool)
    requires
        ns.len() > 0,
        found_in(m, ns.drop_first(), cs),
    ensures
        found_in(m, ns, cs),
{
    let t = ns.drop_first();
    let j = choose|j: int| 0 <= j < t.len() && key_eq(m.0, (#[trigger] t[j]).0, cs) && same_doc(m.1, t[j].1, cs);
    assert(ns[j + 1] == t[j]);
}

pub proof fn lemma_members_match_shift(ms: Seq<(Seq<u8>, JsonV)>, ns: Seq<(Seq<u8>, JsonV)>, cs: bool)
    requires
        ns.len() > 0,
        members_match(ms, ns.drop_first(), cs),
    ensures
        members_match(ms, ns, cs),
{
    assert forall|i: int| 0 <= i < ms.len() implies found_in(#[trigger] ms[i], ns, cs) by {
        lemma_found_shift(ms[i], ns, cs);
    }
}

pub proof fn lemma_members_match_cons(
    m: (Seq<u8>, JsonV),
    ms: Seq<(Seq<u8>, JsonV)>,
    ns: Seq<(Seq<u8>, JsonV)>,
    cs: bool,
)
    requires
        ns.len() > 0,
        key_eq(m.0, ns[0].0, cs),
        same_doc(m.1, ns[0].1, cs),
        members_match(ms, ns.drop_first(), cs),
    ensures
        members_match(seq![m] + ms, ns, cs),
{
    lemma_members_match_shift(ms, ns, cs);
    let s = seq![m] + ms;
    assert forall|i: int| 0 <= i < s.len() implies found_in(#[trigger] s[i], ns, cs) by {
        if i == 0 {
            assert(s[0] == m);
            assert(key_eq(m.0, ns[0].0, cs) && same_doc(m.1, ns[0].1, cs));
        } else {
            assert(s[i] == ms[i - 1]);
        }
    }
}

/// What `keyed` says of the members of an object.
pub proof fn lemma_keyed_object(xs: Seq<(Seq<u8>, JsonV)>, cs: bool)
    requires
        keyed(JsonV::Object(xs), cs),
    ensures
        forall|a: int, b: int| 0 <= a < b < xs.len() ==> !key_eq(#[trigger] xs[a].0, #[trigger] xs[b].0, cs),
        forall|i: int| 0 <= i < xs.len() ==> keyed(#[trigger] xs[i].1, cs),
{
    let j = JsonV::Object(xs);
    assert(j->Object_0 == xs);
}

/// A tidy value is keyed under the comparison at hand.
pub proof fn lemma_tidy_keyed(j: JsonV, cs: bool, exact: bool)
    requires
        exact ==> cs,
        tidy(j, exact),
    ensures
        keyed(j, cs),
    decreases height(j),
{
    match j {
        JsonV::Array(xs) => {
            assert forall|i: int| 0 <= i < xs.len() implies keyed(#[trigger] xs[i], cs) by {
                lemma_items_height(xs, i);
                lemma_tidy_keyed(xs[i], cs, exact);
            }
        },
        JsonV::Object(xs) => {
            lemma_tidy_object(xs, exact);
            assert forall|a: int, b: int| 0 <= a < b < xs.len() implies !key_eq(
                #[trigger] xs[a].0,
                #[trigger] xs[b].0,
                cs,
            ) by {
                lemma_fit_key_eq(xs[a].0, xs[b].0, cs, exact);
            }
            assert forall|i: int| 0 <= i < xs.len() implies keyed(#[trigger] xs[i].1, cs) by {
                lemma_members_height(xs, i);
                lemma_tidy_keyed(xs[i].1, cs, exact);
            }
            let o = JsonV::Object(xs);
            assert(o->Object_0 == xs);
        },
        _ => {},
    }
}

/// The first member whose key equals `k` under the comparison, where none
/// before position `pos` does and the one there does.
pub proof fn lemma_first_match_at(ms: Seq<(Seq<u8>, JsonV)>, k: Seq<u8>, pos: int, cs: bool)
    requires
        0 <= pos <= ms.len(),
        forall|j: int| 0 <= j < pos ==> !key_eq(k, (#[trigger] ms[j]).0, cs),
        pos == ms.len() || key_eq(k, ms[pos].0, cs),
    ensures
        first_key_match(ms, k, cs) == pos,
{
    lemma_first_where_at(ms, |m: (Seq<u8>, JsonV)| key_eq(k, m.0, cs), pos);
}

/// Every keyed value is alike to itself.
pub proof fn lemma_same_refl_keyed(a: JsonV, cs: bool)
    requires
        keyed(a, cs),
    ensures
        same_doc(a, a, cs),
    decreases height(a),
{
    match a {
        JsonV::Array(xs) => {
            assert forall|i: int| 0 <= i < xs.len() implies same_doc(#[trigger] xs[i], xs[i], cs) by {
                lemma_items_height(xs, i);
                lemma_same_refl_keyed(xs[i], cs);
            }
        },
        JsonV::Object(xs) => {
            lemma_keyed_object(xs, cs);
            assert forall|i: int| 0 <= i < xs.len() implies match object_get(a, (#[trigger] xs[i]).0, cs) {
                Some(v) => same_doc(xs[i].1, v, cs),
                None => false,
            } by {
                assert forall|j: int| 0 <= j < i implies !key_eq(xs[i].0, (#[trigger] xs[j]).0, cs) by {
                    assert(!key_eq(xs[j].0, xs[i].0, cs));
                    lemma_key_order_antisymmetric(xs[j].0, xs[i].0, cs);
                }
                lemma_key_order_reflexive(xs[i].0, cs);
                lemma_first_match_at(xs, xs[i].0, i, cs);
                lemma_members_height(xs, i);
                lemma_same_refl_keyed(xs[i].1, cs);
            }
        },
        _ => {},
    }
}

/// Every tidy value is alike to itself.
pub proof fn lemma_same_refl(a: JsonV, cs: bool, exact: bool)
    requires
        exact ==> cs,
        tidy(a, exact),
    ensures
        same_doc(a, a, cs),
{
    lemma_tidy_keyed(a, cs, exact);
    lemma_same_refl_keyed(a, cs);
}

/// An object whose members are all found, one for one, among the members
/// of a keyed object (given in any order) is alike to it.
#[verifier::spinoff_prover]
#[verifier::rlimit(40)]
pub proof fn lemma_object_same_keyed(
    ms: Seq<(Seq<u8>, JsonV)>,
    sy: Seq<(Seq<u8>, JsonV)>,
    ys: Seq<(Seq<u8>, JsonV)>,
    cs: bool,
)
    requires
        keyed(JsonV::Object(ys), cs),
        sy.len() == ys.len(),
        forall|j: int| 0 <= j < sy.len() ==> ys.contains(#[trigger] sy[j]),
        members_match(ms, sy, cs),
        ms.len() == sy.len(),
    ensures
        same_doc(JsonV::Object(ms), JsonV::Object(ys), cs),
{
    let b = JsonV::Object(ys);
    lemma_keyed_object(ys, cs);
    assert forall|i: int| 0 <= i < ms.len() implies match object_get(b, (#[trigger] ms[i]).0, cs) {
        Some(v) => same_doc(ms[i].1, v, cs),
        None => false,
    } by {
        assert(found_in(ms[i], sy, cs));
        let j = choose|j: int|
            0 <= j < sy.len() && key_eq(ms[i].0, (#[trigger] sy[j]).0, cs) && same_doc(ms[i].1, sy[j].1, cs);
        assert(ys.contains(sy[j]));
        let a = choose|a: int| 0 <= a < ys.len() && ys[a] == sy[j];
        assert forall|q: int| 0 <= q < a implies !key_eq(ms[i].0, (#[trigger] ys[q]).0, cs) by {
            lemma_key_eq_congruent(ms[i].0, ys[a].0, ys[q].0, cs);
            assert(!key_eq(ys[q].0, ys[a].0, cs));
            lemma_key_order_antisymmetric(ys[q].0, ys[a].0, cs);
        }
        lemma_first_match_at(ys, ms[i].0, a, cs);
    }
    let a = JsonV::Object(ms);
    assert(a->Object_0 == ms);
    assert(b->Object_0 == ys);
}

/// An object whose members are all found, one for one, among the members
/// of a tidy object (given in any order) is alike to it.
pub proof fn lemma_object_same(
    ms: Seq<(Seq<u8>, JsonV)>,
    sy: Seq<(Seq<u8>, JsonV)>,
    ys: Seq<(Seq<u8>, JsonV)>,
    cs: bool,
    exact: bool,
)
    requires
        exact ==> cs,
        tidy(JsonV::Object(ys), exact),
        sy.len() == ys.len(),
        forall|j: int| 0 <= j < sy.len() ==> ys.contains(#[trigger] sy[j]),
        members_match(ms, sy, cs),
        ms.len() == sy.len(),
    ensures
        same_doc(JsonV::Object(ms), JsonV::Object(ys), cs),
{
    lemma_tidy_keyed(JsonV::Object(ys), cs, exact);
    lemma_object_same_keyed(ms, sy, ys, cs);
}

/// The keys strictly increase under the comparison.
pub open spec fn increasing(ms: Seq<(Seq<u8>, JsonV)>, cs: bool) -> bool {
    forall|i: int, j: int| 0 <= i < j < ms.len() ==> key_order(#[trigger] ms[i].0, #[trigger] ms[j].0, cs) < 0
}

/// Every key of `ms` comes, under the comparison, before every key of `ns`.
pub open spec fn below(ms: Seq<(Seq<u8>, JsonV)>, ns: Seq<(Seq<u8>, JsonV)>, cs: bool) -> bool {
    forall|i: int, j: int|
        0 <= i < ms.len() && 0 <= j < ns.len() ==> key_order(#[trigger] ms[i].0, #[trigger] ns[j].0, cs) < 0
}

/// A key that compares below another is neither that key nor equal to it
/// under the comparison, either way round.
pub proof fn lemma_below_ne(a: Seq<u8>, b: Seq<u8>, cs: bool)
    requires
        key_order(a, b, cs) < 0,
    ensures
        a != b,
        !key_eq(a, b, cs),
        !key_eq(b, a, cs),
{
    lemma_key_order_reflexive(a, cs);
    lemma_key_order_antisymmetric(a, b, cs);
}

pub proof fn lemma_increasing_drop(ms: Seq<(Seq<u8>, JsonV)>, cs: bool)
    requires
        increasing(ms, cs),
        ms.len() > 0,
    ensures
        increasing(ms.drop_first(), cs),
        forall|j: int| 0 <= j < ms.drop_first().len() ==> key_order(ms[0].0, #[trigger] ms.drop_first()[j].0, cs) < 0,
{
    let t = ms.drop_first();
    assert forall|i: int, j: int| 0 <= i < j < t.len() implies key_order(#[trigger] t[i].0, #[trigger] t[j].0, cs)
        < 0 by {
        assert(t[i] == ms[i + 1] && t[j] == ms[j + 1]);
    }
    assert forall|j: int| 0 <= j < t.len() implies key_order(ms[0].0, #[trigger] t[j].0, cs) < 0 by {
        assert(t[j] == ms[j + 1]);
    }
}

pub proof fn lemma_below_drop(ms: Seq<(Seq<u8>, JsonV)>, ns: Seq<(Seq<u8>, JsonV)>, cs: bool)
    requires
        below(ms, ns, cs),
        ns.len() > 0,
    ensures
        below(ms, ns.drop_first(), cs),
{
    let t = ns.drop_first();
    assert forall|i: int, j: int| 0 <= i < ms.len() && 0 <= j < t.len() implies key_order(
        #[trigger] ms[i].0,
        #[trigger] t[j].0,
        cs,
    ) < 0 by {
        assert(t[j] == ns[j + 1]);
    }
}

pub proof fn lemma_below_push(ms: Seq<(Seq<u8>, JsonV)>, x: (Seq<u8>, JsonV), ns: Seq<(Seq<u8>, JsonV)>, cs: bool)
    requires
        below(ms, ns, cs),
        forall|j: int| 0 <= j < ns.len() ==> key_order(x.0, #[trigger] ns[j].0, cs) < 0,
    ensures
        below(ms.push(x), ns, cs),
{
    let m = ms.push(x);
    assert forall|i: int, j: int| 0 <= i < m.len() && 0 <= j < ns.len() implies key_order(
        #[trigger] m[i].0,
        #[trigger] ns[j].0,
        cs,
    ) < 0 by {
        if i < ms.len() {
            assert(m[i] == ms[i]);
        }
    }
}

/// A key below, or equal under the comparison to, the first of increasing
/// keys is below the others.
pub proof fn lemma_before_all(k: Seq<u8>, ns: Seq<(Seq<u8>, JsonV)>, cs: bool)
    requires
        increasing(ns, cs),
        ns.len() > 0,
        key_order(k, ns[0].0, cs) <= 0,
    ensures
        forall|j: int| 0 < j < ns.len() ==> key_order(k, #[trigger] ns[j].0, cs) < 0,
        key_order(k, ns[0].0, cs) < 0 ==> forall|j: int| 0 <= j < ns.len() ==> key_order(k, #[trigger] ns[j].0, cs)
            < 0,
{
    assert forall|j: int| 0 < j < ns.len() implies key_order(k, #[trigger] ns[j].0, cs) < 0 by {
        assert(key_order(ns[0].0, ns[j].0, cs) < 0);
        lemma_key_order_transitive(k, ns[0].0, ns[j].0, cs);
    }
}

/// Every member has a fit key.
pub open spec fn fit_keys(ms: Seq<(Seq<u8>, JsonV)>, exact: bool) -> bool {
    forall|i: int| 0 <= i < ms.len() ==> fit_key(#[trigger] ms[i].0, exact)
}

pub proof fn lemma_fit_keys_drop(ms: Seq<(Seq<u8>, JsonV)>, exact: bool)
    requires
        fit_keys(ms, exact),
        ms.len() > 0,
    ensures
        fit_keys(ms.drop_first(), exact),
{
    assert forall|i: int| 0 <= i < ms.drop_first().len() implies fit_key(#[trigger] ms.drop_first()[i].0, exact) by {
        assert(ms.drop_first()[i] == ms[i + 1]);
    }
}

pub proof fn lemma_fit_keys_push(ms: Seq<(Seq<u8>, JsonV)>, x: (Seq<u8>, JsonV), exact: bool)
    requires
        fit_keys(ms, exact),
        fit_key(x.0, exact),
    ensures
        fit_keys(ms.push(x), exact),
{
    let m = ms.push(x);
    assert forall|i: int| 0 <= i < m.len() implies fit_key(#[trigger] m[i].0, exact) by {
        if i < ms.len() {
            assert(m[i] == ms[i]);
        }
    }
}

/// The members of a tidy object sorted by key: as many, each a member of
/// the object, with fit keys in strictly increasing order.
pub proof fn lemma_sorted_tidy(xs: Seq<(Seq<u8>, JsonV)>, cs: bool, exact: bool)
    requires
        exact ==> cs,
        tidy(JsonV::Object(xs), exact),
    ensures
        merge_sort(xs, key_lt(cs)).len() == xs.len(),
        fit_keys(merge_sort(xs, key_lt(cs)), exact),
        increasing(merge_sort(xs, key_lt(cs)), true),
        forall|i: int|
            0 <= i < xs.len() ==> tidy((#[trigger] merge_sort(xs, key_lt(cs))[i]).1, exact) && height(
                merge_sort(xs, key_lt(cs))[i].1,
            ) < height(JsonV::Object(xs)),
        forall|i: int| 0 <= i < xs.len() ==> xs.contains(#[trigger] merge_sort(xs, key_lt(cs))[i]),
{
    let lt = key_lt(cs);
    let sx = merge_sort(xs, lt);
    lemma_tidy_object(xs, exact);
    lemma_merge_sort_multiset(xs, lt);
    lemma_key_lt_order(cs);
    lemma_merge_sort_sorted(xs, lt);
    assert forall|i: int| 0 <= i < xs.len() implies xs.contains(#[trigger] sx[i]) by {
        lemma_merge_sort_contains(xs, lt, i);
    }
    assert(xs.no_duplicates()) by {
        assert forall|i: int, j: int| 0 <= i < xs.len() && 0 <= j < xs.len() && i != j implies xs[i] != xs[j] by {
            if i < j {
                assert(xs[i].0 != xs[j].0);
            } else {
                assert(xs[j].0 != xs[i].0);
            }
        }
    }
    xs.lemma_multiset_has_no_duplicates();
    sx.lemma_multiset_has_no_duplicates_conv();
    assert forall|i: int| 0 <= i < xs.len() implies fit_key(#[trigger] sx[i].0, exact) by {
        let a = choose|a: int| 0 <= a < xs.len() && xs[a] == sx[i];
        assert(fit_key(xs[a].0, exact));
    }
    assert forall|i: int| 0 <= i < xs.len() implies tidy(#[trigger] sx[i].1, exact) && height(sx[i].1) < height(
        JsonV::Object(xs),
    ) by {
        let a = choose|a: int| 0 <= a < xs.len() && xs[a] == sx[i];
        assert(tidy(xs[a].1, exact));
        lemma_members_height(xs, a);
    }
    assert forall|i: int, j: int| 0 <= i < j < sx.len() implies key_order(
        #[trigger] sx[i].0,
        #[trigger] sx[j].0,
        true,
    ) < 0 by {
        assert(!lt(sx[j], sx[i]));
        lemma_fit_key_order(sx[j].0, sx[i].0, cs, exact);
        lemma_key_order_antisymmetric(sx[j].0, sx[i].0, true);
        let a = choose|a: int| 0 <= a < xs.len() && xs[a] == sx[i];
        let b = choose|b: int| 0 <= b < xs.len() && xs[b] == sx[j];
        assert(sx[i] != sx[j]);
        assert(a != b);
        if a < b {
            assert(xs[a].0 != xs[b].0);
        } else {
            assert(xs[b].0 != xs[a].0);
        }
        lemma_fit_key_eq(sx[i].0, sx[j].0, true, exact);
    }
}

/// Keys that compare equal match the same keys.
pub proof fn lemma_key_eq_congruent(k1: Seq<u8>, k2: Seq<u8>, m: Seq<u8>, cs: bool)
    requires
        key_eq(k1, k2, cs),
    ensures
        key_eq(k1, m, cs) == key_eq(k2, m, cs),
{
    lemma_key_order_antisymmetric(k1, k2, cs);
    lemma_key_order_antisymmetric(k1, m, cs);
    lemma_key_order_antisymmetric(k2, m, cs);
    if key_eq(k1, m, cs) {
        lemma_key_order_transitive(k2, k1, m, cs);
        lemma_key_order_transitive(m, k1, k2, cs);
    }
    if key_eq(k2, m, cs) {
        lemma_key_order_transitive(k1, k2, m, cs);
        lemma_key_order_transitive(m, k2, k1, cs);
    }
}

/// Looking up keys that compare equal finds the same member.
pub proof fn lemma_object_get_congruent(j: JsonV, k1: Seq<u8>, k2: Seq<u8>, cs: bool)
    requires
        key_eq(k1, k2, cs),
    ensures
        object_get(j, k1, cs) == object_get(j, k2, cs),
{
    match j {
        JsonV::Object(ms) => {
            let f = |m: (Seq<u8>, JsonV)| key_eq(k1, m.0, cs);
            let g = |m: (Seq<u8>, JsonV)| key_eq(k2, m.0, cs);
            assert forall|m: (Seq<u8>, JsonV)| #[trigger] f(m) == g(m) by {
                lemma_key_eq_congruent(k1, k2, m.0, cs);
            }
            assert(f =~= g);
        },
        _ => {},
    }
}

/// Likeness carries over: a value alike to a value alike to a third is
/// alike to the third.
pub proof fn lemma_same_trans(a: JsonV, b: JsonV, c: JsonV, cs: bool)
    requires
        same_doc(a, b, cs),
        same_doc(b, c, cs),
    ensures
        same_doc(a, c, cs),
    decreases height(a),
{
    match (a, b, c) {
        (JsonV::Array(xs), JsonV::Array(ys), JsonV::Array(zs)) => {
            assert forall|i: int| 0 <= i < xs.len() implies same_doc(#[trigger] xs[i], zs[i], cs) by {
                lemma_items_height(xs, i);
                assert(same_doc(xs[i], ys[i], cs));
                assert(same_doc(ys[i], zs[i], cs));
                lemma_same_trans(xs[i], ys[i], zs[i], cs);
            }
        },
        (JsonV::Object(xs), JsonV::Object(ys), JsonV::Object(zs)) => {
            assert forall|i: int| 0 <= i < xs.len() implies match object_get(c, (#[trigger] xs[i]).0, cs) {
                Some(v) => same_doc(xs[i].1, v, cs),
                None => false,
            } by {
                let k = xs[i].0;
                assert(match object_get(b, xs[i].0, cs) {
                    Some(v) => same_doc(xs[i].1, v, cs),
                    None => false,
                });
                let f = |m: (Seq<u8>, JsonV)| key_eq(k, m.0, cs);
                lemma_first_where(ys, f);
                let q = first_key_match(ys, k, cs);
                assert(0 <= q < ys.len());
                assert(key_eq(k, ys[q].0, cs));
                assert(match object_get(c, (ys[q]).0, cs) {
                    Some(v) => same_doc(ys[q].1, v, cs),
                    None => false,
                });
                lemma_object_get_congruent(c, k, ys[q].0, cs);
                lemma_members_height(xs, i);
                let vc = object_get(c, k, cs).unwrap();
                lemma_same_trans(xs[i].1, ys[q].1, vc, cs);
            }
            let aa = JsonV::Object(xs);
            assert(aa->Object_0 == xs);
        },
        _ => {},
    }
}

} // verus!
