//! Structural comparison of JSON values (`compare_json`). Objects are
//! compared after sorting their members by key, and that sorting is left in
//! place: the comparison rearranges the objects it reaches.

use vstd::prelude::*;
use crate::json::{
    Json, JsonV, Member, items_view, members_view, height, same_kind, lemma_items_height,
    lemma_members_height, items_height, members_height, lemma_items_height_bound,
    lemma_members_height_bound,
};
use crate::strings::{
    key_eq, key_order, compare_strings, lemma_key_order_reflexive, lemma_key_order_antisymmetric,
};
use crate::sort::{
    merge_sort, key_lt, sort_object, lemma_merge_sort_contains, lemma_merge_sort_multiset,
};

verus! {

/// Compares two values; gives whether they are equal, and both values as
/// the comparison leaves them (objects that it reaches come out sorted by
/// key). Values of different types differ; numbers and strings compare by
/// value; arrays item by item, stopping at the first difference; objects,
/// once sorted, member by member (key, then value); other values of the same
/// type are equal.
pub open spec fn compare_spec(a: JsonV, b: JsonV, case_sensitive: bool) -> (bool, JsonV, JsonV)
    decreases height(a) + 1, 0nat,
{
    if !same_kind(a, b) {
        (false, a, b)
    } else {
        match (a, b) {
            (JsonV::Number(x), JsonV::Number(y)) => (x == y, a, b),
            (JsonV::String(x), JsonV::String(y)) => (key_eq(x, y, true), a, b),
            (JsonV::Array(xs), JsonV::Array(ys)) => {
                let (r, xs2, ys2) = compare_items_spec(xs, ys, case_sensitive, height(a));
                (r, JsonV::Array(xs2), JsonV::Array(ys2))
            },
            (JsonV::Object(xs), JsonV::Object(ys)) => {
                let sx = merge_sort(xs, key_lt(case_sensitive));
                let sy = merge_sort(ys, key_lt(case_sensitive));
                let (r, xs2, ys2) = compare_members_spec(sx, sy, case_sensitive, height(a));
                (r, JsonV::Object(xs2), JsonV::Object(ys2))
            },
            _ => (true, a, b),
        }
    }
}

/// Compares array items pairwise, stopping at the first difference; the
/// items must be lower than `h` (the height of the arrays' parent).
pub open spec fn compare_items_spec(xs: Seq<JsonV>, ys: Seq<JsonV>, case_sensitive: bool, h: nat) -> (
    bool,
    Seq<JsonV>,
    Seq<JsonV>,
)
    decreases h, xs.len(),
{
    if xs.len() == 0 || ys.len() == 0 {
        (xs.len() == 0 && ys.len() == 0, xs, ys)
    } else if height(xs[0]) >= h {
        (false, xs, ys)
    } else {
        let (r, x0, y0) = compare_spec(xs[0], ys[0], case_sensitive);
        if !r {
            (false, xs.update(0, x0), ys.update(0, y0))
        } else {
            let (r2, xr, yr) = compare_items_spec(xs.drop_first(), ys.drop_first(), case_sensitive, h);
            (r2, seq![x0] + xr, seq![y0] + yr)
        }
    }
}

/// Compares object members pairwise (key, then value), stopping at the
/// first difference; the values must be lower than `h`.
pub open spec fn compare_members_spec(
    xs: Seq<(Seq<u8>, JsonV)>,
    ys: Seq<(Seq<u8>, JsonV)>,
    case_sensitive: bool,
    h: nat,
) -> (bool, Seq<(Seq<u8>, JsonV)>, Seq<(Seq<u8>, JsonV)>)
    decreases h, xs.len(),
{
    if xs.len() == 0 || ys.len() == 0 {
        (xs.len() == 0 && ys.len() == 0, xs, ys)
    } else if key_order(xs[0].0, ys[0].0, case_sensitive) != 0 {
        (false, xs, ys)
    } else if height(xs[0].1) >= h {
        (false, xs, ys)
    } else {
        let (r, x0, y0) = compare_spec(xs[0].1, ys[0].1, case_sensitive);
        if !r {
            (false, xs.update(0, (xs[0].0, x0)), ys.update(0, (ys[0].0, y0)))
        } else {
            let (r2, xr, yr) = compare_members_spec(
                xs.drop_first(),
                ys.drop_first(),
                case_sensitive,
                h,
            );
            (r2, seq![(xs[0].0, x0)] + xr, seq![(ys[0].0, y0)] + yr)
        }
    }
}


/// Comparing never makes a value deeper.
pub proof fn lemma_compare_height(a: JsonV, b: JsonV, case_sensitive: bool)
    ensures
        height(compare_spec(a, b, case_sensitive).1) <= height(a),
        height(compare_spec(a, b, case_sensitive).2) <= height(b),
    decreases height(a) + 1, 0nat,
{
    if same_kind(a, b) {
        match (a, b) {
            (JsonV::Array(xs), JsonV::Array(ys)) => {
                let c = compare_items_spec(xs, ys, case_sensitive, height(a));
                lemma_compare_items_height(xs, ys, case_sensitive, height(a));
                assert forall|k: int| 0 <= k < c.1.len() implies height(#[trigger] c.1[k]) <= items_height(xs) by {
                    lemma_items_height(xs, k);
                }
                assert forall|k: int| 0 <= k < c.2.len() implies height(#[trigger] c.2[k]) <= items_height(ys) by {
                    lemma_items_height(ys, k);
                }
                lemma_items_height_bound(c.1, items_height(xs));
                lemma_items_height_bound(c.2, items_height(ys));
            },
            (JsonV::Object(xs), JsonV::Object(ys)) => {
                let sx = merge_sort(xs, key_lt(case_sensitive));
                let sy = merge_sort(ys, key_lt(case_sensitive));
                let c = compare_members_spec(sx, sy, case_sensitive, height(a));
                lemma_merge_sort_multiset(xs, key_lt(case_sensitive));
                lemma_merge_sort_multiset(ys, key_lt(case_sensitive));
                lemma_compare_members_height(sx, sy, case_sensitive, height(a));
                assert forall|k: int| 0 <= k < c.1.len() implies height(#[trigger] c.1[k].1) <= members_height(xs) by {
                    lemma_merge_sort_contains(xs, key_lt(case_sensitive), k);
                    let i = choose|i: int| 0 <= i < xs.len() && xs[i] == sx[k];
                    lemma_members_height(xs, i);
                }
                assert forall|k: int| 0 <= k < c.2.len() implies height(#[trigger] c.2[k].1) <= members_height(ys) by {
                    lemma_merge_sort_contains(ys, key_lt(case_sensitive), k);
                    let i = choose|i: int| 0 <= i < ys.len() && ys[i] == sy[k];
                    lemma_members_height(ys, i);
                }
                lemma_members_height_bound(c.1, members_height(xs));
                lemma_members_height_bound(c.2, members_height(ys));
            },
            _ => {},
        }
    }
}

proof fn lemma_compare_items_height(xs: Seq<JsonV>, ys: Seq<JsonV>, case_sensitive: bool, h: nat)
    ensures
        ({
            let c = compare_items_spec(xs, ys, case_sensitive, h);
            &&& c.1.len() == xs.len()
            &&& c.2.len() == ys.len()
            &&& forall|k: int| 0 <= k < xs.len() ==> height(#[trigger] c.1[k]) <= height(xs[k])
            &&& forall|k: int| 0 <= k < ys.len() ==> height(#[trigger] c.2[k]) <= height(ys[k])
        }),
    decreases h, xs.len(),
{
    if xs.len() == 0 || ys.len() == 0 {
    } else if height(xs[0]) >= h {
    } else {
        lemma_compare_height(xs[0], ys[0], case_sensitive);
        lemma_compare_items_height(xs.drop_first(), ys.drop_first(), case_sensitive, h);
        let c = compare_items_spec(xs, ys, case_sensitive, h);
        assert forall|k: int| 0 <= k < xs.len() implies height(#[trigger] c.1[k]) <= height(xs[k]) by {
            if k > 0 {
                assert(xs[k] == xs.drop_first()[k - 1]);
            }
        }
        assert forall|k: int| 0 <= k < ys.len() implies height(#[trigger] c.2[k]) <= height(ys[k]) by {
            if k > 0 {
                assert(ys[k] == ys.drop_first()[k - 1]);
            }
        }
    }
}

proof fn lemma_compare_members_height(
    xs: Seq<(Seq<u8>, JsonV)>,
    ys: Seq<(Seq<u8>, JsonV)>,
    case_sensitive: bool,
    h: nat,
)
    ensures
        ({
            let c = compare_members_spec(xs, ys, case_sensitive, h);
            &&& c.1.len() == xs.len()
            &&& c.2.len() == ys.len()
            &&& forall|k: int| 0 <= k < xs.len() ==> height(#[trigger] c.1[k].1) <= height(xs[k].1)
            &&& forall|k: int| 0 <= k < ys.len() ==> height(#[trigger] c.2[k].1) <= height(ys[k].1)
        }),
    decreases h, xs.len(),
{
    if xs.len() == 0 || ys.len() == 0 {
    } else if key_order(xs[0].0, ys[0].0, case_sensitive) != 0 {
    } else if height(xs[0].1) >= h {
    } else {
        lemma_compare_height(xs[0].1, ys[0].1, case_sensitive);
        lemma_compare_members_height(xs.drop_first(), ys.drop_first(), case_sensitive, h);
        let c = compare_members_spec(xs, ys, case_sensitive, h);
        assert forall|k: int| 0 <= k < xs.len() implies height(#[trigger] c.1[k].1) <= height(xs[k].1) by {
            if k > 0 {
                assert(xs[k] == xs.drop_first()[k - 1]);
            }
        }
        assert forall|k: int| 0 <= k < ys.len() implies height(#[trigger] c.2[k].1) <= height(ys[k].1) by {
            if k > 0 {
                assert(ys[k] == ys.drop_first()[k - 1]);
            }
        }
    }
}

proof fn lemma_compare_items_unfold(xs: Seq<JsonV>, ys: Seq<JsonV>, case_sensitive: bool, h: nat)
    requires
        xs.len() > 0,
        ys.len() > 0,
        height(xs[0]) < h,
    ensures
        ({
            let c = compare_spec(xs[0], ys[0], case_sensitive);
            let t = compare_items_spec(xs.drop_first(), ys.drop_first(), case_sensitive, h);
            compare_items_spec(xs, ys, case_sensitive, h) == if !c.0 {
                (false, xs.update(0, c.1), ys.update(0, c.2))
            } else {
                (t.0, seq![c.1] + t.1, seq![c.2] + t.2)
            }
        }),
{
}

proof fn lemma_compare_members_unfold(
    xs: Seq<(Seq<u8>, JsonV)>,
    ys: Seq<(Seq<u8>, JsonV)>,
    case_sensitive: bool,
    h: nat,
)
    requires
        xs.len() > 0,
        ys.len() > 0,
        height(xs[0].1) < h,
        key_order(xs[0].0, ys[0].0, case_sensitive) == 0,
    ensures
        ({
            let c = compare_spec(xs[0].1, ys[0].1, case_sensitive);
            let t = compare_members_spec(xs.drop_first(), ys.drop_first(), case_sensitive, h);
            compare_members_spec(xs, ys, case_sensitive, h) == if !c.0 {
                (false, xs.update(0, (xs[0].0, c.1)), ys.update(0, (ys[0].0, c.2)))
            } else {
                (t.0, seq![(xs[0].0, c.1)] + t.1, seq![(ys[0].0, c.2)] + t.2)
            }
        }),
{
}

fn compare_items(xs: &mut Vec<Json>, ys: &mut Vec<Json>, case_sensitive: bool, Ghost(h): Ghost<nat>) -> (r: bool)
    requires
        forall|k: int| 0 <= k < old(xs)@.len() ==> height(#[trigger] items_view(old(xs)@)[k]) < h,
    ensures
        (r, items_view(final(xs)@), items_view(final(ys)@)) == compare_items_spec(
            items_view(old(xs)@),
            items_view(old(ys)@),
            case_sensitive,
            h,
        ),
    decreases h, 1nat,
{
    let ghost ox = items_view(xs@);
    let ghost oy = items_view(ys@);
    let mut i: usize = 0;
    proof {
        assert(ox.skip(0) =~= ox);
        assert(oy.skip(0) =~= oy);
        assert(items_view(xs@).take(0) + ox =~= ox);
        assert(items_view(ys@).take(0) + oy =~= oy);
    }
    while i < xs.len() && i < ys.len()
        invariant
            ox == items_view(old(xs)@),
            oy == items_view(old(ys)@),
            xs@.len() == ox.len(),
            ys@.len() == oy.len(),
            i <= xs@.len(),
            i <= ys@.len(),
            forall|k: int| i <= k < xs@.len() ==> #[trigger] items_view(xs@)[k] == ox[k],
            forall|k: int| i <= k < ys@.len() ==> #[trigger] items_view(ys@)[k] == oy[k],
            forall|k: int| 0 <= k < ox.len() ==> height(#[trigger] ox[k]) < h,
            compare_items_spec(ox, oy, case_sensitive, h) == ({
                let t = compare_items_spec(ox.skip(i as int), oy.skip(i as int), case_sensitive, h);
                (t.0, items_view(xs@).take(i as int) + t.1, items_view(ys@).take(i as int) + t.2)
            }),
        decreases xs@.len() - i,
    {
        let ghost bx = items_view(xs@);
        let ghost by = items_view(ys@);
        proof {
            assert(bx[i as int] == ox[i as int]);
            assert(by[i as int] == oy[i as int]);
            assert(ox.skip(i as int)[0] == ox[i as int]);
            assert(oy.skip(i as int)[0] == oy[i as int]);
            assert(ox.skip(i as int).drop_first() =~= ox.skip(i + 1));
            assert(oy.skip(i as int).drop_first() =~= oy.skip(i + 1));
            lemma_compare_items_unfold(ox.skip(i as int), oy.skip(i as int), case_sensitive, h);
        }
        let r = compare_json(&mut xs[i], &mut ys[i], case_sensitive);
        proof {
            crate::json::lemma_items_view_update(xs@, i as int, xs@[i as int]);
        }
        let ghost x0 = items_view(xs@)[i as int];
        let ghost y0 = items_view(ys@)[i as int];
        assert(items_view(xs@) =~= bx.update(i as int, x0));
        assert(items_view(ys@) =~= by.update(i as int, y0));
        if !r {
            proof {
                assert(items_view(xs@) =~= bx.take(i as int) + ox.skip(i as int).update(0, x0));
                assert(items_view(ys@) =~= by.take(i as int) + oy.skip(i as int).update(0, y0));
                assert(compare_items_spec(ox, oy, case_sensitive, h) == (false, items_view(xs@), items_view(ys@)));
            }
            return false;
        }
        proof {
            assert(items_view(xs@).take(i + 1) =~= bx.take(i as int) + seq![x0]);
            assert(items_view(ys@).take(i + 1) =~= by.take(i as int) + seq![y0]);
            let t = compare_items_spec(ox.skip(i + 1), oy.skip(i + 1), case_sensitive, h);
            assert(bx.take(i as int) + (seq![x0] + t.1) =~= items_view(xs@).take(i + 1) + t.1);
            assert(by.take(i as int) + (seq![y0] + t.2) =~= items_view(ys@).take(i + 1) + t.2);
        }
        i = i + 1;
    }
    proof {
        assert(items_view(xs@).take(i as int) + ox.skip(i as int) =~= items_view(xs@));
        assert(items_view(ys@).take(i as int) + oy.skip(i as int) =~= items_view(ys@));
    }
    i == xs.len() && i == ys.len()
}

fn compare_members(
    xs: &mut Vec<Member>,
    ys: &mut Vec<Member>,
    case_sensitive: bool,
    Ghost(h): Ghost<nat>,
) -> (r: bool)
    requires
        forall|k: int| 0 <= k < old(xs)@.len() ==> height(#[trigger] members_view(old(xs)@)[k].1) < h,
    ensures
        (r, members_view(final(xs)@), members_view(final(ys)@)) == compare_members_spec(
            members_view(old(xs)@),
            members_view(old(ys)@),
            case_sensitive,
            h,
        ),
    decreases h, 1nat,
{
    let ghost ox = members_view(xs@);
    let ghost oy = members_view(ys@);
    let mut i: usize = 0;
    proof {
        assert(ox.skip(0) =~= ox);
        assert(oy.skip(0) =~= oy);
        assert(members_view(xs@).take(0) + ox =~= ox);
        assert(members_view(ys@).take(0) + oy =~= oy);
    }
    while i < xs.len() && i < ys.len()
        invariant
            ox == members_view(old(xs)@),
            oy == members_view(old(ys)@),
            xs@.len() == ox.len(),
            ys@.len() == oy.len(),
            i <= xs@.len(),
            i <= ys@.len(),
            forall|k: int| i <= k < xs@.len() ==> #[trigger] members_view(xs@)[k] == ox[k],
            forall|k: int| i <= k < ys@.len() ==> #[trigger] members_view(ys@)[k] == oy[k],
            forall|k: int| 0 <= k < ox.len() ==> height(#[trigger] ox[k].1) < h,
            compare_members_spec(ox, oy, case_sensitive, h) == ({
                let t = compare_members_spec(ox.skip(i as int), oy.skip(i as int), case_sensitive, h);
                (t.0, members_view(xs@).take(i as int) + t.1, members_view(ys@).take(i as int) + t.2)
            }),
        decreases xs@.len() - i,
    {
        let ghost bx = members_view(xs@);
        let ghost by = members_view(ys@);
        proof {
            assert(bx[i as int] == ox[i as int]);
            assert(by[i as int] == oy[i as int]);
            assert(ox.skip(i as int)[0] == ox[i as int]);
            assert(oy.skip(i as int)[0] == oy[i as int]);
            assert(ox.skip(i as int).drop_first() =~= ox.skip(i + 1));
            assert(oy.skip(i as int).drop_first() =~= oy.skip(i + 1));
        }
        if compare_strings(xs[i].key.as_slice(), ys[i].key.as_slice(), case_sensitive) != 0 {
            proof {
                assert(members_view(xs@).take(i as int) + ox.skip(i as int) =~= members_view(xs@));
                assert(members_view(ys@).take(i as int) + oy.skip(i as int) =~= members_view(ys@));
            }
            return false;
        }
        proof {
            lemma_compare_members_unfold(ox.skip(i as int), oy.skip(i as int), case_sensitive, h);
        }
        let r = compare_json(&mut xs[i].value, &mut ys[i].value, case_sensitive);
        proof {
            crate::json::lemma_members_view_update(xs@, i as int, xs@[i as int]);
        }
        let ghost x0 = members_view(xs@)[i as int];
        let ghost y0 = members_view(ys@)[i as int];
        assert(x0.0 == ox[i as int].0);
        assert(y0.0 == oy[i as int].0);
        assert(members_view(xs@) =~= bx.update(i as int, x0));
        assert(members_view(ys@) =~= by.update(i as int, y0));
        if !r {
            proof {
                assert(members_view(xs@) =~= bx.take(i as int) + ox.skip(i as int).update(0, x0));
                assert(members_view(ys@) =~= by.take(i as int) + oy.skip(i as int).update(0, y0));
            }
            return false;
        }
        proof {
            assert(members_view(xs@).take(i + 1) =~= bx.take(i as int) + seq![x0]);
            assert(members_view(ys@).take(i + 1) =~= by.take(i as int) + seq![y0]);
            let t = compare_members_spec(ox.skip(i + 1), oy.skip(i + 1), case_sensitive, h);
            assert(bx.take(i as int) + (seq![x0] + t.1) =~= members_view(xs@).take(i + 1) + t.1);
            assert(by.take(i as int) + (seq![y0] + t.2) =~= members_view(ys@).take(i + 1) + t.2);
        }
        i = i + 1;
    }
    proof {
        assert(members_view(xs@).take(i as int) + ox.skip(i as int) =~= members_view(xs@));
        assert(members_view(ys@).take(i as int) + oy.skip(i as int) =~= members_view(ys@));
    }
    i == xs.len() && i == ys.len()
}

/// Compares two values (`compare_json`); see `compare_spec`.
pub fn compare_json(a: &mut Json, b: &mut Json, case_sensitive: bool) -> (r: bool)
    ensures
        (r, final(a)@, final(b)@) == compare_spec(old(a)@, old(b)@, case_sensitive),
    decreases height(old(a)@) + 1, 0nat,
{
    if a.type_of() != b.type_of() {
        return false;
    }
    let ghost h = height(a@);
    match a {
        Json::Number(x) => match b {
            Json::Number(y) => *x == *y,
            _ => false,
        },
        Json::String(x) => match b {
            Json::String(y) => compare_strings(x.as_slice(), y.as_slice(), true) == 0,
            _ => false,
        },
        Json::Array(xs) => match b {
            Json::Array(ys) => {
                assert(old(a)@ == JsonV::Array(items_view(xs@)));
                assert(old(b)@ == JsonV::Array(items_view(ys@)));
                proof {
                    assert forall|k: int| 0 <= k < xs@.len() implies height(
                        #[trigger] items_view(xs@)[k],
                    ) < h by {
                        lemma_items_height(items_view(xs@), k);
                    }
                }
                compare_items(xs, ys, case_sensitive, Ghost(h))
            },
            _ => false,
        },
        Json::Object(_) => {
            sort_object(a, case_sensitive);
            sort_object(b, case_sensitive);
            match a {
                Json::Object(xs) => match b {
                    Json::Object(ys) => {
                        proof {
                            let ms = old(a)@->Object_0;
                            assert(members_view(xs@) == merge_sort(ms, key_lt(case_sensitive)));
                            lemma_merge_sort_multiset(ms, key_lt(case_sensitive));
                            assert forall|k: int| 0 <= k < xs@.len() implies height(
                                #[trigger] members_view(xs@)[k].1,
                            ) < h by {
                                lemma_merge_sort_contains(ms, key_lt(case_sensitive), k);
                                let i = choose|i: int| 0 <= i < ms.len() && ms[i] == members_view(xs@)[k];
                                lemma_members_height(ms, i);
                            }
                        }
                        compare_members(xs, ys, case_sensitive, Ghost(h))
                    },
                    _ => false,
                },
                _ => false,
            }
        },
        _ => true,
    }
}

/// Every value compares equal to itself, and the comparison leaves both
/// copies alike.
pub proof fn law_compare_reflexive(a: JsonV, case_sensitive: bool)
    ensures
        compare_spec(a, a, case_sensitive).0,
        compare_spec(a, a, case_sensitive).1 == compare_spec(a, a, case_sensitive).2,
    decreases height(a) + 1, 0nat,
{
    match a {
        JsonV::String(x) => {
            lemma_key_order_reflexive(x, true);
        },
        JsonV::Array(xs) => {
            assert forall|k: int| 0 <= k < xs.len() implies height(#[trigger] xs[k]) < height(a) by {
                lemma_items_height(xs, k);
            }
            lemma_compare_items_reflexive(xs, case_sensitive, height(a));
        },
        JsonV::Object(xs) => {
            let sx = merge_sort(xs, key_lt(case_sensitive));
            lemma_merge_sort_multiset(xs, key_lt(case_sensitive));
            assert forall|k: int| 0 <= k < sx.len() implies height(#[trigger] sx[k].1) < height(a) by {
                lemma_merge_sort_contains(xs, key_lt(case_sensitive), k);
                let i = choose|i: int| 0 <= i < xs.len() && xs[i] == sx[k];
                lemma_members_height(xs, i);
            }
            lemma_compare_members_reflexive(sx, case_sensitive, height(a));
        },
        _ => {},
    }
}

proof fn lemma_compare_items_reflexive(xs: Seq<JsonV>, case_sensitive: bool, h: nat)
    requires
        forall|k: int| 0 <= k < xs.len() ==> height(#[trigger] xs[k]) < h,
    ensures
        compare_items_spec(xs, xs, case_sensitive, h).0,
        compare_items_spec(xs, xs, case_sensitive, h).1 == compare_items_spec(xs, xs, case_sensitive, h).2,
    decreases h, xs.len(),
{
    if xs.len() > 0 {
        assert(height(xs[0]) < h);
        law_compare_reflexive(xs[0], case_sensitive);
        assert forall|k: int| 0 <= k < xs.drop_first().len() implies height(#[trigger] xs.drop_first()[k]) < h by {
            assert(xs.drop_first()[k] == xs[k + 1]);
        }
        lemma_compare_items_reflexive(xs.drop_first(), case_sensitive, h);
    }
}

proof fn lemma_compare_members_reflexive(xs: Seq<(Seq<u8>, JsonV)>, case_sensitive: bool, h: nat)
    requires
        forall|k: int| 0 <= k < xs.len() ==> height(#[trigger] xs[k].1) < h,
    ensures
        compare_members_spec(xs, xs, case_sensitive, h).0,
        compare_members_spec(xs, xs, case_sensitive, h).1 == compare_members_spec(xs, xs, case_sensitive, h).2,
    decreases h, xs.len(),
{
    if xs.len() > 0 {
        assert(height(xs[0].1) < h);
        lemma_key_order_reflexive(xs[0].0, case_sensitive);
        law_compare_reflexive(xs[0].1, case_sensitive);
        assert forall|k: int| 0 <= k < xs.drop_first().len() implies height(#[trigger] xs.drop_first()[k].1) < h by {
            assert(xs.drop_first()[k] == xs[k + 1]);
        }
        lemma_compare_members_reflexive(xs.drop_first(), case_sensitive, h);
    }
}

/// Comparison is symmetric: comparing `b` with `a` gives the same answer,
/// and leaves each value as comparing `a` with `b` leaves it.
pub proof fn law_compare_symmetric(a: JsonV, b: JsonV, case_sensitive: bool)
    ensures
        compare_spec(b, a, case_sensitive) == (
            compare_spec(a, b, case_sensitive).0,
            compare_spec(a, b, case_sensitive).2,
            compare_spec(a, b, case_sensitive).1,
        ),
    decreases height(a) + 1, 0nat,
{
    if same_kind(a, b) {
        match (a, b) {
            (JsonV::String(x), JsonV::String(y)) => {
                lemma_key_order_antisymmetric(x, y, true);
            },
            (JsonV::Array(xs), JsonV::Array(ys)) => {
                assert forall|k: int| 0 <= k < xs.len() implies height(#[trigger] xs[k]) < height(a) by {
                    lemma_items_height(xs, k);
                }
                assert forall|k: int| 0 <= k < ys.len() implies height(#[trigger] ys[k]) < height(b) by {
                    lemma_items_height(ys, k);
                }
                lemma_compare_items_symmetric(xs, ys, case_sensitive, height(a), height(b));
            },
            (JsonV::Object(xs), JsonV::Object(ys)) => {
                let lt = key_lt(case_sensitive);
                let sx = merge_sort(xs, lt);
                let sy = merge_sort(ys, lt);
                lemma_merge_sort_multiset(xs, lt);
                lemma_merge_sort_multiset(ys, lt);
                assert forall|k: int| 0 <= k < sx.len() implies height(#[trigger] sx[k].1) < height(a) by {
                    lemma_merge_sort_contains(xs, lt, k);
                    let i = choose|i: int| 0 <= i < xs.len() && xs[i] == sx[k];
                    lemma_members_height(xs, i);
                }
                assert forall|k: int| 0 <= k < sy.len() implies height(#[trigger] sy[k].1) < height(b) by {
                    lemma_merge_sort_contains(ys, lt, k);
                    let i = choose|i: int| 0 <= i < ys.len() && ys[i] == sy[k];
                    lemma_members_height(ys, i);
                }
                lemma_compare_members_symmetric(sx, sy, case_sensitive, height(a), height(b));
            },
            _ => {},
        }
    }
}

proof fn lemma_compare_items_symmetric(xs: Seq<JsonV>, ys: Seq<JsonV>, case_sensitive: bool, h1: nat, h2: nat)
    requires
        forall|k: int| 0 <= k < xs.len() ==> height(#[trigger] xs[k]) < h1,
        forall|k: int| 0 <= k < ys.len() ==> height(#[trigger] ys[k]) < h2,
    ensures
        compare_items_spec(ys, xs, case_sensitive, h2) == (
            compare_items_spec(xs, ys, case_sensitive, h1).0,
            compare_items_spec(xs, ys, case_sensitive, h1).2,
            compare_items_spec(xs, ys, case_sensitive, h1).1,
        ),
    decreases h1, xs.len(),
{
    if xs.len() > 0 && ys.len() > 0 {
        assert(height(xs[0]) < h1);
        assert(height(ys[0]) < h2);
        law_compare_symmetric(xs[0], ys[0], case_sensitive);
        assert forall|k: int| 0 <= k < xs.drop_first().len() implies height(#[trigger] xs.drop_first()[k]) < h1 by {
            assert(xs.drop_first()[k] == xs[k + 1]);
        }
        assert forall|k: int| 0 <= k < ys.drop_first().len() implies height(#[trigger] ys.drop_first()[k]) < h2 by {
            assert(ys.drop_first()[k] == ys[k + 1]);
        }
        lemma_compare_items_symmetric(xs.drop_first(), ys.drop_first(), case_sensitive, h1, h2);
    }
}

proof fn lemma_compare_members_symmetric(
    xs: Seq<(Seq<u8>, JsonV)>,
    ys: Seq<(Seq<u8>, JsonV)>,
    case_sensitive: bool,
    h1: nat,
    h2: nat,
)
    requires
        forall|k: int| 0 <= k < xs.len() ==> height(#[trigger] xs[k].1) < h1,
        forall|k: int| 0 <= k < ys.len() ==> height(#[trigger] ys[k].1) < h2,
    ensures
        compare_members_spec(ys, xs, case_sensitive, h2) == (
            compare_members_spec(xs, ys, case_sensitive, h1).0,
            compare_members_spec(xs, ys, case_sensitive, h1).2,
            compare_members_spec(xs, ys, case_sensitive, h1).1,
        ),
    decreases h1, xs.len(),
{
    if xs.len() > 0 && ys.len() > 0 {
        lemma_key_order_antisymmetric(xs[0].0, ys[0].0, case_sensitive);
        assert(height(xs[0].1) < h1);
        assert(height(ys[0].1) < h2);
        law_compare_symmetric(xs[0].1, ys[0].1, case_sensitive);
        assert forall|k: int| 0 <= k < xs.drop_first().len() implies height(#[trigger] xs.drop_first()[k].1) < h1 by {
            assert(xs.drop_first()[k] == xs[k + 1]);
        }
        assert forall|k: int| 0 <= k < ys.drop_first().len() implies height(#[trigger] ys.drop_first()[k].1) < h2 by {
            assert(ys.drop_first()[k] == ys[k + 1]);
        }
        lemma_compare_members_symmetric(xs.drop_first(), ys.drop_first(), case_sensitive, h1, h2);
    }
}

} // verus!
