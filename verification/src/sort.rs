//! Sorting of object members by key (`cJSONUtils_SortObject`): a merge
//! sort that leaves a list that is already in strictly increasing order as
//! it is and, on equal keys, takes from the second half.

use vstd::prelude::*;
use vstd::multiset::Multiset;
use crate::json::{Json, JsonV, Member, members_view, items_view};
use crate::strings::{
    key_order, compare_strings, lemma_key_order_antisymmetric, lemma_key_order_transitive,
    lemma_key_order_reflexive,
};

verus! {

/// Every element is strictly smaller than the next.
pub open spec fn strictly_sorted<A>(s: Seq<A>, lt: spec_fn(A, A) -> bool) -> bool {
    forall|i: int| 0 <= i < s.len() - 1 ==> #[trigger] lt(s[i], s[i + 1])
}

/// The merge of two lists: the head of the first goes first when it is
/// strictly smaller than the head of the second.
pub open spec fn merge<A>(a: Seq<A>, b: Seq<A>, lt: spec_fn(A, A) -> bool) -> Seq<A>
    decreases a.len() + b.len(),
{
    if a.len() == 0 {
        b
    } else if b.len() == 0 {
        a
    } else if lt(a[0], b[0]) {
        seq![a[0]] + merge(a.drop_first(), b, lt)
    } else {
        seq![b[0]] + merge(a, b.drop_first(), lt)
    }
}

/// The merge sort of a list: lists of at most one element and lists in
/// strictly increasing order stay as they are; other lists are split after
/// their first half (rounded up), both halves are sorted and then merged.
pub open spec fn merge_sort<A>(s: Seq<A>, lt: spec_fn(A, A) -> bool) -> Seq<A>
    decreases s.len(),
{
    if s.len() <= 1 || strictly_sorted(s, lt) {
        s
    } else {
        let h = ((s.len() + 1) / 2) as int;
        merge(merge_sort(s.take(h), lt), merge_sort(s.skip(h), lt), lt)
    }
}

/// Members ordered by key under the chosen comparison.
pub open spec fn key_lt(case_sensitive: bool) -> spec_fn((Seq<u8>, JsonV), (Seq<u8>, JsonV)) -> bool {
    |a: (Seq<u8>, JsonV), b: (Seq<u8>, JsonV)| key_order(a.0, b.0, case_sensitive) < 0
}

/// Array items have no key, and a missing key never compares smaller.
pub open spec fn keyless_lt() -> spec_fn(JsonV, JsonV) -> bool {
    |a: JsonV, b: JsonV| false
}

/// The value after `cJSONUtils_SortObject`: the children of an object or
/// an array in merge-sorted order, other values unchanged.
pub open spec fn sort_object_spec(j: JsonV, case_sensitive: bool) -> JsonV {
    match j {
        JsonV::Object(ms) => JsonV::Object(merge_sort(ms, key_lt(case_sensitive))),
        JsonV::Array(items) => JsonV::Array(merge_sort(items, keyless_lt())),
        _ => j,
    }
}

fn key_less(a: &Member, b: &Member, case_sensitive: bool) -> (r: bool)
    ensures
        r == (key_order(a.key@, b.key@, case_sensitive) < 0),
{
    compare_strings(a.key.as_slice(), b.key.as_slice(), case_sensitive) < 0
}

fn members_strictly_sorted(v: &Vec<Member>, case_sensitive: bool) -> (r: bool)
    ensures
        r == strictly_sorted(members_view(v@), key_lt(case_sensitive)),
{
    let ghost ms = members_view(v@);
    if v.len() < 2 {
        return true;
    }
    let mut i: usize = 0;
    while i < v.len() - 1
        invariant
            ms == members_view(v@),
            v@.len() >= 2,
            i <= v@.len() - 1,
            forall|k: int| 0 <= k < i ==> #[trigger] key_lt(case_sensitive)(ms[k], ms[k + 1]),
        decreases v@.len() - i,
    {
        if !key_less(&v[i], &v[i + 1], case_sensitive) {
            assert(!key_lt(case_sensitive)(ms[i as int], ms[i + 1]));
            return false;
        }
        i = i + 1;
    }
    true
}

/// An empty member, swapped into a slot whose member is taken out.
fn blank_member() -> (m: Member)
    ensures
        m.key@ == Seq::<u8>::empty(),
        m.value@ == JsonV::Null,
{
    Member { key: Vec::new(), value: Json::Null }
}

proof fn lemma_merge_step<A>(a: Seq<A>, b: Seq<A>, lt: spec_fn(A, A) -> bool, i: int, j: int)
    requires
        0 <= i < a.len(),
        0 <= j < b.len(),
    ensures
        lt(a[i], b[j]) ==> merge(a.skip(i), b.skip(j), lt) == seq![a[i]] + merge(
            a.skip(i + 1),
            b.skip(j),
            lt,
        ),
        !lt(a[i], b[j]) ==> merge(a.skip(i), b.skip(j), lt) == seq![b[j]] + merge(
            a.skip(i),
            b.skip(j + 1),
            lt,
        ),
{
    assert(a.skip(i).drop_first() =~= a.skip(i + 1));
    assert(b.skip(j).drop_first() =~= b.skip(j + 1));
}

fn merge_members(a: Vec<Member>, b: Vec<Member>, case_sensitive: bool) -> (r: Vec<Member>)
    ensures
        members_view(r@) == merge(members_view(a@), members_view(b@), key_lt(case_sensitive)),
{
    let ghost oa = members_view(a@);
    let ghost ob = members_view(b@);
    let ghost lt = key_lt(case_sensitive);
    let mut a = a;
    let mut b = b;
    let mut out: Vec<Member> = Vec::new();
    let mut i: usize = 0;
    let mut j: usize = 0;
    proof {
        assert(oa.skip(0) =~= oa);
        assert(ob.skip(0) =~= ob);
        assert(members_view(out@) =~= Seq::empty());
    }
    while i < a.len() && j < b.len()
        invariant
            lt == key_lt(case_sensitive),
            a@.len() == oa.len(),
            b@.len() == ob.len(),
            i <= a@.len(),
            j <= b@.len(),
            forall|k: int| i <= k < a@.len() ==> #[trigger] members_view(a@)[k] == oa[k],
            forall|k: int| j <= k < b@.len() ==> #[trigger] members_view(b@)[k] == ob[k],
            merge(oa, ob, lt) == members_view(out@) + merge(oa.skip(i as int), ob.skip(j as int), lt),
        decreases a@.len() + b@.len() - i - j,
    {
        proof {
            lemma_merge_step(oa, ob, lt, i as int, j as int);
            assert(members_view(a@)[i as int] == oa[i as int]);
            assert(members_view(b@)[j as int] == ob[j as int]);
        }
        let ghost before_out = out@;
        if key_less(&a[i], &b[j], case_sensitive) {
            let ghost before = a@;
            let mut m = blank_member();
            std::mem::swap(&mut m, &mut a[i]);
            proof {
                assert(m == before[i as int]);
                assert forall|k: int| i + 1 <= k < a@.len() implies #[trigger] members_view(a@)[k] == oa[k] by {
                    assert(a@[k] == before[k]);
                    assert(members_view(before)[k] == oa[k]);
                }
            }
            out.push(m);
            proof {
                assert(members_view(out@) =~= members_view(before_out) + seq![oa[i as int]]);
            }
            i = i + 1;
        } else {
            let ghost before = b@;
            let mut m = blank_member();
            std::mem::swap(&mut m, &mut b[j]);
            proof {
                assert(m == before[j as int]);
                assert forall|k: int| j + 1 <= k < b@.len() implies #[trigger] members_view(b@)[k] == ob[k] by {
                    assert(b@[k] == before[k]);
                    assert(members_view(before)[k] == ob[k]);
                }
            }
            out.push(m);
            proof {
                assert(members_view(out@) =~= members_view(before_out) + seq![ob[j as int]]);
            }
            j = j + 1;
        }
    }
    proof {
        if i == a@.len() {
            assert(oa.skip(i as int) =~= Seq::<(Seq<u8>, JsonV)>::empty());
            assert(oa.skip(i as int) + ob.skip(j as int) =~= ob.skip(j as int));
        } else {
            assert(ob.skip(j as int) =~= Seq::<(Seq<u8>, JsonV)>::empty());
            assert(oa.skip(i as int) + ob.skip(j as int) =~= oa.skip(i as int));
        }
        assert(members_view(out@) + oa.skip(i as int) + ob.skip(j as int) =~= members_view(out@)
            + (oa.skip(i as int) + ob.skip(j as int)));
    }
    while i < a.len()
        invariant
            a@.len() == oa.len(),
            i <= a@.len(),
            forall|k: int| i <= k < a@.len() ==> #[trigger] members_view(a@)[k] == oa[k],
            i < a@.len() ==> j == b@.len(),
            j <= b@.len(),
            merge(oa, ob, lt) == members_view(out@) + oa.skip(i as int) + ob.skip(j as int),
        decreases a@.len() - i,
    {
        let ghost before = a@;
        let ghost before_out = out@;
        let mut m = blank_member();
        std::mem::swap(&mut m, &mut a[i]);
        proof {
            assert(m == before[i as int]);
            assert(members_view(before)[i as int] == oa[i as int]);
            assert forall|k: int| i + 1 <= k < a@.len() implies #[trigger] members_view(a@)[k] == oa[k] by {
                assert(a@[k] == before[k]);
                assert(members_view(before)[k] == oa[k]);
            }
        }
        out.push(m);
        proof {
            assert(members_view(out@) =~= members_view(before_out) + seq![oa[i as int]]);
            assert(oa.skip(i as int) =~= seq![oa[i as int]] + oa.skip(i + 1));
            assert(members_view(out@) + oa.skip(i + 1) + ob.skip(j as int) =~= members_view(before_out) + oa.skip(i as int) + ob.skip(j as int));
        }
        i = i + 1;
    }
    while j < b.len()
        invariant
            b@.len() == ob.len(),
            j <= b@.len(),
            forall|k: int| j <= k < b@.len() ==> #[trigger] members_view(b@)[k] == ob[k],
            i == a@.len(),
            a@.len() == oa.len(),
            merge(oa, ob, lt) == members_view(out@) + oa.skip(i as int) + ob.skip(j as int),
        decreases b@.len() - j,
    {
        let ghost before = b@;
        let ghost before_out = out@;
        let mut m = blank_member();
        std::mem::swap(&mut m, &mut b[j]);
        proof {
            assert(m == before[j as int]);
            assert(members_view(before)[j as int] == ob[j as int]);
            assert forall|k: int| j + 1 <= k < b@.len() implies #[trigger] members_view(b@)[k] == ob[k] by {
                assert(b@[k] == before[k]);
                assert(members_view(before)[k] == ob[k]);
            }
        }
        out.push(m);
        proof {
            assert(members_view(out@) =~= members_view(before_out) + seq![ob[j as int]]);
            assert(ob.skip(j as int) =~= seq![ob[j as int]] + ob.skip(j + 1));
            assert(oa.skip(i as int) =~= Seq::<(Seq<u8>, JsonV)>::empty());
            assert(members_view(out@) + oa.skip(i as int) + ob.skip(j + 1) =~= members_view(before_out) + oa.skip(i as int) + ob.skip(j as int));
        }
        j = j + 1;
    }
    proof {
        assert(oa.skip(i as int) =~= Seq::<(Seq<u8>, JsonV)>::empty());
        assert(ob.skip(j as int) =~= Seq::<(Seq<u8>, JsonV)>::empty());
        assert(members_view(out@) + oa.skip(i as int) + ob.skip(j as int) =~= members_view(out@));
    }
    out
}


/// Sorts the members of an object by key (`sort_list`).
pub fn sort_list(v: Vec<Member>, case_sensitive: bool) -> (r: Vec<Member>)
    ensures
        members_view(r@) == merge_sort(members_view(v@), key_lt(case_sensitive)),
    decreases v@.len(),
{
    if v.len() <= 1 {
        return v;
    }
    if members_strictly_sorted(&v, case_sensitive) {
        return v;
    }
    let h = v.len() / 2 + v.len() % 2;
    let ghost ms = members_view(v@);
    let mut first = v;
    let second = first.split_off(h);
    proof {
        assert(h as int == (ms.len() + 1) / 2);
        assert(members_view(first@) =~= ms.take(h as int));
        assert(members_view(second@) =~= ms.skip(h as int));
    }
    let a = sort_list(first, case_sensitive);
    let b = sort_list(second, case_sensitive);
    merge_members(a, b, case_sensitive)
}

/// Merging with an order in which nothing is smaller puts the second list
/// first.
pub proof fn lemma_merge_keyless(a: Seq<JsonV>, b: Seq<JsonV>)
    ensures
        merge(a, b, keyless_lt()) == b + a,
    decreases a.len() + b.len(),
{
    if a.len() == 0 {
        assert(b + a =~= b);
    } else if b.len() == 0 {
        assert(b + a =~= a);
    } else {
        lemma_merge_keyless(a, b.drop_first());
        assert(seq![b[0]] + (b.drop_first() + a) =~= b + a);
    }
}

/// Sorts the items of an array the way the object sort treats children
/// without keys (`sort_list` on an array).
pub fn sort_keyless_list(v: Vec<Json>) -> (r: Vec<Json>)
    ensures
        items_view(r@) == merge_sort(items_view(v@), keyless_lt()),
    decreases v@.len(),
{
    if v.len() <= 1 {
        return v;
    }
    let ghost its = items_view(v@);
    proof {
        assert(!keyless_lt()(its[0], its[0int + 1]));
        assert(!strictly_sorted(its, keyless_lt()));
    }
    let h = v.len() / 2 + v.len() % 2;
    let mut first = v;
    let second = first.split_off(h);
    proof {
        assert(h as int == (its.len() + 1) / 2);
        assert(items_view(first@) =~= its.take(h as int));
        assert(items_view(second@) =~= its.skip(h as int));
    }
    let mut a = sort_keyless_list(first);
    let mut b = sort_keyless_list(second);
    let ghost av = items_view(a@);
    let ghost bv = items_view(b@);
    b.append(&mut a);
    proof {
        lemma_merge_keyless(av, bv);
        assert(items_view(b@) =~= bv + av);
    }
    b
}

/// Sorts the children of `object` by key (`sort_object`).
pub fn sort_object(object: &mut Json, case_sensitive: bool)
    ensures
        final(object)@ == sort_object_spec(old(object)@, case_sensitive),
{
    match object {
        Json::Object(members) => {
            let mut taken: Vec<Member> = Vec::new();
            std::mem::swap(&mut taken, members);
            let sorted = sort_list(taken, case_sensitive);
            *members = sorted;
        },
        Json::Array(items) => {
            let mut taken: Vec<Json> = Vec::new();
            std::mem::swap(&mut taken, items);
            let sorted = sort_keyless_list(taken);
            *items = sorted;
        },
        _ => {},
    }
}

/// Sorts the members of an object by key, ignoring case.
pub fn cJSONUtils_SortObject(object: &mut Json)
    ensures
        final(object)@ == sort_object_spec(old(object)@, false),
{
    sort_object(object, false)
}

/// Sorts the members of an object by key, byte for byte.
pub fn cJSONUtils_SortObjectCaseSensitive(object: &mut Json)
    ensures
        final(object)@ == sort_object_spec(old(object)@, true),
{
    sort_object(object, true)
}

/// Merging keeps every element: the result holds the elements of both lists.
pub proof fn lemma_merge_multiset<A>(a: Seq<A>, b: Seq<A>, lt: spec_fn(A, A) -> bool)
    ensures
        merge(a, b, lt).to_multiset() == a.to_multiset().add(b.to_multiset()),
    decreases a.len() + b.len(),
{
    broadcast use vstd::multiset::group_multiset_axioms;
    broadcast use vstd::seq_lib::group_to_multiset_ensures;

    if a.len() == 0 {
        assert(a.to_multiset() =~= Multiset::empty());
        assert(b.to_multiset() =~= a.to_multiset().add(b.to_multiset()));
    } else if b.len() == 0 {
        assert(b.to_multiset() =~= Multiset::empty());
        assert(a.to_multiset() =~= a.to_multiset().add(b.to_multiset()));
    } else if lt(a[0], b[0]) {
        lemma_merge_multiset(a.drop_first(), b, lt);
        vstd::seq_lib::lemma_multiset_commutative(seq![a[0]], merge(a.drop_first(), b, lt));
        vstd::seq_lib::lemma_multiset_commutative(seq![a[0]], a.drop_first());
        assert(seq![a[0]] + a.drop_first() =~= a);
        assert(seq![a[0]].to_multiset() =~= Multiset::empty().insert(a[0])) by {
            assert(seq![a[0]] =~= Seq::<A>::empty().push(a[0]));
        }
        assert(merge(a, b, lt).to_multiset() =~= a.to_multiset().add(b.to_multiset()));
    } else {
        lemma_merge_multiset(a, b.drop_first(), lt);
        vstd::seq_lib::lemma_multiset_commutative(seq![b[0]], merge(a, b.drop_first(), lt));
        vstd::seq_lib::lemma_multiset_commutative(seq![b[0]], b.drop_first());
        assert(seq![b[0]] + b.drop_first() =~= b);
        assert(seq![b[0]].to_multiset() =~= Multiset::empty().insert(b[0])) by {
            assert(seq![b[0]] =~= Seq::<A>::empty().push(b[0]));
        }
        assert(merge(a, b, lt).to_multiset() =~= a.to_multiset().add(b.to_multiset()));
    }
}

/// Sorting permutes: the sorted list holds exactly the elements of the
/// list, each as often.
pub proof fn lemma_merge_sort_multiset<A>(s: Seq<A>, lt: spec_fn(A, A) -> bool)
    ensures
        merge_sort(s, lt).to_multiset() == s.to_multiset(),
        merge_sort(s, lt).len() == s.len(),
    decreases s.len(),
{
    broadcast use vstd::seq_lib::group_to_multiset_ensures;

    if s.len() <= 1 || strictly_sorted(s, lt) {
    } else {
        let h = ((s.len() + 1) / 2) as int;
        lemma_merge_sort_multiset(s.take(h), lt);
        lemma_merge_sort_multiset(s.skip(h), lt);
        lemma_merge_multiset(merge_sort(s.take(h), lt), merge_sort(s.skip(h), lt), lt);
        vstd::seq_lib::lemma_multiset_commutative(s.take(h), s.skip(h));
        assert(s.take(h) + s.skip(h) =~= s);
    }
    assert(merge_sort(s, lt).to_multiset().len() == merge_sort(s, lt).len());
    assert(s.to_multiset().len() == s.len());
}

/// Every element of a sorted list is an element of the list.
pub proof fn lemma_merge_sort_contains<A>(s: Seq<A>, lt: spec_fn(A, A) -> bool, k: int)
    requires
        0 <= k < merge_sort(s, lt).len(),
    ensures
        s.contains(merge_sort(s, lt)[k]),
{
    broadcast use vstd::seq_lib::group_to_multiset_ensures;

    lemma_merge_sort_multiset(s, lt);
    let x = merge_sort(s, lt)[k];
    assert(merge_sort(s, lt).contains(x));
    assert(merge_sort(s, lt).to_multiset().count(x) > 0);
}

/// No later element is strictly smaller than an earlier one.
pub open spec fn sorted_by<A>(s: Seq<A>, lt: spec_fn(A, A) -> bool) -> bool {
    forall|i: int, j: int| 0 <= i < j < s.len() ==> !lt(#[trigger] s[j], #[trigger] s[i])
}

/// `lt` is a strict weak order: asymmetric, and "not smaller" is transitive.
pub open spec fn strict_weak_order<A>(lt: spec_fn(A, A) -> bool) -> bool {
    &&& forall|x: A, y: A| #[trigger] lt(x, y) ==> !lt(y, x)
    &&& forall|x: A, y: A, z: A| !#[trigger] lt(y, x) && !#[trigger] lt(z, y) ==> !lt(z, x)
}

proof fn lemma_merge_contains<A>(a: Seq<A>, b: Seq<A>, lt: spec_fn(A, A) -> bool, k: int)
    requires
        0 <= k < merge(a, b, lt).len(),
    ensures
        a.contains(merge(a, b, lt)[k]) || b.contains(merge(a, b, lt)[k]),
{
    broadcast use vstd::multiset::group_multiset_axioms;
    broadcast use vstd::seq_lib::group_to_multiset_ensures;

    lemma_merge_multiset(a, b, lt);
    let x = merge(a, b, lt)[k];
    assert(merge(a, b, lt).contains(x));
    assert(merge(a, b, lt).to_multiset().count(x) > 0);
}

proof fn lemma_sorted_cons<A>(x: A, m: Seq<A>, lt: spec_fn(A, A) -> bool)
    requires
        sorted_by(m, lt),
        forall|j: int| 0 <= j < m.len() ==> !lt(#[trigger] m[j], x),
    ensures
        sorted_by(seq![x] + m, lt),
{
    let s = seq![x] + m;
    assert forall|i: int, j: int| 0 <= i < j < s.len() implies !lt(#[trigger] s[j], #[trigger] s[i]) by {
        if i == 0 {
            assert(s[j] == m[j - 1]);
        } else {
            assert(s[j] == m[j - 1]);
            assert(s[i] == m[i - 1]);
        }
    }
}

proof fn lemma_merge_sorted<A>(a: Seq<A>, b: Seq<A>, lt: spec_fn(A, A) -> bool)
    requires
        strict_weak_order(lt),
        sorted_by(a, lt),
        sorted_by(b, lt),
    ensures
        sorted_by(merge(a, b, lt), lt),
    decreases a.len() + b.len(),
{
    if a.len() == 0 || b.len() == 0 {
    } else if lt(a[0], b[0]) {
        let a1 = a.drop_first();
        assert(sorted_by(a1, lt)) by {
            assert forall|i: int, j: int| 0 <= i < j < a1.len() implies !lt(#[trigger] a1[j], #[trigger] a1[i]) by {
                assert(a1[j] == a[j + 1] && a1[i] == a[i + 1]);
            }
        }
        lemma_merge_sorted(a1, b, lt);
        let m = merge(a1, b, lt);
        assert forall|j: int| 0 <= j < m.len() implies !lt(#[trigger] m[j], a[0]) by {
            lemma_merge_contains(a1, b, lt, j);
            if a1.contains(m[j]) {
                let p = choose|p: int| 0 <= p < a1.len() && a1[p] == m[j];
                assert(a[p + 1] == m[j]);
                assert(!lt(a[p + 1], a[0]));
            } else {
                let q = choose|q: int| 0 <= q < b.len() && b[q] == m[j];
                if q > 0 {
                    assert(!lt(b[q], b[0]));
                } else {
                    assert(!lt(b[0], b[0]));
                }
                assert(!lt(b[0], a[0]));
            }
        }
        lemma_sorted_cons(a[0], m, lt);
    } else {
        let b1 = b.drop_first();
        assert(sorted_by(b1, lt)) by {
            assert forall|i: int, j: int| 0 <= i < j < b1.len() implies !lt(#[trigger] b1[j], #[trigger] b1[i]) by {
                assert(b1[j] == b[j + 1] && b1[i] == b[i + 1]);
            }
        }
        lemma_merge_sorted(a, b1, lt);
        let m = merge(a, b1, lt);
        assert forall|j: int| 0 <= j < m.len() implies !lt(#[trigger] m[j], b[0]) by {
            lemma_merge_contains(a, b1, lt, j);
            if a.contains(m[j]) {
                let p = choose|p: int| 0 <= p < a.len() && a[p] == m[j];
                if p > 0 {
                    assert(!lt(a[p], a[0]));
                } else {
                    assert(!lt(a[0], a[0]));
                }
            } else {
                let q = choose|q: int| 0 <= q < b1.len() && b1[q] == m[j];
                assert(b[q + 1] == m[j]);
                assert(!lt(b[q + 1], b[0]));
            }
        }
        lemma_sorted_cons(b[0], m, lt);
    }
}

proof fn lemma_strictly_sorted_sorted<A>(s: Seq<A>, lt: spec_fn(A, A) -> bool)
    requires
        strict_weak_order(lt),
        strictly_sorted(s, lt),
    ensures
        sorted_by(s, lt),
{
    assert forall|i: int, j: int| 0 <= i < j < s.len() implies !lt(#[trigger] s[j], #[trigger] s[i]) by {
        lemma_strictly_sorted_chain(s, lt, i, j);
    }
}

proof fn lemma_strictly_sorted_chain<A>(s: Seq<A>, lt: spec_fn(A, A) -> bool, i: int, j: int)
    requires
        strict_weak_order(lt),
        strictly_sorted(s, lt),
        0 <= i < j < s.len(),
    ensures
        !lt(s[j], s[i]),
    decreases j - i,
{
    assert(lt(s[j - 1], s[j - 1 + 1]));
    assert(!lt(s[j], s[j - 1]));
    if j - 1 > i {
        lemma_strictly_sorted_chain(s, lt, i, j - 1);
    }
}

/// The merge sort of a list under a strict weak order is sorted.
pub proof fn lemma_merge_sort_sorted<A>(s: Seq<A>, lt: spec_fn(A, A) -> bool)
    requires
        strict_weak_order(lt),
    ensures
        sorted_by(merge_sort(s, lt), lt),
    decreases s.len(),
{
    if s.len() <= 1 {
    } else if strictly_sorted(s, lt) {
        lemma_strictly_sorted_sorted(s, lt);
    } else {
        let h = ((s.len() + 1) / 2) as int;
        lemma_merge_sort_sorted(s.take(h), lt);
        lemma_merge_sort_sorted(s.skip(h), lt);
        lemma_merge_sorted(merge_sort(s.take(h), lt), merge_sort(s.skip(h), lt), lt);
    }
}

/// Ordering members by key is a strict weak order.
pub proof fn lemma_key_lt_order(case_sensitive: bool)
    ensures
        strict_weak_order(key_lt(case_sensitive)),
{
    let lt = key_lt(case_sensitive);
    assert forall|x: (Seq<u8>, JsonV), y: (Seq<u8>, JsonV)| #[trigger] lt(x, y) implies !lt(y, x) by {
        lemma_key_order_antisymmetric(x.0, y.0, case_sensitive);
    }
    assert forall|x: (Seq<u8>, JsonV), y: (Seq<u8>, JsonV), z: (Seq<u8>, JsonV)|
        !#[trigger] lt(y, x) && !#[trigger] lt(z, y) implies !lt(z, x) by {
        lemma_key_order_antisymmetric(y.0, x.0, case_sensitive);
        lemma_key_order_antisymmetric(z.0, y.0, case_sensitive);
        lemma_key_order_antisymmetric(z.0, x.0, case_sensitive);
        lemma_key_order_transitive(x.0, y.0, z.0, case_sensitive);
    }
}

/// Sorting an object keeps its members, each as often, and puts them in
/// key order: no member's key compares below the key of a member before it.
pub proof fn law_sort_object(j: JsonV, case_sensitive: bool)
    requires
        j is Object,
    ensures
        sort_object_spec(j, case_sensitive) is Object,
        sort_object_spec(j, case_sensitive)->Object_0.to_multiset() == j->Object_0.to_multiset(),
        ({
            let r = sort_object_spec(j, case_sensitive)->Object_0;
            forall|a: int, b: int|
                0 <= a < b < r.len() ==> key_order(#[trigger] r[a].0, #[trigger] r[b].0, case_sensitive) <= 0
        }),
{
    let ms = j->Object_0;
    lemma_merge_sort_multiset(ms, key_lt(case_sensitive));
    lemma_key_lt_order(case_sensitive);
    lemma_merge_sort_sorted(ms, key_lt(case_sensitive));
    let r = merge_sort(ms, key_lt(case_sensitive));
    assert forall|a: int, b: int| 0 <= a < b < r.len() implies key_order(
        #[trigger] r[a].0,
        #[trigger] r[b].0,
        case_sensitive,
    ) <= 0 by {
        assert(!key_lt(case_sensitive)(r[b], r[a]));
        lemma_key_order_antisymmetric(r[a].0, r[b].0, case_sensitive);
    }
}

/// Sorting an array keeps its items, each as often.
pub proof fn law_sort_array_permutes(j: JsonV, case_sensitive: bool)
    requires
        j is Array,
    ensures
        sort_object_spec(j, case_sensitive) is Array,
        sort_object_spec(j, case_sensitive)->Array_0.to_multiset() == j->Array_0.to_multiset(),
{
    lemma_merge_sort_multiset(j->Array_0, keyless_lt());
}

/// An object whose members are already in strictly increasing key order is
/// left as it is.
pub proof fn law_sort_object_sorted_unchanged(j: JsonV, case_sensitive: bool)
    requires
        j is Object,
        forall|i: int|
            0 <= i < j->Object_0.len() - 1 ==> key_order(
                #[trigger] j->Object_0[i].0,
                j->Object_0[i + 1].0,
                case_sensitive,
            ) < 0,
    ensures
        sort_object_spec(j, case_sensitive) == j,
{
    let ms = j->Object_0;
    assert forall|i: int| 0 <= i < ms.len() - 1 implies #[trigger] key_lt(case_sensitive)(ms[i], ms[i + 1]) by {}
}

/// Sorting an object whose keys are distinct under the comparison a second
/// time changes nothing.
pub proof fn law_sort_object_twice(j: JsonV, case_sensitive: bool)
    requires
        j is Object,
        forall|a: int, b: int|
            0 <= a < b < j->Object_0.len() ==> key_order(
                #[trigger] j->Object_0[a].0,
                #[trigger] j->Object_0[b].0,
                case_sensitive,
            ) != 0,
    ensures
        sort_object_spec(sort_object_spec(j, case_sensitive), case_sensitive) == sort_object_spec(j, case_sensitive),
{
    let ms = j->Object_0;
    let lt = key_lt(case_sensitive);
    let r = merge_sort(ms, lt);
    lemma_merge_sort_multiset(ms, lt);
    lemma_key_lt_order(case_sensitive);
    lemma_merge_sort_sorted(ms, lt);
    assert forall|i: int| 0 <= i < r.len() implies ms.contains(#[trigger] r[i]) by {
        lemma_merge_sort_contains(ms, lt, i);
    }
    assert forall|a: int, b: int| 0 <= a < ms.len() && 0 <= b < ms.len() && a != b implies key_order(
        #[trigger] ms[a].0,
        #[trigger] ms[b].0,
        case_sensitive,
    ) != 0 by {
        if b < a {
            lemma_key_order_antisymmetric(ms[b].0, ms[a].0, case_sensitive);
        }
    }
    assert(ms.no_duplicates()) by {
        assert forall|a: int, b: int| 0 <= a < ms.len() && 0 <= b < ms.len() && a != b implies ms[a] != ms[b] by {
            assert(key_order(ms[a].0, ms[b].0, case_sensitive) != 0);
            lemma_key_order_reflexive(ms[a].0, case_sensitive);
        }
    }
    ms.lemma_multiset_has_no_duplicates();
    r.lemma_multiset_has_no_duplicates_conv();
    assert forall|i: int| 0 <= i < r.len() - 1 implies #[trigger] lt(r[i], r[i + 1]) by {
        assert(!lt(r[i + 1], r[i]));
        lemma_key_order_antisymmetric(r[i + 1].0, r[i].0, case_sensitive);
        let a = choose|a: int| 0 <= a < ms.len() && ms[a] == r[i];
        let b = choose|b: int| 0 <= b < ms.len() && ms[b] == r[i + 1];
        assert(r[i] != r[i + 1]);
        assert(a != b);
        assert(key_order(ms[a].0, ms[b].0, case_sensitive) != 0);
    }
    assert(strictly_sorted(r, lt));
}

} // verus!
