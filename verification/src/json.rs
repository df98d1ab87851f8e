//! The JSON tree, its mathematical model, and the tree operations that the
//! pointer and patch utilities build on.

use vstd::prelude::*;
use crate::strings::{compare_strings, key_eq};

verus! {

/// A JSON value. Objects keep their members in order, and keys may repeat.
/// Numbers are held as the integer they denote.
#[derive(Debug, PartialEq, Eq)]
pub enum Json {
    Invalid,
    False,
    True,
    Null,
    Number(i64),
    String(Vec<u8>),
    Array(Vec<Json>),
    Object(Vec<Member>),
    Raw(Vec<u8>),
}

/// A member of a JSON object: its key and its value.
#[derive(Debug, PartialEq, Eq)]
pub struct Member {
    pub key: Vec<u8>,
    pub value: Json,
}

/// The mathematical model of a JSON value.
pub enum JsonV {
    Invalid,
    False,
    True,
    Null,
    Number(int),
    String(Seq<u8>),
    Array(Seq<JsonV>),
    Object(Seq<(Seq<u8>, JsonV)>),
    Raw(Seq<u8>),
}

/// The models of a sequence of array items.
pub open spec fn items_view(v: Seq<Json>) -> Seq<JsonV>
    decreases v,
{
    Seq::new(v.len(), |i: int| if 0 <= i < v.len() { view_json(v[i]) } else { JsonV::Null })
}

/// The models of a sequence of object members.
pub open spec fn members_view(v: Seq<Member>) -> Seq<(Seq<u8>, JsonV)>
    decreases v,
{
    Seq::new(
        v.len(),
        |i: int|
            if 0 <= i < v.len() {
                (v[i].key@, view_json(v[i].value))
            } else {
                (Seq::empty(), JsonV::Null)
            },
    )
}

/// The model of a JSON value.
pub open spec fn view_json(j: Json) -> JsonV
    decreases j,
{
    match j {
        Json::Invalid => JsonV::Invalid,
        Json::False => JsonV::False,
        Json::True => JsonV::True,
        Json::Null => JsonV::Null,
        Json::Number(n) => JsonV::Number(n as int),
        Json::String(s) => JsonV::String(s@),
        Json::Array(v) => JsonV::Array(items_view(v@)),
        Json::Object(v) => JsonV::Object(members_view(v@)),
        Json::Raw(s) => JsonV::Raw(s@),
    }
}

pub broadcast proof fn lemma_items_view_update(v: Seq<Json>, i: int, x: Json)
    requires
        0 <= i < v.len(),
    ensures
        #[trigger] items_view(v.update(i, x)) == items_view(v).update(i, view_json(x)),
{
    assert(items_view(v.update(i, x)) =~= items_view(v).update(i, view_json(x)));
}

pub broadcast proof fn lemma_members_view_update(v: Seq<Member>, i: int, x: Member)
    requires
        0 <= i < v.len(),
    ensures
        #[trigger] members_view(v.update(i, x)) == members_view(v).update(i, (x.key@, view_json(x.value))),
{
    assert(members_view(v.update(i, x)) =~= members_view(v).update(i, (x.key@, view_json(x.value))));
}

impl View for Json {
    type V = JsonV;

    open spec fn view(&self) -> JsonV {
        view_json(*self)
    }
}

/// The model of an optional reference into a tree.
pub open spec fn opt_view(o: Option<&Json>) -> Option<JsonV> {
    match o {
        Some(x) => Some(view_json(*x)),
        None => None,
    }
}

/// The type flag of a value, as cJSON numbers its types.
pub open spec fn type_flag(j: JsonV) -> u8 {
    match j {
        JsonV::Invalid => 0,
        JsonV::False => 1,
        JsonV::True => 2,
        JsonV::Null => 4,
        JsonV::Number(_) => 8,
        JsonV::String(_) => 16,
        JsonV::Array(_) => 32,
        JsonV::Object(_) => 64,
        JsonV::Raw(_) => 128,
    }
}

/// Whether two values are of the same type (both numbers, both arrays, ...).
pub open spec fn same_kind(a: JsonV, b: JsonV) -> bool {
    type_flag(a) == type_flag(b)
}

/// The nesting depth of a value: 0 for a scalar, one more than its deepest
/// child for an array or an object.
pub open spec fn height(j: JsonV) -> nat
    decreases j,
{
    match j {
        JsonV::Array(items) => 1 + items_height(items),
        JsonV::Object(ms) => 1 + members_height(ms),
        _ => 0,
    }
}

/// The greatest depth among array items.
pub open spec fn items_height(s: Seq<JsonV>) -> nat
    decreases s,
{
    if s.len() == 0 {
        0
    } else {
        let a = items_height(s.drop_last());
        let b = height(s.last());
        if a >= b {
            a
        } else {
            b
        }
    }
}

/// The greatest depth among member values.
pub open spec fn members_height(s: Seq<(Seq<u8>, JsonV)>) -> nat
    decreases s,
{
    if s.len() == 0 {
        0
    } else {
        let a = members_height(s.drop_last());
        let b = height(s.last().1);
        if a >= b {
            a
        } else {
            b
        }
    }
}

pub proof fn lemma_items_height_bound(s: Seq<JsonV>, bound: nat)
    requires
        forall|k: int| 0 <= k < s.len() ==> height(#[trigger] s[k]) <= bound,
    ensures
        items_height(s) <= bound,
    decreases s.len(),
{
    if s.len() > 0 {
        assert(height(s[s.len() - 1]) <= bound);
        lemma_items_height_bound(s.drop_last(), bound);
    }
}

pub proof fn lemma_members_height_bound(s: Seq<(Seq<u8>, JsonV)>, bound: nat)
    requires
        forall|k: int| 0 <= k < s.len() ==> height(#[trigger] s[k].1) <= bound,
    ensures
        members_height(s) <= bound,
    decreases s.len(),
{
    if s.len() > 0 {
        assert(height(s[s.len() - 1].1) <= bound);
        lemma_members_height_bound(s.drop_last(), bound);
    }
}

pub proof fn lemma_items_height(s: Seq<JsonV>, i: int)
    requires
        0 <= i < s.len(),
    ensures
        height(s[i]) <= items_height(s),
    decreases s.len(),
{
    if i < s.len() - 1 {
        lemma_items_height(s.drop_last(), i);
    }
}

pub proof fn lemma_members_height(s: Seq<(Seq<u8>, JsonV)>, i: int)
    requires
        0 <= i < s.len(),
    ensures
        height(s[i].1) <= members_height(s),
    decreases s.len(),
{
    if i < s.len() - 1 {
        lemma_members_height(s.drop_last(), i);
    }
}

/// The position of the first element that satisfies `p`; the length of the
/// sequence when there is none.
pub open spec fn first_where<A>(s: Seq<A>, p: spec_fn(A) -> bool) -> int
    decreases s.len(),
{
    if s.len() == 0 {
        0
    } else if p(s[0]) {
        0
    } else {
        1 + first_where(s.drop_first(), p)
    }
}

pub proof fn lemma_first_where<A>(s: Seq<A>, p: spec_fn(A) -> bool)
    ensures
        0 <= first_where(s, p) <= s.len(),
        first_where(s, p) < s.len() ==> p(s[first_where(s, p)]),
        forall|j: int| 0 <= j < first_where(s, p) ==> !p(#[trigger] s[j]),
    decreases s.len(),
{
    if s.len() > 0 && !p(s[0]) {
        lemma_first_where(s.drop_first(), p);
        assert forall|j: int| 0 <= j < first_where(s, p) implies !p(#[trigger] s[j]) by {
            if j > 0 {
                assert(s[j] == s.drop_first()[j - 1]);
            }
        }
    }
}

/// A scan from the front that has passed `i` elements, none satisfying `p`,
/// and stops at `i` (at the end, or at an element that satisfies `p`) has
/// found the first such element.
pub proof fn lemma_first_where_at<A>(s: Seq<A>, p: spec_fn(A) -> bool, i: int)
    requires
        0 <= i <= s.len(),
        forall|j: int| 0 <= j < i ==> !p(#[trigger] s[j]),
        i == s.len() || p(s[i]),
    ensures
        first_where(s, p) == i,
{
    lemma_first_where(s, p);
}

/// The position of the first member whose key equals `name` under the
/// chosen comparison; the number of members when there is none.
pub open spec fn first_key_match(ms: Seq<(Seq<u8>, JsonV)>, name: Seq<u8>, case_sensitive: bool) -> int {
    first_where(ms, |m: (Seq<u8>, JsonV)| key_eq(name, m.0, case_sensitive))
}

/// The value of the first member of an object whose key equals `name`.
pub open spec fn object_get(j: JsonV, name: Seq<u8>, case_sensitive: bool) -> Option<JsonV> {
    match j {
        JsonV::Object(ms) => {
            let k = first_key_match(ms, name, case_sensitive);
            if k < ms.len() {
                Some(ms[k].1)
            } else {
                None
            }
        },
        _ => None,
    }
}

/// An object without its first member whose key equals `name`, and that
/// member's value; other values are left as they are.
pub open spec fn object_detach(j: JsonV, name: Seq<u8>, case_sensitive: bool) -> (JsonV, Option<JsonV>) {
    match j {
        JsonV::Object(ms) => {
            let k = first_key_match(ms, name, case_sensitive);
            if k < ms.len() {
                (JsonV::Object(ms.remove(k)), Some(ms[k].1))
            } else {
                (j, None)
            }
        },
        _ => (j, None),
    }
}

/// An object with a member appended.
pub open spec fn object_add(j: JsonV, key: Seq<u8>, item: JsonV) -> JsonV {
    match j {
        JsonV::Object(ms) => JsonV::Object(ms.push((key, item))),
        _ => j,
    }
}

/// Copies a byte string.
pub fn copy_bytes(s: &[u8]) -> (r: Vec<u8>)
    ensures
        r@ == s@,
{
    let mut r: Vec<u8> = Vec::new();
    let mut i: usize = 0;
    while i < s.len()
        invariant
            i <= s@.len(),
            r@ == s@.take(i as int),
        decreases s@.len() - i,
    {
        r.push(s[i]);
        proof {
            assert(r@ =~= s@.take(i + 1));
        }
        i = i + 1;
    }
    proof {
        assert(r@ =~= s@);
    }
    r
}

impl Json {
    /// A deep copy of the value, children included.
    #[verifier::loop_isolation(false)]
    pub fn duplicate(&self) -> (r: Json)
        ensures
            r@ == self@,
        decreases self,
    {
        match self {
            Json::Invalid => Json::Invalid,
            Json::False => Json::False,
            Json::True => Json::True,
            Json::Null => Json::Null,
            Json::Number(n) => Json::Number(*n),
            Json::String(s) => Json::String(copy_bytes(s.as_slice())),
            Json::Raw(s) => Json::Raw(copy_bytes(s.as_slice())),
            Json::Array(v) => {
                let mut out: Vec<Json> = Vec::new();
                let mut i: usize = 0;
                while i < v.len()
                    invariant
                        i <= v@.len(),
                        out@.len() == i,
                        forall|k: int| 0 <= k < i ==> view_json(#[trigger] out@[k]) == view_json(v@[k]),
                    decreases v@.len() - i,
                {
                    proof {
                        vstd::std_specs::vec::axiom_vec_index_decreases(*v, i as int);
                    }
                    let c = v[i].duplicate();
                    out.push(c);
                    i = i + 1;
                }
                proof {
                    assert(items_view(out@) =~= items_view(v@));
                }
                Json::Array(out)
            },
            Json::Object(v) => {
                let mut out: Vec<Member> = Vec::new();
                let mut i: usize = 0;
                while i < v.len()
                    invariant
                        i <= v@.len(),
                        out@.len() == i,
                        forall|k: int|
                            0 <= k < i ==> (#[trigger] out@[k]).key@ == v@[k].key@ && view_json(
                                out@[k].value,
                            ) == view_json(v@[k].value),
                    decreases v@.len() - i,
                {
                    proof {
                        vstd::std_specs::vec::axiom_vec_index_decreases(*v, i as int);
                    }
                    let c = v[i].value.duplicate();
                    let key = copy_bytes(v[i].key.as_slice());
                    out.push(Member { key, value: c });
                    i = i + 1;
                }
                proof {
                    assert(members_view(out@) =~= members_view(v@));
                }
                Json::Object(out)
            },
        }
    }

    /// The type flag of the value.
    pub fn type_of(&self) -> (r: u8)
        ensures
            r == type_flag(self@),
    {
        match self {
            Json::Invalid => 0,
            Json::False => 1,
            Json::True => 2,
            Json::Null => 4,
            Json::Number(_) => 8,
            Json::String(_) => 16,
            Json::Array(_) => 32,
            Json::Object(_) => 64,
            Json::Raw(_) => 128,
        }
    }

    /// Whether the value is an object.
    pub fn is_object(&self) -> (r: bool)
        ensures
            r == (self@ is Object),
    {
        match self {
            Json::Object(_) => true,
            _ => false,
        }
    }
}

/// The position of the first member whose key equals `name`.
pub fn find_member(members: &Vec<Member>, name: &[u8], case_sensitive: bool) -> (k: usize)
    ensures
        k == first_key_match(members_view(members@), name@, case_sensitive),
{
    let ghost ms = members_view(members@);
    let mut i: usize = 0;
    while i < members.len()
        invariant
            ms == members_view(members@),
            i <= members@.len(),
            forall|j: int| 0 <= j < i ==> !key_eq(name@, #[trigger] ms[j].0, case_sensitive),
        decreases members@.len() - i,
    {
        assert(ms[i as int].0 == members@[i as int].key@);
        if compare_strings(name, members[i].key.as_slice(), case_sensitive) == 0 {
            proof {
                lemma_first_where_at(ms, |m: (Seq<u8>, JsonV)| key_eq(name@, m.0, case_sensitive), i as int);
            }
            return i;
        }
        i = i + 1;
    }
    proof {
        lemma_first_where_at(ms, |m: (Seq<u8>, JsonV)| key_eq(name@, m.0, case_sensitive), i as int);
    }
    i
}

/// The value of the first member of an object whose key equals `name`
/// under the chosen comparison.
pub fn get_object_item<'a>(object: &'a Json, name: &[u8], case_sensitive: bool) -> (r: Option<
    &'a Json,
>)
    ensures
        opt_view(r) == object_get(object@, name@, case_sensitive),
{
    match object {
        Json::Object(members) => {
            let k = find_member(members, name, case_sensitive);
            if k < members.len() {
                Some(&members[k].value)
            } else {
                None
            }
        },
        _ => None,
    }
}

/// Takes the first member whose key equals `name` out of an object, and
/// gives its value back.
pub fn detach_item_from_object(object: &mut Json, name: &[u8], case_sensitive: bool) -> (r: Option<
    Json,
>)
    ensures
        (final(object)@, match r {
            Some(x) => Some(x@),
            None => None,
        }) == object_detach(old(object)@, name@, case_sensitive),
{
    match object {
        Json::Object(members) => {
            let k = find_member(members, name, case_sensitive);
            if k < members.len() {
                let ghost before = members@;
                let m = members.remove(k);
                proof {
                    assert(members_view(members@) =~= members_view(before).remove(k as int));
                }
                Some(m.value)
            } else {
                None
            }
        },
        _ => None,
    }
}

/// Appends a member to an object.
pub fn add_item_to_object(object: &mut Json, key: &[u8], item: Json)
    ensures
        final(object)@ == object_add(old(object)@, key@, item@),
{
    match object {
        Json::Object(members) => {
            let ghost before = members@;
            let k = copy_bytes(key);
            members.push(Member { key: k, value: item });
            proof {
                assert(members_view(members@) =~= members_view(before).push((key@, item@)));
            }
        },
        _ => {},
    }
}

} // verus!
