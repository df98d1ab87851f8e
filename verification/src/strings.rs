//! Byte-string helpers: key comparison, JSON Pointer escaping and decoding,
//! and decimal rendering of array indices.

use vstd::prelude::*;

verus! {

/// ASCII lower-casing: `A` to `Z` become `a` to `z`, other bytes stay.
pub open spec fn lower(c: u8) -> u8 {
    if 65 <= c <= 90 {
        (c + 32) as u8
    } else {
        c
    }
}

/// The byte that a comparison looks at: itself, or its lower case.
pub open spec fn fold(c: u8, case_sensitive: bool) -> u8 {
    if case_sensitive {
        c
    } else {
        lower(c)
    }
}

/// A C string holds no NUL byte before its end.
pub open spec fn is_cstr(s: Seq<u8>) -> bool {
    forall|i: int| 0 <= i < s.len() ==> s[i] != 0
}

/// The byte at position `i` of a C string, NUL past its end.
pub open spec fn byte_at(s: Seq<u8>, i: int) -> u8 {
    if 0 <= i < s.len() {
        s[i]
    } else {
        0
    }
}

/// Three-way comparison of two keys as C strings: the difference of the
/// first pair of (folded) bytes that differ, the end of a string counting as
/// NUL; zero when the strings end (at a NUL) without such a pair.
pub open spec fn key_order(a: Seq<u8>, b: Seq<u8>, case_sensitive: bool) -> int
    decreases a.len(),
{
    if a.len() == 0 || b.len() == 0 {
        fold(byte_at(a, 0), case_sensitive) - fold(byte_at(b, 0), case_sensitive)
    } else if fold(a[0], case_sensitive) != fold(b[0], case_sensitive) {
        fold(a[0], case_sensitive) - fold(b[0], case_sensitive)
    } else if a[0] == 0 {
        0
    } else {
        key_order(a.drop_first(), b.drop_first(), case_sensitive)
    }
}

/// Two keys are equal under the chosen comparison.
pub open spec fn key_eq(a: Seq<u8>, b: Seq<u8>, case_sensitive: bool) -> bool {
    key_order(a, b, case_sensitive) == 0
}


proof fn lemma_fold_zero(c: u8, cs: bool)
    ensures
        (fold(c, cs) == 0) == (c == 0),
{
}

/// The comparison of two keys looks at their first bytes, and at the rest
/// only when those agree and are not the end.
proof fn lemma_key_order_unfold(a: Seq<u8>, b: Seq<u8>, cs: bool)
    ensures
        ({
            let fa = fold(byte_at(a, 0), cs);
            let fb = fold(byte_at(b, 0), cs);
            key_order(a, b, cs) == if fa != fb {
                fa - fb
            } else if fa == 0 {
                0
            } else {
                key_order(a.drop_first(), b.drop_first(), cs)
            }
        }),
{
    lemma_fold_zero(byte_at(a, 0), cs);
    lemma_fold_zero(byte_at(b, 0), cs);
}

/// Swapping the keys negates the comparison.
pub proof fn lemma_key_order_antisymmetric(a: Seq<u8>, b: Seq<u8>, cs: bool)
    ensures
        key_order(b, a, cs) == -key_order(a, b, cs),
    decreases a.len(),
{
    lemma_key_order_unfold(a, b, cs);
    lemma_key_order_unfold(b, a, cs);
    if a.len() > 0 && b.len() > 0 {
        lemma_key_order_antisymmetric(a.drop_first(), b.drop_first(), cs);
    }
}

/// The comparison of keys is transitive.
pub proof fn lemma_key_order_transitive(a: Seq<u8>, b: Seq<u8>, c: Seq<u8>, cs: bool)
    requires
        key_order(a, b, cs) <= 0,
        key_order(b, c, cs) <= 0,
    ensures
        key_order(a, c, cs) <= 0,
        key_order(a, b, cs) < 0 || key_order(b, c, cs) < 0 ==> key_order(a, c, cs) < 0,
    decreases a.len(),
{
    lemma_key_order_unfold(a, b, cs);
    lemma_key_order_unfold(b, c, cs);
    lemma_key_order_unfold(a, c, cs);
    let fa = fold(byte_at(a, 0), cs);
    let fb = fold(byte_at(b, 0), cs);
    let fc = fold(byte_at(c, 0), cs);
    if fa == fb && fb == fc && fa != 0 {
        lemma_fold_zero(byte_at(a, 0), cs);
        lemma_key_order_transitive(a.drop_first(), b.drop_first(), c.drop_first(), cs);
    }
}

/// A key equals itself under either comparison.
pub proof fn lemma_key_order_reflexive(a: Seq<u8>, cs: bool)
    ensures
        key_order(a, a, cs) == 0,
    decreases a.len(),
{
    lemma_key_order_unfold(a, a, cs);
    if a.len() > 0 {
        lemma_key_order_reflexive(a.drop_first(), cs);
    }
}

fn lower_byte(c: u8) -> (r: u8)
    ensures
        r == lower(c),
{
    if 65 <= c && c <= 90 {
        c + 32
    } else {
        c
    }
}

fn fold_byte(c: u8, case_sensitive: bool) -> (r: u8)
    ensures
        r == fold(c, case_sensitive),
{
    if case_sensitive {
        c
    } else {
        lower_byte(c)
    }
}

proof fn lemma_key_order_skip(a: Seq<u8>, b: Seq<u8>, cs: bool, i: int)
    requires
        0 <= i <= a.len(),
        i <= b.len(),
        forall|j: int| 0 <= j < i ==> fold(a[j], cs) == fold(b[j], cs) && a[j] != 0,
    ensures
        key_order(a, b, cs) == key_order(a.skip(i), b.skip(i), cs),
    decreases i,
{
    if i == 0 {
        assert(a.skip(0) =~= a);
        assert(b.skip(0) =~= b);
    } else {
        assert(fold(a[0], cs) == fold(b[0], cs) && a[0] != 0);
        lemma_key_order_skip(a.drop_first(), b.drop_first(), cs, i - 1);
        assert(a.drop_first().skip(i - 1) =~= a.skip(i));
        assert(b.drop_first().skip(i - 1) =~= b.skip(i));
    }
}

/// Compares two keys byte by byte, or, ignoring case, byte by byte after
/// lower-casing, up to the first difference or the end of either (a NUL
/// byte ends a key); the result is the difference of the first differing
/// bytes (see `key_order`).
pub fn compare_strings(string1: &[u8], string2: &[u8], case_sensitive: bool) -> (r: i32)
    ensures
        r as int == key_order(string1@, string2@, case_sensitive),
{
    let mut i: usize = 0;
    while i < string1.len() && i < string2.len()
        invariant
            i <= string1@.len(),
            i <= string2@.len(),
            forall|j: int|
                0 <= j < i ==> fold(string1@[j], case_sensitive) == fold(string2@[j], case_sensitive)
                    && string1@[j] != 0,
        decreases string1@.len() - i,
    {
        let c1 = fold_byte(string1[i], case_sensitive);
        let c2 = fold_byte(string2[i], case_sensitive);
        if c1 != c2 {
            proof {
                lemma_key_order_skip(string1@, string2@, case_sensitive, i as int);
            }
            return c1 as i32 - c2 as i32;
        }
        if string1[i] == 0 {
            proof {
                lemma_key_order_skip(string1@, string2@, case_sensitive, i as int);
            }
            return 0;
        }
        i = i + 1;
    }
    proof {
        lemma_key_order_skip(string1@, string2@, case_sensitive, i as int);
    }
    let c1: u8 = if i < string1.len() { fold_byte(string1[i], case_sensitive) } else { 0 };
    let c2: u8 = if i < string2.len() { fold_byte(string2[i], case_sensitive) } else { 0 };
    c1 as i32 - c2 as i32
}


/// What one byte becomes inside a JSON Pointer: `~` is written `~0`,
/// `/` is written `~1`.
pub open spec fn escape_byte(c: u8) -> Seq<u8> {
    if c == 126 {
        seq![126u8, 48u8]
    } else if c == 47 {
        seq![126u8, 49u8]
    } else {
        seq![c]
    }
}

/// A key written as a JSON Pointer reference token (RFC 6901).
pub open spec fn escape(s: Seq<u8>) -> Seq<u8>
    decreases s.len(),
{
    if s.len() == 0 {
        Seq::empty()
    } else {
        escape(s.drop_last()) + escape_byte(s.last())
    }
}

/// The length of a key once escaped for a JSON Pointer.
pub fn pointer_encoded_length(string: &[u8]) -> (length: usize)
    requires
        2 * string@.len() <= usize::MAX,
    ensures
        length == escape(string@).len(),
{
    let mut length: usize = 0;
    let mut i: usize = 0;
    while i < string.len()
        invariant
            i <= string@.len(),
            2 * string@.len() <= usize::MAX,
            length == escape(string@.take(i as int)).len(),
            length <= 2 * i,
        decreases string@.len() - i,
    {
        proof {
            assert(string@.take(i + 1).drop_last() =~= string@.take(i as int));
        }
        if string[i] == 126 || string[i] == 47 {
            length = length + 2;
        } else {
            length = length + 1;
        }
        i = i + 1;
    }
    proof {
        assert(string@.take(i as int) =~= string@);
    }
    length
}

/// Appends a key, escaped for a JSON Pointer, to `destination`.
pub fn encode_string_as_pointer(destination: &mut Vec<u8>, source: &[u8])
    ensures
        final(destination)@ == old(destination)@ + escape(source@),
{
    let mut i: usize = 0;
    while i < source.len()
        invariant
            i <= source@.len(),
            destination@ == old(destination)@ + escape(source@.take(i as int)),
        decreases source@.len() - i,
    {
        proof {
            assert(source@.take(i + 1).drop_last() =~= source@.take(i as int));
        }
        let c = source[i];
        if c == 47 {
            destination.push(126);
            destination.push(49);
        } else if c == 126 {
            destination.push(126);
            destination.push(48);
        } else {
            destination.push(c);
        }
        proof {
            assert(destination@ =~= old(destination)@ + escape(source@.take(i + 1)));
        }
        i = i + 1;
    }
    proof {
        assert(source@.take(i as int) =~= source@);
    }
}

/// The decimal digits of a number, most significant first, without leading zeros.
pub open spec fn decimal(n: nat) -> Seq<u8>
    decreases n,
{
    if n < 10 {
        seq![(48 + n) as u8]
    } else {
        decimal(n / 10).push((48 + n % 10) as u8)
    }
}

/// Appends the decimal digits of `n` to `destination`.
pub fn push_decimal(destination: &mut Vec<u8>, n: usize)
    ensures
        final(destination)@ == old(destination)@ + decimal(n as nat),
    decreases n,
{
    if n >= 10 {
        push_decimal(destination, n / 10);
    }
    let digit: u8 = (n % 10) as u8;
    destination.push(48 + digit);
    proof {
        assert(destination@ =~= old(destination)@ + decimal(n as nat));
    }
}

pub open spec fn is_digit(c: u8) -> bool {
    48 <= c <= 57
}

/// The number of ASCII digits that a string starts with.
pub open spec fn digit_count(p: Seq<u8>) -> nat
    decreases p.len(),
{
    if p.len() > 0 && is_digit(p[0]) {
        1 + digit_count(p.drop_first())
    } else {
        0
    }
}

/// The number that a string of ASCII digits denotes.
pub open spec fn digits_value(d: Seq<u8>) -> nat
    decreases d.len(),
{
    if d.len() == 0 {
        0
    } else {
        10 * digits_value(d.drop_last()) + (d.last() - 48) as nat
    }
}

/// The array index that the reference token at the start of `p` denotes:
/// its leading digits, taken modulo the range of `usize`, where the token
/// ends right after them; a token that starts with `0` and goes on is refused.
pub open spec fn decode_index(p: Seq<u8>) -> Option<usize> {
    let n = digit_count(p);
    if byte_at(p, 0) == 48 && byte_at(p, 1) != 0 && byte_at(p, 1) != 47 {
        None
    } else if byte_at(p, n as int) != 0 && byte_at(p, n as int) != 47 {
        None
    } else {
        Some((digits_value(p.take(n as int)) % (usize::MAX as nat + 1)) as usize)
    }
}

proof fn lemma_digit_count(p: Seq<u8>, k: int)
    requires
        0 <= k <= p.len(),
        forall|j: int| 0 <= j < k ==> is_digit(p[j]),
        k == p.len() || !is_digit(p[k]),
    ensures
        digit_count(p) == k,
    decreases k,
{
    if k > 0 {
        lemma_digit_count(p.drop_first(), k - 1);
    }
}

proof fn lemma_wrapping_step(x: nat, d: nat)
    requires
        d < 10,
    ensures
        ({
            let m = usize::MAX as nat + 1;
            let a = ((10 * (x % m)) % m) as nat;
            (if a + d > usize::MAX { a + d - m } else { (a + d) as int }) == (10 * x + d) % m
        }),
{
    let m = usize::MAX as nat + 1;
    vstd::arithmetic::div_mod::lemma_mul_mod_noop_right(10, x as int, m as int);
    vstd::arithmetic::div_mod::lemma_add_mod_noop((10 * x) as int, d as int, m as int);
    vstd::arithmetic::div_mod::lemma_small_mod(d, m);
    let a = ((10 * x) % m) as nat;
    vstd::arithmetic::div_mod::lemma_mod_bound((10 * x) as int, m as int);
    if a + d > usize::MAX {
        vstd::arithmetic::div_mod::lemma_mod_sub_multiples_vanish((a + d) as int, m as int);
        vstd::arithmetic::div_mod::lemma_small_mod((a + d - m) as nat, m);
    } else {
        vstd::arithmetic::div_mod::lemma_small_mod(a + d, m);
    }
}

/// Reads the array index at the start of a JSON Pointer reference token.
pub fn decode_array_index_from_pointer(pointer: &[u8]) -> (index: Option<usize>)
    ensures
        index == decode_index(pointer@),
{
    let len = pointer.len();
    let b1: u8 = if 1 < len { pointer[1] } else { 0 };
    if 0 < len && pointer[0] == 48 && b1 != 0 && b1 != 47 {
        return None;
    }
    let mut parsed_index: usize = 0;
    let mut position: usize = 0;
    proof {
        assert(pointer@.take(0).len() == 0);
        vstd::arithmetic::div_mod::lemma_small_mod(0, usize::MAX as nat + 1);
    }
    while position < len && 48 <= pointer[position] && pointer[position] <= 57
        invariant
            len == pointer@.len(),
            position <= len,
            forall|j: int| 0 <= j < position ==> is_digit(pointer@[j]),
            parsed_index as nat == digits_value(pointer@.take(position as int)) % (usize::MAX as nat + 1),
        decreases len - position,
    {
        let digit: usize = (pointer[position] - 48) as usize;
        proof {
            assert(pointer@.take(position + 1).drop_last() =~= pointer@.take(position as int));
            lemma_wrapping_step(digits_value(pointer@.take(position as int)), digit as nat);
        }
        parsed_index = parsed_index.wrapping_mul(10).wrapping_add(digit);
        position = position + 1;
    }
    proof {
        lemma_digit_count(pointer@, position as int);
    }
    if position < len && pointer[position] != 0 && pointer[position] != 47 {
        return None;
    }
    Some(parsed_index)
}

/// Whether a key matches the reference token at the start of `pointer` (the
/// rest of a JSON Pointer, up to its next `/`): `~0` stands for `~`, `~1`
/// for `/`, any other `~` refuses the match; other bytes compare under the
/// chosen case rule.
pub open spec fn segment_matches(name: Seq<u8>, pointer: Seq<u8>, case_sensitive: bool) -> bool
    decreases name.len(),
{
    if name.len() == 0 || pointer.len() == 0 || pointer[0] == 47 {
        (name.len() != 0) == (pointer.len() != 0 && pointer[0] != 47)
    } else if pointer[0] == 126 {
        if (byte_at(pointer, 1) == 48 && name[0] == 126) || (byte_at(pointer, 1) == 49 && name[0]
            == 47) {
            segment_matches(name.drop_first(), pointer.skip(2), case_sensitive)
        } else {
            false
        }
    } else if fold(name[0], case_sensitive) != fold(pointer[0], case_sensitive) {
        false
    } else {
        segment_matches(name.drop_first(), pointer.drop_first(), case_sensitive)
    }
}

/// Compares a key with the next reference token of a JSON Pointer.
pub fn compare_pointers(name: &[u8], pointer: &[u8], case_sensitive: bool) -> (r: bool)
    ensures
        r == segment_matches(name@, pointer@, case_sensitive),
{
    let mut i: usize = 0;
    let mut j: usize = 0;
    proof {
        assert(name@.skip(0) =~= name@);
        assert(pointer@.skip(0) =~= pointer@);
    }
    while i < name.len() && j < pointer.len() && pointer[j] != 47
        invariant
            i <= name@.len(),
            j <= pointer@.len(),
            segment_matches(name@, pointer@, case_sensitive) == segment_matches(
                name@.skip(i as int),
                pointer@.skip(j as int),
                case_sensitive,
            ),
        decreases name@.len() - i,
    {
        let ghost n = name@.skip(i as int);
        let ghost p = pointer@.skip(j as int);
        assert(n[0] == name@[i as int]);
        assert(p[0] == pointer@[j as int]);
        if pointer[j] == 126 {
            let next: u8 = if j + 1 < pointer.len() { pointer[j + 1] } else { 0 };
            assert(byte_at(p, 1) == next);
            if (next == 48 && name[i] == 126) || (next == 49 && name[i] == 47) {
                assert(n.drop_first() =~= name@.skip(i + 1));
                assert(p.skip(2) =~= pointer@.skip(j + 2));
                j = j + 2;
            } else {
                return false;
            }
        } else {
            if fold_byte(name[i], case_sensitive) != fold_byte(pointer[j], case_sensitive) {
                return false;
            }
            assert(n.drop_first() =~= name@.skip(i + 1));
            assert(p.drop_first() =~= pointer@.skip(j + 1));
            j = j + 1;
        }
        i = i + 1;
    }
    let pointer_ended = j < pointer.len() && pointer[j] != 47;
    let name_ended = i < name.len();
    proof {
        let n = name@.skip(i as int);
        let p = pointer@.skip(j as int);
        assert(n.len() == name@.len() - i);
        assert(p.len() == pointer@.len() - j);
        if j < pointer@.len() {
            assert(p[0] == pointer@[j as int]);
        }
    }
    pointer_ended == name_ended
}

/// The buffer that the in-place decoding of a reference token leaves, from
/// position `i` of the token on, `k` escapes having been met: `~0` writes
/// `~` where the output stands, `~1` writes `/` one byte past it, other
/// bytes are not copied, and a bad escape stops the decoding with the
/// buffer as it is.
pub open spec fn decode_from(b: Seq<u8>, s: Seq<u8>, i: int, k: int) -> Seq<u8>
    decreases s.len() - i,
{
    if i >= s.len() {
        b.take(i - k)
    } else if s[i] == 126 {
        if byte_at(s, i + 1) == 48 {
            decode_from(b.update(i - k, 126u8), s, i + 2, k + 1)
        } else if byte_at(s, i + 1) == 49 {
            decode_from(b.update(i - k + 1, 47u8), s, i + 2, k + 1)
        } else {
            b
        }
    } else {
        decode_from(b, s, i + 1, k)
    }
}

/// The C string that in-place decoding leaves of a reference token.
pub open spec fn decode_segment(s: Seq<u8>) -> Seq<u8> {
    decode_from(s, s, 0, 0)
}

/// Decodes a reference token in place, byte for byte as `decode_segment`
/// says (with its handling of `~1`); returns the resulting C string.
pub fn decode_pointer_inplace(string: &[u8]) -> (decoded: Vec<u8>)
    ensures
        decoded@ == decode_segment(string@),
{
    let mut buffer: Vec<u8> = Vec::new();
    let mut t: usize = 0;
    while t < string.len()
        invariant
            t <= string@.len(),
            buffer@ == string@.take(t as int),
        decreases string@.len() - t,
    {
        buffer.push(string[t]);
        proof {
            assert(buffer@ =~= string@.take(t + 1));
        }
        t = t + 1;
    }
    proof {
        assert(buffer@ =~= string@);
    }
    let len = string.len();
    let mut i: usize = 0;
    let mut k: usize = 0;
    while i < len
        invariant
            len == string@.len(),
            buffer@.len() == len,
            k <= i <= len,
            decode_from(buffer@, string@, i as int, k as int) == decode_segment(string@),
        decreases len - i,
    {
        if string[i] == 126 {
            let next: u8 = if i + 1 < len { string[i + 1] } else { 0 };
            assert(byte_at(string@, i + 1) == next);
            if next == 48 {
                buffer.set(i - k, 126);
            } else if next == 49 {
                buffer.set(i - k + 1, 47);
            } else {
                return buffer;
            }
            i = i + 2;
            k = k + 1;
        } else {
            i = i + 1;
        }
    }
    buffer.truncate(i - k);
    buffer
}

/// Decoding leaves a token without `~` as it is.
pub proof fn lemma_decode_plain(s: Seq<u8>)
    requires
        forall|i: int| 0 <= i < s.len() ==> s[i] != 126,
    ensures
        decode_segment(s) == s,
{
    assert forall|i: int| 0 <= i <= s.len() implies decode_from(s, s, i, 0) == s by {
        lemma_decode_plain_from(s, i);
    }
}

proof fn lemma_decode_plain_from(s: Seq<u8>, i: int)
    requires
        0 <= i <= s.len(),
        forall|j: int| 0 <= j < s.len() ==> s[j] != 126,
    ensures
        decode_from(s, s, i, 0) == s,
    decreases s.len() - i,
{
    if i < s.len() {
        lemma_decode_plain_from(s, i + 1);
    } else {
        assert(s.take(i) =~= s);
    }
}

pub proof fn lemma_escape_append(a: Seq<u8>, b: Seq<u8>)
    ensures
        escape(a + b) == escape(a) + escape(b),
    decreases b.len(),
{
    if b.len() == 0 {
        assert(a + b =~= a);
        assert(escape(b) =~= Seq::<u8>::empty());
        assert(escape(a) + escape(b) =~= escape(a));
    } else {
        lemma_escape_append(a, b.drop_last());
        assert((a + b).drop_last() =~= a + b.drop_last());
        assert((a + b).last() == b.last());
        assert(escape(a) + escape(b) =~= escape(a) + escape(b.drop_last()) + escape_byte(b.last()));
    }
}

/// Escaping a key from the front: the first byte's escape, then the rest.
pub proof fn lemma_escape_front(k: Seq<u8>)
    requires
        k.len() > 0,
    ensures
        escape(k) == escape_byte(k[0]) + escape(k.drop_first()),
{
    lemma_escape_append(seq![k[0]], k.drop_first());
    assert(seq![k[0]] + k.drop_first() =~= k);
    let one = seq![k[0]];
    assert(one.drop_last() =~= Seq::<u8>::empty());
    assert(escape(one) == escape(one.drop_last()) + escape_byte(one.last()));
    assert(escape(one) =~= escape_byte(k[0]));
}

/// An escaped key holds no `/`.
pub proof fn lemma_escape_no_slash(k: Seq<u8>)
    ensures
        forall|i: int| 0 <= i < escape(k).len() ==> escape(k)[i] != 47,
    decreases k.len(),
{
    if k.len() > 0 {
        lemma_escape_no_slash(k.drop_last());
        let a = escape(k.drop_last());
        let b = escape_byte(k.last());
        assert forall|i: int| 0 <= i < escape(k).len() implies escape(k)[i] != 47 by {
            if i < a.len() {
                assert(escape(k)[i] == a[i]);
            } else {
                assert(escape(k)[i] == b[i - a.len()]);
            }
        }
    }
}

/// A key matches its own escaped form, under either comparison, when the
/// token ends there.
pub proof fn law_escape_matches(k: Seq<u8>, rest: Seq<u8>, case_sensitive: bool)
    requires
        rest.len() == 0 || rest[0] == 47,
    ensures
        segment_matches(k, escape(k) + rest, case_sensitive),
    decreases k.len(),
{
    if k.len() == 0 {
        assert(escape(k) + rest =~= rest);
    } else {
        lemma_escape_front(k);
        let p = escape(k) + rest;
        let tail = escape(k.drop_first()) + rest;
        law_escape_matches(k.drop_first(), rest, case_sensitive);
        if k[0] == 126 || k[0] == 47 {
            assert(p =~= escape_byte(k[0]) + tail);
            assert(p.skip(2) =~= tail);
        } else {
            assert(p =~= seq![k[0]] + tail);
            assert(p.drop_first() =~= tail);
        }
    }
}

/// Byte for byte, only the key itself matches its escaped form.
pub proof fn law_escape_match_unique(name: Seq<u8>, k: Seq<u8>, rest: Seq<u8>)
    requires
        rest.len() == 0 || rest[0] == 47,
        segment_matches(name, escape(k) + rest, true),
    ensures
        name == k,
    decreases k.len(),
{
    if k.len() == 0 {
        assert(escape(k) + rest =~= rest);
        assert(name.len() == 0);
        assert(name =~= k);
    } else {
        lemma_escape_front(k);
        let p = escape(k) + rest;
        let tail = escape(k.drop_first()) + rest;
        if k[0] == 126 || k[0] == 47 {
            assert(p =~= escape_byte(k[0]) + tail);
            assert(p.skip(2) =~= tail);
        } else {
            assert(p =~= seq![k[0]] + tail);
            assert(p.drop_first() =~= tail);
        }
        assert(name.len() > 0);
        law_escape_match_unique(name.drop_first(), k.drop_first(), rest);
        assert(name =~= seq![name[0]] + name.drop_first());
        assert(k =~= seq![k[0]] + k.drop_first());
    }
}

proof fn lemma_decimal_props(n: nat)
    ensures
        decimal(n).len() >= 1,
        forall|k: int| 0 <= k < decimal(n).len() ==> is_digit(#[trigger] decimal(n)[k]),
        digits_value(decimal(n)) == n,
        n > 0 ==> decimal(n)[0] != 48,
    decreases n,
{
    if n >= 10 {
        lemma_decimal_props(n / 10);
        let d = decimal(n / 10);
        assert(decimal(n).drop_last() =~= d);
        vstd::arithmetic::div_mod::lemma_fundamental_div_mod(n as int, 10);
        assert forall|k: int| 0 <= k < decimal(n).len() implies is_digit(#[trigger] decimal(n)[k]) by {
            if k < d.len() {
                assert(decimal(n)[k] == d[k]);
            }
        }
        assert(decimal(n)[0] == d[0]);
        assert(decimal(n).last() == (48 + n % 10) as u8);
        assert(digits_value(decimal(n)) == 10 * digits_value(d) + (decimal(n).last() - 48) as nat);
    } else {
        let d = decimal(n);
        assert(d.drop_last() =~= Seq::<u8>::empty());
        assert(digits_value(d) == 10 * digits_value(d.drop_last()) + (d.last() - 48) as nat);
    }
}

/// The decimal digits of an index read back as that index.
pub proof fn law_decimal_index(n: usize, rest: Seq<u8>)
    requires
        rest.len() == 0 || rest[0] == 47,
    ensures
        decode_index(decimal(n as nat) + rest) == Some(n),
{
    lemma_decimal_props(n as nat);
    let d = decimal(n as nat);
    let p = d + rest;
    assert forall|j: int| 0 <= j < d.len() implies is_digit(p[j]) by {
        assert(p[j] == d[j]);
    }
    lemma_digit_count(p, d.len() as int);
    assert(p.take(d.len() as int) =~= d);
    vstd::arithmetic::div_mod::lemma_small_mod(n as nat, usize::MAX as nat + 1);
    if n == 0 {
        assert(d =~= seq![48u8]);
    }
}


/// The decimal digits of a number hold no `/`.
pub proof fn lemma_decimal_digits_no_slash(n: nat)
    ensures
        forall|k: int| 0 <= k < decimal(n).len() ==> #[trigger] decimal(n)[k] != 47,
{
    lemma_decimal_props(n);
    assert forall|k: int| 0 <= k < decimal(n).len() implies #[trigger] decimal(n)[k] != 47 by {
        assert(is_digit(decimal(n)[k]));
    }
}

proof fn lemma_digit_count_append(a: Seq<u8>, b: Seq<u8>)
    requires
        b.len() == 0 || !is_digit(b[0]),
    ensures
        digit_count(a + b) == digit_count(a),
        digit_count(a) <= a.len(),
    decreases a.len(),
{
    if a.len() == 0 {
        assert(a + b =~= b);
    } else {
        assert((a + b).drop_first() =~= a.drop_first() + b);
        lemma_digit_count_append(a.drop_first(), b);
    }
}

/// Reading an index looks no further than the token: what follows a `/`
/// does not change it.
pub proof fn lemma_decode_index_append(a: Seq<u8>, b: Seq<u8>)
    requires
        b.len() == 0 || b[0] == 47,
    ensures
        decode_index(a + b) == decode_index(a),
{
    lemma_digit_count_append(a, b);
    let n = digit_count(a);
    assert((a + b).take(n as int) =~= a.take(n as int));
    if n < a.len() {
        assert(byte_at(a + b, n as int) == byte_at(a, n as int));
    }
    if a.len() >= 2 {
        assert(byte_at(a + b, 1) == byte_at(a, 1));
    }
    if a.len() >= 1 {
        assert(byte_at(a + b, 0) == byte_at(a, 0));
    }
}

/// Matching a key against a token looks no further than the token.
pub proof fn lemma_segment_matches_append(name: Seq<u8>, a: Seq<u8>, b: Seq<u8>, case_sensitive: bool)
    requires
        b.len() == 0 || b[0] == 47,
    ensures
        segment_matches(name, a + b, case_sensitive) == segment_matches(name, a, case_sensitive),
    decreases name.len(),
{
    let p = a + b;
    if a.len() == 0 {
        assert(p =~= b);
    } else if name.len() == 0 {
    } else {
        assert(p[0] == a[0]);
        if a[0] == 126 {
            if a.len() >= 2 {
                assert(byte_at(p, 1) == byte_at(a, 1));
                assert(p.skip(2) =~= a.skip(2) + b);
                lemma_segment_matches_append(name.drop_first(), a.skip(2), b, case_sensitive);
            }
        } else if a[0] != 47 {
            assert(p.drop_first() =~= a.drop_first() + b);
            lemma_segment_matches_append(name.drop_first(), a.drop_first(), b, case_sensitive);
        }
    }
}


/// The decimal digits of a number are ASCII digits, so none is `~`.
pub proof fn lemma_decimal_digit_chars(n: nat)
    ensures
        forall|k: int| 0 <= k < decimal(n).len() ==> is_digit(#[trigger] decimal(n)[k]),
        forall|k: int| 0 <= k < decimal(n).len() ==> #[trigger] decimal(n)[k] != 126,
        decimal(n).len() >= 1,
{
    lemma_decimal_props(n);
}

/// Two keys whose first bytes differ compare by those bytes.
pub proof fn lemma_key_order_unfold_first(a: Seq<u8>, b: Seq<u8>)
    requires
        a.len() > 0,
        b.len() > 0,
        a[0] != b[0],
    ensures
        key_order(a, b, true) != 0,
{
}
/// A key with every byte put through the comparison's case rule.
pub open spec fn folded(s: Seq<u8>, case_sensitive: bool) -> Seq<u8> {
    Seq::new(s.len(), |i: int| fold(s[i], case_sensitive))
}

/// Two C strings compare equal (`compare_strings` gives 0) exactly when
/// they are the same byte for byte, or, ignoring case, the same once
/// lower-cased.
pub proof fn law_compare_strings_equal(a: Seq<u8>, b: Seq<u8>, case_sensitive: bool)
    requires
        is_cstr(a),
        is_cstr(b),
    ensures
        key_eq(a, b, case_sensitive) == (folded(a, case_sensitive) == folded(b, case_sensitive)),
        key_eq(a, b, true) == (a == b),
    decreases a.len(),
{
    let cs = case_sensitive;
    lemma_key_order_unfold(a, b, cs);
    lemma_key_order_unfold(a, b, true);
    if a.len() > 0 {
        lemma_fold_zero(a[0], cs);
    }
    if b.len() > 0 {
        lemma_fold_zero(b[0], cs);
    }
    if a.len() == 0 || b.len() == 0 {
        if a.len() > 0 {
            assert(folded(a, cs)[0] != 0 || folded(a, cs).len() != folded(b, cs).len());
        }
        if b.len() > 0 {
            assert(folded(b, cs).len() != folded(a, cs).len());
        }
        if a.len() == 0 && b.len() == 0 {
            assert(folded(a, cs) =~= folded(b, cs));
            assert(a =~= b);
        }
    } else {
        let (a1, b1) = (a.drop_first(), b.drop_first());
        assert forall|i: int| 0 <= i < a1.len() implies a1[i] != 0 by {
            assert(a1[i] == a[i + 1]);
        }
        assert forall|i: int| 0 <= i < b1.len() implies b1[i] != 0 by {
            assert(b1[i] == b[i + 1]);
        }
        law_compare_strings_equal(a1, b1, cs);
        assert(folded(a1, cs) =~= folded(a, cs).drop_first());
        assert(folded(b1, cs) =~= folded(b, cs).drop_first());
        assert(a =~= seq![a[0]] + a1);
        assert(b =~= seq![b[0]] + b1);
        if fold(a[0], cs) != fold(b[0], cs) {
            assert(folded(a, cs)[0] != folded(b, cs)[0]);
        } else {
            assert(folded(a, cs) =~= seq![fold(a[0], cs)] + folded(a1, cs));
            assert(folded(b, cs) =~= seq![fold(b[0], cs)] + folded(b1, cs));
        }
        if a[0] != b[0] {
            assert(a[0] != b[0]);
        }
    }
}

} // verus!
