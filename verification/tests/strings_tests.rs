use lib::strings::{
    compare_pointers, compare_strings, decode_array_index_from_pointer, decode_pointer_inplace,
    encode_string_as_pointer, pointer_encoded_length, push_decimal,
};
use lib::{c_false, c_true};

#[test]
fn c_booleans() {
    assert_eq!(c_true(), 1);
    assert_eq!(c_false(), 0);
}

#[test]
fn compare_strings_signs() {
    assert_eq!(compare_strings(b"abc", b"abc", true), 0);
    assert!(compare_strings(b"abc", b"abd", true) < 0);
    assert!(compare_strings(b"abd", b"abc", true) > 0);
    assert!(compare_strings(b"ab", b"abc", true) < 0);
    assert_eq!(compare_strings(b"ABC", b"abc", false), 0);
    assert!(compare_strings(b"ABC", b"abc", true) < 0);
    assert_eq!(compare_strings(b"b", b"a", true), 1);
    assert_eq!(compare_strings(b"", b"a", false), -97);
}

#[test]
fn pointer_encoding() {
    assert_eq!(pointer_encoded_length(b"a/b~c"), 7);
    let mut out = b"/x/".to_vec();
    encode_string_as_pointer(&mut out, b"a/b~c");
    assert_eq!(out, b"/x/a~1b~0c".to_vec());
}

#[test]
fn decimal_rendering() {
    let mut out = b"/".to_vec();
    push_decimal(&mut out, 0);
    push_decimal(&mut out, 1234567);
    assert_eq!(out, b"/01234567".to_vec());
}

#[test]
fn decode_array_index_cases() {
    assert_eq!(decode_array_index_from_pointer(b"12"), Some(12));
    assert_eq!(decode_array_index_from_pointer(b"12/x"), Some(12));
    assert_eq!(decode_array_index_from_pointer(b"0"), Some(0));
    assert_eq!(decode_array_index_from_pointer(b"0/1"), Some(0));
    assert_eq!(decode_array_index_from_pointer(b""), Some(0));
    assert_eq!(decode_array_index_from_pointer(b"01"), None);
    assert_eq!(decode_array_index_from_pointer(b"1a"), None);
    assert_eq!(decode_array_index_from_pointer(b"-"), None);
}

#[test]
fn decode_array_index_wraps_like_size_t() {
    // 2^64 + 3 wraps to 3 on a 64-bit target.
    if usize::BITS == 64 {
        assert_eq!(decode_array_index_from_pointer(b"18446744073709551619"), Some(3));
    }
}

#[test]
fn compare_pointers_cases() {
    assert!(compare_pointers(b"a/b", b"a~1b", true));
    assert!(compare_pointers(b"m~n", b"m~0n/rest", true));
    assert!(compare_pointers(b"Key", b"kEY", false));
    assert!(!compare_pointers(b"Key", b"kEY", true));
    assert!(!compare_pointers(b"ab", b"a", true));
    assert!(!compare_pointers(b"a", b"ab", true));
    assert!(!compare_pointers(b"a~", b"a~2", true));
    assert!(compare_pointers(b"", b"/next", true));
}

#[test]
fn decode_pointer_inplace_plain_token_is_unchanged() {
    assert_eq!(decode_pointer_inplace(b"plain"), b"plain".to_vec());
}

#[test]
fn decode_pointer_inplace_keeps_the_c_escape_handling() {
    // `~0` writes `~` where the output stands; `~1` writes `/` one byte on,
    // and other bytes are not copied forward.
    assert_eq!(decode_pointer_inplace(b"~0"), b"~".to_vec());
    assert_eq!(decode_pointer_inplace(b"~1"), b"~".to_vec());
    assert_eq!(decode_pointer_inplace(b"a~1b"), b"a~/".to_vec());
    assert_eq!(decode_pointer_inplace(b"a~0b"), b"a~0".to_vec());
    assert_eq!(decode_pointer_inplace(b"a~2b"), b"a~2b".to_vec());
}

#[test]
fn compare_strings_is_zero_exactly_for_equal_strings() {
    assert_eq!(compare_strings(b"Ab", b"aB", false), 0);
    assert_ne!(compare_strings(b"Ab", b"aB", true), 0);
    assert_eq!(compare_strings(b"ab", b"ab", true), 0);
    assert_ne!(compare_strings(b"ab", b"abc", false), 0);
}
