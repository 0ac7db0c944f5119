//! Runtime resource identifiers and their 16-digit hexadecimal spelling.
//!
//! A runtime resource identifier is held as the `u64` that rpkg-rs stores inside
//! `RuntimeResourceID`; the text forms come from rpkg-rs itself.
use vstd::prelude::*;
use rpkg_rs::resource::runtime_resource_id::RuntimeResourceID;
use rpkg_rs::misc::resource_id::ResourceID;
use std::str::FromStr;

verus! {

/// 2^56: the identifier's top byte is its platform tag.
pub open spec fn platform_unit() -> int {
    0x0100_0000_0000_0000
}

/// What `RuntimeResourceID::is_valid` checks: a known platform tag (0 to 4) in the top
/// byte and an identifier part that is not all ones.
pub open spec fn rrid_is_valid(id: u64) -> bool {
    (id as int) / platform_unit() <= 4 && (id as int) % platform_unit() != platform_unit() - 1
}

/// The identifier that rpkg-rs substitutes for an invalid one.
pub open spec fn invalid_rrid() -> u64 {
    0x00FF_FFFF_FFFF_FFFF
}

/// What `RuntimeResourceID::from(u64)` keeps of a number.
pub open spec fn normalized_rrid(id: u64) -> u64 {
    if rrid_is_valid(id) { id } else { invalid_rrid() }
}

/// 16^n.
pub open spec fn pow16(n: nat) -> nat
    decreases n,
{
    if n == 0 { 1 } else { 16 * pow16((n - 1) as nat) }
}

/// Upper-case hexadecimal digit for a value below 16.
pub open spec fn hex_char(d: nat) -> char {
    seq!['0', '1', '2', '3', '4', '5', '6', '7', '8', '9', 'A', 'B', 'C', 'D', 'E', 'F'][d as int]
}

/// The last `n` hexadecimal digits of `v`, upper case, most significant first.
pub open spec fn hex_digits(v: nat, n: nat) -> Seq<char>
    decreases n,
{
    if n == 0 {
        Seq::empty()
    } else {
        hex_digits(v / 16, (n - 1) as nat).push(hex_char(v % 16))
    }
}

/// `format!("{:016X}", id)`: the identifier as 16 upper-case hexadecimal digits.
pub open spec fn hex16(id: u64) -> Seq<char> {
    hex_digits(id as nat, 16)
}

/// Value of one hexadecimal digit, either case.
pub open spec fn hex_digit_value(c: char) -> Option<nat> {
    let x = c as int;
    if 48 <= x <= 57 {
        Some((x - 48) as nat)
    } else if 65 <= x <= 70 {
        Some((x - 55) as nat)
    } else if 97 <= x <= 102 {
        Some((x - 87) as nat)
    } else {
        None
    }
}

/// Value of a string of hexadecimal digits (`Some(0)` for the empty string).
pub open spec fn hex_value(s: Seq<char>) -> Option<nat>
    decreases s.len(),
{
    if s.len() == 0 {
        Some(0)
    } else {
        match (hex_value(s.drop_last()), hex_digit_value(s.last())) {
            (Some(v), Some(d)) => Some(v * 16 + d),
            _ => None,
        }
    }
}

/// `u64::from_str_radix(s, 16)`: an optional `+` followed by at least one hexadecimal
/// digit, with a value that fits in 64 bits.
pub open spec fn parse_hex_u64(s: Seq<char>) -> Option<u64> {
    let digits = if s.len() > 0 && s[0] == '+' { s.drop_first() } else { s };
    if digits.len() == 0 {
        None
    } else {
        match hex_value(digits) {
            Some(v) => if v < pow16(16) { Some(v as u64) } else { None },
            None => None,
        }
    }
}

/// The text after a leading `0x` or `0X`, or the whole text.
pub open spec fn strip_hex_prefix(s: Seq<char>) -> Seq<char> {
    if s.len() >= 2 && s[0] == '0' && (s[1] == 'x' || s[1] == 'X') {
        s.subrange(2, s.len() as int)
    } else {
        s
    }
}

/// `RuntimeResourceID::from_hex_string`: the identifier spelled by `s`, in hexadecimal
/// with an optional `0x`/`0X` prefix, if it is a valid runtime resource identifier.
pub open spec fn parse_rrid_hex(s: Seq<char>) -> Option<u64> {
    match parse_hex_u64(strip_hex_prefix(s)) {
        Some(v) => if rrid_is_valid(v) { Some(v) } else { None },
        None => None,
    }
}

/// Calls `RuntimeResourceID::from_hex_string`, which strips a `0x`/`0X` prefix, parses
/// the rest with `u64::from_str_radix(_, 16)` and refuses an identifier that
/// `is_valid` rejects; the contract restates that, giving the identifier as its `u64`.
#[verifier::external_body]
pub(crate) fn rrid_from_hex(text: &str) -> (res: Option<u64>)
    ensures
        res == parse_rrid_hex(text@),
{
    match RuntimeResourceID::from_hex_string(text) {
        Ok(rrid) => Some(u64::from(rrid)),
        Err(_) => None,
    }
}

/// Calls `RuntimeResourceID::to_hex_string` on `RuntimeResourceID::from(id)`; the first
/// replaces an invalid identifier by `0x00FFFFFFFFFFFFFF`, the second formats with
/// `{:016X}`.
#[verifier::external_body]
pub(crate) fn rrid_to_hex(id: u64) -> (res: String)
    ensures
        res@ == hex16(normalized_rrid(id)),
{
    RuntimeResourceID::from(id).to_hex_string()
}

/// The runtime identifier that rpkg-rs derives from a resource path such as
/// `[assembly:/path/file.ext].pc_type`: `ResourceID::from_str` normalises and checks the
/// path, `RuntimeResourceID::from_resource_id` hashes it with MD5; `None` when the path
/// is refused. A function of the text alone.
pub uninterp spec fn resource_path_rrid(path: Seq<char>) -> Option<u64>;

/// Calls `ResourceID::from_str` and, on a path it accepts, `RuntimeResourceID::from_resource_id`;
/// the result is named by `resource_path_rrid`, not stated.
#[verifier::external_body]
#[allow(deprecated)]
pub(crate) fn rrid_from_resource_path(text: &str) -> (res: Option<u64>)
    ensures
        res == resource_path_rrid(text@),
{
    match ResourceID::from_str(text) {
        Ok(rid) => Some(u64::from(RuntimeResourceID::from_resource_id(&rid))),
        Err(_) => None,
    }
}

proof fn lemma_hex_char_value(d: nat)
    requires
        d < 16,
    ensures
        hex_digit_value(hex_char(d)) == Some(d),
        hex_char(d) != '+',
        hex_char(d) != 'x',
        hex_char(d) != 'X',
{
}

proof fn lemma_hex_digits_len(v: nat, n: nat)
    ensures
        hex_digits(v, n).len() == n,
        forall|i: int| 0 <= i < n ==> exists|d: nat| d < 16 && #[trigger] hex_digits(v, n)[i] == hex_char(d),
    decreases n,
{
    if n > 0 {
        lemma_hex_digits_len(v / 16, (n - 1) as nat);
        let s = hex_digits(v, n);
        assert forall|i: int| 0 <= i < n implies exists|d: nat| d < 16 && #[trigger] s[i] == hex_char(d) by {
            if i == n - 1 {
                assert(s[i] == hex_char(v % 16));
            } else {
                assert(s[i] == hex_digits(v / 16, (n - 1) as nat)[i]);
            }
        }
    }
}

proof fn lemma_pow16_positive(n: nat)
    ensures
        pow16(n) > 0,
    decreases n,
{
    if n > 0 {
        lemma_pow16_positive((n - 1) as nat);
    }
}

proof fn lemma_hex_value_of_digits(v: nat, n: nat)
    ensures
        hex_value(hex_digits(v, n)) == Some(v % pow16(n)),
    decreases n,
{
    if n == 0 {
    } else {
        let prev = hex_digits(v / 16, (n - 1) as nat);
        let s = hex_digits(v, n);
        lemma_hex_value_of_digits(v / 16, (n - 1) as nat);
        lemma_hex_char_value(v % 16);
        assert(s.drop_last() =~= prev);
        assert(s.last() == hex_char(v % 16));
        lemma_pow16_positive((n - 1) as nat);
        vstd::arithmetic::div_mod::lemma_breakdown(v as int, 16, pow16((n - 1) as nat) as int);
        assert(pow16(n) == 16 * pow16((n - 1) as nat));
        let a = (v as int / 16) % pow16((n - 1) as nat) as int;
        assert(a * 16 == 16 * a) by (nonlinear_arith);
    }
}

/// Spelling an identifier with `to_hex_string` and reading it back with
/// `from_hex_string` gives the identifier again when it is valid, and is refused when
/// it is not.
pub proof fn law_hex_round_trip(id: u64)
    ensures
        parse_rrid_hex(hex16(id)) == if rrid_is_valid(id) { Some(id) } else { None },
{
    let s = hex16(id);
    lemma_hex_digits_len(id as nat, 16);
    lemma_hex_value_of_digits(id as nat, 16);
    assert(pow16(16) == 0x1_0000_0000_0000_0000) by {
        reveal_with_fuel(pow16, 17);
    }
    let d0 = choose|d: nat| d < 16 && s[0] == hex_char(d);
    lemma_hex_char_value(d0);
    let d1 = choose|d: nat| d < 16 && s[1] == hex_char(d);
    lemma_hex_char_value(d1);
    assert(strip_hex_prefix(s) == s);
    assert(s.len() > 0 && s[0] != '+');
}

} // verus!
