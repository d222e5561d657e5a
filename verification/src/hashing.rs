//! Canonical encoding of BN254 scalar-field elements.
//!
//! A [`FieldElement`] is a value of the prime field of order
//! [`field_modulus`], stored in its canonical form: exactly 64 lowercase
//! hexadecimal digits, zero-padded on the left. Text is parsed either as
//! hexadecimal (when it carries a `0x`/`0X` prefix or contains any letter
//! `a`-`f` of either case) or as decimal; a value at or above the modulus
//! is silently reduced.

use vstd::prelude::*;
use vstd::string::StrSliceExecFns;
use vstd::arithmetic::div_mod::{lemma_small_mod, lemma_mod_bound};
use vstd::utf8::char_u32_cast;

use crate::Error;

verus! {

/// The order of the BN254 scalar field (the base field of Baby Jubjub).
pub open spec fn field_modulus() -> nat {
    21888242871839275222246405745257275088548364400416034343698204186575808495617int as nat
}

/// `c` is a decimal digit `0`-`9`.
pub open spec fn is_dec_digit(c: char) -> bool {
    48 <= c as u32 <= 57
}

/// `c` is a hexadecimal digit of either case.
pub open spec fn is_hex_digit(c: char) -> bool {
    is_dec_digit(c) || 97 <= c as u32 <= 102 || 65 <= c as u32 <= 70
}

/// `c` is a letter `a`-`f` or `A`-`F`: a character that is alphabetic and
/// also a valid hexadecimal digit.
pub open spec fn is_hex_letter(c: char) -> bool {
    97 <= c as u32 <= 102 || 65 <= c as u32 <= 70
}

/// `c` is a lowercase hexadecimal digit, the only digits canonical form uses.
pub open spec fn is_lower_hex_digit(c: char) -> bool {
    is_dec_digit(c) || 97 <= c as u32 <= 102
}

/// Numeric value of a single hexadecimal digit.
pub open spec fn hex_digit_val(c: char) -> nat {
    if is_dec_digit(c) {
        (c as u32 - 48) as nat
    } else if 97 <= c as u32 <= 102 {
        (c as u32 - 87) as nat
    } else {
        (c as u32 - 55) as nat
    }
}

/// Numeric value of a single decimal digit.
pub open spec fn dec_digit_val(c: char) -> nat {
    (c as u32 - 48) as nat
}

/// Value of a big-endian sequence of decimal digits.
pub open spec fn dec_value(s: Seq<char>) -> nat
    decreases s.len(),
{
    if s.len() == 0 {
        0
    } else {
        dec_value(s.drop_last()) * 10 + dec_digit_val(s.last())
    }
}

/// Value of a big-endian sequence of hexadecimal digits.
pub open spec fn hex_value(s: Seq<char>) -> nat
    decreases s.len(),
{
    if s.len() == 0 {
        0
    } else {
        hex_value(s.drop_last()) * 16 + hex_digit_val(s.last())
    }
}

/// `s` is a canonical rendering: exactly 64 lowercase hexadecimal digits.
pub open spec fn is_canonical_hex(s: Seq<char>) -> bool {
    s.len() == 64 && forall|i: int| 0 <= i < s.len() ==> is_lower_hex_digit(#[trigger] s[i])
}

/// The classification rule: text is treated as hexadecimal when it starts
/// with `0x`/`0X` or contains a letter `a`-`f` of either case anywhere.
pub open spec fn spec_classify_hex(s: Seq<char>) -> bool {
    has_hex_prefix(s) || exists|i: int| 0 <= i < s.len() && is_hex_letter(#[trigger] s[i])
}

/// `s` starts with `0x` or `0X`.
pub open spec fn has_hex_prefix(s: Seq<char>) -> bool {
    s.len() >= 2 && s[0] == '0' && (s[1] == 'x' || s[1] == 'X')
}

/// The digits a hexadecimal literal contributes: everything after the
/// prefix when one is present, the whole text otherwise.
pub open spec fn spec_hex_digits(s: Seq<char>) -> Seq<char> {
    if has_hex_prefix(s) {
        s.skip(2)
    } else {
        s
    }
}

/// What parsing yields on `s`: the reduced value of its digits, or
/// nothing when `s` is ill-formed under its classification.
pub open spec fn spec_parse(s: Seq<char>) -> Option<nat> {
    if spec_classify_hex(s) {
        let d = spec_hex_digits(s);
        if d.len() > 0 && (forall|i: int| 0 <= i < d.len() ==> is_hex_digit(#[trigger] d[i])) {
            Some(hex_value(d) % field_modulus())
        } else {
            None
        }
    } else {
        if s.len() > 0 && (forall|i: int| 0 <= i < s.len() ==> is_dec_digit(#[trigger] s[i])) {
            Some(dec_value(s) % field_modulus())
        } else {
            None
        }
    }
}

/// An element of the BN254 scalar field, held in canonical form.
#[derive(Debug)]
pub struct FieldElement {
    hex: String,
}

impl View for FieldElement {
    type V = nat;

    closed spec fn view(&self) -> nat {
        hex_value(self.hex@)
    }
}

impl FieldElement {
    /// The canonical 64-digit rendering of this element.
    pub closed spec fn spec_hex(&self) -> Seq<char> {
        self.hex@
    }

    /// Well-formed: the stored text is canonical and its value is reduced.
    pub closed spec fn wf(&self) -> bool {
        is_canonical_hex(self.hex@) && hex_value(self.hex@) < field_modulus()
    }
}

impl Clone for FieldElement {
    fn clone(&self) -> (r: Self)
        ensures
            r == *self,
    {
        FieldElement { hex: self.hex.clone() }
    }
}

/// Relies on `num::BigUint::parse_bytes` with radix 16 (the value of the
/// hexadecimal digits), `ark_bn254::Fr`'s `From<BigUint>` (reduction
/// modulo the field order) and `Display` (the reduced value in decimal),
/// and `BigUint`'s `LowerHex` (lowercase hexadecimal, here zero-padded
/// to 64 digits).
#[verifier::external_body]
fn reduce_hex_digits(digits: &str) -> (r: String)
    requires
        digits@.len() > 0,
        forall|i: int| 0 <= i < digits@.len() ==> is_hex_digit(#[trigger] digits@[i]),
    ensures
        is_canonical_hex(r@),
        hex_value(r@) == hex_value(digits@) % field_modulus(),
{
    let n = num::BigUint::parse_bytes(digits.as_bytes(), 16).unwrap();
    let fe = ark_bn254::Fr::from(n);
    let dec = format!("{}", fe);
    let m = num::BigUint::parse_bytes(dec.as_bytes(), 10).unwrap();
    format!("{:0>64x}", m)
}

/// Relies on `num::BigUint::parse_bytes` with radix 10 (the value of the
/// decimal digits), `ark_bn254::Fr`'s `From<BigUint>` (reduction modulo
/// the field order) and `Display` (the reduced value in decimal), and
/// `BigUint`'s `LowerHex` (lowercase hexadecimal, here zero-padded to 64
/// digits).
#[verifier::external_body]
fn reduce_dec_digits(digits: &str) -> (r: String)
    requires
        digits@.len() > 0,
        forall|i: int| 0 <= i < digits@.len() ==> is_dec_digit(#[trigger] digits@[i]),
    ensures
        is_canonical_hex(r@),
        hex_value(r@) == dec_value(digits@) % field_modulus(),
{
    let n = num::BigUint::parse_bytes(digits.as_bytes(), 10).unwrap();
    let fe = ark_bn254::Fr::from(n);
    let dec = format!("{}", fe);
    let m = num::BigUint::parse_bytes(dec.as_bytes(), 10).unwrap();
    format!("{:0>64x}", m)
}

/// Relies on `num::BigUint::parse_bytes` with radix 16 (the value of the
/// hexadecimal digits) and `to_str_radix` with radix 10 (that value in
/// decimal, without leading zeros).
#[verifier::external_body]
fn hex_to_decimal_digits(digits: &str) -> (r: String)
    requires
        is_canonical_hex(digits@),
    ensures
        r@.len() > 0,
        forall|i: int| 0 <= i < r@.len() ==> is_dec_digit(#[trigger] r@[i]),
        dec_value(r@) == hex_value(digits@),
        r@.len() > 1 ==> r@[0] != '0',
{
    let n = num::BigUint::parse_bytes(digits.as_bytes(), 16).unwrap();
    n.to_str_radix(10)
}

/// A literal with a letter `a`-`f` of either case anywhere is classified
/// as hexadecimal; an all-digit literal is never so classified, and so is
/// parsed as decimal.
pub proof fn lemma_classification(s: Seq<char>)
    ensures
        (exists|i: int| 0 <= i < s.len() && is_hex_letter(#[trigger] s[i])) ==> spec_classify_hex(
            s,
        ),
        (forall|i: int| 0 <= i < s.len() ==> is_dec_digit(#[trigger] s[i])) ==> !spec_classify_hex(
            s,
        ),
{
    if forall|i: int| 0 <= i < s.len() ==> is_dec_digit(#[trigger] s[i]) {
        if s.len() >= 2 {
            assert(is_dec_digit(s[1]));
            assert(s[1] != 'x' && s[1] != 'X');
        }
        assert forall|i: int| 0 <= i < s.len() implies !is_hex_letter(#[trigger] s[i]) by {
            assert(is_dec_digit(s[i]));
        }
    }
}

/// Two digit sequences of equal length, both in lowercase hexadecimal,
/// that spell the same value are the same text: canonical form is unique.
pub proof fn lemma_canonical_unique(a: Seq<char>, b: Seq<char>)
    requires
        a.len() == b.len(),
        forall|i: int| 0 <= i < a.len() ==> is_lower_hex_digit(#[trigger] a[i]),
        forall|i: int| 0 <= i < b.len() ==> is_lower_hex_digit(#[trigger] b[i]),
        hex_value(a) == hex_value(b),
    ensures
        a == b,
    decreases a.len(),
{
    if a.len() > 0 {
        let da = hex_digit_val(a.last());
        let db = hex_digit_val(b.last());
        assert(is_lower_hex_digit(a.last()));
        assert(is_lower_hex_digit(b.last()));
        assert(da < 16 && db < 16);
        assert(hex_value(a) == hex_value(a.drop_last()) * 16 + da);
        assert(hex_value(b) == hex_value(b.drop_last()) * 16 + db);
        assert(da == db && hex_value(a.drop_last()) == hex_value(b.drop_last()));
        let ua = a.last() as u32;
        let ub = b.last() as u32;
        if is_dec_digit(a.last()) {
            assert(da <= 9);
        } else {
            assert(10 <= da <= 15);
        }
        if is_dec_digit(b.last()) {
            assert(db <= 9);
        } else {
            assert(10 <= db <= 15);
        }
        assert(ua == ub);
        char_u32_cast(a.last(), ua);
        char_u32_cast(b.last(), ub);
        assert(a.last() == (ua as char));
        assert(b.last() == (ub as char));
        assert(a.last() == b.last());
        assert forall|i: int| 0 <= i < a.drop_last().len() implies is_lower_hex_digit(
            #[trigger] a.drop_last()[i],
        ) by {
            assert(is_lower_hex_digit(a[i]));
        }
        assert forall|i: int| 0 <= i < b.drop_last().len() implies is_lower_hex_digit(
            #[trigger] b.drop_last()[i],
        ) by {
            assert(is_lower_hex_digit(b[i]));
        }
        lemma_canonical_unique(a.drop_last(), b.drop_last());
        assert forall|i: int| 0 <= i < a.len() implies a[i] == b[i] by {
            if i < a.len() - 1 {
                assert(a.drop_last()[i] == b.drop_last()[i]);
            }
        }
        assert(a =~= b);
    } else {
        assert(a =~= b);
    }
}

/// Two well-formed elements of equal value carry the same canonical text.
pub proof fn lemma_value_determines_canonical(a: FieldElement, b: FieldElement)
    requires
        a.wf(),
        b.wf(),
        a@ == b@,
    ensures
        a.spec_hex() == b.spec_hex(),
{
    lemma_canonical_unique(a.spec_hex(), b.spec_hex());
}

/// An all-digit sequence whose hexadecimal reading is below 10 reads the
/// same in decimal: every digit above the last must be zero.
proof fn lemma_dec_equals_hex_when_small(s: Seq<char>)
    requires
        forall|i: int| 0 <= i < s.len() ==> is_dec_digit(#[trigger] s[i]),
        hex_value(s) < 10,
    ensures
        dec_value(s) == hex_value(s),
    decreases s.len(),
{
    if s.len() > 0 {
        assert(is_dec_digit(s.last()));
        assert(hex_value(s) == hex_value(s.drop_last()) * 16 + hex_digit_val(s.last()));
        assert(hex_value(s.drop_last()) == 0);
        assert forall|i: int| 0 <= i < s.drop_last().len() implies is_dec_digit(
            #[trigger] s.drop_last()[i],
        ) by {
            assert(is_dec_digit(s[i]));
        }
        lemma_dec_equals_hex_when_small(s.drop_last());
        assert(dec_digit_val(s.last()) == hex_digit_val(s.last()));
    }
}

/// Round trip: parsing the canonical rendering of a well-formed element
/// yields exactly its value, whenever the rendering contains a letter
/// `a`-`f` or the value is a single digit. (A rendering made of digits
/// `0`-`9` alone is classified as decimal, so a value of 10 or more whose
/// hexadecimal form happens to contain no letter does not survive the
/// trip; that boundary is inherent in the classification rule.)
pub proof fn lemma_parse_round_trip(x: FieldElement)
    requires
        x.wf(),
        spec_classify_hex(x.spec_hex()) || x@ < 10,
    ensures
        spec_parse(x.spec_hex()) == Some(x@),
{
    let s = x.spec_hex();
    assert(is_lower_hex_digit(s[1]));
    assert(s[1] != 'x' && s[1] != 'X');
    assert(!has_hex_prefix(s));
    if spec_classify_hex(s) {
        assert forall|i: int| 0 <= i < s.len() implies is_hex_digit(#[trigger] s[i]) by {
            assert(is_lower_hex_digit(s[i]));
        }
        assert(spec_hex_digits(s) == s);
        lemma_small_mod(hex_value(s), field_modulus());
    } else {
        assert forall|i: int| 0 <= i < s.len() implies is_dec_digit(#[trigger] s[i]) by {
            assert(is_lower_hex_digit(s[i]));
            assert(!is_hex_letter(s[i]));
        }
        lemma_dec_equals_hex_when_small(s);
        lemma_small_mod(dec_value(s), field_modulus());
    }
}

/// Checks whether `s` is classified as hexadecimal: it carries a
/// `0x`/`0X` prefix, or some character is a letter that is also a valid
/// hexadecimal digit.
pub fn is_hex(s: &str) -> (r: bool)
    ensures
        r == spec_classify_hex(s@),
{
    let n = s.unicode_len();
    if n >= 2 {
        let c0 = s.get_char(0);
        let c1 = s.get_char(1);
        if c0 == '0' && (c1 == 'x' || c1 == 'X') {
            return true;
        }
    }
    let mut i: usize = 0;
    while i < n
        invariant
            0 <= i <= n,
            n == s@.len(),
            forall|j: int| 0 <= j < i ==> !is_hex_letter(#[trigger] s@[j]),
            !has_hex_prefix(s@),
        decreases n - i,
    {
        let c = s.get_char(i);
        let u = c as u32;
        if (97 <= u && u <= 102) || (65 <= u && u <= 70) {
            return true;
        }
        i += 1;
    }
    false
}

/// Checks that every character of `s` is a hexadecimal digit.
fn all_hex_digits(s: &str) -> (r: bool)
    ensures
        r == forall|i: int| 0 <= i < s@.len() ==> is_hex_digit(#[trigger] s@[i]),
{
    let n = s.unicode_len();
    let mut i: usize = 0;
    while i < n
        invariant
            0 <= i <= n,
            n == s@.len(),
            forall|j: int| 0 <= j < i ==> is_hex_digit(#[trigger] s@[j]),
        decreases n - i,
    {
        let c = s.get_char(i);
        let u = c as u32;
        if !((48 <= u && u <= 57) || (97 <= u && u <= 102) || (65 <= u && u <= 70)) {
            return false;
        }
        i += 1;
    }
    true
}

/// Checks that every character of `s` is a decimal digit.
fn all_dec_digits(s: &str) -> (r: bool)
    ensures
        r == forall|i: int| 0 <= i < s@.len() ==> is_dec_digit(#[trigger] s@[i]),
{
    let n = s.unicode_len();
    let mut i: usize = 0;
    while i < n
        invariant
            0 <= i <= n,
            n == s@.len(),
            forall|j: int| 0 <= j < i ==> is_dec_digit(#[trigger] s@[j]),
        decreases n - i,
    {
        let c = s.get_char(i);
        let u = c as u32;
        if !(48 <= u && u <= 57) {
            return false;
        }
        i += 1;
    }
    true
}

/// Parses text as a field element: hexadecimal when [`is_hex`] classifies
/// it so, decimal otherwise, in both cases reducing the value modulo the
/// field order. Returns `InvalidLiteral` carrying the text exactly when
/// the digits are ill-formed under that classification.
pub fn get_fq_element(input: &str) -> (r: Result<FieldElement, Error>)
    ensures
        match r {
            Ok(fe) => fe.wf() && spec_parse(input@) == Some(fe@),
            Err(e) => spec_parse(input@) is None && match e {
                Error::InvalidLiteral(t) => t@ == input@,
                _ => false,
            },
        },
{
    let n = input.unicode_len();
    if is_hex(input) {
        let has_prefix = if n >= 2 {
            let c0 = input.get_char(0);
            let c1 = input.get_char(1);
            c0 == '0' && (c1 == 'x' || c1 == 'X')
        } else {
            false
        };
        let digits: &str = if has_prefix {
            input.substring_char(2, n)
        } else {
            input
        };
        proof {
            assert(digits@ =~= spec_hex_digits(input@));
        }
        if digits.unicode_len() > 0 && all_hex_digits(digits) {
            let h = reduce_hex_digits(digits);
            proof {
                lemma_mod_bound(hex_value(digits@) as int, field_modulus() as int);
            }
            Ok(FieldElement { hex: h })
        } else {
            Err(Error::InvalidLiteral(input.to_owned()))
        }
    } else {
        if n > 0 && all_dec_digits(input) {
            let h = reduce_dec_digits(input);
            proof {
                lemma_mod_bound(dec_value(input@) as int, field_modulus() as int);
            }
            Ok(FieldElement { hex: h })
        } else {
            Err(Error::InvalidLiteral(input.to_owned()))
        }
    }
}

/// Renders a field element in canonical form: exactly 64 zero-padded
/// lowercase hexadecimal digits.
pub fn fq_to_str_hex(fe: &FieldElement) -> (r: String)
    requires
        fe.wf(),
    ensures
        r@ == fe.spec_hex(),
        is_canonical_hex(r@),
        hex_value(r@) == fe@,
{
    fe.hex.clone()
}

/// Renders a field element in canonical decimal form: the reduced value
/// in base 10, no leading zeros, no sign.
pub fn to_decimal(fe: &FieldElement) -> (r: String)
    requires
        fe.wf(),
    ensures
        r@.len() > 0,
        forall|i: int| 0 <= i < r@.len() ==> is_dec_digit(#[trigger] r@[i]),
        dec_value(r@) == fe@,
        r@.len() > 1 ==> r@[0] != '0',
{
    hex_to_decimal_digits(fe.hex.as_str())
}

} // verus!
