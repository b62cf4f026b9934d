//! Amounts of money in minor units of a single currency, with arithmetic that
//! either gives the exact result or fails.

use vstd::prelude::*;
use vstd::utf8::*;
use vstd::string::*;
use crate::text::lemma_char_u32;

verus! {

broadcast use vstd::utf8::group_utf8_lib;

/// An ASCII letter, `A`..=`Z` or `a`..=`z`.
pub open spec fn is_ascii_letter_char(c: char) -> bool {
    ('A' <= c <= 'Z') || ('a' <= c <= 'z')
}

/// The byte of an ASCII letter, `A`..=`Z` or `a`..=`z`.
pub open spec fn is_ascii_letter_byte(b: u8) -> bool {
    (0x41 <= b <= 0x5A) || (0x61 <= b <= 0x7A)
}

/// The byte of an upper-case ASCII letter.
pub open spec fn is_upper_letter_byte(b: u8) -> bool {
    0x41 <= b <= 0x5A
}

/// ASCII upper-casing of one byte: lower-case letters move to upper case,
/// every other byte is left as it is.
pub open spec fn ascii_upper(b: u8) -> u8 {
    if 0x61 <= b <= 0x7A {
        (b - 0x20) as u8
    } else {
        b
    }
}

/// Text that names a currency: exactly three ASCII letters, in any case.
pub open spec fn is_code_text(s: Seq<char>) -> bool {
    &&& s.len() == 3
    &&& forall|i: int| 0 <= i < 3 ==> is_ascii_letter_char(#[trigger] s[i])
}

/// The stored form of a currency code written as `s`: its three letters in
/// upper case, as bytes.
pub open spec fn normalized_code(s: Seq<char>) -> Seq<u8> {
    Seq::new(3, |i: int| ascii_upper(s[i] as u8))
}

/// The stored bytes of a currency code: three upper-case ASCII letters.
pub open spec fn is_code_bytes(b: Seq<u8>) -> bool {
    &&& b.len() == 3
    &&& forall|i: int| 0 <= i < 3 ==> is_upper_letter_byte(#[trigger] b[i])
}

/// The characters that the bytes of an ASCII text stand for.
pub open spec fn ascii_chars(b: Seq<u8>) -> Seq<char> {
    b.map_values(|x: u8| x as char)
}

/// ISO 4217 currency code: three ASCII letters, stored in upper case.
#[derive(Debug, Clone, Copy, Eq, PartialOrd, Ord, Hash)]
pub struct CurrencyCode([u8; 3]);

impl PartialEq for CurrencyCode {
    /// Two codes are equal when their stored bytes are.
    fn eq(&self, other: &Self) -> (r: bool) {
        let r = self.0[0] == other.0[0] && self.0[1] == other.0[1] && self.0[2] == other.0[2];
        proof {
            if r {
                assert(self.0@ =~= other.0@);
            }
        }
        r
    }
}

impl vstd::std_specs::cmp::PartialEqSpecImpl for CurrencyCode {
    open spec fn obeys_eq_spec() -> bool {
        true
    }

    open spec fn eq_spec(&self, other: &Self) -> bool {
        self@ == other@
    }
}

impl View for CurrencyCode {
    type V = Seq<u8>;

    /// The three stored bytes.
    closed spec fn view(&self) -> Seq<u8> {
        self.0@
    }
}

/// Errors of currency codes and of money arithmetic.
#[derive(Debug, Clone, PartialEq, Eq)]
pub enum MoneyError {
    InvalidCurrencyCode(String),
    CurrencyMismatch { left: CurrencyCode, right: CurrencyCode },
    Overflow,
}

/// When every byte of the UTF-8 encoding of `cs` is below 0x80, every
/// character of `cs` is ASCII.
proof fn lemma_ascii_encoding_means_ascii_chars(cs: Seq<char>)
    requires
        forall|j: int| 0 <= j < encode_utf8(cs).len() ==> #[trigger] encode_utf8(cs)[j] < 0x80,
    ensures
        is_ascii_chars(cs),
    decreases cs.len(),
{
    if cs.len() > 0 {
        let c = cs[0] as u32;
        let rest = cs.drop_first();
        let head = encode_scalar(c);
        char_is_scalar(cs[0]);
        assert(encode_utf8(cs) == head + encode_utf8(rest));
        assert(head.len() >= 1);
        assert(encode_utf8(cs)[0] == head[0]);
        assert(head[0] < 0x80);
        if has_width_2_encoding(c) {
            assert(head[0] == leading_byte_width_2(c));
            assert(0xC0u8 | ((c >> 6) & 0x1F) as u8 >= 0xC0u8) by (bit_vector);
        } else if has_width_3_encoding(c) {
            assert(head[0] == leading_byte_width_3(c));
            assert(0xE0u8 | ((c >> 12) & 0x0F) as u8 >= 0xC0u8) by (bit_vector);
        } else if has_width_4_encoding(c) {
            assert(head[0] == leading_byte_width_4(c));
            assert(0xF0u8 | ((c >> 18) & 0x7) as u8 >= 0xC0u8) by (bit_vector);
        }
        assert(has_width_1_encoding(c));
        assert forall|j: int| 0 <= j < encode_utf8(rest).len() implies #[trigger] encode_utf8(
            rest,
        )[j] < 0x80 by {
            assert(encode_utf8(cs)[j + head.len()] == encode_utf8(rest)[j]);
        }
        lemma_ascii_encoding_means_ascii_chars(rest);
        assert forall|i: int| 0 <= i < cs.len() implies '\0' <= #[trigger] cs[i] <= '\u{7f}' by {
            if i > 0 {
                assert(cs[i] == rest[i - 1]);
            } else {
                lemma_char_u32(cs[0]);
            }
        }
    }
}

impl CurrencyCode {
    #[verifier::type_invariant]
    spec fn well_formed(self) -> bool {
        is_code_bytes(self.0@)
    }

    /// Accepts three ASCII letters in any case and stores them in upper case.
    pub fn new(code: &str) -> (r: Result<Self, MoneyError>)
        ensures
            r is Ok <==> is_code_text(code@),
            r matches Ok(c) ==> c@ == normalized_code(code@),
            r matches Err(e) ==> e matches MoneyError::InvalidCurrencyCode(t) && t@ == code@,
    {
        let bytes = code.as_bytes();
        proof {
            if is_code_text(code@) {
                assert(is_ascii_chars(code@));
            }
        }
        if bytes.len() != 3 {
            return Err(MoneyError::InvalidCurrencyCode(code.to_owned()));
        }
        let mut i: usize = 0;
        while i < 3
            invariant
                bytes@ == encode_utf8(code@),
                bytes@.len() == 3,
                0 <= i <= 3,
                forall|j: int| 0 <= j < i ==> is_ascii_letter_byte(#[trigger] bytes@[j]),
                is_code_text(code@) ==> is_ascii_chars(code@),
            decreases 3 - i,
        {
            let b = bytes[i];
            if !((b >= 0x41 && b <= 0x5A) || (b >= 0x61 && b <= 0x7A)) {
                proof {
                    if is_code_text(code@) {
                        assert(code@[i as int] as u8 == bytes@[i as int]);
                    }
                }
                return Err(MoneyError::InvalidCurrencyCode(code.to_owned()));
            }
            i = i + 1;
        }
        proof {
            lemma_ascii_encoding_means_ascii_chars(code@);
            assert forall|j: int| 0 <= j < 3 implies is_ascii_letter_char(#[trigger] code@[j]) by {
                assert(code@[j] as u8 == bytes@[j]);
            }
        }
        let b0 = upper_byte(bytes[0]);
        let b1 = upper_byte(bytes[1]);
        let b2 = upper_byte(bytes[2]);
        let c = CurrencyCode([b0, b1, b2]);
        proof {
            assert forall|j: int| 0 <= j < 3 implies #[trigger] bytes@[j] == code@[j] as u8 by {}
            assert(c@ =~= normalized_code(code@));
        }
        Ok(c)
    }
}

/// ASCII upper-casing of one byte.
fn upper_byte(b: u8) -> (r: u8)
    ensures
        r == ascii_upper(b),
{
    if b >= 0x61 && b <= 0x7A {
        b - 0x20
    } else {
        b
    }
}

#[verifier::external_type_specification]
#[verifier::external_body]
pub struct ExUtf8Error(std::str::Utf8Error);

/// `std::str::from_utf8`: as its documentation says, it succeeds exactly when
/// the bytes are valid UTF-8, and then the text it returns is encoded by
/// exactly those bytes.
#[verifier::external_body]
fn str_from_utf8(bytes: &[u8]) -> (r: Result<&str, std::str::Utf8Error>)
    ensures
        r is Ok <==> valid_utf8(bytes@),
        r matches Ok(s) ==> s.spec_bytes() == bytes@,
{
    std::str::from_utf8(bytes)
}

impl CurrencyCode {
    /// The code as text: its three upper-case letters.
    pub fn as_str(&self) -> (r: &str)
        ensures
            r@ == ascii_chars(self@),
            r@.len() == 3,
            forall|i: int| 0 <= i < 3 ==> 'A' <= #[trigger] r@[i] <= 'Z',
    {
        proof {
            use_type_invariant(self);
        }
        let ghost chars = ascii_chars(self@);
        proof {
            assert(is_ascii_chars(chars));
            assert(encode_utf8(chars) =~= self@);
            encode_utf8_valid_utf8(chars);
            encode_utf8_decode_utf8(chars);
        }
        match str_from_utf8(&self.0) {
            Ok(s) => {
                proof {
                    encode_utf8_decode_utf8(s@);
                }
                s
            },
            Err(_) => {
                proof {
                    assert(false);
                }
                ""
            },
        }
    }
}

/// The three bytes of a code read as one number, most significant first.
pub open spec fn code_number(b: Seq<u8>) -> int {
    b[0] * 65536 + b[1] * 256 + b[2]
}

/// Different codes are different numbers.
pub proof fn lemma_code_number_injective(a: Seq<u8>, b: Seq<u8>)
    requires
        a.len() == 3,
        b.len() == 3,
        code_number(a) == code_number(b),
    ensures
        a == b,
{
    assert(a[0] == b[0]);
    assert(a[1] == b[1]);
    assert(a =~= b);
}

impl CurrencyCode {
    /// The code as one number, to key a table by currency.
    pub(crate) fn number(&self) -> (r: u32)
        ensures
            r == code_number(self@),
            is_code_bytes(self@),
    {
        proof {
            use_type_invariant(self);
        }
        (self.0[0] as u32) * 65536 + (self.0[1] as u32) * 256 + (self.0[2] as u32)
    }
}

/// Whether a mathematical integer fits in an `i64`.
pub open spec fn fits_i64(x: int) -> bool {
    i64::MIN <= x <= i64::MAX
}

/// What a `Money` value stands for: a signed count of minor units of one
/// currency, named by the bytes of its code.
pub struct MoneyView {
    pub amount: int,
    pub currency: Seq<u8>,
}

/// An amount in a single currency, counted in minor units.
#[derive(Debug, Clone, Copy, PartialEq, Eq)]
pub struct Money {
    amount: i64,
    currency: CurrencyCode,
}

impl View for Money {
    type V = MoneyView;

    closed spec fn view(&self) -> MoneyView {
        MoneyView { amount: self.amount as int, currency: self.currency@ }
    }
}

impl Money {
    pub fn new(amount: i64, currency: CurrencyCode) -> (r: Self)
        ensures
            r@ == (MoneyView { amount: amount as int, currency: currency@ }),
    {
        Self { amount, currency }
    }

    /// Nothing of the given currency.
    pub fn zero(currency: CurrencyCode) -> (r: Self)
        ensures
            r@ == (MoneyView { amount: 0, currency: currency@ }),
    {
        Self::new(0, currency)
    }

    pub fn amount(&self) -> (r: i64)
        ensures
            r == self@.amount,
    {
        self.amount
    }

    pub fn currency(&self) -> (r: CurrencyCode)
        ensures
            r@ == self@.currency,
            is_code_bytes(r@),
    {
        proof {
            use_type_invariant(&self.currency);
        }
        self.currency
    }

    pub fn is_zero(&self) -> (r: bool)
        ensures
            r == (self@.amount == 0),
    {
        self.amount == 0
    }

    /// Adds two amounts of the same currency.
    pub fn try_add(self, other: Self) -> (r: Result<Self, MoneyError>)
        ensures
            r is Ok <==> can_add(self@, other@),
            r matches Ok(m) ==> m@ == sum_view(self@, other@),
            self@.currency != other@.currency ==> (r matches Err(
                MoneyError::CurrencyMismatch { left, right },
            ) && left@ == self@.currency && right@ == other@.currency),
            self@.currency == other@.currency && !can_add(self@, other@) ==> r matches Err(
                MoneyError::Overflow,
            ),
    {
        if self.currency != other.currency {
            return Err(MoneyError::CurrencyMismatch { left: self.currency, right: other.currency });
        }
        match self.amount.checked_add(other.amount) {
            Some(sum) => Ok(Self::new(sum, self.currency)),
            None => Err(MoneyError::Overflow),
        }
    }

    /// Subtracts an amount of the same currency.
    pub fn try_sub(self, other: Self) -> (r: Result<Self, MoneyError>)
        ensures
            r is Ok <==> can_sub(self@, other@),
            r matches Ok(m) ==> m@ == difference_view(self@, other@),
            self@.currency != other@.currency ==> (r matches Err(
                MoneyError::CurrencyMismatch { left, right },
            ) && left@ == self@.currency && right@ == other@.currency),
            self@.currency == other@.currency && !can_sub(self@, other@) ==> r matches Err(
                MoneyError::Overflow,
            ),
    {
        if self.currency != other.currency {
            return Err(MoneyError::CurrencyMismatch { left: self.currency, right: other.currency });
        }
        match self.amount.checked_sub(other.amount) {
            Some(rest) => Ok(Self::new(rest, self.currency)),
            None => Err(MoneyError::Overflow),
        }
    }

    /// Changes the sign of the amount; fails only for `i64::MIN`, whose
    /// opposite is out of range.
    pub fn try_neg(self) -> (r: Result<Self, MoneyError>)
        ensures
            r is Ok <==> can_neg(self@),
            r matches Ok(m) ==> m@ == negated_view(self@),
            !can_neg(self@) ==> r matches Err(MoneyError::Overflow),
    {
        if self.amount == i64::MIN {
            return Err(MoneyError::Overflow);
        }
        Ok(Self::new(-self.amount, self.currency))
    }
}

/// Which texts name a currency, and how they are stored: exactly three
/// characters, each from `A` to `Z` or from `a` to `z` (both ends included),
/// are accepted by `CurrencyCode::new`; an upper-case letter is stored as its
/// own byte and a lower-case one as the byte 32 below it, its upper-case
/// form.
pub proof fn lemma_code_text_is_three_letters(s: Seq<char>)
    ensures
        is_code_text(s) <==> (s.len() == 3 && forall|i: int|
            0 <= i < 3 ==> ('A' <= #[trigger] s[i] <= 'Z' || 'a' <= s[i] <= 'z')),
        is_code_text(s) ==> forall|i: int|
            0 <= i < 3 ==> {
                &&& ('A' <= #[trigger] s[i] <= 'Z' ==> normalized_code(s)[i] as int == s[i] as int)
                &&& ('a' <= s[i] <= 'z' ==> normalized_code(s)[i] as int == s[i] as int - 32)
                &&& 'A' as int <= normalized_code(s)[i] as int <= 'Z' as int
            },
{
    if is_code_text(s) {
        assert forall|i: int| 0 <= i < 3 implies {
            &&& ('A' <= #[trigger] s[i] <= 'Z' ==> normalized_code(s)[i] as int == s[i] as int)
            &&& ('a' <= s[i] <= 'z' ==> normalized_code(s)[i] as int == s[i] as int - 32)
            &&& 'A' as int <= normalized_code(s)[i] as int <= 'Z' as int
        } by {
            lemma_char_u32(s[i]);
            assert(is_ascii_letter_char(s[i]));
        }
    }
}

/// The amount of a `Money` value fits in an `i64`.
pub proof fn lemma_amount_fits(m: Money)
    ensures
        fits_i64(m@.amount),
{
}

/// Two amounts can be added: same currency, and the sum fits in an `i64`.
pub open spec fn can_add(a: MoneyView, b: MoneyView) -> bool {
    a.currency == b.currency && fits_i64(a.amount + b.amount)
}

/// The sum of two amounts, in the first one's currency.
pub open spec fn sum_view(a: MoneyView, b: MoneyView) -> MoneyView {
    MoneyView { amount: a.amount + b.amount, currency: a.currency }
}

/// One amount can be subtracted from another: same currency, and the
/// difference fits in an `i64`.
pub open spec fn can_sub(a: MoneyView, b: MoneyView) -> bool {
    a.currency == b.currency && fits_i64(a.amount - b.amount)
}

/// The difference of two amounts, in the first one's currency.
pub open spec fn difference_view(a: MoneyView, b: MoneyView) -> MoneyView {
    MoneyView { amount: a.amount - b.amount, currency: a.currency }
}

/// The opposite of the amount fits in an `i64`.
pub open spec fn can_neg(a: MoneyView) -> bool {
    fits_i64(-a.amount)
}

/// The amount with its sign changed.
pub open spec fn negated_view(a: MoneyView) -> MoneyView {
    MoneyView { amount: -a.amount, currency: a.currency }
}

/// Zero is neutral: adding nothing of its own currency to an amount always
/// succeeds and gives the amount back.
pub proof fn lemma_zero_is_neutral(a: Money, c: CurrencyCode)
    requires
        c@ == a@.currency,
    ensures
        can_add(a@, MoneyView { amount: 0, currency: c@ }),
        sum_view(a@, MoneyView { amount: 0, currency: c@ }) == a@,
{
}

/// Addition does not depend on the order of the amounts.
pub proof fn lemma_add_commutes(a: Money, b: Money)
    ensures
        can_add(a@, b@) == can_add(b@, a@),
        can_add(a@, b@) ==> sum_view(a@, b@) == sum_view(b@, a@),
{
}

/// Subtracting what was added gives back the first amount.
pub proof fn lemma_sub_undoes_add(a: Money, b: Money)
    requires
        can_add(a@, b@),
    ensures
        can_sub(sum_view(a@, b@), b@),
        difference_view(sum_view(a@, b@), b@) == a@,
{
}

/// Changing the sign twice gives back the amount.
pub proof fn lemma_neg_twice(a: Money)
    requires
        can_neg(a@),
    ensures
        can_neg(negated_view(a@)),
        negated_view(negated_view(a@)) == a@,
{
}

/// Subtracting an amount is adding its opposite.
pub proof fn lemma_sub_is_add_of_neg(a: Money, b: Money)
    requires
        can_neg(b@),
    ensures
        can_sub(a@, b@) == can_add(a@, negated_view(b@)),
        difference_view(a@, b@) == sum_view(a@, negated_view(b@)),
{
}

/// The same letter, whatever its case.
pub open spec fn same_letter_any_case(x: char, y: char) -> bool {
    x == y || x as int - y as int == 32 || y as int - x as int == 32
}

/// Two ways of writing a code give the same code exactly when they spell
/// the same letters, whatever their case.
pub proof fn lemma_codes_equal_ignoring_case(a: Seq<char>, b: Seq<char>)
    requires
        is_code_text(a),
        is_code_text(b),
    ensures
        normalized_code(a) == normalized_code(b) <==> forall|i: int|
            0 <= i < 3 ==> same_letter_any_case(#[trigger] a[i], b[i]),
{
    assert forall|i: int| 0 <= i < 3 implies (ascii_upper(#[trigger] a[i] as u8) == ascii_upper(
        b[i] as u8,
    )) == same_letter_any_case(a[i], b[i]) by {
        lemma_char_u32(a[i]);
        lemma_char_u32(b[i]);
        assert(is_ascii_letter_char(a[i]));
        assert(is_ascii_letter_char(b[i]));
    }
    if forall|i: int| 0 <= i < 3 ==> same_letter_any_case(#[trigger] a[i], b[i]) {
        assert(normalized_code(a) =~= normalized_code(b));
    }
    if normalized_code(a) == normalized_code(b) {
        assert forall|i: int| 0 <= i < 3 implies same_letter_any_case(#[trigger] a[i], b[i]) by {
            assert(normalized_code(a)[i] == normalized_code(b)[i]);
        }
    }
}

/// What `{:?}` writes for a string: the text in double quotes, with quotes,
/// backslashes, control and non-printable characters escaped
/// (`<str as core::fmt::Debug>::fmt`).
pub uninterp spec fn debug_text(s: Seq<char>) -> Seq<char>;

/// `format!("{:?}", s)`, that is `<str as core::fmt::Debug>::fmt`: its
/// result is named `debug_text` of the text, and nothing more is stated of
/// it here.
#[verifier::external_body]
fn debug_quoted(s: &str) -> (r: String)
    ensures
        r@ == debug_text(s@),
{
    format!("{:?}", s)
}

/// The message of a money error.
pub open spec fn money_error_text(e: MoneyError) -> Seq<char> {
    match e {
        MoneyError::InvalidCurrencyCode(code) => "código de moneda inválido: "@ + debug_text(
            code@,
        ),
        MoneyError::CurrencyMismatch { left, right } => "monedas distintas: "@ + ascii_chars(left@)
            + " y "@ + ascii_chars(right@),
        MoneyError::Overflow => "importe fuera de rango"@,
    }
}

impl MoneyError {
    /// The message that explains the error.
    pub fn to_string(&self) -> (r: String)
        ensures
            r@ == money_error_text(*self),
    {
        match self {
            MoneyError::InvalidCurrencyCode(code) => {
                let mut s = String::new();
                s.append("código de moneda inválido: ");
                let quoted = debug_quoted(code.as_str());
                s.append(quoted.as_str());
                s
            },
            MoneyError::CurrencyMismatch { left, right } => {
                let mut s = String::new();
                s.append("monedas distintas: ");
                s.append(left.as_str());
                s.append(" y ");
                s.append(right.as_str());
                s
            },
            MoneyError::Overflow => String::from_str("importe fuera de rango"),
        }
    }
}

} // verus!
