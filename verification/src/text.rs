//! Decimal numerals, written and reasoned about digit by digit.

use vstd::prelude::*;

verus! {

/// A `char` read as a `u32` keeps its code point.
pub proof fn lemma_char_u32(c: char)
    ensures
        c as u32 == c as int,
{
}

/// The character of a decimal digit.
pub open spec fn digit_char(d: nat) -> char {
    if d == 0 {
        '0'
    } else if d == 1 {
        '1'
    } else if d == 2 {
        '2'
    } else if d == 3 {
        '3'
    } else if d == 4 {
        '4'
    } else if d == 5 {
        '5'
    } else if d == 6 {
        '6'
    } else if d == 7 {
        '7'
    } else if d == 8 {
        '8'
    } else {
        '9'
    }
}

/// The decimal numeral of `n`, without leading zeros (`0` is written `0`).
pub open spec fn decimal(n: nat) -> Seq<char>
    decreases n,
{
    if n < 10 {
        seq![digit_char(n)]
    } else {
        decimal(n / 10).push(digit_char(n % 10))
    }
}

/// `n` in decimal, with zeros in front up to `width` characters.
pub open spec fn zero_padded(n: nat, width: nat) -> Seq<char> {
    let digits = decimal(n);
    if digits.len() < width {
        Seq::new((width - digits.len()) as nat, |i: int| '0') + digits
    } else {
        digits
    }
}

/// `v` in decimal, with a leading `-` when negative.
pub open spec fn signed_decimal(v: int) -> Seq<char> {
    if v < 0 {
        seq!['-'] + decimal((-v) as nat)
    } else {
        decimal(v as nat)
    }
}

/// Appends one decimal digit.
fn push_digit(s: &mut String, d: u32)
    requires
        d < 10,
    ensures
        final(s)@ == old(s)@.push(digit_char(d as nat)),
{
    proof {
        reveal_strlit("0");
        reveal_strlit("1");
        reveal_strlit("2");
        reveal_strlit("3");
        reveal_strlit("4");
        reveal_strlit("5");
        reveal_strlit("6");
        reveal_strlit("7");
        reveal_strlit("8");
        reveal_strlit("9");
    }
    if d == 0 {
        s.append("0");
    } else if d == 1 {
        s.append("1");
    } else if d == 2 {
        s.append("2");
    } else if d == 3 {
        s.append("3");
    } else if d == 4 {
        s.append("4");
    } else if d == 5 {
        s.append("5");
    } else if d == 6 {
        s.append("6");
    } else if d == 7 {
        s.append("7");
    } else if d == 8 {
        s.append("8");
    } else {
        s.append("9");
    }
}

/// Appends the decimal numeral of `n`.
pub fn push_decimal(s: &mut String, n: u32)
    ensures
        final(s)@ == old(s)@ + decimal(n as nat),
    decreases n,
{
    if n >= 10 {
        push_decimal(s, n / 10);
        push_digit(s, n % 10);
        proof {
            assert(decimal(n as nat) == decimal((n / 10) as nat).push(digit_char((n % 10) as nat)));
        }
    } else {
        push_digit(s, n);
    }
}

/// The number of digits of `n` in decimal.
fn decimal_len(n: u32) -> (r: usize)
    ensures
        r == decimal(n as nat).len(),
        1 <= r <= n as nat + 1,
    decreases n,
{
    if n >= 10 {
        let k = decimal_len(n / 10);
        proof {
            assert(decimal(n as nat) == decimal((n / 10) as nat).push(digit_char((n % 10) as nat)));
        }
        k + 1
    } else {
        1
    }
}

/// Appends `n` in decimal with zeros in front up to `width` characters.
pub fn push_zero_padded(s: &mut String, n: u32, width: usize)
    ensures
        final(s)@ == old(s)@ + zero_padded(n as nat, width as nat),
{
    let len = decimal_len(n);
    let ghost start = s@;
    if len < width {
        let mut k: usize = 0;
        while k < width - len
            invariant
                len < width,
                k <= width - len,
                s@ == start + Seq::new(k as nat, |i: int| '0'),
            decreases width - len - k,
        {
            s.append("0");
            proof {
                reveal_strlit("0");
                assert(s@ =~= start + Seq::new((k + 1) as nat, |i: int| '0'));
            }
            k = k + 1;
        }
    }
    push_decimal(s, n);
    proof {
        assert(s@ =~= start + zero_padded(n as nat, width as nat));
    }
}

/// Appends `v` in decimal, with a leading `-` when negative.
pub fn push_signed_decimal(s: &mut String, v: i32)
    ensures
        final(s)@ == old(s)@ + signed_decimal(v as int),
{
    let ghost start = s@;
    if v < 0 {
        s.append("-");
        let magnitude: u32 = if v == i32::MIN {
            2147483648u32
        } else {
            (-v) as u32
        };
        push_decimal(s, magnitude);
        proof {
            reveal_strlit("-");
            assert(s@ =~= start + signed_decimal(v as int));
        }
    } else {
        push_decimal(s, v as u32);
    }
}

/// Text order, character by character: at the first place where two texts
/// differ, the smaller character comes first; a text that another begins
/// with comes before it. (For ASCII this is the byte order that databases
/// use to sort text.)
pub open spec fn text_less(s: Seq<char>, t: Seq<char>) -> bool
    decreases s.len(),
{
    if s.len() == 0 {
        t.len() > 0
    } else if t.len() == 0 {
        false
    } else if s[0] != t[0] {
        s[0] < t[0]
    } else {
        text_less(s.drop_first(), t.drop_first())
    }
}

/// Ten to the power `k`.
pub open spec fn pow10(k: nat) -> nat
    decreases k,
{
    if k == 0 {
        1
    } else {
        10 * pow10((k - 1) as nat)
    }
}

/// The last `w` decimal digits of `n`, most significant first.
pub open spec fn fixed_digits(n: nat, w: nat) -> Seq<char>
    decreases w,
{
    if w == 0 {
        seq![]
    } else {
        fixed_digits(n / 10, (w - 1) as nat).push(digit_char(n % 10))
    }
}

/// No text comes before itself.
pub proof fn lemma_text_less_irreflexive(s: Seq<char>)
    ensures
        !text_less(s, s),
    decreases s.len(),
{
    if s.len() > 0 {
        lemma_text_less_irreflexive(s.drop_first());
    }
}

/// Comparing two texts that start with parts of equal length compares the
/// first parts, and the rest only where the first parts are equal.
pub proof fn lemma_text_less_concat(a: Seq<char>, b: Seq<char>, a2: Seq<char>, b2: Seq<char>)
    requires
        a.len() == a2.len(),
    ensures
        text_less(a + b, a2 + b2) == (text_less(a, a2) || (a == a2 && text_less(b, b2))),
    decreases a.len(),
{
    if a.len() == 0 {
        assert(a + b =~= b);
        assert(a2 + b2 =~= b2);
        assert(a =~= a2);
    } else {
        assert((a + b).drop_first() =~= a.drop_first() + b);
        assert((a2 + b2).drop_first() =~= a2.drop_first() + b2);
        lemma_text_less_concat(a.drop_first(), b, a2.drop_first(), b2);
        if a[0] == a2[0] && a.drop_first() == a2.drop_first() {
            assert forall|i: int| 0 <= i < a.len() implies a[i] == a2[i] by {
                if i > 0 {
                    assert(a[i] == a.drop_first()[i - 1]);
                    assert(a2[i] == a2.drop_first()[i - 1]);
                }
            }
            assert(a =~= a2);
        }
        if a == a2 {
            assert(a.drop_first() =~= a2.drop_first());
        }
    }
}

/// Numbers below `10^w`, written with exactly `w` digits, sort as text in
/// the order of the numbers.
pub proof fn lemma_fixed_digits_order(x: nat, y: nat, w: nat)
    requires
        x < pow10(w),
        y < pow10(w),
    ensures
        fixed_digits(x, w).len() == w,
        fixed_digits(y, w).len() == w,
        text_less(fixed_digits(x, w), fixed_digits(y, w)) <==> x < y,
        fixed_digits(x, w) == fixed_digits(y, w) <==> x == y,
    decreases w,
{
    if w == 0 {
        lemma_text_less_irreflexive(fixed_digits(x, w));
    } else {
        let w1 = (w - 1) as nat;
        assert(x / 10 < pow10(w1));
        assert(y / 10 < pow10(w1));
        lemma_fixed_digits_order(x / 10, y / 10, w1);
        let xs = fixed_digits(x / 10, w1);
        let ys = fixed_digits(y / 10, w1);
        lemma_text_less_concat(xs, seq![digit_char(x % 10)], ys, seq![digit_char(y % 10)]);
        assert(fixed_digits(x, w) == xs + seq![digit_char(x % 10)]);
        assert(fixed_digits(y, w) == ys + seq![digit_char(y % 10)]);
        assert(text_less(seq![digit_char(x % 10)], seq![digit_char(y % 10)]) <==> x % 10 < y % 10)
            by {
            lemma_digit_char_order(x % 10, y % 10);
            assert(seq![digit_char(x % 10)].drop_first() =~= Seq::<char>::empty());
            assert(seq![digit_char(y % 10)].drop_first() =~= Seq::<char>::empty());
            assert(!text_less(Seq::<char>::empty(), Seq::<char>::empty()));
        }
        lemma_digit_char_order(x % 10, y % 10);
        if fixed_digits(x, w) == fixed_digits(y, w) {
            assert(xs == fixed_digits(x, w).drop_last());
            assert(ys == fixed_digits(y, w).drop_last());
            assert(digit_char(x % 10) == fixed_digits(x, w).last());
        }
    }
}

/// Digits sort in the order of their values.
proof fn lemma_digit_char_order(i: nat, j: nat)
    requires
        i < 10,
        j < 10,
    ensures
        (digit_char(i) < digit_char(j)) == (i < j),
        (digit_char(i) == digit_char(j)) == (i == j),
{
}

/// Two texts cut at the same place are equal exactly when both parts are.
pub proof fn lemma_concat_eq(a: Seq<char>, b: Seq<char>, a2: Seq<char>, b2: Seq<char>)
    requires
        a.len() == a2.len(),
    ensures
        (a + b == a2 + b2) == (a == a2 && b == b2),
{
    if a + b == a2 + b2 {
        assert(a =~= (a + b).take(a.len() as int));
        assert(a2 =~= (a2 + b2).take(a.len() as int));
        assert(b =~= (a + b).skip(a.len() as int));
        assert(b2 =~= (a2 + b2).skip(a.len() as int));
    }
}

/// The powers of ten used for four-digit years and two-digit months and days.
pub proof fn lemma_small_powers_of_ten()
    ensures
        pow10(2) == 100,
        pow10(4) == 10000,
{
    assert(pow10(0) == 1);
    assert(pow10(1) == 10);
    assert(pow10(2) == 100);
    assert(pow10(3) == 1000);
    assert(pow10(4) == 10000);
}

/// Zeros only.
proof fn lemma_fixed_digits_of_zero(w: nat)
    ensures
        fixed_digits(0, w) == Seq::new(w, |i: int| '0'),
    decreases w,
{
    if w > 0 {
        lemma_fixed_digits_of_zero((w - 1) as nat);
        assert(fixed_digits(0, w) =~= Seq::new(w, |i: int| '0'));
    }
}

/// A number below `10^w`, zero-padded to `w` characters, is its `w` last
/// digits.
pub proof fn lemma_zero_padded_is_fixed(n: nat, w: nat)
    requires
        1 <= w,
        n < pow10(w),
    ensures
        decimal(n).len() <= w,
        zero_padded(n, w) == fixed_digits(n, w),
    decreases w,
{
    let w1 = (w - 1) as nat;
    if n < 10 {
        lemma_fixed_digits_of_zero(w1);
        assert(fixed_digits(n, w) == fixed_digits(0, w1).push(digit_char(n)));
        assert(zero_padded(n, w) =~= fixed_digits(n, w));
    } else {
        assert(w1 >= 1) by {
            if w1 == 0 {
                assert(pow10(1) == 10 * pow10(0));
            }
        }
        lemma_zero_padded_is_fixed(n / 10, w1);
        assert(decimal(n) == decimal(n / 10).push(digit_char(n % 10)));
        let z1 = zero_padded(n / 10, w1);
        if decimal(n / 10).len() < w1 {
            assert(zero_padded(n, w) =~= z1.push(digit_char(n % 10)));
        } else {
            assert(zero_padded(n, w) =~= z1.push(digit_char(n % 10)));
        }
    }
}

/// Every character is a decimal digit, `0` to `9`.
pub open spec fn all_digits(s: Seq<char>) -> bool {
    forall|i: int| 0 <= i < s.len() ==> '0' <= #[trigger] s[i] <= '9'
}

/// The number that a string of decimal digits writes, each digit counted by
/// its distance from `0` in the character table.
pub open spec fn numeral_value(s: Seq<char>) -> int
    decreases s.len(),
{
    if s.len() == 0 {
        0
    } else {
        10 * numeral_value(s.drop_last()) + (s.last() as int - '0' as int)
    }
}

/// The digit characters are `0` to `9`, in order.
pub proof fn lemma_digit_chars(d: nat)
    requires
        d < 10,
    ensures
        digit_char(d) as int == '0' as int + d,
        '0' <= digit_char(d) <= '9',
{
}

/// The decimal numeral of `n` is made of digits, writes `n`, and starts with
/// a digit other than `0` unless it is `0` itself.
pub proof fn lemma_decimal_writes_n(n: nat)
    ensures
        all_digits(decimal(n)),
        numeral_value(decimal(n)) == n,
        decimal(n).len() >= 1,
        decimal(n).len() > 1 ==> decimal(n)[0] != '0',
    decreases n,
{
    if n < 10 {
        lemma_digit_chars(n);
        assert(decimal(n).drop_last() =~= Seq::<char>::empty());
        assert(numeral_value(decimal(n).drop_last()) == 0);
        assert(decimal(n).last() == digit_char(n));
    } else {
        lemma_decimal_writes_n(n / 10);
        lemma_digit_chars(n % 10);
        let d = decimal(n);
        assert(d == decimal(n / 10).push(digit_char(n % 10)));
        assert(d.drop_last() =~= decimal(n / 10));
        assert(d[0] == decimal(n / 10)[0]);
        assert(d.last() == digit_char(n % 10));
        assert(numeral_value(d) == 10 * numeral_value(decimal(n / 10)) + (n % 10));
        assert(10 * (n / 10) + n % 10 == n);
        if decimal(n / 10).len() == 1 {
            assert(numeral_value(decimal(n / 10).drop_last()) == 0);
            lemma_digit_chars(n / 10);
        }
    }
}

/// Zeros in front of a numeral do not change the number it writes.
proof fn lemma_leading_zeros(k: nat, s: Seq<char>)
    ensures
        numeral_value(Seq::new(k, |i: int| '0') + s) == numeral_value(s),
    decreases s.len(), k,
{
    let z = Seq::new(k, |i: int| '0');
    if s.len() == 0 {
        assert(z + s =~= z);
        if k > 0 {
            assert(z.drop_last() =~= Seq::new((k - 1) as nat, |i: int| '0'));
            lemma_leading_zeros((k - 1) as nat, s);
            assert(Seq::new((k - 1) as nat, |i: int| '0') + s =~= Seq::new(
                (k - 1) as nat,
                |i: int| '0',
            ));
        }
    } else {
        assert((z + s).drop_last() =~= z + s.drop_last());
        assert((z + s).last() == s.last());
        lemma_leading_zeros(k, s.drop_last());
    }
}

/// A zero-padded numeral is made of digits, writes `n`, and is as long as
/// the numeral of `n` or as `width`, whichever is longer.
pub proof fn lemma_zero_padded_writes_n(n: nat, width: nat)
    ensures
        all_digits(zero_padded(n, width)),
        numeral_value(zero_padded(n, width)) == n,
        zero_padded(n, width).len() == if decimal(n).len() < width {
            width
        } else {
            decimal(n).len()
        },
{
    lemma_decimal_writes_n(n);
    let d = decimal(n);
    if d.len() < width {
        let k = (width - d.len()) as nat;
        lemma_leading_zeros(k, d);
        assert forall|i: int| 0 <= i < zero_padded(n, width).len() implies '0' <= #[trigger] zero_padded(
            n,
            width,
        )[i] <= '9' by {
            if i >= k {
                assert(zero_padded(n, width)[i] == d[i - k]);
            }
        }
    }
}

} // verus!
