//! Decimal rendering of integers into `String`s.

use vstd::prelude::*;
use vstd::string::*;

verus! {

/// The ASCII digit character for `d` (`0 <= d < 10`).
pub open spec fn digit_char(d: nat) -> char {
    (d + 48) as char
}

/// The shortest decimal representation of `n` (no sign, no leading zeros).
pub open spec fn decimal(n: nat) -> Seq<char>
    decreases n,
{
    if n < 10 {
        seq![digit_char(n)]
    } else {
        decimal(n / 10).push(digit_char(n % 10))
    }
}

/// `decimal(n)`, left-padded with `'0'` up to `width` characters (as `{:0width$}` does).
pub open spec fn zero_padded(n: nat, width: nat) -> Seq<char> {
    let d = decimal(n);
    if d.len() < width {
        Seq::new((width - d.len()) as nat, |i: int| '0') + d
    } else {
        d
    }
}

/// The decimal representation of a signed integer, with a leading `'-'` when negative.
pub open spec fn signed_decimal(i: int) -> Seq<char> {
    if i < 0 {
        seq!['-'] + decimal((-i) as nat)
    } else {
        decimal(i as nat)
    }
}

/// Every character of `s` is an ASCII digit.
pub open spec fn all_digits(s: Seq<char>) -> bool {
    forall|k: int| 0 <= k < s.len() ==> '0' <= #[trigger] s[k] <= '9'
}

/// The value of a sequence of ASCII digits read in base ten.
pub open spec fn digits_value(s: Seq<char>) -> int
    decreases s.len(),
{
    if s.len() == 0 {
        0
    } else {
        digits_value(s.drop_last()) * 10 + (s.last() as int - 48)
    }
}

pub proof fn lemma_decimal_digits(n: nat)
    ensures
        decimal(n).len() >= 1,
        all_digits(decimal(n)),
        digits_value(decimal(n)) == n,
    decreases n,
{
    lemma_digit_char((n % 10) as nat);
    if n >= 10 {
        lemma_decimal_digits(n / 10);
        assert(decimal(n).drop_last() =~= decimal(n / 10));
        assert(decimal(n).last() == digit_char(n % 10));
        assert(n == (n / 10) * 10 + n % 10);
    } else {
        assert(decimal(n).drop_last() =~= Seq::<char>::empty());
        assert(digits_value(Seq::<char>::empty()) == 0);
    }
}

proof fn lemma_digit_char(d: nat)
    requires
        d < 10,
    ensures
        digit_char(d) as int == d + 48,
        '0' <= digit_char(d) <= '9',
{
}

/// Two numbers with the same decimal text are equal.
pub proof fn lemma_decimal_injective(a: nat, b: nat)
    requires
        decimal(a) == decimal(b),
    ensures
        a == b,
{
    lemma_decimal_digits(a);
    lemma_decimal_digits(b);
}

/// `s` comes before `t`, or equals it, in the order of `String`'s `<=` (characters compared
/// one by one; a proper prefix comes first).
pub open spec fn text_le(s: Seq<char>, t: Seq<char>) -> bool {
    ||| s == t
    ||| exists|k: int|
        0 <= k < s.len() && k < t.len() && s.take(k) == t.take(k) && #[trigger] s[k] < t[k]
    ||| (s.len() < t.len() && t.take(s.len() as int) == s)
}

/// Ten to the power `k`.
pub open spec fn pow10(k: nat) -> nat
    decreases k,
{
    if k == 0 {
        1
    } else {
        10 * pow10((k - 1) as nat)
    }
}

/// A number below `10^k` (`k >= 1`) has at most `k` decimal digits.
pub proof fn lemma_decimal_len_bound(n: nat, k: nat)
    requires
        k >= 1,
        n < pow10(k),
    ensures
        decimal(n).len() <= k,
    decreases k,
{
    if n >= 10 {
        if k == 1 {
            assert(pow10(1) == 10 * pow10(0));
        } else {
            assert(pow10(k) == 10 * pow10((k - 1) as nat));
            lemma_decimal_len_bound(n / 10, (k - 1) as nat);
        }
    }
}

/// Digit strings of one length with the same value are the same string.
pub proof fn lemma_digits_value_injective(a: Seq<char>, b: Seq<char>)
    requires
        a.len() == b.len(),
        all_digits(a),
        all_digits(b),
        digits_value(a) == digits_value(b),
    ensures
        a == b,
    decreases a.len(),
{
    if a.len() > 0 {
        lemma_digits_value_range(a.drop_last());
        lemma_digits_value_range(b.drop_last());
        assert('0' <= a[a.len() - 1] <= '9');
        assert('0' <= b[b.len() - 1] <= '9');
        assert(a.last() as int - 48 == b.last() as int - 48);
        lemma_digits_value_injective(a.drop_last(), b.drop_last());
        assert(a =~= a.drop_last().push(a.last()));
        assert(b =~= b.drop_last().push(b.last()));
    } else {
        assert(a =~= b);
    }
}

proof fn lemma_digits_value_range(s: Seq<char>)
    requires
        all_digits(s),
    ensures
        digits_value(s) >= 0,
    decreases s.len(),
{
    if s.len() > 0 {
        assert('0' <= s[s.len() - 1] <= '9');
        lemma_digits_value_range(s.drop_last());
    }
}

/// Of two digit strings of one length, the one with the smaller value comes first as text:
/// they agree up to some position, where the smaller one has the smaller digit.
pub proof fn lemma_digits_order(a: Seq<char>, b: Seq<char>)
    requires
        a.len() == b.len(),
        all_digits(a),
        all_digits(b),
        digits_value(a) < digits_value(b),
    ensures
        exists|k: int| 0 <= k < a.len() && a.take(k) == b.take(k) && #[trigger] a[k] < b[k],
    decreases a.len(),
{
    let a0 = a.drop_last();
    let b0 = b.drop_last();
    assert(a.len() > 0);
    assert('0' <= a[a.len() - 1] <= '9');
    assert('0' <= b[b.len() - 1] <= '9');
    lemma_digits_value_range(a0);
    lemma_digits_value_range(b0);
    if digits_value(a0) < digits_value(b0) {
        lemma_digits_order(a0, b0);
        let k = choose|k: int| 0 <= k < a0.len() && a0.take(k) == b0.take(k) && #[trigger] a0[k] < b0[k];
        assert(a.take(k) =~= a0.take(k));
        assert(b.take(k) =~= b0.take(k));
        assert(a[k] < b[k]);
    } else if digits_value(a0) == digits_value(b0) {
        lemma_digits_value_injective(a0, b0);
        let k = a.len() - 1;
        assert(a.take(k) =~= a0);
        assert(b.take(k) =~= b0);
        assert(a[k] < b[k]);
    } else {
        assert(false);
    }
}

fn digit_str(d: u64) -> (s: &'static str)
    requires
        d < 10,
    ensures
        s@ == seq![digit_char(d as nat)],
{
    proof {
        reveal_strlit("0");
        reveal_strlit("1");
        reveal_strlit("2");
        reveal_strlit("3");
        reveal_strlit("4");
        reveal_strlit("5");
        reveal_strlit("6");
        reveal_strlit("7");
        reveal_strlit("8");
        reveal_strlit("9");
    }
    match d {
        0 => "0",
        1 => "1",
        2 => "2",
        3 => "3",
        4 => "4",
        5 => "5",
        6 => "6",
        7 => "7",
        8 => "8",
        _ => "9",
    }
}

/// Number of characters in the decimal representation of `n`.
pub fn decimal_len(n: u64) -> (len: u64)
    ensures
        len == decimal(n as nat).len(),
        1 <= len <= n as int + 1,
    decreases n,
{
    if n < 10 {
        1
    } else {
        let l = decimal_len(n / 10);
        l + 1
    }
}

/// Appends the decimal representation of `n` to `s`.
pub fn push_decimal(s: &mut String, n: u64)
    ensures
        final(s)@ == old(s)@ + decimal(n as nat),
    decreases n,
{
    if n >= 10 {
        push_decimal(s, n / 10);
    }
    s.append(digit_str(n % 10));
    proof {
        if n >= 10 {
            assert(old(s)@ + decimal((n / 10) as nat) + seq![digit_char((n % 10) as nat)] =~= old(s)@ + decimal(
                n as nat,
            ));
        } else {
            assert(decimal(n as nat) == seq![digit_char((n % 10) as nat)]);
        }
    }
}

/// Appends `n` in decimal, left-padded with zeros to at least `width` characters.
pub fn push_zero_padded(s: &mut String, n: u64, width: u64)
    ensures
        final(s)@ == old(s)@ + zero_padded(n as nat, width as nat),
{
    let len = decimal_len(n);
    let ghost start = s@;
    if len < width {
        let pad = width - len;
        let mut k: u64 = 0;
        while k < pad
            invariant
                k <= pad,
                s@ == start + Seq::new(k as nat, |i: int| '0'),
            decreases pad - k,
        {
            proof {
                reveal_strlit("0");
            }
            s.append("0");
            assert(start + Seq::new(k as nat, |i: int| '0') + "0"@ =~= start + Seq::new(
                (k + 1) as nat,
                |i: int| '0',
            ));
            k = k + 1;
        }
        push_decimal(s, n);
        assert(start + Seq::new(pad as nat, |i: int| '0') + decimal(n as nat) =~= start
            + zero_padded(n as nat, width as nat));
    } else {
        push_decimal(s, n);
    }
}

/// Appends the decimal representation of the signed integer `i` to `s`.
pub fn push_signed(s: &mut String, i: i64)
    ensures
        final(s)@ == old(s)@ + signed_decimal(i as int),
{
    if i < 0 {
        proof {
            reveal_strlit("-");
        }
        s.append("-");
        let m: u64 = (0i128 - (i as i128)) as u64;
        push_decimal(s, m);
        assert(old(s)@ + "-"@ + decimal(m as nat) =~= old(s)@ + signed_decimal(i as int));
    } else {
        push_decimal(s, i as u64);
    }
}

pub proof fn lemma_decimal_no_leading_zero(n: nat)
    requires
        n > 0,
    ensures
        decimal(n)[0] != '0',
    decreases n,
{
    lemma_digit_char(n % 10);
    if n >= 10 {
        lemma_decimal_no_leading_zero(n / 10);
        lemma_decimal_digits(n / 10);
        assert(decimal(n)[0] == decimal(n / 10)[0]);
    } else {
        assert(decimal(n)[0] == digit_char(n));
    }
}

/// The text of a signed integer is its ordinary decimal writing: for `i >= 0` only digits,
/// with no leading zero (unless `i` is 0), whose value is `i`; for `i < 0` a `-` followed by
/// such digits for `-i`. No digit group is dropped or shortened.
pub proof fn law_signed_decimal_is_decimal_text(i: int)
    ensures
        ({
            let t = signed_decimal(i);
            let digits = if i < 0 {
                t.skip(1)
            } else {
                t
            };
            &&& i < 0 ==> t.len() >= 2 && t[0] == '-'
            &&& digits.len() >= 1
            &&& all_digits(digits)
            &&& digits_value(digits) == if i < 0 {
                -i
            } else {
                i
            }
            &&& (digits[0] == '0' ==> digits.len() == 1 && i == 0)
        }),
{
    let m: nat = if i < 0 {
        (-i) as nat
    } else {
        i as nat
    };
    lemma_decimal_digits(m);
    if m > 0 {
        lemma_decimal_no_leading_zero(m);
    } else {
        assert(decimal(0) == seq![digit_char(0)]);
    }
    if i < 0 {
        assert(signed_decimal(i).skip(1) =~= decimal(m));
    }
}

} // verus!
