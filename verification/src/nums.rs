//! Decimal numerals: the mathematical model of base-10 strings, a verified
//! renderer, and a verified parser.
//!
//! Slot names on disk embed ordinals and version indices in decimal, and the
//! reference resolver decides whether a user token is a position by asking
//! whether it is a decimal numeral.  Both directions are defined against the
//! same spec functions here.

use vstd::prelude::*;

verus! {

/// Is `c` one of the ten decimal digit characters?
pub open spec fn is_digit(c: char) -> bool {
    48 <= c as u32 <= 57
}

/// The numeric value of a digit character.
pub open spec fn digit_val(c: char) -> nat {
    (c as u32 - 48) as nat
}

/// The digit character for a value below ten.
pub open spec fn digit_char(d: nat) -> char {
    if d == 0 { '0' }
    else if d == 1 { '1' }
    else if d == 2 { '2' }
    else if d == 3 { '3' }
    else if d == 4 { '4' }
    else if d == 5 { '5' }
    else if d == 6 { '6' }
    else if d == 7 { '7' }
    else if d == 8 { '8' }
    else { '9' }
}

/// The decimal numeral of `n`, most significant digit first, no leading
/// zeros (except for `n == 0`, whose numeral is `"0"`).
pub open spec fn dec_digits(n: nat) -> Seq<char>
    decreases n,
{
    if n < 10 {
        seq![digit_char(n)]
    } else {
        dec_digits(n / 10).push(digit_char(n % 10))
    }
}

/// Is `s` a decimal numeral: nonempty and all digits?  Leading zeros are
/// allowed, as they are when parsing.
pub open spec fn is_dec_seq(s: Seq<char>) -> bool {
    s.len() > 0 && forall|i: int| 0 <= i < s.len() ==> is_digit(#[trigger] s[i])
}

/// The value of a digit string, read most significant digit first.
pub open spec fn dec_val(s: Seq<char>) -> nat
    decreases s.len(),
{
    if s.len() == 0 {
        0
    } else {
        dec_val(s.drop_last()) * 10 + digit_val(s.last())
    }
}

/// The numeral of `n` is a digit string whose value is `n`.
pub proof fn lemma_dec_digits_ok(n: nat)
    ensures
        is_dec_seq(dec_digits(n)),
        dec_val(dec_digits(n)) == n,
    decreases n,
{
    assert(forall|d: nat| d < 10 ==> digit_val(#[trigger] digit_char(d)) == d);
    if n < 10 {
        let s = dec_digits(n);
        assert(s =~= seq![digit_char(n)]);
        assert(s.last() == digit_char(n));
        assert(s.drop_last() =~= Seq::<char>::empty());
        assert(dec_val(s.drop_last()) == 0);
        assert(dec_val(s) == dec_val(s.drop_last()) * 10 + digit_val(s.last()));
    } else {
        lemma_dec_digits_ok(n / 10);
        let s = dec_digits(n);
        assert(s.drop_last() =~= dec_digits(n / 10));
        assert(s.last() == digit_char(n % 10));
        assert(dec_val(s) == (n / 10) * 10 + (n % 10));
        assert((n / 10) * 10 + (n % 10) == n) by (nonlinear_arith);
        assert(forall|i: int| 0 <= i < s.len() ==> is_digit(#[trigger] s[i])) by {
            assert(forall|i: int| 0 <= i < s.len() - 1 ==> s[i] == dec_digits(n / 10)[i]);
        }
    }
}

/// Appending digits never shrinks the value.
pub proof fn lemma_dec_val_prefix_le(s: Seq<char>, i: int)
    requires
        0 <= i <= s.len(),
    ensures
        dec_val(s.take(i)) <= dec_val(s),
    decreases s.len() - i,
{
    if i < s.len() {
        lemma_dec_val_prefix_le(s, i + 1);
        assert(s.take(i + 1).drop_last() =~= s.take(i));
        assert(dec_val(s.take(i + 1)) == dec_val(s.take(i)) * 10 + digit_val(s.take(i + 1).last()));
        assert(dec_val(s.take(i)) <= dec_val(s.take(i)) * 10) by (nonlinear_arith);
    } else {
        assert(s.take(i) =~= s);
    }
}

/// The outcome of reading a token as a decimal numeral.
#[derive(PartialEq, Eq, Structural, Clone, Copy, Debug)]
pub enum Parsed {
    /// The token is not a digit string.
    NotNumeric,
    /// The token is a digit string whose value exceeds `usize::MAX`.
    Overflow,
    /// The token is a digit string with this value.
    Value(usize),
}

/// Reads `s` as a decimal numeral.
pub fn parse_dec(s: &str) -> (r: Parsed)
    ensures
        r == Parsed::NotNumeric <==> !is_dec_seq(s@),
        r matches Parsed::Value(v) ==> is_dec_seq(s@) && v == dec_val(s@),
        r == Parsed::Overflow <==> is_dec_seq(s@) && dec_val(s@) > usize::MAX,
{
    let n = s.unicode_len();
    if n == 0 {
        return Parsed::NotNumeric;
    }
    let mut acc: usize = 0;
    let mut over: bool = false;
    let mut i: usize = 0;
    while i < n
        invariant
            0 <= i <= n,
            n == s@.len(),
            forall|j: int| 0 <= j < i ==> is_digit(#[trigger] s@[j]),
            over <==> dec_val(s@.take(i as int)) > usize::MAX,
            !over ==> acc == dec_val(s@.take(i as int)),
        decreases n - i,
    {
        let c = s.get_char(i);
        let u = c as u32;
        if u < 48 || u > 57 {
            return Parsed::NotNumeric;
        }
        let d = (u - 48) as usize;
        proof {
            let t = s@.take(i as int);
            assert(dec_val(s@.take(i + 1)) == dec_val(t) * 10 + d) by {
                assert(s@.take(i + 1).drop_last() =~= t);
            }
            if dec_val(t) > usize::MAX {
                assert(dec_val(t) * 10 + d > usize::MAX) by (nonlinear_arith)
                    requires dec_val(t) > usize::MAX;
            }
        }
        if !over {
            if acc > (usize::MAX - d) / 10 {
                proof {
                    assert(acc * 10 + d > usize::MAX) by (nonlinear_arith)
                        requires acc > (usize::MAX - d) / 10 && d < 10;
                }
                over = true;
            } else {
                proof {
                    assert(acc * 10 + d <= usize::MAX) by (nonlinear_arith)
                        requires acc <= (usize::MAX - d) / 10 && d < 10;
                }
                acc = acc * 10 + d;
            }
        }
        i = i + 1;
    }
    proof {
        assert(s@.take(n as int) =~= s@);
    }
    if over {
        Parsed::Overflow
    } else {
        Parsed::Value(acc)
    }
}

/// A digit below ten as a one-character string.
fn digit_str(d: usize) -> (r: &'static str)
    requires
        d < 10,
    ensures
        r@ == seq![digit_char(d as nat)],
{
    proof {
        reveal_strlit("0");
        reveal_strlit("1");
        reveal_strlit("2");
        reveal_strlit("3");
        reveal_strlit("4");
        reveal_strlit("5");
        reveal_strlit("6");
        reveal_strlit("7");
        reveal_strlit("8");
        reveal_strlit("9");
    }
    let r = match d {
        0 => "0",
        1 => "1",
        2 => "2",
        3 => "3",
        4 => "4",
        5 => "5",
        6 => "6",
        7 => "7",
        8 => "8",
        _ => "9",
    };
    proof {
        assert(r@ =~= seq![digit_char(d as nat)]);
    }
    r
}

/// Renders `n` as its decimal numeral.
pub fn usize_to_string(n: usize) -> (r: String)
    ensures
        r@ == dec_digits(n as nat),
    decreases n,
{
    if n < 10 {
        digit_str(n).to_owned()
    } else {
        let mut r = usize_to_string(n / 10);
        r.append(digit_str(n % 10));
        proof {
            assert(dec_digits((n / 10) as nat) + seq![digit_char((n % 10) as nat)]
                =~= dec_digits(n as nat));
        }
        r
    }
}

} // verus!
