//! Numbers and lists written out as text.

use vstd::arithmetic::div_mod::lemma_div_denominator;
use vstd::arithmetic::power::{lemma_pow0, lemma_pow_positive, pow};
use vstd::prelude::*;
use vstd::string::*;

verus! {

/// The character for one decimal digit.
pub open spec fn digit(d: nat) -> char {
    (48 + d) as char
}

/// A number in decimal, without leading zeros.
pub open spec fn decimal(n: nat) -> Seq<char>
    decreases n,
{
    if n < 10 {
        seq![digit(n)]
    } else {
        decimal(n / 10).push(digit(n % 10))
    }
}

/// A signed number in decimal.
pub open spec fn signed_decimal(n: int) -> Seq<char> {
    if n < 0 {
        "-"@ + decimal((-n) as nat)
    } else {
        decimal(n as nat)
    }
}

/// A number in decimal, with zeros in front up to `width` characters.
pub open spec fn padded(n: nat, width: nat) -> Seq<char> {
    let digits = decimal(n);
    let zeros = if digits.len() < width {
        (width - digits.len()) as nat
    } else {
        0
    };
    Seq::new(zeros, |i: int| '0') + digits
}

/// The texts of `parts` in order, with `sep` between neighbours.
pub open spec fn joined_text(parts: Seq<Seq<char>>, sep: Seq<char>) -> Seq<char>
    decreases parts.len(),
{
    if parts.len() == 0 {
        seq![]
    } else if parts.len() == 1 {
        parts[0]
    } else {
        joined_text(parts.drop_last(), sep) + sep + parts.last()
    }
}

/// The number that a run of digits stands for.
pub open spec fn numeral(s: Seq<char>) -> nat
    decreases s.len(),
{
    if s.len() == 0 {
        0
    } else {
        (10 * numeral(s.drop_last()) + (s.last() as int - 48)) as nat
    }
}

proof fn lemma_numeral_decimal(n: nat)
    ensures
        numeral(decimal(n)) == n,
        decimal(n).len() > 0,
    decreases n,
{
    reveal_with_fuel(numeral, 2);
    if n < 10 {
        assert(decimal(n).drop_last() =~= seq![]);
    } else {
        lemma_numeral_decimal(n / 10);
        assert(decimal(n).drop_last() =~= decimal(n / 10));
        assert(decimal(n).last() == digit(n % 10));
    }
}

proof fn lemma_numeral_zeros(k: nat, s: Seq<char>)
    ensures
        numeral(Seq::new(k, |i: int| '0') + s) == numeral(s),
    decreases k + s.len(),
{
    let t = Seq::new(k, |i: int| '0') + s;
    if s.len() > 0 {
        assert(t.drop_last() =~= Seq::new(k, |i: int| '0') + s.drop_last());
        lemma_numeral_zeros(k, s.drop_last());
    } else if k > 0 {
        assert(t.drop_last() =~= Seq::new((k - 1) as nat, |i: int| '0') + s);
        lemma_numeral_zeros((k - 1) as nat, s);
        assert(t.last() == '0');
    } else {
        assert(t =~= s);
    }
}

/// Padding does not change the number that a decimal stands for.
pub proof fn lemma_numeral_padded(n: nat, width: nat)
    ensures
        numeral(padded(n, width)) == n,
{
    lemma_numeral_decimal(n);
    let digits = decimal(n);
    let zeros = if digits.len() < width {
        (width - digits.len()) as nat
    } else {
        0
    };
    lemma_numeral_zeros(zeros, digits);
}

/// Distinct numbers are written differently, whatever the width.
pub proof fn padded_is_injective(m: nat, n: nat, width: nat)
    ensures
        padded(m, width) == padded(n, width) <==> m == n,
{
    lemma_numeral_padded(m, width);
    lemma_numeral_padded(n, width);
}

/// A decimal has just the digits it needs: the one for ten to the power `k` stands `k` places
/// before the last, and there is no place for a power of ten that the number does not reach.
pub proof fn decimals_are_positional(n: nat, k: nat)
    ensures
        k < decimal(n).len() <==> k == 0 || pow(10, k) <= n,
        k < decimal(n).len() ==> decimal(n)[decimal(n).len() - 1 - k] == (48 + (n as int / pow(
            10,
            k,
        )) % 10) as char,
    decreases n,
{
    reveal_with_fuel(decimal, 2);
    lemma_pow0(10);
    if k == 0 {
        assert(n as int / 1 == n) by (nonlinear_arith);
    } else {
        let j = (k - 1) as nat;
        lemma_pow_positive(10, j);
        assert(pow(10, k) == 10 * pow(10, j)) by {
            reveal(pow);
        }
        let p = pow(10, j);
        if n < 10 {
            assert(10 * p >= 10) by (nonlinear_arith)
                requires
                    p >= 1,
            ;
        } else {
            decimals_are_positional(n / 10, j);
            lemma_div_denominator(n as int, 10, p);
            assert(p <= n as int / 10 <==> 10 * p <= n) by (nonlinear_arith);
            let head = decimal(n / 10);
            if j == 0 {
                assert(p == 1);
            }
            if k < decimal(n).len() {
                assert(decimal(n)[decimal(n).len() - 1 - k] == head[head.len() - 1 - j]);
            }
        }
    }
}

/// A number below zero is written with a minus before its magnitude, and no other number is.
pub proof fn only_negative_numbers_have_a_sign(n: nat)
    ensures
        n > 0 ==> signed_decimal(-n) == seq!['-'] + decimal(n),
        signed_decimal(n as int) == decimal(n),
{
    reveal_strlit("-");
    assert("-"@ =~= seq!['-']);
}

/// Padding puts zeros before a decimal that is too short, and leaves the others as they are.
pub proof fn padding_fills_up_with_zeros(n: nat, width: nat)
    ensures
        decimal(n).len() >= width ==> padded(n, width) == decimal(n),
        decimal(n).len() < width ==> {
            &&& padded(n, width).len() == width
            &&& padded(n, width).skip(width - decimal(n).len()) == decimal(n)
            &&& forall|i: int|
                0 <= i < width - decimal(n).len() ==> #[trigger] padded(n, width)[i] == '0'
        },
{
    if decimal(n).len() >= width {
        assert(padded(n, width) =~= decimal(n));
    } else {
        assert(padded(n, width).skip(width - decimal(n).len()) =~= decimal(n));
    }
}

/// Two lists joined, with the separator between, are the joined list of both; a single part stays
/// as it is, and no part gives no text.
pub proof fn joining_keeps_every_part(
    first: Seq<Seq<char>>,
    second: Seq<Seq<char>>,
    part: Seq<char>,
    sep: Seq<char>,
)
    ensures
        first.len() > 0 && second.len() > 0 ==> joined_text(first + second, sep) == joined_text(
            first,
            sep,
        ) + sep + joined_text(second, sep),
        joined_text(seq![part], sep) == part,
        joined_text(seq![], sep) == Seq::<char>::empty(),
    decreases second.len(),
{
    if first.len() > 0 && second.len() > 0 {
        let rest = second.drop_last();
        assert((first + second).drop_last() =~= first + rest);
        assert((first + second).last() == second.last());
        if rest.len() == 0 {
            assert(first + rest =~= first);
            assert(second =~= seq![second.last()]);
            assert(joined_text(second, sep) == second.last());
        } else {
            joining_keeps_every_part(first, rest, part, sep);
            assert(joined_text(first + second, sep) =~= joined_text(first, sep) + sep + joined_text(
                second,
                sep,
            ));
        }
    }
}

fn push_digit(out: &mut String, d: u64)
    requires
        d < 10,
    ensures
        final(out)@ == old(out)@.push(digit(d as nat)),
{
    let text = match d {
        0 => "0",
        1 => "1",
        2 => "2",
        3 => "3",
        4 => "4",
        5 => "5",
        6 => "6",
        7 => "7",
        8 => "8",
        _ => "9",
    };
    proof {
        reveal_strlit("0");
        reveal_strlit("1");
        reveal_strlit("2");
        reveal_strlit("3");
        reveal_strlit("4");
        reveal_strlit("5");
        reveal_strlit("6");
        reveal_strlit("7");
        reveal_strlit("8");
        reveal_strlit("9");
        assert(text@ =~= seq![digit(d as nat)]);
    }
    out.append(text);
}

/// Appends a number in decimal.
pub fn push_decimal(out: &mut String, n: u64)
    ensures
        final(out)@ == old(out)@ + decimal(n as nat),
    decreases n,
{
    if n >= 10 {
        push_decimal(out, n / 10);
    }
    push_digit(out, n % 10);
}

/// Appends a signed number in decimal.
pub fn push_signed(out: &mut String, n: i32)
    ensures
        final(out)@ == old(out)@ + signed_decimal(n as int),
{
    if n < 0 {
        out.append("-");
        let magnitude: u64 = (-(n as i64)) as u64;
        push_decimal(out, magnitude);
    } else {
        push_decimal(out, n as u64);
    }
}

/// Appends a number in decimal, with zeros in front up to `width` characters.
pub fn push_padded(out: &mut String, n: u64, width: usize)
    ensures
        final(out)@ == old(out)@ + padded(n as nat, width as nat),
{
    let mut digits = String::new();
    push_decimal(&mut digits, n);
    let mut count: usize = digits.as_str().unicode_len();
    let ghost first = count as nat;
    proof {
        reveal_strlit("0");
    }
    while count < width
        invariant
            "0"@ == seq!['0'],
            first <= count,
            first < count ==> count <= width,
            out@ == old(out)@ + Seq::new((count - first) as nat, |i: int| '0'),
        decreases width - count,
    {
        out.append("0");
        count = count + 1;
    }
    out.append(digits.as_str());
}

/// Joins the texts of `parts`, with `sep` between neighbours.
pub fn join(parts: &Vec<String>, sep: &str) -> (text: String)
    ensures
        text@ == joined_text(parts@.map_values(|s: String| s@), sep@),
{
    let mut text = String::new();
    let ghost all = parts@.map_values(|s: String| s@);
    for i in 0..parts.len()
        invariant
            all == parts@.map_values(|s: String| s@),
            text@ == joined_text(all.take(i as int), sep@),
    {
        proof {
            assert(all.take(i + 1).drop_last() =~= all.take(i as int));
        }
        if i > 0 {
            text.append(sep);
        }
        text.append(parts[i].as_str());
    }
    proof {
        assert(all.take(parts@.len() as int) =~= all);
    }
    text
}

} // verus!
