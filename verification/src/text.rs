//! Numbers as text: decimal, and hexadecimal with its prefix.

use vstd::prelude::*;
use vstd::string::StringExecFns;

verus! {

/// The character of digit `d`, up to fifteen.
pub open spec fn digit_char(d: nat) -> char {
    if d == 0 {
        '0'
    } else if d == 1 {
        '1'
    } else if d == 2 {
        '2'
    } else if d == 3 {
        '3'
    } else if d == 4 {
        '4'
    } else if d == 5 {
        '5'
    } else if d == 6 {
        '6'
    } else if d == 7 {
        '7'
    } else if d == 8 {
        '8'
    } else if d == 9 {
        '9'
    } else if d == 10 {
        'a'
    } else if d == 11 {
        'b'
    } else if d == 12 {
        'c'
    } else if d == 13 {
        'd'
    } else if d == 14 {
        'e'
    } else {
        'f'
    }
}

/// `n` in base `base`, most significant digit first, without leading zeros.
pub open spec fn digits(n: nat, base: nat) -> Seq<char>
    decreases n,
{
    if n < base || base < 2 {
        seq![digit_char(n)]
    } else {
        proof {
            assert(n / base < n) by (nonlinear_arith)
                requires
                    2 <= base <= n,
            ;
        }
        digits(n / base, base).push(digit_char(n % base))
    }
}

/// `n` in decimal.
pub open spec fn decimal(n: nat) -> Seq<char> {
    digits(n, 10)
}

/// `n` in lower-case hexadecimal, with the prefix `0x`.
pub open spec fn hexadecimal(n: nat) -> Seq<char> {
    seq!['0', 'x'] + digits(n, 16)
}

fn digit(d: u64) -> (r: &'static str)
    requires
        d < 16,
    ensures
        r@ == seq![digit_char(d as nat)],
{
    proof {
        reveal_strlit("0");
        reveal_strlit("1");
        reveal_strlit("2");
        reveal_strlit("3");
        reveal_strlit("4");
        reveal_strlit("5");
        reveal_strlit("6");
        reveal_strlit("7");
        reveal_strlit("8");
        reveal_strlit("9");
        reveal_strlit("a");
        reveal_strlit("b");
        reveal_strlit("c");
        reveal_strlit("d");
        reveal_strlit("e");
        reveal_strlit("f");
    }
    let r: &'static str = match d {
        0 => "0",
        1 => "1",
        2 => "2",
        3 => "3",
        4 => "4",
        5 => "5",
        6 => "6",
        7 => "7",
        8 => "8",
        9 => "9",
        10 => "a",
        11 => "b",
        12 => "c",
        13 => "d",
        14 => "e",
        _ => "f",
    };
    assert(r@ =~= seq![digit_char(d as nat)]);
    r
}

fn push_digits(s: &mut String, n: u64, base: u64)
    requires
        2 <= base <= 16,
    ensures
        final(s)@ == old(s)@ + digits(n as nat, base as nat),
    decreases n,
{
    if n < base {
        s.append(digit(n));
    } else {
        proof {
            assert(n / base < n) by (nonlinear_arith)
                requires
                    2 <= base <= n,
            ;
            vstd::arithmetic::div_mod::lemma_mod_bound(n as int, base as int);
        }
        push_digits(s, n / base, base);
        s.append(digit(n % base));
        assert(s@ =~= old(s)@ + digits(n as nat, base as nat));
    }
}

/// Append `n` in decimal.
pub fn push_decimal(s: &mut String, n: u64)
    ensures
        final(s)@ == old(s)@ + decimal(n as nat),
{
    push_digits(s, n, 10);
}

/// Append `n` in hexadecimal, with its prefix.
pub fn push_hexadecimal(s: &mut String, n: u64)
    ensures
        final(s)@ == old(s)@ + hexadecimal(n as nat),
{
    proof {
        reveal_strlit("0x");
    }
    s.append("0x");
    push_digits(s, n, 16);
    assert("0x"@ =~= seq!['0', 'x']);
    assert(s@ =~= old(s)@ + hexadecimal(n as nat));
}

/// `String::push` of the standard library. Claimed of it: the character is appended, and nothing
/// else changes.
pub assume_specification[ String::push ](s: &mut String, c: char)
    ensures
        final(s)@ == old(s)@.push(c),
;

/// An ASCII letter or digit.
pub open spec fn is_alphanumeric(c: char) -> bool {
    ('0' <= c <= '9') || ('A' <= c <= 'Z') || ('a' <= c <= 'z')
}

/// `label` with an underscore in place of every character that is not an ASCII letter or digit.
pub open spec fn key_text(label: Seq<char>) -> Seq<char> {
    label.map_values(
        |c: char|
            if is_alphanumeric(c) {
                c
            } else {
                '_'
            },
    )
}

/// A label as a key that needs no quoting in a table.
pub fn csv_key(label: &str) -> (r: String)
    ensures
        r@ == key_text(label@),
{
    let mut s = String::new();
    for c in it: label.chars()
        invariant
            s@ =~= key_text(it.seq().take(it.index() as int)),
            it.seq() == label@,
    {
        let plain: bool = ('0' <= c && c <= '9') || ('A' <= c && c <= 'Z') || ('a' <= c && c <= 'z');
        if plain {
            s.push(c);
        } else {
            s.push('_');
        }
    }
    s
}


/// The digit that a character stands for.
pub open spec fn digit_of(c: char) -> nat {
    if '0' <= c <= '9' {
        (c as u32 - 0x30) as nat
    } else {
        (c as u32 - 0x61 + 10) as nat
    }
}

/// The number that a text of digits in base `base` writes, most significant digit first.
pub open spec fn written(s: Seq<char>, base: nat) -> nat
    decreases s.len(),
{
    if s.len() == 0 {
        0
    } else {
        base * written(s.drop_last(), base) + digit_of(s.last())
    }
}

/// The digits of a number write that number, in lower case, and do not begin with a zero unless the
/// number is zero, which is one digit.
pub proof fn law_digits_write_the_number(n: nat, base: nat)
    requires
        2 <= base <= 16,
    ensures
        written(digits(n, base), base) == n,
        digits(n, base).len() > 0,
        forall|i: int|
            0 <= i < digits(n, base).len() ==> {
                let c = #[trigger] digits(n, base)[i];
                ('0' <= c <= '9' || 'a' <= c <= 'f') && digit_of(c) < base
            },
        digits(n, base)[0] == '0' <==> n == 0,
        n == 0 ==> digits(n, base).len() == 1,
    decreases n,
{
    reveal_with_fuel(written, 2);
    let s = digits(n, base);
    if n < base {
        assert(s.drop_last() =~= Seq::<char>::empty());
        assert(s.last() == s[0]);
    } else {
        assert(0 < n / base < n) by (nonlinear_arith)
            requires
                2 <= base <= n,
        ;
        vstd::arithmetic::div_mod::lemma_mod_bound(n as int, base as int);
        vstd::arithmetic::div_mod::lemma_fundamental_div_mod(n as int, base as int);
        let some = digits(n / base, base);
        law_digits_write_the_number(n / base, base);
        assert(s.drop_last() =~= some);
        assert forall|i: int| 0 <= i < s.len() implies {
            let c = #[trigger] s[i];
            ('0' <= c <= '9' || 'a' <= c <= 'f') && digit_of(c) < base
        } by {
            if i < some.len() {
                assert(s[i] == some[i]);
            }
        }
        assert(s[0] == some[0]);
    }
}

/// The characters of the digits: `0` to `9`, and `a` to `f` behind them.
pub proof fn law_digit_characters(n: nat, base: nat)
    requires
        2 <= base <= 16,
    ensures
        n < base ==> digits(n, base).len() == 1,
        n >= base ==> digits(n, base).drop_last() == digits(n / base, base),
        digits(n, base).last() as u32 == (n as int % base as int) + if n as int % base as int <= 9 {
            48int
        } else {
            87
        },
{
    vstd::arithmetic::div_mod::lemma_mod_bound(n as int, base as int);
    if n < base {
        vstd::arithmetic::div_mod::lemma_small_mod(n, base);
    } else {
        assert(digits(n, base).drop_last() =~= digits(n / base, base));
    }
}

/// A hexadecimal number is its digits in base sixteen behind `0x`.
pub proof fn law_hexadecimal_is_prefixed(n: nat)
    ensures
        hexadecimal(n).len() > 2,
        hexadecimal(n)[0] == '0',
        hexadecimal(n)[1] == 'x',
        written(hexadecimal(n).skip(2), 16) == n,
        hexadecimal(n)[2] == '0' <==> n == 0,
        n == 0 ==> hexadecimal(n).len() == 3,
        forall|i: int|
            2 <= i < hexadecimal(n).len() ==> ('0' <= #[trigger] hexadecimal(n)[i] <= '9' || 'a'
                <= hexadecimal(n)[i] <= 'f'),
{
    law_digits_write_the_number(n, 16);
    assert(hexadecimal(n).skip(2) =~= digits(n, 16));
}

/// A key keeps its length, and every ASCII letter and digit; whatever else there was is an
/// underscore.
pub proof fn law_keys_need_no_quoting(label: Seq<char>)
    ensures
        key_text(label).len() == label.len(),
        forall|i: int|
            0 <= i < label.len() ==> {
                let c = label[i];
                let plain = '0' <= c <= '9' || 'A' <= c <= 'Z' || 'a' <= c <= 'z';
                #[trigger] key_text(label)[i] == if plain {
                    label[i]
                } else {
                    '_'
                }
            },
{
}


/// A decimal number is its digits in base ten, and begins with a zero only if it is zero.
pub proof fn law_decimal_writes_the_number(n: nat)
    ensures
        written(decimal(n), 10) == n,
        decimal(n).len() > 0,
        forall|i: int| 0 <= i < decimal(n).len() ==> '0' <= #[trigger] decimal(n)[i] <= '9',
        decimal(n)[0] == '0' <==> n == 0,
        n == 0 ==> decimal(n).len() == 1,
{
    law_digits_write_the_number(n, 10);
    assert forall|i: int| 0 <= i < decimal(n).len() implies '0' <= #[trigger] decimal(n)[i] <= '9' by {
        assert(digit_of(digits(n, 10)[i]) < 10);
    }
}

} // verus!
