//! Numbers as text.

use vstd::prelude::*;

verus! {

/// The digit for a value below 16, letters in lower case.
pub open spec fn digit(d: int) -> char {
    if d < 10 {
        ('0' as int + d) as char
    } else {
        ('a' as int + d - 10) as char
    }
}

/// A number in decimal, without leading zeros.
pub open spec fn dec(n: nat) -> Seq<char>
    decreases n,
{
    if n < 10 {
        seq![digit(n as int)]
    } else {
        dec(n / 10).push(digit(n as int % 10))
    }
}

/// A number in hexadecimal, without leading zeros.
pub open spec fn hex(n: nat) -> Seq<char>
    decreases n,
{
    if n < 16 {
        seq![digit(n as int)]
    } else {
        hex(n / 16).push(digit(n as int % 16))
    }
}

/// `text` with as many `fill` in front as make it `width` wide, or as it is where it is wider.
pub open spec fn padded(text: Seq<char>, fill: char, width: nat) -> Seq<char> {
    if text.len() < width {
        Seq::new((width - text.len()) as nat, |i: int| fill) + text
    } else {
        text
    }
}

/// The value of a digit, in either case, or `None` for another character.
pub open spec fn digit_value(c: char) -> Option<int> {
    if '0' <= c <= '9' {
        Some(c as int - '0' as int)
    } else if 'a' <= c <= 'f' {
        Some(c as int - 'a' as int + 10)
    } else if 'A' <= c <= 'F' {
        Some(c as int - 'A' as int + 10)
    } else {
        None
    }
}

/// The number that hexadecimal digits stand for.
pub open spec fn hex_value(text: Seq<char>) -> int
    decreases text.len(),
{
    if text.len() == 0 {
        0
    } else {
        hex_value(text.drop_last()) * 16 + digit_value(text.last()).unwrap()
    }
}

/// Whether every character is a hexadecimal digit.
pub open spec fn all_hex(text: Seq<char>) -> bool {
    forall|i: int| 0 <= i < text.len() ==> digit_value(#[trigger] text[i]) is Some
}

/// The digit for a value below 16, as text.
fn digit_text(d: u8) -> (text: &'static str)
    requires
        d < 16,
    ensures
        text@ == seq![digit(d as int)],
{
    proof {
        reveal_strlit("0");
        reveal_strlit("1");
        reveal_strlit("2");
        reveal_strlit("3");
        reveal_strlit("4");
        reveal_strlit("5");
        reveal_strlit("6");
        reveal_strlit("7");
        reveal_strlit("8");
        reveal_strlit("9");
        reveal_strlit("a");
        reveal_strlit("b");
        reveal_strlit("c");
        reveal_strlit("d");
        reveal_strlit("e");
        reveal_strlit("f");
    }
    let text = match d {
        0 => "0",
        1 => "1",
        2 => "2",
        3 => "3",
        4 => "4",
        5 => "5",
        6 => "6",
        7 => "7",
        8 => "8",
        9 => "9",
        10 => "a",
        11 => "b",
        12 => "c",
        13 => "d",
        14 => "e",
        _ => "f",
    };
    assert(text@ =~= seq![digit(d as int)]);
    text
}

/// Appends a number in decimal.
pub fn append_dec(out: &mut String, n: u64)
    ensures
        final(out)@ == old(out)@ + dec(n as nat),
    decreases n,
{
    if n >= 10 {
        append_dec(out, n / 10);
    }
    out.append(digit_text((n % 10) as u8));
    assert(out@ =~= old(out)@ + dec(n as nat));
}

/// Appends a number in hexadecimal.
pub fn append_hex(out: &mut String, n: u128)
    ensures
        final(out)@ == old(out)@ + hex(n as nat),
    decreases n,
{
    if n >= 16 {
        append_hex(out, n / 16);
    }
    out.append(digit_text((n % 16) as u8));
    assert(out@ =~= old(out)@ + hex(n as nat));
}

/// How many digits a number has in hexadecimal.
pub fn hex_len(n: u128) -> (len: usize)
    ensures
        len == hex(n as nat).len(),
        1 <= len <= 32,
{
    let mut len: usize = 1;
    let mut rest: u128 = n;
    proof {
        lemma_hex_fits(n);
    }
    while rest >= 16
        invariant
            hex(n as nat).len() == len - 1 + hex(rest as nat).len(),
            hex(n as nat).len() <= 32,
            1 <= len,
        decreases rest,
    {
        proof {
            lemma_hex_fits(rest / 16);
        }
        rest = rest / 16;
        len = len + 1;
    }
    len
}

/// Appends a number in hexadecimal, with as many `0` in front as make it `width` wide.
pub fn append_hex_zero_padded(out: &mut String, n: u128, width: usize)
    ensures
        final(out)@ == old(out)@ + padded(hex(n as nat), '0', width as nat),
{
    proof {
        reveal_strlit("0");
    }
    let len = hex_len(n);
    let mut i: usize = len;
    let ghost mut fill: Seq<char> = Seq::empty();
    while i < width
        invariant
            len <= i,
            i <= width || i == len,
            fill == Seq::new((i - len) as nat, |j: int| '0'),
            out@ == old(out)@ + fill,
            "0"@ == seq!['0'],
        decreases width - i,
    {
        out.append("0");
        proof {
            fill = fill.push('0');
            assert(fill =~= Seq::new((i + 1 - len) as nat, |j: int| '0'));
            assert(out@ =~= old(out)@ + fill);
        }
        i = i + 1;
    }
    append_hex(out, n);
    assert(out@ =~= old(out)@ + padded(hex(n as nat), '0', width as nat));
}

/// Appends a number in hexadecimal, with as many spaces in front as make it `width` wide.
pub fn append_hex_space_padded(out: &mut String, n: u128, width: usize)
    ensures
        final(out)@ == old(out)@ + padded(hex(n as nat), ' ', width as nat),
{
    proof {
        reveal_strlit(" ");
    }
    let len = hex_len(n);
    let mut i: usize = len;
    let ghost mut fill: Seq<char> = Seq::empty();
    while i < width
        invariant
            len <= i,
            i <= width || i == len,
            fill == Seq::new((i - len) as nat, |j: int| ' '),
            out@ == old(out)@ + fill,
            " "@ == seq![' '],
        decreases width - i,
    {
        out.append(" ");
        proof {
            fill = fill.push(' ');
            assert(fill =~= Seq::new((i + 1 - len) as nat, |j: int| ' '));
            assert(out@ =~= old(out)@ + fill);
        }
        i = i + 1;
    }
    append_hex(out, n);
    assert(out@ =~= old(out)@ + padded(hex(n as nat), ' ', width as nat));
}

/// `16` to the power of `k`.
pub open spec fn pow16(k: nat) -> nat
    decreases k,
{
    if k == 0 {
        1
    } else {
        16 * pow16((k - 1) as nat)
    }
}

/// A number below `16` to the power of `k` has at most `k` hexadecimal digits.
pub proof fn lemma_hex_bound(n: nat, k: nat)
    requires
        n < pow16(k),
        k > 0,
    ensures
        1 <= hex(n).len() <= k,
    decreases k,
{
    if n >= 16 {
        assert(k > 1) by {
            if k == 1 {
                assert(pow16(1) == 16 * pow16(0));
            }
        }
        lemma_hex_bound(n / 16, (k - 1) as nat);
    }
}

/// A number of 128 bits has at most 32 hexadecimal digits.
pub proof fn lemma_hex_fits(n: u128)
    ensures
        1 <= hex(n as nat).len() <= 32,
{
    lemma_pow16_32();
    lemma_hex_bound(n as nat, 32);
}

proof fn lemma_pow16_32()
    ensures
        pow16(31) == 0x1000_0000_0000_0000_0000_0000_0000_0000,
        pow16(32) == 0x1_0000_0000_0000_0000_0000_0000_0000_0000,
{
    reveal_with_fuel(pow16, 33);
}

/// Fewer than 32 hexadecimal digits, and one more, stand for a number of 128 bits.
pub proof fn lemma_pow16_bound(k: nat)
    requires
        k < 32,
    ensures
        pow16(k) * 16 <= 0x1_0000_0000_0000_0000_0000_0000_0000_0000,
        pow16(k + 1) == 16 * pow16(k),
    decreases 32 - k,
{
    lemma_pow16_32();
    if k < 31 {
        lemma_pow16_bound(k + 1);
        lemma_pow16_grows(k + 1);
    }
}

proof fn lemma_pow16_grows(k: nat)
    ensures
        pow16(k) > 0,
    decreases k,
{
    if k > 0 {
        lemma_pow16_grows((k - 1) as nat);
    }
}

/// Reading hexadecimal digits back gives the number that was written.
pub proof fn lemma_hex_value(n: nat)
    ensures
        hex_value(hex(n)) == n,
        all_hex(hex(n)),
        hex(n).len() >= 1,
    decreases n,
{
    lemma_digit_value(n as int % 16);
    if n < 16 {
        assert(hex(n).drop_last() =~= Seq::<char>::empty());
        assert(hex_value(Seq::<char>::empty()) == 0);
        assert(hex(n).last() == digit(n as int % 16));
    } else {
        lemma_hex_value(n / 16);
        assert(hex(n).drop_last() =~= hex(n / 16));
    }
}

proof fn lemma_digit_value(d: int)
    requires
        0 <= d < 16,
    ensures
        digit_value(digit(d)) == Some(d),
{
}

/// Different numbers read differently in hexadecimal.
pub proof fn lemma_hex_injective(a: nat, b: nat)
    requires
        hex(a) == hex(b),
    ensures
        a == b,
{
    lemma_hex_value(a);
    lemma_hex_value(b);
}

/// Leading zeros do not change the number that hexadecimal digits stand for.
pub proof fn lemma_padded_value(text: Seq<char>, width: nat)
    requires
        all_hex(text),
    ensures
        hex_value(padded(text, '0', width)) == hex_value(text),
        all_hex(padded(text, '0', width)),
{
    if text.len() < width {
        let fill = Seq::new((width - text.len()) as nat, |i: int| '0');
        lemma_zeros(fill, text);
        assert forall|i: int| 0 <= i < (fill + text).len() implies digit_value(
            #[trigger] (fill + text)[i],
        ) is Some by {
            if i >= fill.len() {
                assert((fill + text)[i] == text[i - fill.len()]);
            }
        }
    }
}

proof fn lemma_zeros(fill: Seq<char>, text: Seq<char>)
    requires
        forall|i: int| 0 <= i < fill.len() ==> #[trigger] fill[i] == '0',
    ensures
        hex_value(fill + text) == hex_value(text),
    decreases fill.len() + text.len(),
{
    if text.len() > 0 {
        assert((fill + text).drop_last() =~= fill + text.drop_last());
        lemma_zeros(fill, text.drop_last());
    } else if fill.len() > 0 {
        assert(fill + text =~= fill);
        assert(fill.drop_last() + text =~= fill.drop_last());
        lemma_zeros(fill.drop_last(), text);
    } else {
        assert(fill + text =~= text);
    }
}

/// The digits are those of lower-case hexadecimal, in the order of their values.
pub proof fn lemma_digits_are_lower_case(d: int)
    requires
        0 <= d < 16,
    ensures
        digit(d) == "0123456789abcdef"@[d],
{
    reveal_strlit("0123456789abcdef");
}

/// A character is a hexadecimal digit in either case, or none at all.
pub proof fn lemma_digit_values(c: char)
    ensures
        48 <= c as int <= 57 ==> digit_value(c) == Some(c as int - 48),
        97 <= c as int <= 102 ==> digit_value(c) == Some(c as int - 87),
        65 <= c as int <= 70 ==> digit_value(c) == Some(c as int - 55),
        !(48 <= c as int <= 57 || 97 <= c as int <= 102 || 65 <= c as int <= 70) ==> digit_value(c)
            is None,
{
}

/// One more digit makes a hexadecimal number 16 times as large, and adds its value.
pub proof fn lemma_hex_value_push(text: Seq<char>, c: char)
    requires
        digit_value(c) is Some,
    ensures
        hex_value(Seq::empty()) == 0,
        hex_value(text.push(c)) == 16 * hex_value(text) + digit_value(c).unwrap(),
        all_hex(text.push(c)) <==> all_hex(text),
{
    assert(hex_value(Seq::empty()) == 0);
    assert(text.push(c).drop_last() =~= text);
    if all_hex(text.push(c)) {
        assert forall|i: int| 0 <= i < text.len() implies digit_value(#[trigger] text[i]) is Some by {
            assert(text.push(c)[i] == text[i]);
        }
    }
}

/// A number in hexadecimal has digits of lower case only, and no zero in front but for zero itself.
pub proof fn lemma_hex_is_plain(n: nat)
    ensures
        forall|i: int|
            0 <= i < hex(n).len() ==> 48 <= (#[trigger] hex(n)[i]) as int <= 57 || 97 <= hex(
                n,
            )[i] as int <= 102,
        n > 0 ==> hex(n)[0] != '0',
        n == 0 ==> hex(n) == seq!['0'],
    decreases n,
{
    if n >= 16 {
        lemma_hex_is_plain(n / 16);
        lemma_hex_value(n / 16);
        assert(hex(n)[0] == hex(n / 16)[0]);
        assert forall|i: int| 0 <= i < hex(n).len() implies 48 <= (#[trigger] hex(n)[i]) as int <= 57
            || 97 <= hex(n)[i] as int <= 102 by {
            if i < hex(n / 16).len() {
                assert(hex(n)[i] == hex(n / 16)[i]);
            }
        }
    }
}

/// The number that decimal digits stand for.
pub open spec fn dec_value(text: Seq<char>) -> int
    decreases text.len(),
{
    if text.len() == 0 {
        0
    } else {
        dec_value(text.drop_last()) * 10 + (text.last() as int - 48)
    }
}

/// Reading a number in decimal gives the number that was written. It has no zero in front but for
/// zero itself.
pub proof fn lemma_dec_value(n: nat)
    ensures
        dec_value(dec(n)) == n,
        dec(n).len() >= 1,
        forall|i: int| 0 <= i < dec(n).len() ==> 48 <= (#[trigger] dec(n)[i]) as int <= 57,
        n > 0 ==> dec(n)[0] != '0',
        n == 0 ==> dec(n) == seq!['0'],
    decreases n,
{
    if n < 10 {
        assert(dec(n).drop_last() =~= Seq::<char>::empty());
        assert(dec_value(Seq::<char>::empty()) == 0);
    } else {
        lemma_dec_value(n / 10);
        assert(dec(n).drop_last() =~= dec(n / 10));
        assert(dec(n)[0] == dec(n / 10)[0]);
        assert forall|i: int| 0 <= i < dec(n).len() implies 48 <= (#[trigger] dec(n)[i]) as int
            <= 57 by {
            if i < dec(n / 10).len() {
                assert(dec(n)[i] == dec(n / 10)[i]);
            }
        }
    }
}

/// Different numbers read differently in decimal.
pub proof fn lemma_dec_injective(a: nat, b: nat)
    requires
        dec(a) == dec(b),
    ensures
        a == b,
{
    lemma_dec_value(a);
    lemma_dec_value(b);
}

/// Padded text is at least so wide and ends in the text, with nothing but the fill before it. Text
/// that is wide enough stays as it is.
pub proof fn lemma_padded(text: Seq<char>, fill: char, width: nat)
    ensures
        text.len() >= width ==> padded(text, fill, width) == text,
        text.len() < width ==> padded(text, fill, width).len() == width,
        padded(text, fill, width).skip(padded(text, fill, width).len() - text.len()) == text,
        forall|i: int|
            0 <= i < width - text.len() ==> #[trigger] padded(text, fill, width)[i] == fill,
{
    assert(padded(text, fill, width).skip(padded(text, fill, width).len() - text.len()) =~= text);
}

} // verus!
