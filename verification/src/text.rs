//! Pieces of displayed text.

use vstd::prelude::*;
use vstd::string::*;
use vstd::utf8::{encode_utf8, valid_utf8};

verus! {

/// The character of a decimal digit.
pub open spec fn digit(d: nat) -> char {
    (48 + d) as char
}

/// A number in decimal.
pub open spec fn decimal(n: nat) -> Seq<char>
    decreases n,
{
    if n < 10 {
        seq![digit(n)]
    } else {
        decimal(n / 10).push(digit(n % 10))
    }
}

/// The bytes of a number in decimal.
pub open spec fn decimal_bytes(n: nat) -> Seq<u8>
    decreases n,
{
    if n < 10 {
        seq![(48 + n) as u8]
    } else {
        decimal_bytes(n / 10).push((48 + n % 10) as u8)
    }
}

/// Different numbers have different digits.
pub proof fn lemma_decimal_bytes_differ(a: nat, b: nat)
    requires
        a != b,
    ensures
        decimal_bytes(a) != decimal_bytes(b),
    decreases a,
{
    let x = decimal_bytes(a);
    let y = decimal_bytes(b);
    lemma_decimal_bytes_some(a);
    lemma_decimal_bytes_some(b);
    if x == y {
        assert(x.last() == y.last());
        assert(a % 10 == b % 10);
        assert(x.len() == y.len());
        if a >= 10 {
            lemma_decimal_bytes_some(a / 10);
            assert(b >= 10);
            lemma_decimal_bytes_differ(a / 10, b / 10);
            assert(x.drop_last() =~= decimal_bytes(a / 10));
            assert(y.drop_last() =~= decimal_bytes(b / 10));
        } else {
            if b >= 10 {
                lemma_decimal_bytes_some(b / 10);
            }
        }
    }
}

proof fn lemma_decimal_bytes_some(n: nat)
    ensures
        decimal_bytes(n).len() > 0,
        decimal_bytes(n).last() == 48 + n % 10,
    decreases n,
{
    if n >= 10 {
        lemma_decimal_bytes_some(n / 10);
    }
}

/// The character of a hexadecimal digit.
pub open spec fn hex_digit(d: nat) -> char {
    if d < 10 {
        digit(d)
    } else {
        (87 + d) as char
    }
}

/// `n` copies of a character.
pub open spec fn repeated(c: char, n: nat) -> Seq<char> {
    Seq::new(n, |i: int| c)
}

/// `s` behind as many spaces as it lacks of `width` characters.
pub open spec fn padded(s: Seq<char>, width: nat) -> Seq<char> {
    if s.len() < width {
        repeated(' ', (width - s.len()) as nat) + s
    } else {
        s
    }
}

/// The text of bytes that need not be UTF-8, as `String::from_utf8_lossy` reads them.
pub uninterp spec fn lossy(bytes: Seq<u8>) -> Seq<char>;

/// Calls `String::from_utf8_lossy`.
///
/// The text depends on the bytes alone. Bytes that are UTF-8 are read as the text that they
/// encode; which characters stand for bytes that are not is left to the name `lossy`.
#[verifier::external_body]
pub(crate) fn lossy_text(bytes: &Vec<u8>) -> (text: String)
    ensures
        text@ == lossy(bytes@),
        valid_utf8(bytes@) ==> encode_utf8(text@) == bytes@,
{
    String::from_utf8_lossy(bytes).into_owned()
}

fn digit_text(d: u8) -> (text: &'static str)
    requires
        d < 16,
    ensures
        text@ == seq![hex_digit(d as nat)],
{
    proof {
        reveal_strlit("0");
        reveal_strlit("1");
        reveal_strlit("2");
        reveal_strlit("3");
        reveal_strlit("4");
        reveal_strlit("5");
        reveal_strlit("6");
        reveal_strlit("7");
        reveal_strlit("8");
        reveal_strlit("9");
        reveal_strlit("a");
        reveal_strlit("b");
        reveal_strlit("c");
        reveal_strlit("d");
        reveal_strlit("e");
        reveal_strlit("f");
    }
    let text = match d {
        0 => "0",
        1 => "1",
        2 => "2",
        3 => "3",
        4 => "4",
        5 => "5",
        6 => "6",
        7 => "7",
        8 => "8",
        9 => "9",
        10 => "a",
        11 => "b",
        12 => "c",
        13 => "d",
        14 => "e",
        _ => "f",
    };
    assert(text@ =~= seq![hex_digit(d as nat)]);
    text
}

/// Appends a number in decimal.
pub(crate) fn push_decimal(out: &mut String, n: u64)
    ensures
        final(out)@ == old(out)@ + decimal(n as nat),
    decreases n,
{
    if n >= 10 {
        push_decimal(out, n / 10);
    }
    out.append(digit_text((n % 10) as u8));
    assert(out@ =~= old(out)@ + decimal(n as nat));
}

/// Appends the bytes of a number in decimal.
pub(crate) fn push_decimal_bytes(out: &mut Vec<u8>, n: u64)
    ensures
        final(out)@ == old(out)@ + decimal_bytes(n as nat),
    decreases n,
{
    if n >= 10 {
        push_decimal_bytes(out, n / 10);
    }
    out.push(48 + (n % 10) as u8);
    assert(out@ =~= old(out)@ + decimal_bytes(n as nat));
}

/// Appends a byte as two hexadecimal digits.
pub(crate) fn push_hex(out: &mut String, byte: u8)
    ensures
        final(out)@ == old(out)@ + seq![
            hex_digit((byte / 16) as nat),
            hex_digit((byte % 16) as nat),
        ],
{
    out.append(digit_text(byte / 16));
    out.append(digit_text(byte % 16));
    assert(out@ =~= old(out)@ + seq![
        hex_digit((byte / 16) as nat),
        hex_digit((byte % 16) as nat),
    ]);
}

/// Appends spaces.
pub(crate) fn push_spaces(out: &mut String, n: usize)
    ensures
        final(out)@ == old(out)@ + repeated(' ', n as nat),
{
    proof {
        reveal_strlit(" ");
    }
    let ghost start = out@;
    assert(start =~= start + repeated(' ', 0));
    for i in 0..n
        invariant
            out@ == start + repeated(' ', i as nat),
            " "@ == seq![' '],
    {
        out.append(" ");
        assert(out@ =~= start + repeated(' ', (i + 1) as nat));
    }
}

/// Appends `s` behind as many spaces as it lacks of `width` characters.
pub(crate) fn push_padded(out: &mut String, s: &str, width: usize)
    ensures
        final(out)@ == old(out)@ + padded(s@, width as nat),
{
    let n = s.unicode_len();
    if n < width {
        push_spaces(out, width - n);
    }
    out.append(s);
    assert(out@ =~= old(out)@ + padded(s@, width as nat));
}

/// A number is written digit by digit, the last digit last: one below ten is one digit, and a
/// further digit makes a number ten times as large and adds itself.
pub proof fn law_decimal(n: nat, d: nat)
    requires
        d < 10,
    ensures
        decimal(d) == seq!["0123456789"@[d as int]],
        n > 0 ==> decimal(10 * n + d) == decimal(n) + decimal(d),
        decimal(n).len() > 0,
        forall|i: int| 0 <= i < decimal(n).len() ==> '0' <= #[trigger] decimal(n)[i] <= '9',
        decimal_bytes(n).len() == decimal(n).len(),
        forall|i: int|
            0 <= i < decimal(n).len() ==> #[trigger] decimal_bytes(n)[i] as nat == decimal(
                n,
            )[i] as nat,
    decreases n,
{
    reveal_strlit("0123456789");
    assert(decimal(d) =~= seq!["0123456789"@[d as int]]);
    assert((10 * n + d) / 10 == n && (10 * n + d) % 10 == d);
    if n > 0 {
        assert(decimal(10 * n + d) =~= decimal(n) + decimal(d));
    }
    if n >= 10 {
        law_decimal(n / 10, n % 10);
    }
}

/// A hexadecimal digit below sixteen is one of the sixteen, the letters in lower case.
pub proof fn law_hex_digit(d: nat)
    requires
        d < 16,
    ensures
        hex_digit(d) == "0123456789abcdef"@[d as int],
{
    reveal_strlit("0123456789abcdef");
}

/// Text that is padded ends with the text, has spaces in front of it only, and is as wide as was
/// asked for, or as the text where that is wider.
pub proof fn law_padded(s: Seq<char>, width: nat)
    ensures
        padded(s, width).len() == if s.len() < width {
            width
        } else {
            s.len()
        },
        padded(s, width).skip(padded(s, width).len() - s.len()) == s,
        forall|i: int| 0 <= i < padded(s, width).len() - s.len() ==> #[trigger] padded(s, width)[i]
            == ' ',
{
    assert(padded(s, width).skip(padded(s, width).len() - s.len()) =~= s);
}

} // verus!
