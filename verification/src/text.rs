//! Building strings: decimal numerals, octets read as characters, lossy UTF-8.
use vstd::prelude::*;

verus! {

/// The character whose code point is the octet `b` (the Latin-1 reading that `b as char` gives).
pub open spec fn byte_char(b: u8) -> char {
    b as char
}

/// Each octet of `s` read as one character.
pub open spec fn bytes_as_chars(s: Seq<u8>) -> Seq<char> {
    s.map_values(|b: u8| byte_char(b))
}

/// The decimal digit character for `d < 10`.
pub open spec fn digit_char(d: nat) -> char {
    (48 + d) as char
}

/// The decimal numeral of `n`, without leading zeros.
pub open spec fn decimal(n: nat) -> Seq<char>
    decreases n,
{
    if n < 10 {
        seq![digit_char(n)]
    } else {
        decimal(n / 10).push(digit_char(n % 10))
    }
}

/// Calls `String::push`, which by std's documentation appends the given
/// character to the end of the string.
#[verifier::external_body]
pub(crate) fn string_push(s: &mut String, c: char)
    ensures
        final(s)@ == old(s)@.push(c),
{
    s.push(c);
}

/// Appends `n` written in decimal, as `format!("{}", n)` writes a `usize`.
pub fn push_decimal(s: &mut String, n: usize)
    ensures
        final(s)@ == old(s)@ + decimal(n as nat),
    decreases n,
{
    let d: u8 = (n % 10) as u8;
    let c = (48u8 + d) as char;
    if n >= 10 {
        push_decimal(s, n / 10);
    }
    string_push(s, c);
    assert(s@ =~= old(s)@ + decimal(n as nat));
}

/// Appends the characters of an ASCII string.
pub fn push_ascii(s: &mut String, lit: &str)
    requires
        vstd::string::is_ascii(lit),
    ensures
        final(s)@ == old(s)@ + lit@,
{
    proof {
        vstd::string::is_ascii_spec_bytes(lit);
    }
    let bytes = lit.as_bytes();
    assert(bytes@ =~= Seq::new(lit@.len(), |i| lit@[i] as u8));
    let mut i: usize = 0;
    while i < bytes.len()
        invariant
            0 <= i <= bytes@.len(),
            bytes@.len() == lit@.len(),
            forall|j: int| 0 <= j < lit@.len() ==> bytes@[j] == lit@[j] as u8,
            forall|j: int| 0 <= j < lit@.len() ==> '\0' <= #[trigger] lit@[j] <= '\u{7f}',
            s@ =~= old(s)@ + lit@.take(i as int),
        decreases bytes@.len() - i,
    {
        let c = bytes[i] as char;
        assert(c == lit@[i as int]);
        string_push(s, c);
        assert(lit@.take(i + 1) =~= lit@.take(i as int).push(lit@[i as int]));
        i = i + 1;
    }
    assert(lit@.take(i as int) =~= lit@);
}

/// Appends each octet of `bytes`, read as a character, to `s`.
pub fn push_bytes_as_chars(s: &mut String, bytes: &[u8])
    ensures
        final(s)@ == old(s)@ + bytes_as_chars(bytes@),
{
    let mut i: usize = 0;
    while i < bytes.len()
        invariant
            0 <= i <= bytes@.len(),
            s@ =~= old(s)@ + bytes_as_chars(bytes@.take(i as int)),
        decreases bytes@.len() - i,
    {
        string_push(s, bytes[i] as char);
        assert(bytes_as_chars(bytes@.take(i + 1)) =~= bytes_as_chars(bytes@.take(i as int)).push(
            byte_char(bytes@[i as int]),
        ));
        i = i + 1;
    }
    assert(bytes@.take(i as int) =~= bytes@);
}

/// The string that `String::from_utf8_lossy` makes of `bytes`: each maximal
/// ill-formed subsequence is replaced by U+FFFD.
pub uninterp spec fn utf8_lossy(bytes: Seq<u8>) -> Seq<char>;

/// Calls `String::from_utf8_lossy` and takes the result as an owned `String`.
/// Claims that the result is `utf8_lossy` of the input (a function of the
/// octets alone), and, as std documents, that valid UTF-8 is decoded unchanged.
/// What the replacement does on ill-formed input is left unstated.
#[verifier::external_body]
pub(crate) fn from_utf8_lossy(bytes: &[u8]) -> (s: String)
    ensures
        s@ == utf8_lossy(bytes@),
        vstd::utf8::valid_utf8(bytes@) ==> s@ == vstd::utf8::decode_utf8(bytes@),
{
    String::from_utf8_lossy(bytes).into_owned()
}

/// The number that a string of decimal digits spells.
pub open spec fn numeral_value(s: Seq<char>) -> nat
    decreases s.len(),
{
    if s.len() == 0 {
        0
    } else {
        numeral_value(s.drop_last()) * 10 + ((s.last() as nat) - 48) as nat
    }
}

/// A decimal numeral is made of the digits `0` to `9`, has no leading zero
/// unless it is `0` itself, and spells back the number it was written from.
pub proof fn lemma_decimal(n: nat)
    ensures
        decimal(n).len() >= 1,
        forall|i: int| 0 <= i < decimal(n).len() ==> '0' <= #[trigger] decimal(n)[i] <= '9',
        decimal(n).len() > 1 ==> decimal(n)[0] != '0',
        n == 0 <==> decimal(n) == seq!['0'],
        numeral_value(decimal(n)) == n,
    decreases n,
{
    if n < 10 {
        assert(decimal(n) =~= seq![digit_char(n)]);
        assert(seq![digit_char(n)].drop_last() =~= Seq::<char>::empty());
        assert(digit_char(n) as nat == 48 + n);
        assert('0' as nat == 48);
        reveal_with_fuel(numeral_value, 2);
        if decimal(n) == seq!['0'] {
            assert(decimal(n)[0] == '0');
        }
        if n == 0 {
            assert(digit_char(n) == '0');
        }
    } else {
        lemma_decimal(n / 10);
        let p = decimal(n / 10);
        let d = digit_char(n % 10);
        assert(d as nat == 48 + n % 10);
        assert(decimal(n) == p.push(d));
        assert(decimal(n).drop_last() =~= p);
        assert forall|i: int| 0 <= i < decimal(n).len() implies '0' <= #[trigger] decimal(n)[i] <= '9' by {
            if i < p.len() {
                assert(decimal(n)[i] == p[i]);
            }
        }
        assert(decimal(n)[0] == p[0]);
        if p[0] == '0' {
            assert(p.len() == 1);
            assert(p =~= seq!['0']);
        }
        if decimal(n) == seq!['0'] {
            assert(decimal(n).len() == 1);
        }
        assert(numeral_value(decimal(n)) == numeral_value(p) * 10 + n % 10);
    }
}

/// Octets read as characters give one character per octet, whose code
/// point is that octet.
pub proof fn lemma_bytes_as_chars(s: Seq<u8>)
    ensures
        bytes_as_chars(s).len() == s.len(),
        forall|i: int| 0 <= i < s.len() ==> #[trigger] bytes_as_chars(s)[i] as u32 == s[i] as u32,
{
}

} // verus!
