//! Text: decimal numbers, UTF-16, and growing strings.
use vstd::prelude::*;
use vstd::utf8::{decode_utf8, encode_utf8_decode_utf8, is_ascii_chars, valid_utf8};
use crate::order::bytes_eq;

verus! {

/// `String::push` puts the character behind those the string holds.
pub assume_specification[ String::push ](s: &mut String, c: char)
    ensures
        final(s)@ == old(s)@.push(c),
;

/// The decimal digits of `n` in ASCII, without leading zeros.
pub open spec fn decimal(n: nat) -> Seq<u8>
    decreases n,
{
    if n < 10 {
        seq![(48 + n) as u8]
    } else {
        decimal(n / 10).push((48 + n % 10) as u8)
    }
}

/// ASCII bytes as characters.
pub open spec fn ascii_chars(b: Seq<u8>) -> Seq<char> {
    b.map_values(|x: u8| x as char)
}

/// Numbers below 10^(k+1) have at most k+1 digits.
pub proof fn decimal_len(n: nat, k: nat)
    requires
        n < vstd::arithmetic::power::pow(10, k + 1),
    ensures
        1 <= decimal(n).len() <= k + 1,
        forall|i: int| 0 <= i < decimal(n).len() ==> 48 <= #[trigger] decimal(n)[i] <= 57,
    decreases n,
{
    vstd::arithmetic::power::lemma_pow0(10);
    vstd::arithmetic::power::lemma_pow1(10);
    if n >= 10 {
        if k == 0 {
            assert(false);
        }
        reveal(vstd::arithmetic::power::pow);
        assert(vstd::arithmetic::power::pow(10, k + 1) == 10 * vstd::arithmetic::power::pow(10, k));
        decimal_len(n / 10, (k - 1) as nat);
    }
}

/// Decimal digits are ASCII.
pub proof fn decimal_is_ascii(n: nat)
    ensures
        forall|i: int| 0 <= i < decimal(n).len() ==> 48 <= #[trigger] decimal(n)[i] <= 57,
    decreases n,
{
    if n >= 10 {
        decimal_is_ascii(n / 10);
        assert forall|i: int| 0 <= i < decimal(n).len() implies 48 <= #[trigger] decimal(n)[i]
            <= 57 by {
            if i < decimal(n / 10).len() {
                assert(decimal(n)[i] == decimal(n / 10)[i]);
            }
        }
    }
}

/// Different numbers have different digits.
pub proof fn decimal_is_injective(m: nat, n: nat)
    requires
        decimal(m) == decimal(n),
    ensures
        m == n,
    decreases m,
{
    let a = decimal(m);
    let b = decimal(n);
    decimal_is_ascii(m / 10);
    decimal_is_ascii(n / 10);
    assert(a.last() == 48 + m % 10);
    assert(b.last() == 48 + n % 10);
    if m >= 10 && n >= 10 {
        assert(a.drop_last() =~= decimal(m / 10));
        assert(b.drop_last() =~= decimal(n / 10));
        decimal_is_injective(m / 10, n / 10);
    } else if m >= 10 {
        decimal_not_empty(m / 10);
    } else if n >= 10 {
        decimal_not_empty(n / 10);
    }
}

/// The number that decimal digits stand for.
pub open spec fn value_of(digits: Seq<u8>) -> int
    decreases digits.len(),
{
    if digits.len() == 0 {
        0
    } else {
        10 * value_of(digits.drop_last()) + (digits.last() - 48)
    }
}

/// The digits of a number, read as a decimal number, stand for it, and none of
/// them is a leading zero.
pub proof fn decimal_reads_back(n: nat)
    ensures
        value_of(decimal(n)) == n,
        decimal(n).len() >= 1,
        decimal(n)[0] == 48 ==> n == 0,
        forall|i: int| 0 <= i < decimal(n).len() ==> 48 <= #[trigger] decimal(n)[i] <= 57,
    decreases n,
{
    decimal_is_ascii(n);
    if n < 10 {
        reveal_with_fuel(value_of, 2);
        assert(decimal(n).drop_last() =~= Seq::<u8>::empty());
    } else {
        decimal_reads_back(n / 10);
        assert(decimal(n).drop_last() =~= decimal(n / 10));
        assert(decimal(n)[0] == decimal(n / 10)[0]);
    }
}

proof fn decimal_not_empty(n: nat)
    ensures
        decimal(n).len() >= 1,
{
}

/// The decimal digits of `n`.
pub fn decimal_digits(n: u128) -> (d: Vec<u8>)
    ensures
        d@ == decimal(n as nat),
    decreases n,
{
    if n < 10 {
        let mut d: Vec<u8> = Vec::new();
        d.push(48 + n as u8);
        assert(d@ =~= decimal(n as nat));
        d
    } else {
        let mut d: Vec<u8> = decimal_digits(n / 10);
        d.push(48 + (n % 10) as u8);
        d
    }
}

/// Puts ASCII bytes behind a string.
pub fn push_ascii(s: &mut String, b: &[u8])
    requires
        forall|i: int| 0 <= i < b@.len() ==> #[trigger] b@[i] < 128,
    ensures
        final(s)@ == old(s)@ + ascii_chars(b@),
{
    let n: usize = b.len();
    let ghost before = s@;
    let mut i: usize = 0;
    assert(before + ascii_chars(b@.take(0)) =~= before);
    while i < n
        invariant
            n == b@.len(),
            i <= n,
            s@ == before + ascii_chars(b@.take(i as int)),
        decreases n - i,
    {
        s.push(b[i] as char);
        assert(before + ascii_chars(b@.take(i + 1)) =~= (before + ascii_chars(
            b@.take(i as int),
        )).push(b@[i as int] as char));
        i += 1;
    }
    assert(b@.take(n as int) =~= b@);
}

/// Whether two texts are equal.
pub fn str_eq(a: &str, b: &str) -> (r: bool)
    ensures
        r == (a@ == b@),
{
    proof {
        encode_utf8_decode_utf8(a@);
        encode_utf8_decode_utf8(b@);
    }
    bytes_eq(a.as_bytes(), b.as_bytes())
}

// ---------------------------------------------------------------------------
// UTF-16
// ---------------------------------------------------------------------------

/// The UTF-16 code units of a character.
pub open spec fn char_units(c: char) -> Seq<u16> {
    let u = (c as u32) as int;
    if u < 0x10000 {
        seq![u as u16]
    } else {
        seq![
            (0xD800 + (u - 0x10000) / 0x400) as u16,
            (0xDC00 + (u - 0x10000) % 0x400) as u16,
        ]
    }
}

/// The UTF-16 code units of a text.
pub open spec fn utf16(s: Seq<char>) -> Seq<u16>
    decreases s.len(),
{
    if s.len() == 0 {
        Seq::empty()
    } else {
        utf16(s.drop_last()) + char_units(s.last())
    }
}

/// The UTF-16 code units of a text.
pub fn encode_utf16(s: &str) -> (units: Vec<u16>)
    ensures
        units@ == utf16(s@),
{
    let mut units: Vec<u16> = Vec::new();
    for c in iter: s.chars()
        invariant
            iter.seq() == s@,
            units@ == utf16(s@.take(iter.index() as int)),
    {
        proof {
            let i = iter.index() as int;
            assert(s@.take(i + 1).drop_last() =~= s@.take(i));
            assert(s@.take(i + 1).last() == c);
        }
        let u: u32 = c as u32;
        proof {
            vstd::utf8::char_is_scalar(c);
        }
        let ghost before = units@;
        if u < 0x10000 {
            units.push(u as u16);
            assert(units@ =~= before + char_units(c));
        } else {
            units.push((0xD800 + (u - 0x10000) / 0x400) as u16);
            units.push((0xDC00 + (u - 0x10000) % 0x400) as u16);
            assert(units@ =~= before + char_units(c));
        }
    }
    assert(s@.take(s@.len() as int) =~= s@);
    units
}

/// A character below U+10000 is one UTF-16 unit with its number; every other is
/// a high and a low surrogate that give its number back.
pub proof fn char_units_read_back(c: char)
    ensures
        ({
            let u = utf16(seq![c]);
            if (c as int) < 0x10000 {
                u.len() == 1 && u[0] == c as int
            } else {
                &&& u.len() == 2
                &&& 0xD800 <= u[0] < 0xDC00
                &&& 0xDC00 <= u[1] < 0xE000
                &&& 0x10000 + 1024 * (u[0] - 0xD800) + (u[1] - 0xDC00) == c as int
            }
        }),
{
    vstd::utf8::char_is_scalar(c);
    reveal_with_fuel(utf16, 2);
    assert(seq![c].drop_last() =~= Seq::<char>::empty());
    assert(seq![c].last() == c);
    assert(utf16(seq![c]) =~= char_units(c));
}

/// The UTF-16 units of two texts in a row are those of one and of the other.
pub proof fn utf16_joins(a: Seq<char>, b: Seq<char>)
    ensures
        utf16(a + b) == utf16(a) + utf16(b),
        utf16(Seq::empty()) == Seq::<u16>::empty(),
    decreases b.len(),
{
    if b.len() == 0 {
        assert(a + b =~= a);
    } else {
        utf16_joins(a, b.drop_last());
        assert((a + b).drop_last() =~= a + b.drop_last());
        assert((a + b).last() == b.last());
    }
}

// ---------------------------------------------------------------------------
// decoding and letter case
// ---------------------------------------------------------------------------

/// What `String::from_utf8_lossy` makes of a byte string.
pub uninterp spec fn lossy_utf8(bytes: Seq<u8>) -> Seq<char>;

/// What `String::from_utf16_lossy` makes of UTF-16 units.
pub uninterp spec fn lossy_utf16(units: Seq<u16>) -> Seq<char>;

/// What `str::to_uppercase` makes of a text.
pub uninterp spec fn uppercase(s: Seq<char>) -> Seq<char>;

/// What `str::to_lowercase` makes of a text.
pub uninterp spec fn lowercase(s: Seq<char>) -> Seq<char>;

/// What the debug format of `str` makes of a text: the text in quotes, with
/// escapes.
pub uninterp spec fn quoted(s: Seq<char>) -> Seq<char>;

/// What the debug format of `char` makes of a character: the character in
/// single quotes, with escapes.
pub uninterp spec fn quoted_char(c: char) -> Seq<char>;

/// An ASCII character in upper case.
pub open spec fn ascii_upper_char(c: char) -> char {
    if 'a' <= c <= 'z' {
        ((c as u32) - 32) as u32 as char
    } else {
        c
    }
}

/// A text in upper case. ASCII texts change in their letters a to z only.
pub open spec fn upper(s: Seq<char>) -> Seq<char> {
    if is_ascii_chars(s) {
        s.map_values(|c: char| ascii_upper_char(c))
    } else {
        uppercase(s)
    }
}

/// In upper case, each letter a to z of an ASCII text becomes the letter 32
/// below it, and nothing else changes.
pub proof fn upper_changes_letters_only(s: Seq<char>)
    requires
        is_ascii_chars(s),
    ensures
        upper(s).len() == s.len(),
        forall|i: int|
            0 <= i < s.len() ==> #[trigger] upper(s)[i] as int == if 97 <= s[i] as int <= 122 {
                s[i] as int - 32
            } else {
                s[i] as int
            },
{
    assert forall|i: int| 0 <= i < s.len() implies #[trigger] upper(s)[i] as int == if 97
        <= s[i] as int <= 122 {
        s[i] as int - 32
    } else {
        s[i] as int
    } by {
        assert((s[i] as u32) < 128);
    }
}

/// In lower case, each letter A to Z becomes the letter 32 above it, and no
/// other character changes.
pub proof fn lower_changes_letters_only(c: char)
    ensures
        ascii_lower_char(c) as int == if 65 <= c as int <= 90 {
            c as int + 32
        } else {
            c as int
        },
{
}

/// An ASCII character in lower case.
pub open spec fn ascii_lower_char(c: char) -> char {
    if 'A' <= c <= 'Z' {
        ((c as u32) + 32) as u32 as char
    } else {
        c
    }
}

/// `String::from_utf8_lossy`: decodes UTF-8 and replaces what is not valid.
/// Valid UTF-8 is decoded as it stands.
#[verifier::external_body]
pub(crate) fn from_utf8_lossy(bytes: &[u8]) -> (s: String)
    ensures
        s@ == lossy_utf8(bytes@),
        valid_utf8(bytes@) ==> s@ == decode_utf8(bytes@),
{
    String::from_utf8_lossy(bytes).into_owned()
}

/// `String::from_utf16_lossy`: decodes UTF-16 and replaces what is not valid.
/// The encoding of a text is decoded to that text.
#[verifier::external_body]
pub(crate) fn from_utf16_lossy(units: &[u16]) -> (s: String)
    ensures
        s@ == lossy_utf16(units@),
        forall|t: Seq<char>| #[trigger] utf16(t) == units@ ==> s@ == t,
{
    String::from_utf16_lossy(units)
}

/// `str::to_uppercase`: the uppercase form of a text. ASCII texts change in
/// their letters a to z only.
#[verifier::external_body]
pub(crate) fn to_uppercase(s: &str) -> (r: String)
    ensures
        r@ == uppercase(s@),
        is_ascii_chars(s@) ==> r@ == s@.map_values(|c: char| ascii_upper_char(c)),
{
    s.to_uppercase()
}

/// `str::to_lowercase`: the lowercase form of a text. ASCII texts change in
/// their letters A to Z only.
#[verifier::external_body]
pub(crate) fn to_lowercase(s: &str) -> (r: String)
    ensures
        r@ == lowercase(s@),
        is_ascii_chars(s@) ==> r@ == s@.map_values(|c: char| ascii_lower_char(c)),
{
    s.to_lowercase()
}

/// The debug format of `str` (`{:?}`).
#[verifier::external_body]
pub(crate) fn debug_text(s: &str) -> (r: String)
    ensures
        r@ == quoted(s@),
{
    format!("{:?}", s)
}

/// The debug format of `char` (`{:?}`).
#[verifier::external_body]
pub(crate) fn debug_char(c: char) -> (r: String)
    ensures
        r@ == quoted_char(c),
{
    format!("{:?}", c)
}

/// Puts the decimal digits of `n` behind a text.
pub fn push_number(m: &mut String, n: u128)
    ensures
        final(m)@ == old(m)@ + ascii_chars(decimal(n as nat)),
{
    let digits: Vec<u8> = decimal_digits(n);
    proof {
        decimal_is_ascii(n as nat);
    }
    push_ascii(m, digits.as_slice());
}

} // verus!
