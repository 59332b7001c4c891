use vstd::prelude::*;
use vstd::string::*;
use vstd::utf8::*;

verus! {

/// The character of a decimal digit `d` (`0 <= d <= 9`).
pub open spec fn digit_char(d: int) -> char {
    ((48 + d) as u8) as char
}

/// Decimal text of a natural number, without leading zeros.
pub open spec fn decimal_text(n: nat) -> Seq<char>
    decreases n,
{
    if n < 10 {
        seq![digit_char(n as int)]
    } else {
        decimal_text(n / 10).push(digit_char((n % 10) as int))
    }
}

/// The bytes of `s` as decimal numbers separated by commas.
pub open spec fn joined_decimals(s: Seq<u8>) -> Seq<char>
    decreases s.len(),
{
    if s.len() == 0 {
        Seq::empty()
    } else if s.len() == 1 {
        decimal_text(s[0] as nat)
    } else {
        joined_decimals(s.drop_last()).push(',') + decimal_text(s.last() as nat)
    }
}

/// Text of a byte sequence: its UTF-8 decoding when it is valid UTF-8, else a
/// listing of the byte values.
pub open spec fn bytes_text(s: Seq<u8>) -> Seq<char> {
    if valid_utf8(s) {
        decode_utf8(s)
    } else {
        "Invalid ASCII sequence: ["@ + joined_decimals(s) + "]"@
    }
}

/// Relies on `String::push`: appends one character.
#[verifier::external_body]
pub(crate) fn push_char(s: &mut String, c: char)
    ensures
        final(s)@ == old(s)@.push(c),
{
    s.push(c);
}

/// Relies on `String::from_utf8`: it succeeds exactly on valid UTF-8 and then
/// holds the decoded characters.
#[verifier::external_body]
fn string_from_utf8(bytes: Vec<u8>) -> (r: Option<String>)
    ensures
        r is Some <==> valid_utf8(bytes@),
        r matches Some(t) ==> t@ == decode_utf8(bytes@),
{
    String::from_utf8(bytes).ok()
}

/// The Debug text of the character `char::from(b)`: quoted, with escapes.
pub uninterp spec fn char_debug_text(b: u8) -> Seq<char>;

/// The Debug text of `char::from(b)`, written out for printable ASCII.
pub open spec fn char_debug(b: u8) -> Seq<char> {
    if 32 <= b <= 126 && b != 39 && b != 92 {
        seq!['\'', b as char, '\'']
    } else {
        char_debug_text(b)
    }
}

/// Relies on the `Debug` formatting of `char`, applied to `char::from(b)`: a
/// printable ASCII character other than `'` and `\` is shown unescaped
/// between single quotes.
#[verifier::external_body]
pub(crate) fn char_debug_string(b: u8) -> (r: String)
    ensures
        r@ == char_debug_text(b),
        r@ == char_debug(b),
{
    format!("{:?}", char::from(b))
}

/// Appends the decimal text of `n`.
pub(crate) fn push_decimal(s: &mut String, n: u32)
    ensures
        final(s)@ == old(s)@ + decimal_text(n as nat),
    decreases n,
{
    if n >= 10 {
        push_decimal(s, n / 10);
    }
    let d: u32 = n % 10;
    push_char(s, ((48 + d) as u8) as char);
    assert(final(s)@ =~= old(s)@ + decimal_text(n as nat));
}

/// Joins the bytes as decimal numbers separated by commas: `[72, 101]` gives `"72,101"`.
pub fn join(symbol: &[u8]) -> (r: String)
    ensures
        r@ == joined_decimals(symbol@),
{
    let mut s = String::new();
    let mut i: usize = 0;
    while i < symbol.len()
        invariant
            i <= symbol@.len(),
            s@ == joined_decimals(symbol@.subrange(0, i as int)),
        decreases symbol@.len() - i,
    {
        let ghost prev = symbol@.subrange(0, i as int);
        let ghost next = symbol@.subrange(0, i as int + 1);
        assert(next.drop_last() =~= prev);
        if i > 0 {
            push_char(&mut s, ',');
        }
        push_decimal(&mut s, symbol[i] as u32);
        i += 1;
        assert(s@ =~= joined_decimals(next));
    }
    assert(symbol@.subrange(0, symbol@.len() as int) =~= symbol@);
    s
}

/// Text of a byte sequence: the decoded string when the bytes are valid UTF-8,
/// else `"Invalid ASCII sequence: [..]"` listing the byte values.
pub fn bytes_to_string(ascii: &[u8]) -> (r: String)
    ensures
        r@ == bytes_text(ascii@),
{
    let mut v: Vec<u8> = Vec::new();
    let mut i: usize = 0;
    while i < ascii.len()
        invariant
            i <= ascii@.len(),
            v@ == ascii@.subrange(0, i as int),
        decreases ascii@.len() - i,
    {
        v.push(ascii[i]);
        i += 1;
        assert(v@ =~= ascii@.subrange(0, i as int));
    }
    assert(v@ =~= ascii@);
    match string_from_utf8(v) {
        Some(s) => s,
        None => {
            let mut s = String::from_str("Invalid ASCII sequence: [");
            s.append(join(ascii).as_str());
            s.append("]");
            s
        },
    }
}

} // verus!
