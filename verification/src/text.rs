//! Text: digits, trimming and byte order.
use vstd::prelude::*;
use vstd::string::*;
use vstd::utf8::encode_utf8;

verus! {

/// `String::push`. Trusted: it appends the character.
pub assume_specification[ String::push ](s: &mut String, c: char)
    ensures
        final(s)@ == old(s)@.push(c),
;

/// Whether a character is white space: the Unicode property `White_Space`.
pub open spec fn white_space(c: char) -> bool {
    ||| '\u{9}' <= c <= '\u{d}'
    ||| c == '\u{20}'
    ||| c == '\u{85}'
    ||| c == '\u{a0}'
    ||| c == '\u{1680}'
    ||| '\u{2000}' <= c <= '\u{200a}'
    ||| c == '\u{2028}'
    ||| c == '\u{2029}'
    ||| c == '\u{202f}'
    ||| c == '\u{205f}'
    ||| c == '\u{3000}'
}

/// A text without its leading white space.
pub open spec fn trimmed_start(text: Seq<char>) -> Seq<char>
    decreases text.len(),
{
    if text.len() > 0 && white_space(text[0]) {
        trimmed_start(text.drop_first())
    } else {
        text
    }
}

/// A text without its trailing white space.
pub open spec fn trimmed_end(text: Seq<char>) -> Seq<char>
    decreases text.len(),
{
    if text.len() > 0 && white_space(text.last()) {
        trimmed_end(text.drop_last())
    } else {
        text
    }
}

/// A text without its leading and trailing white space.
pub open spec fn trimmed(text: Seq<char>) -> Seq<char> {
    trimmed_end(trimmed_start(text))
}

/// `str::trim`. Trusted: it removes leading and trailing white space, as
/// Unicode's `White_Space` defines it, and nothing else.
#[verifier::external_body]
pub(crate) fn trim(text: &str) -> (t: String)
    ensures
        t@ == trimmed(text@),
{
    text.trim().to_string()
}

/// Whether a text holds visible ASCII characters only.
pub open spec fn visible(text: Seq<char>) -> bool {
    forall|i: int| 0 <= i < text.len() ==> '!' <= #[trigger] text[i] <= '~'
}

/// A text of visible ASCII characters has no white space to trim.
pub proof fn law_visible_text_is_trimmed(text: Seq<char>)
    requires
        visible(text),
    ensures
        trimmed(text) == text,
{
}

/// The digit of a value below 16, in lower case.
pub open spec fn digit(n: nat) -> char {
    if n < 10 {
        (48 + n) as char
    } else {
        (87 + n) as char
    }
}

/// The digit of a value below 16.
pub fn digit_char(n: u8) -> (c: char)
    requires
        n < 16,
    ensures
        c == digit(n as nat),
{
    if n < 10 {
        (48 + n) as char
    } else {
        (87 + n) as char
    }
}

/// Decimal digits of a number.
pub open spec fn decimal(n: nat) -> Seq<char>
    decreases n,
{
    if n < 10 {
        seq![digit(n)]
    } else {
        decimal(n / 10).push(digit(n % 10))
    }
}

/// Decimal digits of a number.
pub fn decimal_text(n: u64) -> (text: String)
    ensures
        text@ == decimal(n as nat),
    decreases n,
{
    if n < 10 {
        let mut text = String::new();
        text.push(digit_char(n as u8));
        assert(text@ =~= decimal(n as nat));
        text
    } else {
        let mut text = decimal_text(n / 10);
        text.push(digit_char((n % 10) as u8));
        text
    }
}

/// Whether a byte string comes before another in lexicographic order.
pub open spec fn bytes_before(a: Seq<u8>, b: Seq<u8>) -> bool
    decreases a.len(),
{
    if b.len() == 0 {
        false
    } else if a.len() == 0 {
        true
    } else {
        a[0] < b[0] || (a[0] == b[0] && bytes_before(a.drop_first(), b.drop_first()))
    }
}

/// Whether a text comes before another, byte by byte.
pub open spec fn text_order(a: Seq<char>, b: Seq<char>) -> bool {
    bytes_before(encode_utf8(a), encode_utf8(b))
}

/// Whether a text comes before another, byte by byte.
pub fn text_before(a: &str, b: &str) -> (before: bool)
    ensures
        before == text_order(a@, b@),
{
    let x = a.as_bytes();
    let y = b.as_bytes();
    let n: usize = x.len();
    let m: usize = y.len();
    let mut i: usize = 0;
    assert(x@.skip(0) =~= x@);
    assert(y@.skip(0) =~= y@);
    while i < n && i < m
        invariant
            n == x@.len(),
            m == y@.len(),
            i <= n,
            i <= m,
            x@ == encode_utf8(a@),
            y@ == encode_utf8(b@),
            text_order(a@, b@) == bytes_before(x@.skip(i as int), y@.skip(i as int)),
        decreases n - i,
    {
        proof {
            assert(x@.skip(i as int).drop_first() =~= x@.skip(i + 1));
            assert(y@.skip(i as int).drop_first() =~= y@.skip(i + 1));
        }
        if x[i] < y[i] {
            return true;
        }
        if x[i] > y[i] {
            return false;
        }
        i += 1;
    }
    i < m
}

/// The bytes of a text.
pub fn text_bytes(text: &str) -> (bytes: Vec<u8>)
    ensures
        bytes@ == encode_utf8(text@),
{
    let x = text.as_bytes();
    let n: usize = x.len();
    let mut bytes: Vec<u8> = Vec::new();
    let mut i: usize = 0;
    while i < n
        invariant
            n == x@.len(),
            i <= n,
            bytes@ == x@.take(i as int),
        decreases n - i,
    {
        bytes.push(x[i]);
        assert(bytes@ =~= x@.take(i + 1));
        i += 1;
    }
    assert(x@.take(i as int) =~= x@);
    bytes
}

/// A text followed by another.
pub fn joined(a: &str, b: &str) -> (text: String)
    ensures
        text@ == a@ + b@,
{
    let mut text = String::from_str(a);
    text.append(b);
    text
}

} // verus!
