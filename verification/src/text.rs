//! Text: the few functions of `std` that the finder needs, and small
//! operations on characters.

use vstd::prelude::*;
use vstd::string::*;
use vstd::utf8::*;

verus! {

/// `String::push` appends the character.
pub assume_specification[ String::push ](s: &mut String, c: char)
    ensures
        final(s)@ == old(s)@.push(c),
;

/// `String::pop` removes the last character and returns it; an empty string is
/// left as it is, and the answer is `None`.
pub assume_specification[ String::pop ](s: &mut String) -> (c: Option<char>)
    ensures
        old(s)@.len() == 0 ==> c is None && final(s)@ == old(s)@,
        old(s)@.len() > 0 ==> c == Some(old(s)@.last()) && final(s)@ == old(s)@.drop_last(),
;

/// What `str::to_lowercase` makes of a text.
pub uninterp spec fn lowercase(s: Seq<char>) -> Seq<char>;

/// What `String::from_utf8_lossy` makes of bytes.
pub uninterp spec fn lossy_text(bytes: Seq<u8>) -> Seq<char>;

/// `c`, with `A` to `Z` turned into `a` to `z`.
pub open spec fn ascii_lower(c: char) -> char {
    if 'A' <= c && c <= 'Z' {
        (c as u32 + 32) as char
    } else {
        c
    }
}

/// `s`, with every ASCII capital turned into its small letter.
pub open spec fn ascii_lowercase(s: Seq<char>) -> Seq<char> {
    s.map_values(|c: char| ascii_lower(c))
}

/// Calls `str::to_lowercase`. Its result is a function of the text alone; on a
/// text of ASCII characters, the capitals become small letters and nothing else
/// changes.
#[verifier::external_body]
pub(crate) fn to_lower(s: &str) -> (r: String)
    ensures
        r@ == lowercase(s@),
        is_ascii_chars(s@) ==> r@ == ascii_lowercase(s@),
{
    s.to_lowercase()
}

/// Calls `String::from_utf8_lossy`. Its result is a function of the bytes alone;
/// bytes that are valid UTF-8 are decoded, and nothing is replaced.
#[verifier::external_body]
pub(crate) fn to_text(bytes: &[u8]) -> (r: String)
    ensures
        r@ == lossy_text(bytes@),
        valid_utf8(bytes@) ==> r@ == decode_utf8(bytes@),
{
    String::from_utf8_lossy(bytes).into_owned()
}

/// The characters of `s`.
pub fn chars_of(s: &str) -> (r: Vec<char>)
    ensures
        r@ == s@,
{
    let mut r: Vec<char> = Vec::new();
    for c in it: s.chars()
        invariant
            it.seq() == s@,
            r@ == s@.take(it.index() as int),
    {
        r.push(c);
        assert(s@.take(it.index() as int).push(c) =~= s@.take(it.index() + 1));
    }
    assert(s@.take(s@.len() as int) =~= s@);
    r
}

/// The text made of `chars`.
pub fn text_of(chars: &[char]) -> (r: String)
    ensures
        r@ == chars@,
{
    let mut r = String::new();
    let mut i: usize = 0;
    while i < chars.len()
        invariant
            i <= chars.len(),
            r@ == chars@.take(i as int),
        decreases chars.len() - i,
    {
        r.push(chars[i]);
        i += 1;
        assert(chars@.take(i as int) =~= chars@.take(i - 1).push(chars@[i - 1]));
    }
    assert(chars@.take(i as int) =~= chars@);
    r
}

/// Whether the two hold the same characters.
pub fn same_chars(a: &[char], b: &[char]) -> (r: bool)
    ensures
        r == (a@ == b@),
{
    if a.len() != b.len() {
        return false;
    }
    let mut i: usize = 0;
    while i < a.len()
        invariant
            i <= a.len(),
            a.len() == b.len(),
            forall|k: int| 0 <= k < i ==> a@[k] == b@[k],
        decreases a.len() - i,
    {
        if a[i] != b[i] {
            return false;
        }
        i += 1;
    }
    assert(a@ =~= b@);
    true
}

/// The characters with the Unicode property `White_Space`.
pub open spec fn white_space(c: char) -> bool {
    ||| 0x9 <= c as u32 <= 0xD
    ||| c as u32 == 0x20
    ||| c as u32 == 0x85
    ||| c as u32 == 0xA0
    ||| c as u32 == 0x1680
    ||| 0x2000 <= c as u32 <= 0x200A
    ||| c as u32 == 0x2028
    ||| c as u32 == 0x2029
    ||| c as u32 == 0x202F
    ||| c as u32 == 0x205F
    ||| c as u32 == 0x3000
}

/// Whether `c` is white space, in the sense of `char::is_whitespace`.
pub fn is_white_space(c: char) -> (r: bool)
    ensures
        r == white_space(c),
{
    let u: u32 = c as u32;
    (0x9 <= u && u <= 0xD) || u == 0x20 || u == 0x85 || u == 0xA0 || u == 0x1680 || (0x2000 <= u
        && u <= 0x200A) || u == 0x2028 || u == 0x2029 || u == 0x202F || u == 0x205F || u == 0x3000
}

/// Whether `a` and `b` are equal but for the case of ASCII letters.
pub open spec fn equal_ignoring_ascii_case(a: Seq<char>, b: Seq<char>) -> bool {
    ascii_lowercase(a) == ascii_lowercase(b)
}

/// `c` in lower case, if it is an ASCII letter.
fn lower_ascii(c: char) -> (r: char)
    ensures
        r == ascii_lower(c),
{
    if 'A' <= c && c <= 'Z' {
        ((c as u8) + 32u8) as char
    } else {
        c
    }
}

/// Whether `a` and `b` are equal but for the case of ASCII letters.
pub fn eq_ignore_ascii_case(a: &str, b: &str) -> (r: bool)
    ensures
        r == equal_ignoring_ascii_case(a@, b@),
{
    let x = chars_of(a);
    let y = chars_of(b);
    if x.len() != y.len() {
        assert(ascii_lowercase(a@).len() != ascii_lowercase(b@).len());
        return false;
    }
    let mut i: usize = 0;
    while i < x.len()
        invariant
            i <= x.len(),
            x.len() == y.len(),
            x@ == a@,
            y@ == b@,
            forall|k: int| 0 <= k < i ==> ascii_lower(x@[k]) == ascii_lower(y@[k]),
        decreases x.len() - i,
    {
        if lower_ascii(x[i]) != lower_ascii(y[i]) {
            assert(ascii_lowercase(a@)[i as int] != ascii_lowercase(b@)[i as int]);
            return false;
        }
        i += 1;
    }
    assert(ascii_lowercase(a@) =~= ascii_lowercase(b@));
    true
}

/// The decimal digits of `n`.
pub open spec fn decimal(n: nat) -> Seq<char>
    decreases n,
{
    let digit = (48 + n % 10) as char;
    if n < 10 {
        seq![digit]
    } else {
        decimal(n / 10).push(digit)
    }
}

/// `n` in decimal.
pub fn decimal_text(n: usize) -> (r: String)
    ensures
        r@ == decimal(n as nat),
    decreases n,
{
    let digit: char = (48u8 + (n % 10) as u8) as char;
    let mut r = if n < 10 {
        String::new()
    } else {
        decimal_text(n / 10)
    };
    r.push(digit);
    assert(n < 10 ==> r@ =~= seq![digit]);
    r
}

/// Whether all bytes are ASCII.
pub open spec fn ascii_bytes(bytes: Seq<u8>) -> bool {
    forall|i: int| 0 <= i < bytes.len() ==> #[trigger] bytes[i] < 128
}

/// ASCII bytes as text.
pub open spec fn ascii_text(bytes: Seq<u8>) -> Seq<char> {
    bytes.map_values(|b: u8| b as char)
}

/// ASCII bytes are the UTF-8 of the text they spell.
pub proof fn ascii_bytes_decode(bytes: Seq<u8>)
    requires
        ascii_bytes(bytes),
    ensures
        valid_utf8(bytes),
        decode_utf8(bytes) == ascii_text(bytes),
        is_ascii_chars(ascii_text(bytes)),
        encode_utf8(ascii_text(bytes)) == bytes,
{
    let chars = ascii_text(bytes);
    assert forall|i: int| 0 <= i < chars.len() implies '\0' <= #[trigger] chars[i] <= '\u{7f}' by {
        assert(bytes[i] < 128);
    }
    is_ascii_chars_encode_utf8(chars);
    assert(encode_utf8(chars) =~= bytes);
    encode_utf8_valid_utf8(chars);
    encode_utf8_decode_utf8(chars);
}

/// A text takes at least one byte of UTF-8 for each character.
pub proof fn utf8_is_not_shorter(chars: Seq<char>)
    ensures
        chars.len() <= encode_utf8(chars).len(),
    decreases chars.len(),
{
    if chars.len() > 0 {
        utf8_is_not_shorter(chars.drop_first());
    }
}

/// The white space is the tab, the line feed, the vertical tab, the form feed, the
/// carriage return, the blank, and nineteen characters beyond ASCII; no letter, digit
/// or sign is white space.
pub proof fn white_space_is_listed(c: char)
    ensures
        white_space(c) <==> {
            ||| c == '\u{9}' || c == '\u{a}' || c == '\u{b}' || c == '\u{c}' || c == '\u{d}'
            ||| c == ' ' || c == '\u{85}' || c == '\u{a0}' || c == '\u{1680}'
            ||| '\u{2000}' <= c && c <= '\u{200a}'
            ||| c == '\u{2028}' || c == '\u{2029}' || c == '\u{202f}' || c == '\u{205f}'
            ||| c == '\u{3000}'
        },
        is_ascii_chars(seq![c]) && white_space(c) ==> c == ' ' || '\t' <= c && c <= '\r',
        'a' <= c && c <= 'z' || 'A' <= c && c <= 'Z' || '0' <= c && c <= '9' || c == '/' || c
            == '-' || c == '_' || c == '.' || c == ':' ==> !white_space(c),
{
    if is_ascii_chars(seq![c]) {
        assert('\0' <= seq![c][0] <= '\u{7f}');
    }
}

/// Putting a character in lower case changes exactly the letters from `A` to `Z`,
/// each to the letter that stands 32 places further on; what comes out is no capital
/// and stays as it is when it is put in lower case again.
pub proof fn only_capitals_change(c: char)
    ensures
        65 <= c as u32 <= 90 ==> ascii_lower(c) as u32 == c as u32 + 32,
        !(65 <= c as u32 <= 90) ==> ascii_lower(c) == c,
        !(65 <= ascii_lower(c) as u32 <= 90),
        ascii_lower(ascii_lower(c)) == ascii_lower(c),
{
}

/// Putting a text in lower case does so to each character, where it stands.
pub proof fn lower_case_goes_letter_by_letter(a: Seq<char>, b: Seq<char>)
    ensures
        ascii_lowercase(a).len() == a.len(),
        forall|i: int|
            0 <= i < a.len() ==> (#[trigger] ascii_lowercase(a)[i] == a[i] && !(65 <= a[i] as u32
                <= 90)) || (65 <= a[i] as u32 <= 90 && ascii_lowercase(a)[i] as u32 == a[i] as u32
                + 32),
        ascii_lowercase(a + b) == ascii_lowercase(a) + ascii_lowercase(b),
{
    assert(ascii_lowercase(a + b) =~= ascii_lowercase(a) + ascii_lowercase(b));
}

/// Two texts are equal but for the case exactly if they are equally long, and
/// wherever they differ, one holds a capital from `A` to `Z` and the other the same
/// letter 32 places further on.
pub proof fn case_is_all_that_may_differ(a: Seq<char>, b: Seq<char>)
    ensures
        equal_ignoring_ascii_case(a, b) <==> a.len() == b.len() && forall|i: int|
            0 <= i < a.len() ==> {
                ||| #[trigger] a[i] == #[trigger] b[i]
                ||| 65 <= a[i] as u32 <= 90 && b[i] as u32 == a[i] as u32 + 32
                ||| 65 <= b[i] as u32 <= 90 && a[i] as u32 == b[i] as u32 + 32
            },
{
    let (x, y) = (ascii_lowercase(a), ascii_lowercase(b));
    if equal_ignoring_ascii_case(a, b) {
        assert(x.len() == a.len() && y.len() == b.len());
        assert forall|i: int| 0 <= i < a.len() implies {
            ||| #[trigger] a[i] == #[trigger] b[i]
            ||| 65 <= a[i] as u32 <= 90 && b[i] as u32 == a[i] as u32 + 32
            ||| 65 <= b[i] as u32 <= 90 && a[i] as u32 == b[i] as u32 + 32
        } by {
            assert(x[i] == ascii_lower(a[i]));
            assert(y[i] == ascii_lower(b[i]));
            char_u32_cast(ascii_lower(a[i]), ascii_lower(a[i]) as u32);
        }
    }
    if a.len() == b.len() && forall|i: int|
        0 <= i < a.len() ==> {
            ||| #[trigger] a[i] == #[trigger] b[i]
            ||| 65 <= a[i] as u32 <= 90 && b[i] as u32 == a[i] as u32 + 32
            ||| 65 <= b[i] as u32 <= 90 && a[i] as u32 == b[i] as u32 + 32
        } {
        assert forall|i: int| 0 <= i < a.len() implies x[i] == y[i] by {
            assert(x[i] == ascii_lower(a[i]));
            assert(y[i] == ascii_lower(b[i]));
        }
        assert(x =~= y);
    }
}

/// Reading the digits of a number from the left, ten times what was read so far and
/// the next digit on top, gives the number back; all of them are digits, and the
/// first is no zero but for the number zero.
pub proof fn digits_read_back(n: nat)
    ensures
        decimal(n).fold_left(0int, |sum: int, c: char| 10 * sum + (c as int - 48)) == n,
        decimal(n).len() > 0,
        forall|i: int| 0 <= i < decimal(n).len() ==> '0' <= #[trigger] decimal(n)[i] && decimal(
            n,
        )[i] <= '9',
        decimal(n)[0] == '0' ==> n == 0 && decimal(n).len() == 1,
    decreases n,
{
    let read = |sum: int, c: char| 10 * sum + (c as int - 48);
    let digit = (48 + n % 10) as char;
    assert(digit as int == 48 + n % 10);
    if n < 10 {
        assert(decimal(n) =~= seq![digit]);
        reveal_with_fuel(Seq::fold_left, 2);
        assert(decimal(n).drop_last() =~= Seq::<char>::empty());
    } else {
        digits_read_back(n / 10);
        let before = decimal(n / 10);
        assert(decimal(n) == before.push(digit));
        assert(decimal(n).drop_last() =~= before);
        reveal_with_fuel(Seq::fold_left, 2);
        assert(decimal(n).fold_left(0int, read) == read(before.fold_left(0int, read), digit));
        assert(decimal(n)[0] == before[0]);
    }
}

/// Bytes are ASCII exactly if none is above 127, and as text each stands for the
/// character of its number.
pub proof fn ascii_is_below_128(bytes: Seq<u8>)
    ensures
        ascii_bytes(bytes) <==> forall|i: int| 0 <= i < bytes.len() ==> #[trigger] bytes[i] <= 127,
        ascii_text(bytes).len() == bytes.len(),
        forall|i: int|
            0 <= i < bytes.len() ==> #[trigger] ascii_text(bytes)[i] as u32 == bytes[i] as u32,
{
    if forall|i: int| 0 <= i < bytes.len() ==> #[trigger] bytes[i] <= 127 {
        assert forall|i: int| 0 <= i < bytes.len() implies #[trigger] bytes[i] < 128 by {
            assert(bytes[i] <= 127);
        }
    }
}

} // verus!
