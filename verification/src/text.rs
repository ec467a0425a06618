//! Text building blocks: conversions between strings and character
//! sequences, and the hexadecimal and decimal renderings used across the crate.

use vstd::prelude::*;

verus! {

/// Appends one character to a string by `String::push`. The contract claims
/// that the text grows by exactly that character, as the standard library
/// documents.
#[verifier::external_body]
pub(crate) fn push_char(s: &mut String, c: char)
    ensures
        final(s)@ == old(s)@.push(c),
{
    s.push(c)
}

/// The text that `String::from_utf8_lossy` makes of a byte string.
pub uninterp spec fn lossy_text(bytes: Seq<u8>) -> Seq<char>;

/// Decodes bytes as UTF-8 by `String::from_utf8_lossy`, which replaces each
/// invalid sequence by U+FFFD. The contract names the resulting text and
/// claims that well-formed UTF-8 decodes to the text it encodes.
#[verifier::external_body]
fn utf8_lossy(bytes: &[u8]) -> (s: String)
    ensures
        s@ == lossy_text(bytes@),
        vstd::utf8::valid_utf8(bytes@) ==> s@ == vstd::utf8::decode_utf8(bytes@),
{
    String::from_utf8_lossy(bytes).into_owned()
}

/// The text of a byte string read as UTF-8: where the bytes are well-formed,
/// the text that they encode; else that text with U+FFFD in place of each
/// sequence that is not.
pub open spec fn utf8_text(bytes: Seq<u8>) -> Seq<char> {
    if vstd::utf8::valid_utf8(bytes) {
        vstd::utf8::decode_utf8(bytes)
    } else {
        lossy_text(bytes)
    }
}

/// The UTF-8 encoding of a text is read as that text.
pub proof fn lemma_utf8_text_of_encoding(t: Seq<char>)
    ensures
        utf8_text(vstd::utf8::encode_utf8(t)) == t,
{
    vstd::utf8::encode_utf8_valid_utf8(t);
    vstd::utf8::encode_utf8_decode_utf8(t);
}

/// Bytes that number the characters of an ASCII text are read as that text.
pub proof fn lemma_ascii_text(bytes: Seq<u8>, t: Seq<char>)
    requires
        bytes.len() == t.len(),
        forall|i: int| 0 <= i < t.len() ==> '\0' <= #[trigger] t[i] <= '\u{7f}',
        forall|i: int| 0 <= i < t.len() ==> #[trigger] bytes[i] == t[i] as u8,
    ensures
        utf8_text(bytes) == t,
{
    assert(vstd::utf8::is_ascii_chars(t));
    vstd::utf8::is_ascii_chars_encode_utf8(t);
    assert(vstd::utf8::encode_utf8(t) =~= bytes);
    lemma_utf8_text_of_encoding(t);
}

/// Reads a byte string as UTF-8, with U+FFFD in place of what is not.
pub fn utf8_string(bytes: &[u8]) -> (s: String)
    ensures
        s@ == utf8_text(bytes@),
{
    utf8_lossy(bytes)
}

/// The characters of a string, in order.
pub fn chars_of(s: &str) -> (v: Vec<char>)
    ensures
        v@ == s@,
{
    let mut v: Vec<char> = Vec::new();
    for c in it: s.chars()
        invariant
            it.seq() == s@,
            v@ == it.seq().take(it.index() as int),
    {
        v.push(c);
    }
    v
}

/// The string made of the given characters.
pub fn string_of(chars: &[char]) -> (s: String)
    ensures
        s@ == chars@,
{
    let mut s = String::new();
    let mut i: usize = 0;
    while i < chars.len()
        invariant
            i <= chars.len(),
            s@ == chars@.take(i as int),
        decreases chars.len() - i,
    {
        push_char(&mut s, chars[i]);
        i += 1;
    }
    s
}

/// Appends the characters `chars[from..to]` to `s`.
pub fn push_chars(s: &mut String, chars: &[char], from: usize, to: usize)
    requires
        from <= to <= chars.len(),
    ensures
        final(s)@ == old(s)@ + chars@.subrange(from as int, to as int),
{
    let mut i: usize = from;
    while i < to
        invariant
            from <= i <= to <= chars.len(),
            s@ == old(s)@ + chars@.subrange(from as int, i as int),
        decreases to - i,
    {
        push_char(s, chars[i]);
        i += 1;
    }
}

/// The texts of a list of strings, string by string.
pub open spec fn names_view(names: Seq<String>) -> Seq<Seq<char>> {
    Seq::new(names.len(), |i: int| names[i]@)
}

/// The first character of a string, if it has one.
pub fn first_char(s: &str) -> (r: Option<char>)
    ensures
        match r {
            Some(c) => s@.len() > 0 && c == s@[0],
            None => s@.len() == 0,
        },
{
    let chars = chars_of(s);
    if chars.len() > 0 {
        Some(chars[0])
    } else {
        None
    }
}

/// Whether two strings hold the same text.
pub fn str_eq(a: &str, b: &str) -> (r: bool)
    ensures
        r == (a@ == b@),
{
    let x = String::from_str(a);
    let y = String::from_str(b);
    x == y
}

/// The lowercase hexadecimal digit for a value below sixteen.
pub open spec fn hex_digit(n: int) -> char {
    if n < 10 {
        (n + 48) as char
    } else {
        (n + 87) as char
    }
}

/// The two lowercase hexadecimal digits of a byte.
pub open spec fn hex_byte(b: u8) -> Seq<char> {
    seq![hex_digit(b as int / 16), hex_digit(b as int % 16)]
}

/// The lowercase hexadecimal rendering of a byte string, two digits per byte.
pub open spec fn hex_text(bytes: Seq<u8>) -> Seq<char>
    decreases bytes.len(),
{
    if bytes.len() == 0 {
        Seq::empty()
    } else {
        hex_text(bytes.drop_last()) + hex_byte(bytes.last())
    }
}

/// The decimal rendering of a natural number, without leading zeros.
pub open spec fn decimal_text(n: nat) -> Seq<char>
    decreases n,
{
    if n < 10 {
        seq![(n + 48) as char]
    } else {
        decimal_text(n / 10).push((n % 10 + 48) as char)
    }
}

/// The hexadecimal rendering of a natural number, without leading zeros.
pub open spec fn hex_number_text(n: nat) -> Seq<char>
    decreases n,
{
    if n < 16 {
        seq![hex_digit(n as int)]
    } else {
        hex_number_text(n / 16).push(hex_digit(n as int % 16))
    }
}

/// The lowercase hexadecimal digit for a value below sixteen.
pub fn hex_digit_char(n: u8) -> (c: char)
    requires
        n < 16,
    ensures
        c == hex_digit(n as int),
{
    if n < 10 {
        (n + 48) as char
    } else {
        (n + 87) as char
    }
}

/// Appends the two hexadecimal digits of `b` to `s`.
pub fn push_hex_byte(s: &mut String, b: u8)
    ensures
        final(s)@ == old(s)@ + hex_byte(b),
{
    push_char(s, hex_digit_char(b / 16));
    push_char(s, hex_digit_char(b % 16));
}

/// Appends the hexadecimal rendering of `bytes` to `s`.
pub fn push_hex(s: &mut String, bytes: &[u8])
    ensures
        final(s)@ == old(s)@ + hex_text(bytes@),
{
    let mut i: usize = 0;
    while i < bytes.len()
        invariant
            i <= bytes.len(),
            s@ == old(s)@ + hex_text(bytes@.take(i as int)),
        decreases bytes.len() - i,
    {
        proof {
            let next = bytes@.take(i + 1);
            assert(next.drop_last() == bytes@.take(i as int));
            assert(next.last() == bytes@[i as int]);
        }
        push_hex_byte(s, bytes[i]);
        i += 1;
    }
    proof {
        assert(bytes@.take(bytes.len() as int) == bytes@);
    }
}

/// Appends the decimal rendering of `n` to `s`.
pub fn push_decimal(s: &mut String, n: u64)
    ensures
        final(s)@ == old(s)@ + decimal_text(n as nat),
    decreases n,
{
    if n < 10 {
        push_char(s, ((n as u8) + 48) as char);
    } else {
        push_decimal(s, n / 10);
        push_char(s, (((n % 10) as u8) + 48) as char);
    }
}

/// Appends the hexadecimal rendering of `n` to `s`.
pub fn push_hex_number(s: &mut String, n: u64)
    ensures
        final(s)@ == old(s)@ + hex_number_text(n as nat),
    decreases n,
{
    if n < 16 {
        push_char(s, hex_digit_char(n as u8));
    } else {
        push_hex_number(s, n / 16);
        push_char(s, hex_digit_char((n % 16) as u8));
    }
}

/// The index of the first `c` in `t`.
pub open spec fn char_index(t: Seq<char>, c: char) -> Option<int>
    decreases t.len(),
{
    if t.len() == 0 {
        None
    } else if t[0] == c {
        Some(0)
    } else {
        match char_index(t.drop_first(), c) {
            Some(i) => Some(i + 1),
            None => None,
        }
    }
}

/// Where `c` does not stand in `a`, it first stands in `a`, `c`, `b` right
/// behind `a`; and where it stands neither in `a` nor in `b`, it does not
/// stand in `a`, `b`.
pub proof fn lemma_char_index_concat(a: Seq<char>, c: char, b: Seq<char>)
    requires
        char_index(a, c) is None,
    ensures
        char_index(a + seq![c] + b, c) == Some(a.len() as int),
        char_index(b, c) is None ==> char_index(a + b, c) is None,
    decreases a.len(),
{
    if a.len() == 0 {
        assert(a + seq![c] + b =~= seq![c] + b);
        assert(a + b =~= b);
    } else {
        let rest = a.drop_first();
        lemma_char_index_concat(rest, c, b);
        assert((a + seq![c] + b).drop_first() =~= rest + seq![c] + b);
        assert((a + b).drop_first() =~= rest + b);
    }
}

/// What the first place of `c` in a text is: `c` stands there and nowhere
/// before it; and where there is none, `c` stands nowhere in the text.
pub proof fn lemma_char_index(t: Seq<char>, c: char)
    ensures
        match char_index(t, c) {
            Some(i) => 0 <= i < t.len() && t[i] == c && forall|j: int| 0 <= j < i ==> t[j] != c,
            None => forall|j: int| 0 <= j < t.len() ==> t[j] != c,
        },
    decreases t.len(),
{
    if t.len() > 0 && t[0] != c {
        let rest = t.drop_first();
        lemma_char_index(rest, c);
        match char_index(rest, c) {
            Some(i) => {
                assert forall|j: int| 0 <= j < i + 1 implies t[j] != c by {
                    if j > 0 {
                        assert(rest[j - 1] != c);
                    }
                }
            },
            None => {
                assert forall|j: int| 0 <= j < t.len() implies t[j] != c by {
                    if j > 0 {
                        assert(rest[j - 1] != c);
                    }
                }
            },
        }
    }
}

/// A text in which `c` stands nowhere has no first place of `c`.
pub proof fn lemma_char_absent(t: Seq<char>, c: char)
    requires
        forall|j: int| 0 <= j < t.len() ==> t[j] != c,
    ensures
        char_index(t, c) is None,
{
    lemma_char_index(t, c);
}

/// Where `c` first stands in a text, given where it first stands behind the
/// first `by` characters.
pub open spec fn moved(found: Option<int>, by: int) -> Option<int> {
    match found {
        Some(i) => Some(i + by),
        None => None,
    }
}

/// The index of the first `c` in `chars[from..to]`, counted from `from`.
pub fn find_char(chars: &[char], from: usize, to: usize, c: char) -> (r: Option<usize>)
    requires
        from <= to <= chars@.len(),
    ensures
        match r {
            Some(i) => from <= i < to && chars@[i as int] == c && char_index(
                chars@.subrange(from as int, to as int),
                c,
            ) == Some(i - from),
            None => char_index(chars@.subrange(from as int, to as int), c) is None,
        },
{
    let ghost t = chars@.subrange(from as int, to as int);
    let mut i: usize = from;
    proof {
        assert(t.skip(0) == t);
    }
    while i < to
        invariant
            from <= i <= to <= chars@.len(),
            t == chars@.subrange(from as int, to as int),
            char_index(t, c) == moved(char_index(t.skip(i - from), c), i - from),
        decreases to - i,
    {
        proof {
            assert(t.skip(i - from).drop_first() == t.skip(i - from + 1));
            assert(t.skip(i - from)[0] == chars@[i as int]);
        }
        if chars[i] == c {
            return Some(i);
        }
        i += 1;
    }
    None
}

/// Whether a character is white space, as Unicode defines it.
pub open spec fn is_space(c: char) -> bool {
    let u = c as u32;
    (0x09 <= u <= 0x0d) || u == 0x20 || u == 0x85 || u == 0xa0 || u == 0x1680 || (0x2000 <= u
        <= 0x200a) || u == 0x2028 || u == 0x2029 || u == 0x202f || u == 0x205f || u == 0x3000
}

/// Whether a character is white space, as Unicode defines it.
pub fn space_char(c: char) -> (r: bool)
    ensures
        r == is_space(c),
{
    let u = c as u32;
    (0x09 <= u && u <= 0x0d) || u == 0x20 || u == 0x85 || u == 0xa0 || u == 0x1680 || (0x2000 <= u
        && u <= 0x200a) || u == 0x2028 || u == 0x2029 || u == 0x202f || u == 0x205f || u == 0x3000
}

/// A text without the white space that it starts with.
pub open spec fn trim_start(t: Seq<char>) -> Seq<char>
    decreases t.len(),
{
    if t.len() > 0 && is_space(t[0]) {
        trim_start(t.drop_first())
    } else {
        t
    }
}

/// A text without the white space that it ends with.
pub open spec fn trim_end(t: Seq<char>) -> Seq<char>
    decreases t.len(),
{
    if t.len() > 0 && is_space(t.last()) {
        trim_end(t.drop_last())
    } else {
        t
    }
}

/// A text without the white space around it.
pub open spec fn trim(t: Seq<char>) -> Seq<char> {
    trim_end(trim_start(t))
}

/// How many characters of white space a text starts with.
pub open spec fn leading_space(t: Seq<char>) -> int {
    t.len() - trim_start(t).len()
}

/// A trimmed text is the stretch of the text behind its leading white
/// space, and ends with no white space.
pub proof fn lemma_trim(t: Seq<char>)
    ensures
        trim(t).len() > 0 ==> !is_space(trim(t).last()),
        0 <= leading_space(t),
        leading_space(t) + trim(t).len() <= t.len(),
        trim(t) == t.subrange(leading_space(t), leading_space(t) + trim(t).len()),
{
    lemma_trim_start(t);
    let u = trim_start(t);
    lemma_trim_end(u);
    let a = leading_space(t);
    assert(trim(t) =~= t.subrange(a, a + trim(t).len()));
}

proof fn lemma_trim_start(t: Seq<char>)
    ensures
        trim_start(t).len() <= t.len(),
        trim_start(t) == t.skip(t.len() - trim_start(t).len()),
    decreases t.len(),
{
    if t.len() > 0 && is_space(t[0]) {
        let rest = t.drop_first();
        lemma_trim_start(rest);
        assert(rest.skip(rest.len() - trim_start(rest).len()) =~= t.skip(
            t.len() - trim_start(rest).len(),
        ));
    } else {
        assert(t.skip(0) =~= t);
    }
}

proof fn lemma_trim_end(t: Seq<char>)
    ensures
        trim_end(t).len() <= t.len(),
        trim_end(t) == t.take(trim_end(t).len() as int),
        trim_end(t).len() > 0 ==> !is_space(trim_end(t).last()),
    decreases t.len(),
{
    if t.len() > 0 && is_space(t.last()) {
        let rest = t.drop_last();
        lemma_trim_end(rest);
        assert(rest.take(trim_end(rest).len() as int) =~= t.take(trim_end(rest).len() as int));
    } else {
        assert(t.take(t.len() as int) =~= t);
    }
}

/// The bounds of `chars[from..to]` without the white space around it.
pub fn trim_range(chars: &[char], from: usize, to: usize) -> (r: (usize, usize))
    requires
        from <= to <= chars@.len(),
    ensures
        from <= r.0 <= r.1 <= to,
        chars@.subrange(r.0 as int, r.1 as int) == trim(chars@.subrange(from as int, to as int)),
{
    let ghost t = chars@.subrange(from as int, to as int);
    let mut a: usize = from;
    while a < to && space_char(chars[a])
        invariant
            from <= a <= to <= chars@.len(),
            trim_start(chars@.subrange(from as int, to as int)) == trim_start(
                chars@.subrange(a as int, to as int),
            ),
        decreases to - a,
    {
        proof {
            assert(chars@.subrange(a as int, to as int).drop_first() == chars@.subrange(
                a + 1,
                to as int,
            ));
        }
        a += 1;
    }
    let mut b: usize = to;
    while b > a && space_char(chars[b - 1])
        invariant
            a <= b <= to <= chars@.len(),
            trim_end(chars@.subrange(a as int, to as int)) == trim_end(
                chars@.subrange(a as int, b as int),
            ),
        decreases b - a,
    {
        proof {
            assert(chars@.subrange(a as int, b as int).drop_last() == chars@.subrange(
                a as int,
                b - 1,
            ));
        }
        b -= 1;
    }
    proof {
        let s = chars@.subrange(a as int, to as int);
        assert(trim_start(s) == s);
        let u = chars@.subrange(a as int, b as int);
        assert(trim_end(u) == u);
    }
    (a, b)
}

/// The lowercase form of an ASCII capital letter; any other character as it is.
pub open spec fn ascii_lower(c: char) -> char {
    if 'A' <= c && c <= 'Z' {
        ((c as u8) + 32) as char
    } else {
        c
    }
}

/// A text with its ASCII capital letters in lowercase.
pub open spec fn lower_text(t: Seq<char>) -> Seq<char> {
    Seq::new(t.len(), |i: int| ascii_lower(t[i]))
}

/// The lowercase form of an ASCII capital letter; any other character as it is.
pub fn lower_char(c: char) -> (r: char)
    ensures
        r == ascii_lower(c),
{
    if 'A' <= c && c <= 'Z' {
        ((c as u8) + 32) as char
    } else {
        c
    }
}

/// A string with its ASCII capital letters in lowercase.
pub fn to_ascii_lower(s: &str) -> (r: String)
    ensures
        r@ == lower_text(s@),
{
    let chars = chars_of(s);
    let mut out: Vec<char> = Vec::new();
    let mut i: usize = 0;
    while i < chars.len()
        invariant
            i <= chars@.len(),
            out@ == lower_text(chars@.take(i as int)),
        decreases chars.len() - i,
    {
        let lower = lower_char(chars[i]);
        out.push(lower);
        i += 1;
        proof {
            assert(lower_text(chars@.take(i as int)) =~= lower_text(chars@.take(i - 1)).push(lower));
        }
    }
    proof {
        assert(chars@.take(chars@.len() as int) == chars@);
    }
    string_of(out.as_slice())
}

} // verus!
