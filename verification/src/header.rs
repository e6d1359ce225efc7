//! The header that poses a puzzle: `1:<easiness>:<timestamp>:<token>`, where the
//! token is 64 bytes long and blanks around the whole are of no account.

use reqwest::header::{HeaderValue, ToStrError};
use vstd::prelude::*;
use vstd::utf8::encode_utf8;

verus! {

/// Whether a character has the Unicode property `White_Space`.
pub open spec fn is_blank(c: char) -> bool {
    ||| '\u{9}' <= c <= '\u{d}'
    ||| c == ' '
    ||| c == '\u{85}'
    ||| c == '\u{a0}'
    ||| c == '\u{1680}'
    ||| '\u{2000}' <= c <= '\u{200a}'
    ||| c == '\u{2028}'
    ||| c == '\u{2029}'
    ||| c == '\u{202f}'
    ||| c == '\u{205f}'
    ||| c == '\u{3000}'
}

/// A text without the blanks at its start.
pub open spec fn trim_start(s: Seq<char>) -> Seq<char>
    decreases s.len(),
{
    if s.len() > 0 && is_blank(s[0]) {
        trim_start(s.drop_first())
    } else {
        s
    }
}

/// A text without the blanks at its end.
pub open spec fn trim_end(s: Seq<char>) -> Seq<char>
    decreases s.len(),
{
    if s.len() > 0 && is_blank(s.last()) {
        trim_end(s.drop_last())
    } else {
        s
    }
}

/// A text without the blanks around it.
pub open spec fn trimmed(s: Seq<char>) -> Seq<char> {
    trim_end(trim_start(s))
}

/// How many characters come before the first colon; all, where there is none.
pub open spec fn field_len(s: Seq<char>) -> nat
    decreases s.len(),
{
    if s.len() == 0 || s[0] == ':' {
        0
    } else {
        1 + field_len(s.drop_first())
    }
}

/// The text before the first colon.
pub open spec fn field(s: Seq<char>) -> Seq<char> {
    s.take(field_len(s) as int)
}

/// The text after the first colon, where there is one.
pub open spec fn rest(s: Seq<char>) -> Option<Seq<char>> {
    if field_len(s) < s.len() {
        Some(s.skip(field_len(s) as int + 1))
    } else {
        None
    }
}

pub open spec fn is_digit(c: char) -> bool {
    '0' <= c <= '9'
}

/// The number that a row of decimal digits stands for.
pub open spec fn decimal_value(s: Seq<char>) -> nat
    decreases s.len(),
{
    if s.len() == 0 {
        0
    } else {
        10 * decimal_value(s.drop_last()) + (s.last() as nat - '0' as nat) as nat
    }
}

/// Whether a text is a row of decimal digits, at least one.
pub open spec fn is_number(s: Seq<char>) -> bool {
    s.len() > 0 && forall|i: int| 0 <= i < s.len() ==> is_digit(#[trigger] s[i])
}

/// A text without the plus sign that it may start with.
pub open spec fn without_plus(s: Seq<char>) -> Seq<char> {
    if s.len() > 0 && s[0] == '+' {
        s.drop_first()
    } else {
        s
    }
}

/// The number from 0 to 255 that a text stands for: decimal digits, at least
/// one, with leading zeros and a plus sign allowed.
pub open spec fn decimal_u8(s: Seq<char>) -> Option<u8> {
    if is_number(without_plus(s)) && decimal_value(without_plus(s)) <= 255 {
        Some(decimal_value(without_plus(s)) as u8)
    } else {
        None
    }
}

/// The token and the easiness in the text of a header.
pub open spec fn challenge(text: Seq<char>) -> Option<(Seq<char>, u8)> {
    let line = trimmed(text);
    match rest(line) {
        Some(line1) => match rest(line1) {
            Some(line2) => match rest(line2) {
                Some(token) => match decimal_u8(field(line1)) {
                    Some(easiness) => if field(line) == seq!['1'] && encode_utf8(token).len() == 64 {
                        Some((token, easiness))
                    } else {
                        None
                    },
                    None => None,
                },
                None => None,
            },
            None => None,
        },
        None => None,
    }
}

/// A token and an easiness with the token's text in place of its string.
pub open spec fn challenge_view(found: Option<(String, u8)>) -> Option<(Seq<char>, u8)> {
    match found {
        Some((token, easiness)) => Some((token@, easiness)),
        None => None,
    }
}

/// An HTTP header value, as `http` holds it.
#[verifier::external_type_specification]
#[verifier::external_body]
pub struct ExHeaderValue(HeaderValue);

/// The reason for which a header value is not text, as `http` gives it.
#[verifier::external_type_specification]
#[verifier::external_body]
pub struct ExToStrError(ToStrError);

/// The bytes that a header value holds.
pub uninterp spec fn header_bytes(value: HeaderValue) -> Seq<u8>;

/// Whether all bytes are visible ASCII, spaces or tabs.
pub open spec fn is_visible_ascii(bytes: Seq<u8>) -> bool {
    forall|i: int| 0 <= i < bytes.len() ==> 32 <= #[trigger] bytes[i] < 127 || bytes[i] == 9
}

/// ASCII bytes as text.
pub open spec fn ascii_text(bytes: Seq<u8>) -> Seq<char> {
    Seq::new(bytes.len(), |i: int| bytes[i] as char)
}

/// `HeaderValue::to_str`. Taken on trust: it gives the bytes of the value as
/// text exactly where all of them are visible ASCII, spaces or tabs.
pub assume_specification[ HeaderValue::to_str ](value: &HeaderValue) -> (text: Result<
    &str,
    ToStrError,
>)
    ensures
        match text {
            Ok(s) => is_visible_ascii(header_bytes(*value)) && s@ == ascii_text(
                header_bytes(*value),
            ),
            Err(_) => !is_visible_ascii(header_bytes(*value)),
        },
;

fn is_white_space(c: char) -> (r: bool)
    ensures
        r == is_blank(c),
{
    ('\u{9}' <= c && c <= '\u{d}') || c == ' ' || c == '\u{85}' || c == '\u{a0}' || c == '\u{1680}'
        || ('\u{2000}' <= c && c <= '\u{200a}') || c == '\u{2028}' || c == '\u{2029}' || c
        == '\u{202f}' || c == '\u{205f}' || c == '\u{3000}'
}

/// The characters of a text, one by one.
fn text_chars(text: &str) -> (chars: Vec<char>)
    ensures
        chars@ == text@,
{
    let mut chars: Vec<char> = Vec::new();
    for c in it: text.chars()
        invariant
            chars@ == it.seq().take(it.index() as int),
            it.seq() == text@,
    {
        chars.push(c);
    }
    assert(chars@ =~= text@);
    chars
}

/// The bounds of a text without the blanks around it.
fn trimmed_bounds(chars: &Vec<char>) -> (bounds: (usize, usize))
    ensures
        bounds.0 <= bounds.1 <= chars@.len(),
        trimmed(chars@) == chars@.subrange(bounds.0 as int, bounds.1 as int),
{
    let mut start: usize = 0;
    let mut end: usize = chars.len();
    assert(chars@.subrange(0, end as int) =~= chars@);
    while start < end && is_white_space(chars[start])
        invariant
            start <= end == chars@.len(),
            trim_start(chars@) == trim_start(chars@.subrange(start as int, end as int)),
        decreases end - start,
    {
        assert(chars@.subrange(start as int, end as int).drop_first() =~= chars@.subrange(
            start + 1,
            end as int,
        ));
        start = start + 1;
    }
    assert(trim_start(chars@) == chars@.subrange(start as int, end as int));
    while end > start && is_white_space(chars[end - 1])
        invariant
            start <= end <= chars@.len(),
            trimmed(chars@) == trim_end(chars@.subrange(start as int, end as int)),
        decreases end,
    {
        assert(chars@.subrange(start as int, end as int).drop_last() =~= chars@.subrange(
            start as int,
            end - 1,
        ));
        end = end - 1;
    }
    (start, end)
}

/// The position of the first colon from `from` on; `end`, where there is none.
fn find_colon(chars: &Vec<char>, from: usize, end: usize) -> (at: usize)
    requires
        from <= end <= chars@.len(),
    ensures
        from <= at <= end,
        at == from + field_len(chars@.subrange(from as int, end as int)),
{
    let mut at: usize = from;
    while at < end && chars[at] != ':'
        invariant
            from <= at <= end <= chars@.len(),
            field_len(chars@.subrange(from as int, end as int)) == (at - from) + field_len(
                chars@.subrange(at as int, end as int),
            ),
        decreases end - at,
    {
        assert(chars@.subrange(at as int, end as int).drop_first() =~= chars@.subrange(
            at + 1,
            end as int,
        ));
        at = at + 1;
    }
    at
}

/// Reads a number from 0 to 255.
fn parse_u8(chars: &Vec<char>, from: usize, end: usize) -> (number: Option<u8>)
    requires
        from <= end <= chars@.len(),
    ensures
        number == decimal_u8(chars@.subrange(from as int, end as int)),
{
    let ghost field = chars@.subrange(from as int, end as int);
    let start: usize = if from < end && chars[from] == '+' {
        from + 1
    } else {
        from
    };
    let ghost digits = chars@.subrange(start as int, end as int);
    assert(start > from ==> field.drop_first() =~= digits);
    if start == end {
        return None;
    }
    let mut value: u32 = 0;
    let mut at: usize = start;
    assert(digits.take(0) =~= Seq::<char>::empty());
    while at < end
        invariant
            start <= at <= end <= chars@.len(),
            start < end,
            digits == chars@.subrange(start as int, end as int),
            forall|i: int| 0 <= i < at - start ==> is_digit(#[trigger] digits[i]),
            value <= 256,
            value <= 255 ==> value == decimal_value(digits.take(at - start)),
            value == 256 ==> decimal_value(digits.take(at - start)) > 255,
            field == chars@.subrange(from as int, end as int),
            digits == without_plus(field),
        decreases end - at,
    {
        let c: char = chars[at];
        assert(c == digits[at - start]);
        if !('0' <= c && c <= '9') {
            assert(!is_digit(digits[at - start]));
            return None;
        }
        assert(digits.take(at + 1 - start).drop_last() =~= digits.take(at - start));
        let digit: u32 = c as u32 - 48;
        if value <= 255 {
            let next: u32 = 10 * value + digit;
            value = if next <= 255 {
                next
            } else {
                256
            };
        }
        at = at + 1;
    }
    assert(digits.take(end - start) =~= digits);
    if value <= 255 {
        Some(value as u8)
    } else {
        None
    }
}

/// Reads the token and the easiness from the text of a header.
pub fn parse_challenge(text: &str) -> (found: Option<(String, u8)>)
    ensures
        challenge_view(found) == challenge(text@),
        match found {
            Some((token, easiness)) => challenge(text@) == Some((token@, easiness)),
            None => challenge(text@) is None,
        },
{
    let chars: Vec<char> = text_chars(text);
    let (start, end) = trimmed_bounds(&chars);
    let ghost line = chars@.subrange(start as int, end as int);

    let colon1: usize = find_colon(&chars, start, end);
    if colon1 == end {
        return None;
    }
    let ghost line1 = chars@.subrange(colon1 + 1, end as int);
    assert(rest(line) == Some(line1)) by {
        assert(line.skip(colon1 + 1 - start) =~= line1);
    }

    let colon2: usize = find_colon(&chars, colon1 + 1, end);
    if colon2 == end {
        return None;
    }
    let ghost line2 = chars@.subrange(colon2 + 1, end as int);
    assert(rest(line1) == Some(line2)) by {
        assert(line1.skip(colon2 - colon1) =~= line2);
    }

    let colon3: usize = find_colon(&chars, colon2 + 1, end);
    if colon3 == end {
        return None;
    }
    assert(rest(line2) == Some(chars@.subrange(colon3 + 1, end as int))) by {
        assert(line2.skip(colon3 - colon2) =~= chars@.subrange(colon3 + 1, end as int));
    }

    assert(field(line) =~= chars@.subrange(start as int, colon1 as int));
    assert(field(line1) =~= chars@.subrange(colon1 + 1, colon2 as int));
    if colon1 - start != 1 || chars[start] != '1' {
        assert(field(line) != seq!['1']) by {
            if field(line) == seq!['1'] {
                assert(field(line).len() == 1);
                assert(field(line)[0] == '1');
            }
        }
        return None;
    }
    assert(field(line) =~= seq!['1']);
    match parse_u8(&chars, colon1 + 1, colon2) {
        Some(easiness) => {
            let token: &str = text.substring_char(colon3 + 1, end);
            if token.as_bytes().len() == 64 {
                Some((token.to_owned(), easiness))
            } else {
                None
            }
        },
        None => None,
    }
}

/// Reads the token and the easiness from a header value.
pub fn parse_hashcash_header(value: &HeaderValue) -> (found: Option<(String, u8)>)
    ensures
        challenge_view(found) == if is_visible_ascii(header_bytes(*value)) {
            challenge(ascii_text(header_bytes(*value)))
        } else {
            None
        },
        match found {
            Some((token, easiness)) => {
                &&& is_visible_ascii(header_bytes(*value))
                &&& challenge(ascii_text(header_bytes(*value))) == Some((token@, easiness))
            },
            None => is_visible_ascii(header_bytes(*value)) ==> challenge(
                ascii_text(header_bytes(*value)),
            ) is None,
        },
{
    match value.to_str() {
        Ok(text) => parse_challenge(text),
        Err(_) => None,
    }
}

/// A header line with its fields in place.
pub open spec fn challenge_line(
    easiness: Seq<char>,
    timestamp: Seq<char>,
    token: Seq<char>,
) -> Seq<char> {
    seq!['1', ':'] + easiness + seq![':'] + timestamp + seq![':'] + token
}

/// Whether a text is a header line, up to blanks around it, with a token and an
/// easiness in it: the fields before the token hold no colon, the easiness is a
/// number from 0 to 255, and the token is 64 bytes long.
pub open spec fn is_challenge(text: Seq<char>, token: Seq<char>, easiness: u8) -> bool {
    exists|number: Seq<char>, timestamp: Seq<char>|
        {
            &&& !number.contains(':')
            &&& !timestamp.contains(':')
            &&& trimmed(text) == #[trigger] challenge_line(number, timestamp, token)
            &&& decimal_u8(number) == Some(easiness)
            &&& encode_utf8(token).len() == 64
        }
}

/// The text before the first colon holds none, and the colon follows it.
proof fn lemma_field(s: Seq<char>)
    ensures
        field_len(s) <= s.len(),
        !field(s).contains(':'),
        field_len(s) < s.len() ==> s[field_len(s) as int] == ':',
        field_len(s) < s.len() ==> s == field(s) + seq![':'] + s.skip(field_len(s) as int + 1),
    decreases s.len(),
{
    if s.len() > 0 && s[0] != ':' {
        lemma_field(s.drop_first());
        let n = field_len(s.drop_first());
        assert(field(s) =~= seq![s[0]] + field(s.drop_first()));
        assert forall|i: int| 0 <= i < field(s).len() implies field(s)[i] != ':' by {
            if i > 0 {
                assert(field(s.drop_first())[i - 1] != ':') by {
                    assert(field(s.drop_first()).contains(field(s.drop_first())[i - 1]));
                }
            }
        }
    }
    if field_len(s) < s.len() {
        assert(s =~= field(s) + seq![':'] + s.skip(field_len(s) as int + 1));
    }
}

/// A text without colons, then a colon, is the first field.
proof fn lemma_field_of_concat(first: Seq<char>, tail: Seq<char>)
    requires
        !first.contains(':'),
    ensures
        field(first + seq![':'] + tail) == first,
        rest(first + seq![':'] + tail) == Some(tail),
    decreases first.len(),
{
    let s = first + seq![':'] + tail;
    if first.len() == 0 {
        assert(s[0] == ':');
    } else {
        assert(first.contains(first[0]));
        let shorter = first.drop_first();
        assert forall|i: int| 0 <= i < shorter.len() implies shorter[i] != ':' by {
            assert(first.contains(first[i + 1]));
        }
        lemma_field_of_concat(shorter, tail);
        assert(s.drop_first() =~= shorter + seq![':'] + tail);
        lemma_field(s.drop_first());
        lemma_field(shorter + seq![':'] + tail);
        assert(field(shorter + seq![':'] + tail).len() == shorter.len());
    }
    assert(field(s) =~= first);
    assert(s.skip(first.len() as int + 1) =~= tail);
}

/// What a header is read as, put together again, is its trimmed text.
proof fn lemma_challenge_parts(text: Seq<char>, token: Seq<char>, easiness: u8)
    requires
        challenge(text) == Some((token, easiness)),
    ensures
        is_challenge(text, token, easiness),
{
    let line = trimmed(text);
    let line1 = rest(line)->0;
    let line2 = rest(line1)->0;
    lemma_field(line);
    lemma_field(line1);
    lemma_field(line2);
    assert(line =~= challenge_line(field(line1), field(line2), token));
}

/// A header line is read as its parts.
proof fn lemma_challenge_of_parts(
    text: Seq<char>,
    number: Seq<char>,
    timestamp: Seq<char>,
    token: Seq<char>,
    easiness: u8,
)
    requires
        !number.contains(':'),
        !timestamp.contains(':'),
        trimmed(text) == challenge_line(number, timestamp, token),
        decimal_u8(number) == Some(easiness),
        encode_utf8(token).len() == 64,
    ensures
        challenge(text) == Some((token, easiness)),
{
    let line2 = timestamp + seq![':'] + token;
    let line1 = number + seq![':'] + line2;
    assert(trimmed(text) =~= seq!['1'] + seq![':'] + line1);
    lemma_field_of_concat(seq!['1'], line1);
    lemma_field_of_concat(number, line2);
    lemma_field_of_concat(timestamp, token);
}

/// Reading a header finds a token and an easiness exactly where the text is a
/// header line with these in it.
pub proof fn law_challenge_format(text: Seq<char>, token: Seq<char>, easiness: u8)
    ensures
        challenge(text) == Some((token, easiness)) <==> is_challenge(text, token, easiness),
{
    if challenge(text) == Some((token, easiness)) {
        lemma_challenge_parts(text, token, easiness);
    }
    if is_challenge(text, token, easiness) {
        let (number, timestamp) = choose|number: Seq<char>, timestamp: Seq<char>|
            {
                &&& !number.contains(':')
                &&& !timestamp.contains(':')
                &&& trimmed(text) == #[trigger] challenge_line(number, timestamp, token)
                &&& decimal_u8(number) == Some(easiness)
                &&& encode_utf8(token).len() == 64
            };
        lemma_challenge_of_parts(text, number, timestamp, token, easiness);
    }
}

/// Blanks in front of a text do not count at its start.
proof fn lemma_trim_start_blanks(blanks: Seq<char>, s: Seq<char>)
    requires
        forall|i: int| 0 <= i < blanks.len() ==> is_blank(#[trigger] blanks[i]),
    ensures
        trim_start(blanks + s) == trim_start(s),
    decreases blanks.len(),
{
    if blanks.len() > 0 {
        lemma_trim_start_blanks(blanks.drop_first(), s);
        assert((blanks + s)[0] == blanks[0]);
        assert((blanks + s).drop_first() =~= blanks.drop_first() + s);
    } else {
        assert(blanks + s =~= s);
    }
}

/// Blanks behind a text do not count at its end.
proof fn lemma_trim_end_blanks(s: Seq<char>, blanks: Seq<char>)
    requires
        forall|i: int| 0 <= i < blanks.len() ==> is_blank(#[trigger] blanks[i]),
    ensures
        trim_end(s + blanks) == trim_end(s),
    decreases blanks.len(),
{
    if blanks.len() > 0 {
        lemma_trim_end_blanks(s, blanks.drop_last());
        assert((s + blanks).last() == blanks.last());
        assert((s + blanks).drop_last() =~= s + blanks.drop_last());
    } else {
        assert(s + blanks =~= s);
    }
}

/// What comes behind a text stays behind it when its start is trimmed, unless
/// the text is blank.
proof fn lemma_trim_start_concat(s: Seq<char>, tail: Seq<char>)
    ensures
        trim_start(s).len() == 0 || trim_start(s + tail) == trim_start(s) + tail,
        trim_start(s).len() == 0 ==> trim_start(s + tail) == trim_start(tail),
    decreases s.len(),
{
    if s.len() == 0 {
        assert(s + tail =~= tail);
    } else {
        assert((s + tail)[0] == s[0]);
        if is_blank(s[0]) {
            lemma_trim_start_concat(s.drop_first(), tail);
            assert((s + tail).drop_first() =~= s.drop_first() + tail);
        }
    }
}

/// Trimming takes away the blanks around a text, whatever the text.
proof fn lemma_trimmed_blanks_around(before: Seq<char>, text: Seq<char>, after: Seq<char>)
    requires
        forall|i: int| 0 <= i < before.len() ==> is_blank(#[trigger] before[i]),
        forall|i: int| 0 <= i < after.len() ==> is_blank(#[trigger] after[i]),
    ensures
        trimmed(before + text + after) == trimmed(text),
{
    assert(before + text + after =~= before + (text + after));
    lemma_trim_start_blanks(before, text + after);
    lemma_trim_start_concat(text, after);
    if trim_start(text).len() == 0 {
        lemma_trim_start_blanks(after, Seq::<char>::empty());
        assert(after + Seq::<char>::empty() =~= after);
        assert(trim_start(text) =~= trim_start(after));
    } else {
        lemma_trim_end_blanks(trim_start(text), after);
    }
}

/// Blanks around the text of a header are of no account.
pub proof fn law_blanks_around(before: Seq<char>, text: Seq<char>, after: Seq<char>)
    requires
        forall|i: int| 0 <= i < before.len() ==> is_blank(#[trigger] before[i]),
        forall|i: int| 0 <= i < after.len() ==> is_blank(#[trigger] after[i]),
    ensures
        challenge(before + text + after) == challenge(text),
{
    lemma_trimmed_blanks_around(before, text, after);
}

/// The blanks are 25 characters, given here by their code points.
pub proof fn law_blank_code_points(c: char)
    ensures
        is_blank(c) <==> set![
            0x09int, 0x0a, 0x0b, 0x0c, 0x0d, 0x20, 0x85, 0xa0, 0x1680, 0x2000, 0x2001, 0x2002,
            0x2003, 0x2004, 0x2005, 0x2006, 0x2007, 0x2008, 0x2009, 0x200a, 0x2028, 0x2029, 0x202f,
            0x205f, 0x3000,
        ].contains(c as int),
{
}

/// No visible ASCII character is a blank.
pub proof fn law_visible_is_no_blank(c: char)
    requires
        '!' <= c <= '~',
    ensures
        !is_blank(c),
{
}

/// What is left of a text between the blanks around it is the trimmed text: its
/// ends, if it has any, are no blanks.
pub proof fn law_trimmed(before: Seq<char>, core: Seq<char>, after: Seq<char>)
    requires
        forall|i: int| 0 <= i < before.len() ==> is_blank(#[trigger] before[i]),
        forall|i: int| 0 <= i < after.len() ==> is_blank(#[trigger] after[i]),
        core.len() > 0 ==> !is_blank(core[0]) && !is_blank(core.last()),
    ensures
        trimmed(before + core + after) == core,
{
    lemma_trimmed_blanks_around(before, core, after);
}

/// A text that starts and ends with visible ASCII characters is its own trimmed
/// form.
pub proof fn law_visible_ends_are_kept(text: Seq<char>)
    requires
        text.len() > 0,
        '!' <= text[0] <= '~',
        '!' <= text.last() <= '~',
    ensures
        trimmed(text) == text,
{
}

proof fn lemma_trim_start_cut(s: Seq<char>) -> (cut: int)
    ensures
        0 <= cut <= s.len(),
        trim_start(s) == s.skip(cut),
        forall|i: int| 0 <= i < cut ==> is_blank(#[trigger] s[i]),
        cut < s.len() ==> !is_blank(s[cut]),
    decreases s.len(),
{
    if s.len() > 0 && is_blank(s[0]) {
        let cut = lemma_trim_start_cut(s.drop_first());
        assert(s.drop_first().skip(cut) =~= s.skip(cut + 1));
        assert forall|i: int| 0 <= i < cut + 1 implies is_blank(#[trigger] s[i]) by {
            if i > 0 {
                assert(s.drop_first()[i - 1] == s[i]);
            }
        }
        cut + 1
    } else {
        assert(s.skip(0) =~= s);
        0
    }
}

proof fn lemma_trim_end_cut(s: Seq<char>) -> (cut: int)
    ensures
        0 <= cut <= s.len(),
        trim_end(s) == s.take(cut),
        forall|i: int| cut <= i < s.len() ==> is_blank(#[trigger] s[i]),
        cut > 0 ==> !is_blank(s[cut - 1]),
    decreases s.len(),
{
    if s.len() > 0 && is_blank(s.last()) {
        let cut = lemma_trim_end_cut(s.drop_last());
        assert(s.drop_last().take(cut) =~= s.take(cut));
        assert forall|i: int| cut <= i < s.len() implies is_blank(#[trigger] s[i]) by {
            if i < s.len() - 1 {
                assert(s.drop_last()[i] == s[i]);
            }
        }
        cut
    } else {
        assert(s.take(s.len() as int) =~= s);
        s.len() as int
    }
}

/// Every text is its trimmed form with blanks before and after it.
pub proof fn law_trimming_takes_blanks_only(text: Seq<char>)
    ensures
        exists|from: int, to: int|
            {
                &&& 0 <= from <= to <= text.len()
                &&& trimmed(text) == #[trigger] text.subrange(from, to)
                &&& forall|i: int| 0 <= i < from ==> is_blank(#[trigger] text[i])
                &&& forall|i: int| to <= i < text.len() ==> is_blank(#[trigger] text[i])
            },
        trimmed(text).len() > 0 ==> !is_blank(trimmed(text)[0]) && !is_blank(trimmed(text).last()),
{
    let from = lemma_trim_start_cut(text);
    let len = lemma_trim_end_cut(text.skip(from));
    assert(text.skip(from).take(len) =~= text.subrange(from, from + len));
    assert forall|i: int| from + len <= i < text.len() implies is_blank(#[trigger] text[i]) by {
        assert(text.skip(from)[i - from] == text[i]);
    }
    if len > 0 {
        assert(trimmed(text)[0] == text[from]);
        assert(trimmed(text).last() == text.skip(from)[len - 1]);
    }
}

/// A number in decimal notation, without leading zeros.
pub open spec fn decimal_text(n: nat) -> Seq<char>
    decreases n,
{
    if n < 10 {
        seq!["0123456789"@[n as int]]
    } else {
        decimal_text(n / 10).push("0123456789"@[(n % 10) as int])
    }
}

/// A number in decimal notation, with zeros and perhaps a plus sign in front.
pub open spec fn number_text(plus: bool, zeros: nat, n: nat) -> Seq<char> {
    (if plus {
        seq!['+']
    } else {
        Seq::empty()
    }) + Seq::new(zeros, |i: int| '0') + decimal_text(n)
}

proof fn lemma_digit_symbol(d: int)
    requires
        0 <= d < 10,
    ensures
        "0123456789"@[d] as int == 48 + d,
{
    reveal_strlit("0123456789");
}

proof fn lemma_decimal_text(n: nat)
    ensures
        is_number(decimal_text(n)),
        decimal_value(decimal_text(n)) == n,
    decreases n,
{
    let s = decimal_text(n);
    lemma_digit_symbol((n % 10) as int);
    if n < 10 {
        assert(s.drop_last() =~= Seq::<char>::empty());
        assert(decimal_value(s.drop_last()) == 0);
    } else {
        lemma_decimal_text(n / 10);
        assert(s.drop_last() =~= decimal_text(n / 10));
    }
}

proof fn lemma_leading_zeros(zeros: nat, s: Seq<char>)
    ensures
        decimal_value(Seq::new(zeros, |i: int| '0') + s) == decimal_value(s),
    decreases zeros + s.len(),
{
    let front = Seq::new(zeros, |i: int| '0');
    let all = front + s;
    if s.len() > 0 {
        lemma_leading_zeros(zeros, s.drop_last());
        assert(all.drop_last() =~= front + s.drop_last());
    } else if zeros > 0 {
        lemma_leading_zeros((zeros - 1) as nat, s);
        assert(all.drop_last() =~= Seq::new((zeros - 1) as nat, |i: int| '0') + s);
    } else {
        assert(all =~= s);
    }
}

/// A row of digits is the number that it stands for, with zeros in front.
proof fn lemma_number_is_text(s: Seq<char>) -> (zeros: nat)
    requires
        is_number(s),
    ensures
        s == Seq::new(zeros, |i: int| '0') + decimal_text(decimal_value(s)),
    decreases s.len(),
{
    let front = s.drop_last();
    let high = decimal_value(front);
    let low = s.last() as int - 48;
    assert(is_digit(s[s.len() - 1]));
    lemma_digit_symbol(low);
    if s.len() == 1 {
        assert(high == 0);
        assert(s =~= Seq::new(0, |i: int| '0') + decimal_text(decimal_value(s)));
        0
    } else {
        assert forall|i: int| 0 <= i < front.len() implies is_digit(#[trigger] front[i]) by {
            assert(is_digit(s[i]));
        }
        let zeros = lemma_number_is_text(front);
        let text = decimal_text(decimal_value(s));
        assert(s =~= front.push(s.last()));
        if high == 0 {
            lemma_digit_symbol(0);
            assert(decimal_text(0) =~= seq!['0']);
            assert(text =~= seq![s.last()]);
            assert(front =~= Seq::new(zeros + 1, |i: int| '0'));
            assert(s =~= Seq::new(zeros + 1, |i: int| '0') + text);
            zeros + 1
        } else {
            assert(decimal_value(s) / 10 == high);
            assert(decimal_value(s) % 10 == low);
            assert(text =~= decimal_text(high).push(s.last()));
            assert(s =~= Seq::new(zeros, |i: int| '0') + text);
            zeros
        }
    }
}

/// Reading the decimal notation of a number from 0 to 255 gives the number back,
/// with or without zeros and a plus sign in front.
pub proof fn law_number_read_back(n: u8, plus: bool, zeros: nat)
    ensures
        decimal_u8(decimal_text(n as nat)) == Some(n),
        decimal_u8(number_text(plus, zeros, n as nat)) == Some(n),
{
    let text = decimal_text(n as nat);
    let digits = Seq::new(zeros, |i: int| '0') + text;
    lemma_decimal_text(n as nat);
    lemma_leading_zeros(zeros, text);
    assert(is_digit(text[0]));
    assert(without_plus(text) == text);
    assert forall|i: int| 0 <= i < digits.len() implies is_digit(#[trigger] digits[i]) by {
        if i >= zeros {
            assert(is_digit(text[i - zeros]));
        }
    }
    assert(is_digit(digits[0]));
    if plus {
        assert(number_text(plus, zeros, n as nat).drop_first() =~= digits);
    } else {
        assert(number_text(plus, zeros, n as nat) =~= digits);
    }
    assert(without_plus(number_text(plus, zeros, n as nat)) == digits);
}

/// Nothing else is read as a number: a text that is read is the decimal notation
/// of the result, with zeros and perhaps a plus sign in front.
pub proof fn law_only_numbers_are_read(text: Seq<char>)
    requires
        decimal_u8(text) is Some,
    ensures
        exists|plus: bool, zeros: nat|
            text == #[trigger] number_text(plus, zeros, decimal_u8(text)->0 as nat),
{
    let digits = without_plus(text);
    let plus = text.len() > 0 && text[0] == '+';
    let zeros = lemma_number_is_text(digits);
    let n = decimal_u8(text)->0 as nat;
    assert(n == decimal_value(digits));
    if plus {
        assert(text =~= seq!['+'] + digits);
    }
    assert(text =~= number_text(plus, zeros, n));
}

/// Every header line is read: version one, a number from 0 to 255, any timestamp
/// without a colon and a token of 64 bytes that does not end in a blank, with
/// blanks around the whole.
pub proof fn law_challenge_is_read(
    before: Seq<char>,
    plus: bool,
    zeros: nat,
    easiness: u8,
    timestamp: Seq<char>,
    token: Seq<char>,
    after: Seq<char>,
)
    requires
        forall|i: int| 0 <= i < before.len() ==> is_blank(#[trigger] before[i]),
        forall|i: int| 0 <= i < after.len() ==> is_blank(#[trigger] after[i]),
        !timestamp.contains(':'),
        encode_utf8(token).len() == 64,
        token.len() > 0,
        !is_blank(token.last()),
    ensures
        challenge(
            before + (seq!['1', ':'] + number_text(plus, zeros, easiness as nat) + seq![':']
                + timestamp + seq![':'] + token) + after,
        ) == Some((token, easiness)),
{
    let number = number_text(plus, zeros, easiness as nat);
    let line = seq!['1', ':'] + number + seq![':'] + timestamp + seq![':'] + token;
    law_number_read_back(easiness, plus, zeros);
    assert(line[0] == '1');
    assert(line.last() == token.last());
    law_trimmed(before, line, after);
    law_trimmed(Seq::empty(), line, Seq::empty());
    assert forall|i: int| 0 <= i < number.len() implies number[i] != ':' by {
        let digits = without_plus(number);
        if i > 0 || number[0] != '+' {
            assert(is_digit(digits[if number[0] == '+' { i - 1 } else { i }]));
        }
    }
    assert(line == challenge_line(number, timestamp, token));
    assert(is_challenge(before + line + after, token, easiness));
    law_challenge_format(before + line + after, token, easiness);
}

/// Nothing else is read: what is read as a token and an easiness comes, up to
/// blanks around it, from version one, a number, a timestamp and the token, with
/// a colon after each of the first three and none inside them.
pub proof fn law_only_challenges_are_read(text: Seq<char>, token: Seq<char>, easiness: u8)
    requires
        challenge(text) == Some((token, easiness)),
    ensures
        encode_utf8(token).len() == 64,
        exists|number: Seq<char>, timestamp: Seq<char>|
            {
                &&& trimmed(text) == seq!['1', ':'] + number + seq![':'] + timestamp + seq![':']
                    + token
                &&& !#[trigger] number.contains(':')
                &&& !#[trigger] timestamp.contains(':')
                &&& decimal_u8(number) == Some(easiness)
            },
{
    law_challenge_format(text, token, easiness);
    let (number, timestamp) = choose|number: Seq<char>, timestamp: Seq<char>|
        {
            &&& !number.contains(':')
            &&& !timestamp.contains(':')
            &&& trimmed(text) == #[trigger] challenge_line(number, timestamp, token)
            &&& decimal_u8(number) == Some(easiness)
            &&& encode_utf8(token).len() == 64
        };
    assert(trimmed(text) == seq!['1', ':'] + number + seq![':'] + timestamp + seq![':'] + token);
}

/// The bytes of a header that can be read are the UTF-8 form of its text.
pub proof fn law_header_text(bytes: Seq<u8>)
    requires
        is_visible_ascii(bytes),
    ensures
        encode_utf8(ascii_text(bytes)) == bytes,
{
    let text = ascii_text(bytes);
    assert forall|i: int| 0 <= i < text.len() implies (#[trigger] text[i] as nat) < 128 by {
        assert(32 <= bytes[i] < 127 || bytes[i] == 9);
    }
    vstd::utf8::is_ascii_chars_encode_utf8(text);
    assert(encode_utf8(text) =~= bytes);
}

/// The bytes of a header can be read exactly where each of them alone can, and
/// the bytes that can are the tab and those from the space to the tilde.
pub proof fn law_readable_bytes(x: Seq<u8>, y: Seq<u8>, b: u8)
    ensures
        is_visible_ascii(Seq::empty()),
        is_visible_ascii(seq![b]) <==> b == '\t' as u8 || ' ' as u8 <= b <= '~' as u8,
        is_visible_ascii(x + y) <==> is_visible_ascii(x) && is_visible_ascii(y),
{
    assert(seq![b][0] == b);
    if is_visible_ascii(x + y) {
        assert forall|i: int| 0 <= i < x.len() implies 32 <= #[trigger] x[i] < 127 || x[i] == 9 by {
            assert((x + y)[i] == x[i]);
        }
        assert forall|i: int| 0 <= i < y.len() implies 32 <= #[trigger] y[i] < 127 || y[i] == 9 by {
            assert((x + y)[x.len() + i] == y[i]);
        }
    }
}

/// What a reading shows is its token's text and its easiness.
pub proof fn law_challenge_view(token: String, easiness: u8)
    ensures
        challenge_view(Some((token, easiness))) == Some((token@, easiness)),
        challenge_view(None) is None,
{
}

} // verus!
