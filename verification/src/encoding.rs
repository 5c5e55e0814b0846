//! Text that the standard library makes of bytes and of other text.

use crate::text::{is_closed, is_white_space, position};
use vstd::prelude::*;
use vstd::utf8::{
    decode_utf8, encode_utf8, encode_utf8_decode_utf8, encode_utf8_valid_utf8, valid_utf8,
};

verus! {

/// The text that `String::from_utf8_lossy` makes of bytes that are no UTF-8.
pub uninterp spec fn lossy_text(bytes: Seq<u8>) -> Seq<char>;

/// The text in bytes: what they are the UTF-8 of, or else what
/// [`lossy_text`] makes of them.
pub open spec fn text_of(bytes: Seq<u8>) -> Seq<char> {
    if valid_utf8(bytes) {
        decode_utf8(bytes)
    } else {
        lossy_text(bytes)
    }
}

/// `String::from_utf8_lossy` decodes bytes: exactly where they are UTF-8, and
/// with replacement characters for what is not otherwise. The result depends on
/// the bytes alone; where the replacement characters go is left open here.
#[verifier::external_body]
pub(crate) fn from_utf8_lossy(bytes: &[u8]) -> (res: String)
    ensures
        valid_utf8(bytes@) ==> res@ == decode_utf8(bytes@),
        !valid_utf8(bytes@) ==> res@ == lossy_text(bytes@),
{
    String::from_utf8_lossy(bytes).into_owned()
}

/// The text in the bytes of a text is that text.
pub proof fn lemma_text_of_encoded(text: Seq<char>)
    ensures
        text_of(encode_utf8(text)) == text,
{
    encode_utf8_valid_utf8(text);
    encode_utf8_decode_utf8(text);
}

/// `std::str::from_utf8` decodes bytes if and only if they are UTF-8.
#[verifier::external_body]
pub(crate) fn from_utf8(bytes: &[u8]) -> (res: Option<&str>)
    ensures
        match res {
            Some(text) => valid_utf8(bytes@) && text@ == decode_utf8(bytes@),
            None => !valid_utf8(bytes@),
        },
{
    std::str::from_utf8(bytes).ok()
}

/// The text that `{:?}` makes of a text: quoted, with escapes.
pub uninterp spec fn debug_text(text: Seq<char>) -> Seq<char>;

/// The value of a digit in base sixteen.
pub open spec fn hex_digit(c: char) -> Option<nat> {
    if '0' <= c <= '9' {
        Some((c as nat - '0' as nat) as nat)
    } else if 'a' <= c <= 'f' {
        Some((c as nat - 'a' as nat + 10) as nat)
    } else if 'A' <= c <= 'F' {
        Some((c as nat - 'A' as nat + 10) as nat)
    } else {
        None
    }
}

/// The number with the given digits in base sixteen.
pub open spec fn hex_value(digits: Seq<char>) -> Option<nat>
    decreases digits.len(),
{
    if digits.len() == 0 {
        Some(0)
    } else {
        match (hex_value(digits.drop_last()), hex_digit(digits.last())) {
            (Some(before), Some(digit)) => Some(16 * before + digit),
            _ => None,
        }
    }
}

/// The character that an escape of a string literal stands for, and how many
/// characters the escape takes, where `text` begins with its backslash.
pub open spec fn escape_at(text: Seq<char>) -> Option<(char, int)> {
    if text.len() < 2 {
        None
    } else if text[1] == '0' {
        Some(('\0', 2int))
    } else if text[1] == 't' {
        Some(('\t', 2int))
    } else if text[1] == 'r' {
        Some(('\r', 2int))
    } else if text[1] == 'n' {
        Some(('\n', 2int))
    } else if text[1] == '\\' || text[1] == '"' || text[1] == '\'' {
        Some((text[1], 2int))
    } else if text[1] == 'u' && text.len() > 2 && text[2] == '{' {
        let end = position(text, '}') as int;
        if 3 < end <= 9 && end < text.len() {
            match hex_value(text.subrange(3, end)) {
                Some(n) => if n <= 0xd7ff || 0xe000 <= n <= 0x10ffff {
                    Some((n as char, end + 1))
                } else {
                    None
                },
                None => None,
            }
        } else {
            None
        }
    } else {
        None
    }
}

/// The value of a string literal, from what follows its opening quote. Nothing
/// where that does not end with its closing quote.
pub open spec fn literal_rest(text: Seq<char>) -> Option<Seq<char>>
    decreases text.len(),
{
    if text.len() == 0 {
        None
    } else if text[0] == '"' {
        if text.len() == 1 {
            Some(seq![])
        } else {
            None
        }
    } else if text[0] == '\\' {
        match escape_at(text) {
            Some((c, size)) => match literal_rest(text.skip(size)) {
                Some(rest) => Some(seq![c] + rest),
                None => None,
            },
            None => None,
        }
    } else {
        match literal_rest(text.skip(1)) {
            Some(rest) => Some(seq![text[0]] + rest),
            None => None,
        }
    }
}

/// The value of a string literal of Rust, if the text is one.
pub open spec fn literal_value(text: Seq<char>) -> Option<Seq<char>> {
    if text.len() > 0 && text[0] == '"' {
        literal_rest(text.skip(1))
    } else {
        None
    }
}

/// The only whitespace in the text is spaces.
pub open spec fn has_only_spaces(text: Seq<char>) -> bool {
    forall|i: int| 0 <= i < text.len() && is_white_space(#[trigger] text[i]) ==> text[i] == ' '
}

proof fn lemma_hex_digits(digits: Seq<char>, i: int)
    requires
        hex_value(digits) is Some,
        0 <= i < digits.len(),
    ensures
        hex_digit(digits[i]) is Some,
    decreases digits.len(),
{
    if i < digits.len() - 1 {
        lemma_hex_digits(digits.drop_last(), i);
        assert(digits.drop_last()[i] == digits[i]);
    }
}

proof fn lemma_literal_closed(text: Seq<char>, i: int)
    requires
        0 <= i <= text.len(),
        literal_rest(text.skip(i)) is Some,
    ensures
        is_closed(text, i),
    decreases text.len() - i,
{
    let rest = text.skip(i);
    assert(rest[0] == text[i]);
    if rest[0] == '\\' {
        let size = match escape_at(rest) {
            Some((_, size)) => size,
            None => 0,
        };
        assert(rest.skip(size) =~= text.skip(i + size));
        lemma_literal_closed(text, i + size);
        if size > 2 {
            let digits = rest.subrange(3, size - 1);
            crate::text::lemma_position(rest, '}');
            assert forall|k: int| i + 2 <= k < i + size implies text[k] != '"' && text[k] != '\\' by {
                assert(text[k] == rest[k - i]);
                if 3 <= k - i < size - 1 {
                    assert(digits[k - i - 3] == rest[k - i]);
                    lemma_hex_digits(digits, k - i - 3);
                }
            }
            crate::text::lemma_closed_from(text, i + 2, i + size);
        }
    } else if rest[0] != '"' {
        assert(rest.skip(1) =~= text.skip(i + 1));
        lemma_literal_closed(text, i + 1);
    }
}

proof fn lemma_closed_ends(text: Seq<char>, i: int)
    requires
        0 <= i,
        is_closed(text, i),
    ensures
        i < text.len(),
        text.last() == '"',
    decreases text.len() + 1 - i,
{
    if text[i] == '\\' {
        lemma_closed_ends(text, i + 2);
    } else if text[i] != '"' {
        lemma_closed_ends(text, i + 1);
    }
}

/// A string literal stands in quotes, with no quote between them that is not
/// escaped.
pub proof fn lemma_literal_quoted(text: Seq<char>)
    requires
        literal_value(text) is Some,
    ensures
        text.len() >= 2,
        text[0] == '"',
        text.last() == '"',
        is_closed(text, 1),
{
    lemma_literal_closed(text, 1);
    lemma_closed_ends(text, 1);
}

/// `Debug` for `str` writes a text as a string literal of Rust: in double
/// quotes, with escapes, so that the literal's value is the text. All whitespace
/// but the space is escaped. Which other characters are is left open here; what
/// is written depends on the text alone.
#[verifier::external_body]
pub(crate) fn debug_format(text: &str) -> (res: String)
    ensures
        res@ == debug_text(text@),
        literal_value(res@) == Some(text@),
        has_only_spaces(res@),
{
    format!("{:?}", text)
}

/// The text that `str::to_lowercase` makes of a text.
pub uninterp spec fn lowercase_text(text: Seq<char>) -> Seq<char>;

/// `str::to_lowercase` gives the Unicode lowercase of a text, which depends on
/// the text alone. The mapping of the single characters is left open here.
#[verifier::external_body]
pub(crate) fn to_lowercase(text: &str) -> (res: String)
    ensures
        res@ == lowercase_text(text@),
{
    text.to_lowercase()
}

/// Bytes that are UTF-8 are read as what they encode, and only others go through
/// the lossy reading.
pub proof fn lemma_text_of(bytes: Seq<u8>)
    ensures
        valid_utf8(bytes) ==> text_of(bytes) == decode_utf8(bytes),
        !valid_utf8(bytes) ==> text_of(bytes) == lossy_text(bytes),
{
}

} // verus!
