//! Paths as git writes them: those with special characters stand in quotes,
//! with escapes.

use crate::text::{chars_of, string_of};
use vstd::prelude::*;
use vstd::string::StrSliceExecFns;
use vstd::utf8::{encode_utf8, is_ascii_chars, is_ascii_chars_encode_utf8};

verus! {

/// A digit in base eight.
pub open spec fn is_octal(c: char) -> bool {
    '0' <= c <= '7'
}

/// The value of a digit.
pub open spec fn digit_value(c: char) -> int {
    c as int - '0' as int
}

/// The byte that an escape stands for, and how many characters the escape
/// takes, where its backslash stands at `i`.
pub open spec fn escaped_byte_at(text: Seq<char>, i: int) -> Option<(u8, int)> {
    if i + 1 >= text.len() {
        None
    } else if text[i + 1] == 'a' {
        Some((7u8, 2int))
    } else if text[i + 1] == 'b' {
        Some((8u8, 2int))
    } else if text[i + 1] == 't' {
        Some((9u8, 2int))
    } else if text[i + 1] == 'n' {
        Some((10u8, 2int))
    } else if text[i + 1] == 'v' {
        Some((11u8, 2int))
    } else if text[i + 1] == 'f' {
        Some((12u8, 2int))
    } else if text[i + 1] == 'r' {
        Some((13u8, 2int))
    } else if text[i + 1] == '"' {
        Some((34u8, 2int))
    } else if text[i + 1] == '\\' {
        Some((92u8, 2int))
    } else if i + 3 < text.len() && '0' <= text[i + 1] <= '3' && is_octal(text[i + 2]) && is_octal(
        text[i + 3],
    ) {
        Some(
            (
                (64 * digit_value(text[i + 1]) + 8 * digit_value(text[i + 2]) + digit_value(
                    text[i + 3],
                )) as u8,
                4int,
            ),
        )
    } else {
        None
    }
}

/// The bytes that the characters from `i` on stand for, up to the closing quote.
/// Nothing where an escape is none, or the first quote is not the end.
pub open spec fn unquoted_from(text: Seq<char>, i: int) -> Option<Seq<u8>>
    decreases text.len() - i,
{
    if i >= text.len() {
        None
    } else if text[i] == '"' {
        if i + 1 == text.len() {
            Some(seq![])
        } else {
            None
        }
    } else if text[i] == '\\' {
        match escaped_byte_at(text, i) {
            Some((byte, size)) => preceded(seq![byte], unquoted_from(text, i + size)),
            None => None,
        }
    } else {
        preceded(encode_utf8(seq![text[i]]), unquoted_from(text, i + 1))
    }
}

/// `bytes` before others, if there are any.
pub open spec fn preceded(bytes: Seq<u8>, rest: Option<Seq<u8>>) -> Option<Seq<u8>> {
    match rest {
        Some(rest) => Some(bytes + rest),
        None => None,
    }
}

/// The path that a text stands for: what is in its quotes, where it is in
/// quotes, and otherwise the text itself.
pub open spec fn path_bytes(text: Seq<char>) -> Seq<u8> {
    if text.len() > 0 && text[0] == '"' {
        match unquoted_from(text, 1) {
            Some(bytes) => bytes,
            None => encode_utf8(text),
        }
    } else {
        encode_utf8(text)
    }
}

fn escape_in(text: &[char], i: usize) -> (res: Option<(u8, usize)>)
    requires
        i < text.len(),
    ensures
        match res {
            Some((byte, size)) => escaped_byte_at(text@, i as int) == Some((byte, size as int))
                && 2 <= size <= text.len() - i,
            None => escaped_byte_at(text@, i as int) is None,
        },
{
    if text.len() - i < 2 {
        return None;
    }
    let c = text[i + 1];
    if c == 'a' {
        Some((7, 2))
    } else if c == 'b' {
        Some((8, 2))
    } else if c == 't' {
        Some((9, 2))
    } else if c == 'n' {
        Some((10, 2))
    } else if c == 'v' {
        Some((11, 2))
    } else if c == 'f' {
        Some((12, 2))
    } else if c == 'r' {
        Some((13, 2))
    } else if c == '"' {
        Some((34, 2))
    } else if c == '\\' {
        Some((92, 2))
    } else if text.len() - i > 3 && '0' <= c && c <= '3' && '0' <= text[i + 2] && text[i + 2] <= '7'
        && '0' <= text[i + 3] && text[i + 3] <= '7' {
        let high: u32 = c as u32 - '0' as u32;
        let middle: u32 = text[i + 2] as u32 - '0' as u32;
        let low: u32 = text[i + 3] as u32 - '0' as u32;
        Some(((64 * high + 8 * middle + low) as u8, 4))
    } else {
        None
    }
}

fn unquote(text: &[char]) -> (res: Option<Vec<u8>>)
    ensures
        match res {
            Some(bytes) => unquoted_from(text@, 1) == Some(bytes@),
            None => unquoted_from(text@, 1) is None,
        },
{
    let mut res: Vec<u8> = Vec::new();
    let mut i: usize = 1;
    let ghost wanted = unquoted_from(text@, 1);
    assert(wanted is Some ==> seq![] + wanted->0 =~= wanted->0);
    while i < text.len()
        invariant
            wanted == unquoted_from(text@, 1),
            wanted == preceded(res@, unquoted_from(text@, i as int)),
        decreases text.len() - i,
    {
        let ghost before = res@;
        let c = text[i];
        if c == '"' {
            assert(res@ + seq![] =~= res@);
            return if text.len() - i == 1 {
                Some(res)
            } else {
                None
            };
        }
        if c == '\\' {
            match escape_in(text, i) {
                Some((byte, size)) => {
                    let ghost rest = unquoted_from(text@, i + size);
                    res.push(byte);
                    assert(rest is Some ==> before + (seq![byte] + rest->0) =~= res@ + rest->0);
                    i = i + size;
                },
                None => {
                    return None;
                },
            }
        } else {
            let ghost rest = unquoted_from(text@, i + 1);
            let one = one_char(c);
            let mut bytes = string_of(one.as_slice()).as_str().as_bytes_vec();
            let ghost more = bytes@;
            res.append(&mut bytes);
            assert(rest is Some ==> before + (more + rest->0) =~= res@ + rest->0);
            i = i + 1;
        }
    }
    None
}

fn one_char(c: char) -> (res: Vec<char>)
    ensures
        res@ == seq![c],
{
    let mut res: Vec<char> = Vec::new();
    res.push(c);
    assert(res@ =~= seq![c]);
    res
}

/// The path that a text stands for: what is in its quotes, where it is in
/// quotes, and otherwise the text itself.
pub fn path_in_text(text: &str) -> (res: Vec<u8>)
    ensures
        res@ == path_bytes(text@),
        text@.len() == 0 || text@[0] != '"' ==> res@ == encode_utf8(text@),
{
    let chars = chars_of(text);
    if chars.len() > 0 && chars[0] == '"' {
        if let Some(bytes) = unquote(chars.as_slice()) {
            return bytes;
        }
    }
    text.as_bytes_vec()
}

/// The digit with the given value.
pub open spec fn octal_digit(n: int) -> char {
    ('0' as int + n) as char
}

/// How a byte of a path is written in quotes.
pub open spec fn byte_text(byte: u8) -> Seq<char> {
    if byte == 7 {
        seq!['\\', 'a']
    } else if byte == 8 {
        seq!['\\', 'b']
    } else if byte == 9 {
        seq!['\\', 't']
    } else if byte == 10 {
        seq!['\\', 'n']
    } else if byte == 11 {
        seq!['\\', 'v']
    } else if byte == 12 {
        seq!['\\', 'f']
    } else if byte == 13 {
        seq!['\\', 'r']
    } else if byte == 34 {
        seq!['\\', '"']
    } else if byte == 92 {
        seq!['\\', '\\']
    } else if 32 <= byte <= 126 {
        seq![byte as char]
    } else {
        seq![
            '\\',
            octal_digit(byte as int / 64),
            octal_digit(byte as int / 8 % 8),
            octal_digit(byte as int % 8),
        ]
    }
}

/// How bytes of a path are written in quotes.
pub open spec fn bytes_text(bytes: Seq<u8>) -> Seq<char>
    decreases bytes.len(),
{
    if bytes.len() == 0 {
        seq![]
    } else {
        byte_text(bytes[0]) + bytes_text(bytes.skip(1))
    }
}

/// A path in quotes.
pub open spec fn quoted(path: Seq<u8>) -> Seq<char> {
    seq!['"'] + bytes_text(path) + seq!['"']
}

proof fn lemma_unquoted_from(text: Seq<char>, i: int, bytes: Seq<u8>)
    requires
        0 <= i <= text.len(),
        text.skip(i) == bytes_text(bytes) + seq!['"'],
    ensures
        unquoted_from(text, i) == Some(bytes),
    decreases bytes.len(),
{
    let rest = text.skip(i);
    if bytes.len() == 0 {
        assert(rest =~= seq!['"']);
        assert(text[i] == rest[0]);
        assert(bytes =~= seq![]);
    } else {
        let first = byte_text(bytes[0]);
        let later = bytes.skip(1);
        let n = first.len() as int;
        assert(rest =~= first + (bytes_text(later) + seq!['"']));
        assert(text.skip(i + n) =~= bytes_text(later) + seq!['"']) by {
            assert(text.skip(i + n) =~= rest.skip(n));
        }
        lemma_unquoted_from(text, i + n, later);
        assert forall|k: int| 0 <= k < n implies text[i + k] == #[trigger] first[k] by {
            assert(rest[k] == first[k]);
        }
        assert(text[i] == first[0]);
        assert(bytes =~= seq![bytes[0]] + later);
        if n == 1 {
            lemma_ascii(bytes[0]);
        } else {
            assert(text[i + 1] == first[1]);
            if n == 4 {
                assert(text[i + 2] == first[2]);
                assert(text[i + 3] == first[3]);
            }
            assert(escaped_byte_at(text, i) == Some((bytes[0], n)));
        }
    }
}

proof fn lemma_ascii(byte: u8)
    requires
        byte < 128,
    ensures
        encode_utf8(seq![byte as char]) == seq![byte],
{
    let one = seq![byte as char];
    assert(is_ascii_chars(one));
    is_ascii_chars_encode_utf8(one);
    assert(one[0] as u8 == encode_utf8(one)[0]);
    assert(encode_utf8(one) =~= seq![byte]);
}

/// A path in quotes is read back, whatever bytes it holds.
pub proof fn lemma_quoted_read_back(path: Seq<u8>)
    ensures
        path_bytes(quoted(path)) == path,
{
    let text = quoted(path);
    assert(text[0] == '"');
    assert(text.skip(1) =~= bytes_text(path) + seq!['"']);
    lemma_unquoted_from(text, 1, path);
}

/// A text that does not begin with a quote stands for itself: its path is its
/// own bytes.
pub proof fn lemma_bare_path(text: Seq<char>)
    requires
        text.len() == 0 || text[0] != '"',
    ensures
        path_bytes(text) == encode_utf8(text),
{
}

proof fn lemma_same_end(a: Seq<char>, b: Seq<char>, tail: Seq<char>)
    ensures
        unquoted_from(a + tail, a.len() as int) == unquoted_from(b + tail, b.len() as int),
    decreases tail.len(),
{
    let x = a + tail;
    let y = b + tail;
    let i = a.len() as int;
    let j = b.len() as int;
    assert forall|k: int| 0 <= k < tail.len() implies x[i + k] == #[trigger] tail[k] && y[j + k]
        == tail[k] by {}
    if tail.len() > 0 {
        assert(x[i] == tail[0] && y[j] == tail[0]);
        if tail.len() > 1 {
            assert(x[i + 1] == tail[1] && y[j + 1] == tail[1]);
        }
        if tail.len() > 3 {
            assert(x[i + 2] == tail[2] && y[j + 2] == tail[2]);
            assert(x[i + 3] == tail[3] && y[j + 3] == tail[3]);
        }
        if tail[0] == '\\' {
            assert(escaped_byte_at(x, i) == escaped_byte_at(y, j));
            match escaped_byte_at(x, i) {
                Some((_, size)) => {
                    let done = tail.take(size);
                    lemma_same_end(a + done, b + done, tail.skip(size));
                    assert(a + done + tail.skip(size) =~= x);
                    assert(b + done + tail.skip(size) =~= y);
                },
                None => {},
            }
        } else if tail[0] != '"' {
            let done = tail.take(1);
            lemma_same_end(a + done, b + done, tail.skip(1));
            assert(a + done + tail.skip(1) =~= x);
            assert(b + done + tail.skip(1) =~= y);
        }
    }
}

/// The empty text in quotes stands for the empty path. A character that is
/// neither a quote nor a backslash stands for itself in quotes, before what
/// follows it there; where that cannot be read, neither can the whole, and the
/// text stands for itself.
pub proof fn lemma_plain_in_quotes(c: char, inner: Seq<char>)
    requires
        c != '"',
        c != '\\',
    ensures
        path_bytes(seq!['"', '"']).len() == 0,
        match unquoted_from(seq!['"'] + inner + seq!['"'], 1) {
            Some(bytes) => {
                &&& path_bytes(seq!['"'] + inner + seq!['"']) == bytes
                &&& path_bytes(seq!['"', c] + inner + seq!['"']) == encode_utf8(seq![c]) + bytes
            },
            None => {
                &&& path_bytes(seq!['"'] + inner + seq!['"']) == encode_utf8(
                    seq!['"'] + inner + seq!['"'],
                )
                &&& path_bytes(seq!['"', c] + inner + seq!['"']) == encode_utf8(
                    seq!['"', c] + inner + seq!['"'],
                )
            },
        },
{
    let tail = inner + seq!['"'];
    lemma_same_end(seq!['"'], seq!['"', c], tail);
    let short = seq!['"'] + inner + seq!['"'];
    let long = seq!['"', c] + inner + seq!['"'];
    assert(short =~= seq!['"'] + tail);
    assert(long =~= seq!['"', c] + tail);
    assert(long[0] == '"' && long[1] == c && short[0] == '"');
    assert(unquoted_from(seq!['"', '"'], 1) == Some(Seq::<u8>::empty()));
}

/// In quotes, a backslash and one of these letters, a quote or a backslash stand
/// for one byte, before what follows them there.
pub proof fn lemma_letter_escape(k: int, inner: Seq<char>, bytes: Seq<u8>)
    requires
        0 <= k < 9,
        unquoted_from(seq!['"'] + inner + seq!['"'], 1) == Some(bytes),
    ensures
        path_bytes(seq!['"', '\\', "abtnvfr\"\\"@[k]] + inner + seq!['"']) == seq![
            seq![7u8, 8u8, 9u8, 10u8, 11u8, 12u8, 13u8, 34u8, 92u8][k],
        ] + bytes,
{
    reveal_strlit("abtnvfr\"\\");
    let c = "abtnvfr\"\\"@[k];
    let tail = inner + seq!['"'];
    let head = seq!['"', '\\', c];
    lemma_same_end(seq!['"'], head, tail);
    let long = head + inner + seq!['"'];
    assert(seq!['"'] + inner + seq!['"'] =~= seq!['"'] + tail);
    assert(long =~= head + tail);
    assert(long[0] == '"' && long[1] == '\\' && long[2] == c);
    assert(long.len() >= 3);
    let table = seq![7u8, 8u8, 9u8, 10u8, 11u8, 12u8, 13u8, 34u8, 92u8];
    assert(escaped_byte_at(long, 1) == Some((table[k], 2int)));
}

/// In quotes, a backslash and three digits in base eight stand for the byte with
/// that value, before what follows them there.
pub proof fn lemma_octal_escape(high: int, middle: int, low: int, inner: Seq<char>, bytes: Seq<u8>)
    requires
        0 <= high < 4,
        0 <= middle < 8,
        0 <= low < 8,
        unquoted_from(seq!['"'] + inner + seq!['"'], 1) == Some(bytes),
    ensures
        path_bytes(
            seq![
                '"',
                '\\',
                "01234567"@[high],
                "01234567"@[middle],
                "01234567"@[low],
            ] + inner + seq!['"'],
        ) == seq![(64 * high + 8 * middle + low) as u8] + bytes,
{
    reveal_strlit("01234567");
    let digits = "01234567"@;
    let tail = inner + seq!['"'];
    let head = seq!['"', '\\', digits[high], digits[middle], digits[low]];
    lemma_same_end(seq!['"'], head, tail);
    let long = head + inner + seq!['"'];
    assert(seq!['"'] + inner + seq!['"'] =~= seq!['"'] + tail);
    assert(long =~= head + tail);
    assert(long[0] == '"' && long[1] == '\\');
    assert(long[2] == digits[high] && long[3] == digits[middle] && long[4] == digits[low]);
    assert(digit_value(digits[high]) == high);
    assert(digit_value(digits[middle]) == middle);
    assert(digit_value(digits[low]) == low);
    assert(escaped_byte_at(long, 1) == Some(((64 * high + 8 * middle + low) as u8, 4int)));
}

proof fn lemma_never_closed(text: Seq<char>, i: int)
    requires
        0 <= i,
        forall|k: int| i <= k < text.len() ==> text[k] != '"',
    ensures
        unquoted_from(text, i) is None,
    decreases text.len() - i,
{
    if i < text.len() {
        if text[i] == '\\' {
            match escaped_byte_at(text, i) {
                Some((_, size)) => {
                    lemma_never_closed(text, i + size);
                },
                None => {},
            }
        } else {
            lemma_never_closed(text, i + 1);
        }
    }
}

/// A text that begins with a quote and has no other, or ends neither with its
/// second quote nor has a backslash before that, stands for itself.
pub proof fn lemma_not_in_quotes(inner: Seq<char>, rest: Seq<char>)
    requires
        !inner.contains('"'),
    ensures
        path_bytes(seq!['"'] + inner) == encode_utf8(seq!['"'] + inner),
        rest.len() > 0 && !inner.contains('\\') ==> path_bytes(
            seq!['"'] + inner + seq!['"'] + rest,
        ) == encode_utf8(seq!['"'] + inner + seq!['"'] + rest),
{
    let open = seq!['"'] + inner;
    assert forall|k: int| 1 <= k < open.len() implies open[k] != '"' by {
        assert(open[k] == inner[k - 1]);
        assert(inner.contains(inner[k - 1]));
    }
    lemma_never_closed(open, 1);
    assert(open[0] == '"');
    if rest.len() > 0 && !inner.contains('\\') {
        let text = seq!['"'] + inner + seq!['"'] + rest;
        let end = inner.len() as int + 1;
        assert(text.subrange(1, end) =~= inner);
        assert(text[end] == '"');
        lemma_closed_early(text, 1, end, inner);
        assert(text[0] == '"');
    }
}

proof fn lemma_closed_early(text: Seq<char>, i: int, end: int, inner: Seq<char>)
    requires
        1 <= i <= end,
        end == inner.len() + 1,
        end + 1 < text.len(),
        text[end] == '"',
        text.subrange(1, end) == inner,
        !inner.contains('"'),
        !inner.contains('\\'),
    ensures
        unquoted_from(text, i) is None,
    decreases end - i,
{
    if i < end {
        assert(text.subrange(1, end)[i - 1] == text[i]);
        assert(inner.contains(inner[i - 1]));
        lemma_closed_early(text, i + 1, end, inner);
    }
}

} // verus!
