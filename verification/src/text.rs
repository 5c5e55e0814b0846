//! Text as sequences of characters: whitespace, lines, searching, replacing
//! and joining.

use vstd::prelude::*;
use vstd::slice::slice_subrange;
use vstd::string::StringExecFns;

verus! {

broadcast use vstd::string::group_string_axioms;

/// `String::push` appends the given character to the end of the string.
pub assume_specification[ String::push ](s: &mut String, c: char)
    ensures
        final(s)@ == old(s)@.push(c),
;

/// The characters of a vector of strings.
pub open spec fn views(items: Seq<String>) -> Seq<Seq<char>> {
    items.map_values(|s: String| s@)
}

/// The characters with the Unicode property `White_Space`.
pub open spec fn is_white_space(c: char) -> bool {
    ||| '\u{9}' <= c <= '\u{d}'
    ||| c == ' '
    ||| c == '\u{85}'
    ||| c == '\u{a0}'
    ||| c == '\u{1680}'
    ||| '\u{2000}' <= c <= '\u{200a}'
    ||| c == '\u{2028}'
    ||| c == '\u{2029}'
    ||| c == '\u{202f}'
    ||| c == '\u{205f}'
    ||| c == '\u{3000}'
}

/// Whether a character has the Unicode property `White_Space`.
pub fn is_whitespace(c: char) -> (res: bool)
    ensures
        res == is_white_space(c),
{
    ('\u{9}' <= c && c <= '\u{d}') || c == ' ' || c == '\u{85}' || c == '\u{a0}' || c
        == '\u{1680}' || ('\u{2000}' <= c && c <= '\u{200a}') || c == '\u{2028}' || c
        == '\u{2029}' || c == '\u{202f}' || c == '\u{205f}' || c == '\u{3000}'
}

/// `s` without its leading whitespace.
pub open spec fn without_leading_space(s: Seq<char>) -> Seq<char>
    decreases s.len(),
{
    if s.len() > 0 && is_white_space(s[0]) {
        without_leading_space(s.skip(1))
    } else {
        s
    }
}

/// `s` without its trailing whitespace.
pub open spec fn without_trailing_space(s: Seq<char>) -> Seq<char>
    decreases s.len(),
{
    if s.len() > 0 && is_white_space(s.last()) {
        without_trailing_space(s.drop_last())
    } else {
        s
    }
}

/// `s` without whitespace at either end.
pub open spec fn trimmed(s: Seq<char>) -> Seq<char> {
    without_trailing_space(without_leading_space(s))
}

/// The characters of a string, one by one.
pub fn chars_of(s: &str) -> (res: Vec<char>)
    ensures
        res@ == s@,
{
    let mut res: Vec<char> = Vec::new();
    for c in it: s.chars()
        invariant
            res@ == s@.take(it.index()),
            it.seq() == s@,
    {
        res.push(c);
    }
    assert(s@.take(s@.len() as int) == s@);
    res
}

/// The string made of the given characters.
pub fn string_of(chars: &[char]) -> (res: String)
    ensures
        res@ == chars@,
{
    let mut res = String::new();
    for i in 0..chars.len()
        invariant
            res@ == chars@.take(i as int),
    {
        res.push(chars[i]);
    }
    assert(chars@.take(chars@.len() as int) == chars@);
    res
}

fn trim_end_slice(s: &[char]) -> (res: &[char])
    ensures
        res@ == without_trailing_space(s@),
{
    let mut end: usize = s.len();
    assert(s@.take(end as int) == s@);
    while end > 0 && is_whitespace(s[end - 1])
        invariant
            end <= s.len(),
            without_trailing_space(s@.take(end as int)) == without_trailing_space(s@),
        decreases end,
    {
        assert(s@.take(end as int).drop_last() == s@.take(end - 1));
        end = end - 1;
    }
    assert(s@.take(end as int) == s@.subrange(0, end as int));
    slice_subrange(s, 0, end)
}

fn trim_slice(s: &[char]) -> (res: &[char])
    ensures
        res@ == trimmed(s@),
{
    let mut start: usize = 0;
    assert(s@.skip(0) == s@);
    while start < s.len() && is_whitespace(s[start])
        invariant
            start <= s.len(),
            without_leading_space(s@.skip(start as int)) == without_leading_space(s@),
        decreases s.len() - start,
    {
        assert(s@.skip(start as int).skip(1) == s@.skip(start + 1));
        start = start + 1;
    }
    assert(s@.skip(start as int) == s@.subrange(start as int, s@.len() as int));
    trim_end_slice(slice_subrange(s, start, s.len()))
}

/// `s` without whitespace at either end, as `str::trim` gives it.
pub fn trim(s: &str) -> (res: String)
    ensures
        res@ == trimmed(s@),
{
    let chars = chars_of(s);
    string_of(trim_slice(chars.as_slice()))
}

/// `s` without trailing whitespace, as `str::trim_end` gives it.
pub fn trim_end(s: &str) -> (res: String)
    ensures
        res@ == without_trailing_space(s@),
{
    let chars = chars_of(s);
    string_of(trim_end_slice(chars.as_slice()))
}

/// What is left of a text without its leading whitespace is its end, and what
/// is gone is whitespace.
pub proof fn lemma_leading_space(s: Seq<char>)
    ensures
        ({
            let rest = without_leading_space(s);
            let n = s.len() - rest.len();
            &&& 0 <= n
            &&& s.skip(n) == rest
            &&& forall|i: int| 0 <= i < n ==> is_white_space(#[trigger] s.take(n)[i])
        }),
    decreases s.len(),
{
    if s.len() > 0 && is_white_space(s[0]) {
        let after = s.skip(1);
        lemma_leading_space(after);
        let n = s.len() - without_leading_space(s).len();
        assert(s.skip(n) =~= after.skip(n - 1));
        assert forall|i: int| 0 <= i < n implies is_white_space(#[trigger] s.take(n)[i]) by {
            if i > 0 {
                assert(after.take(n - 1)[i - 1] == s.take(n)[i]);
            }
        }
    } else {
        assert(s.skip(0) =~= s);
    }
}

/// The leading whitespace of a text is the whitespace before its first other
/// character.
pub proof fn lemma_leading_space_unique(s: Seq<char>, n: int)
    requires
        0 <= n < s.len(),
        !is_white_space(s[n]),
        forall|i: int| 0 <= i < n ==> is_white_space(#[trigger] s[i]),
    ensures
        without_leading_space(s) == s.skip(n),
    decreases n,
{
    if n > 0 {
        assert(is_white_space(s[0]));
        assert forall|i: int| 0 <= i < n - 1 implies is_white_space(#[trigger] s.skip(1)[i]) by {
            assert(s.skip(1)[i] == s[i + 1]);
        }
        lemma_leading_space_unique(s.skip(1), n - 1);
        assert(s.skip(1).skip(n - 1) =~= s.skip(n));
    } else {
        assert(s.skip(0) =~= s);
    }
}

/// What is left of a text without its trailing whitespace is its beginning.
pub proof fn lemma_trailing_space_prefix(s: Seq<char>)
    ensures
        without_trailing_space(s).is_prefix_of(s),
    decreases s.len(),
{
    if s.len() > 0 && is_white_space(s.last()) {
        lemma_trailing_space_prefix(s.drop_last());
        let kept = without_trailing_space(s);
        assert(s.subrange(0, kept.len() as int) =~= s.drop_last().subrange(0, kept.len() as int));
    } else {
        assert(s.subrange(0, s.len() as int) =~= s);
    }
}

/// A text that does not end with whitespace is kept, whatever follows it.
pub proof fn lemma_trailing_space_after(s: Seq<char>, rest: Seq<char>)
    requires
        s.len() > 0,
        !is_white_space(s.last()),
    ensures
        s.is_prefix_of(without_trailing_space(s + rest)),
    decreases rest.len(),
{
    let all = s + rest;
    if rest.len() > 0 && is_white_space(rest.last()) {
        assert(all.drop_last() =~= s + rest.drop_last());
        lemma_trailing_space_after(s, rest.drop_last());
    } else {
        if rest.len() == 0 {
            assert(all =~= s);
        }
        assert(without_trailing_space(all) == all);
        assert(all.subrange(0, s.len() as int) =~= s);
    }
}

/// Whitespace behind a text does not change what is left of it without its
/// trailing whitespace.
pub proof fn lemma_trailing_space_gone(s: Seq<char>, space: Seq<char>)
    requires
        forall|i: int| 0 <= i < space.len() ==> is_white_space(#[trigger] space[i]),
    ensures
        without_trailing_space(s + space) == without_trailing_space(s),
    decreases space.len(),
{
    if space.len() > 0 {
        assert((s + space).drop_last() =~= s + space.drop_last());
        assert(is_white_space(space[space.len() - 1]));
        lemma_trailing_space_gone(s, space.drop_last());
    } else {
        assert(s + space =~= s);
    }
}

/// Index of the first `c` in `s`, or the length of `s` where there is none.
pub open spec fn position(s: Seq<char>, c: char) -> nat
    decreases s.len(),
{
    if s.len() == 0 || s[0] == c {
        0
    } else {
        1 + position(s.skip(1), c)
    }
}

/// [`position`] is where `c` first occurs.
pub proof fn lemma_position(s: Seq<char>, c: char)
    ensures
        position(s, c) <= s.len(),
        position(s, c) < s.len() ==> s[position(s, c) as int] == c,
        forall|i: int| 0 <= i < position(s, c) ==> s[i] != c,
    decreases s.len(),
{
    if s.len() > 0 && s[0] != c {
        lemma_position(s.skip(1), c);
        assert forall|i: int| 0 <= i < position(s, c) implies s[i] != c by {
            if i > 0 {
                assert(s[i] == s.skip(1)[i - 1]);
            }
        }
    }
}

/// The first index of `c` is the only one with no `c` before it.
pub proof fn lemma_position_unique(s: Seq<char>, c: char, k: int)
    requires
        0 <= k <= s.len(),
        k < s.len() ==> s[k] == c,
        forall|i: int| 0 <= i < k ==> s[i] != c,
    ensures
        position(s, c) == k,
{
    lemma_position(s, c);
    let p = position(s, c) as int;
    if p < k {
        assert(s[p] != c);
    }
}

pub(crate) fn find(s: &[char], c: char) -> (res: usize)
    ensures
        res == position(s@, c),
{
    let mut i: usize = 0;
    while i < s.len() && s[i] != c
        invariant
            i <= s.len(),
            forall|j: int| 0 <= j < i ==> s@[j] != c,
        decreases s.len() - i,
    {
        i = i + 1;
    }
    proof {
        lemma_position_unique(s@, c, i as int);
    }
    i
}

/// A line without the carriage return that ends it.
pub open spec fn without_carriage_return(s: Seq<char>) -> Seq<char> {
    if s.len() > 0 && s.last() == '\r' {
        s.drop_last()
    } else {
        s
    }
}

/// The lines of a text. A line ends at a line feed, or at a carriage return
/// that a line feed follows; the last line need not be ended.
pub open spec fn lines_of(s: Seq<char>) -> Seq<Seq<char>>
    decreases s.len(),
{
    let end = position(s, '\n');
    if s.len() == 0 {
        seq![]
    } else if end >= s.len() {
        seq![s]
    } else {
        seq![without_carriage_return(s.take(end as int))] + lines_of(s.skip((end + 1) as int))
    }
}

/// The lines of a text, as `str::lines` gives them.
pub fn lines(s: &str) -> (res: Vec<String>)
    ensures
        views(res@) == lines_of(s@),
{
    let chars = chars_of(s);
    let all = chars.as_slice();
    let mut res: Vec<String> = Vec::new();
    let mut start: usize = 0;
    assert(all@.skip(0) == all@);
    assert(views(res@) + lines_of(all@) == lines_of(s@));
    while start < all.len()
        invariant
            all@ == s@,
            start <= all.len(),
            views(res@) + lines_of(all@.skip(start as int)) == lines_of(s@),
        decreases all.len() - start,
    {
        let rest = slice_subrange(all, start, all.len());
        assert(rest@ == all@.skip(start as int));
        let ghost before = views(res@);
        let end = find(rest, '\n');
        proof {
            lemma_position(rest@, '\n');
        }
        if end == rest.len() {
            let line = string_of(rest);
            res.push(line);
            start = all.len();
            assert(views(res@) == before.push(line@));
            assert(all@.skip(start as int) == Seq::<char>::empty());
            assert(before + lines_of(rest@) == views(res@) + lines_of(all@.skip(start as int)));
        } else {
            let line = if end > 0 && rest[end - 1] == '\r' {
                string_of(slice_subrange(rest, 0, end - 1))
            } else {
                string_of(slice_subrange(rest, 0, end))
            };
            assert(line@ == without_carriage_return(rest@.take(end as int)));
            res.push(line);
            assert(views(res@) == before.push(line@));
            assert(rest@.skip(end + 1) == all@.skip(start + end + 1));
            assert(before + lines_of(rest@) == views(res@) + lines_of(all@.skip(start + end + 1)));
            start = start + end + 1;
        }
    }
    assert(all@.skip(start as int) == Seq::<char>::empty());
    assert(views(res@) == lines_of(s@));
    res
}

/// The given lines, each ended by a line feed.
pub open spec fn ended_lines(lines: Seq<Seq<char>>) -> Seq<char>
    decreases lines.len(),
{
    if lines.len() == 0 {
        seq![]
    } else {
        lines[0] + seq!['\n'] + ended_lines(lines.skip(1))
    }
}

/// Lines that are each ended by a line feed are read back as they were, unless
/// one holds a line feed or ends in a carriage return.
pub proof fn lemma_lines_read_back(lines: Seq<Seq<char>>)
    requires
        forall|i: int|
            #![trigger lines[i]]
            0 <= i < lines.len() ==> !lines[i].contains('\n') && (lines[i].len() > 0
                ==> lines[i].last() != '\r'),
    ensures
        lines_of(ended_lines(lines)) == lines,
    decreases lines.len(),
{
    if lines.len() > 0 {
        let first = lines[0];
        let rest = lines.skip(1);
        let all = ended_lines(lines);
        assert forall|i: int|
            #![trigger rest[i]]
            0 <= i < rest.len() implies !rest[i].contains('\n') && (rest[i].len() > 0
            ==> rest[i].last() != '\r') by {
            assert(rest[i] == lines[i + 1]);
        }
        lemma_lines_read_back(rest);
        assert forall|i: int| 0 <= i < first.len() implies all[i] != '\n' by {
            assert(all[i] == first[i]);
            assert(first.contains(first[i]));
        }
        lemma_position_unique(all, '\n', first.len() as int);
        assert(all.take(first.len() as int) =~= first);
        assert(all.skip((first.len() + 1) as int) =~= ended_lines(rest));
        assert(seq![first] + rest =~= lines);
    } else {
        assert(lines_of(ended_lines(lines)) =~= lines);
    }
}

/// `pattern` stands in `s` at the index `i`.
pub open spec fn occurs_at(s: Seq<char>, pattern: Seq<char>, i: int) -> bool {
    &&& 0 <= i
    &&& i + pattern.len() <= s.len()
    &&& s.subrange(i, i + pattern.len()) == pattern
}

/// `pattern` stands somewhere in `s`.
pub open spec fn occurs_in(s: Seq<char>, pattern: Seq<char>) -> bool {
    exists|i: int| occurs_at(s, pattern, i)
}

pub(crate) fn stands_at(s: &[char], pattern: &[char], i: usize) -> (res: bool)
    requires
        i <= s.len(),
    ensures
        res == occurs_at(s@, pattern@, i as int),
{
    if s.len() - i < pattern.len() {
        return false;
    }
    for k in 0..pattern.len()
        invariant
            i <= s.len(),
            pattern.len() <= s.len() - i,
            forall|j: int| 0 <= j < k ==> s@[i + j] == pattern@[j],
    {
        if s[i + k] != pattern[k] {
            assert(s@.subrange(i as int, i + pattern@.len())[k as int] != pattern@[k as int]);
            return false;
        }
    }
    assert(s@.subrange(i as int, i + pattern@.len()) =~= pattern@);
    true
}

/// Whether `pattern` stands somewhere in `s`, as `str::contains` tells.
pub fn contains(s: &str, pattern: &str) -> (res: bool)
    ensures
        res == occurs_in(s@, pattern@),
{
    let chars = chars_of(s);
    let wanted = chars_of(pattern);
    if wanted.len() == 0 {
        assert(s@.subrange(0, 0) =~= pattern@);
        assert(occurs_at(s@, pattern@, 0));
        return true;
    }
    let mut i: usize = 0;
    while i < chars.len()
        invariant
            chars@ == s@,
            wanted@ == pattern@,
            wanted.len() > 0,
            i <= chars.len(),
            forall|j: int| 0 <= j < i ==> !occurs_at(s@, pattern@, j),
        decreases chars.len() - i,
    {
        if stands_at(chars.as_slice(), wanted.as_slice(), i) {
            assert(occurs_at(s@, pattern@, i as int));
            return true;
        }
        i = i + 1;
    }
    false
}

/// Whether `s` begins with `prefix`, as `str::starts_with` tells.
pub fn starts_with(s: &str, prefix: &str) -> (res: bool)
    ensures
        res == occurs_at(s@, prefix@, 0),
{
    let chars = chars_of(s);
    let wanted = chars_of(prefix);
    stands_at(chars.as_slice(), wanted.as_slice(), 0)
}

/// `s` with every occurrence of `pattern` replaced, from the left and without
/// overlap.
pub open spec fn replaced(s: Seq<char>, pattern: Seq<char>, with: Seq<char>) -> Seq<char>
    recommends
        pattern.len() > 0,
    decreases s.len(),
{
    if s.len() == 0 || pattern.len() == 0 {
        s
    } else if occurs_at(s, pattern, 0) {
        with + replaced(s.skip(pattern.len() as int), pattern, with)
    } else {
        seq![s[0]] + replaced(s.skip(1), pattern, with)
    }
}

/// `s` with every occurrence of `pattern` replaced by `with`, as
/// `str::replace` gives it.
pub fn replace_all(s: &str, pattern: &str, with: &str) -> (res: String)
    requires
        pattern@.len() > 0,
    ensures
        res@ == replaced(s@, pattern@, with@),
{
    let chars = chars_of(s);
    let wanted = chars_of(pattern);
    let mut res = String::new();
    let mut i: usize = 0;
    assert(chars@.skip(0) == chars@);
    assert(res@ + replaced(s@, pattern@, with@) == replaced(s@, pattern@, with@));
    while i < chars.len()
        invariant
            chars@ == s@,
            wanted@ == pattern@,
            wanted.len() > 0,
            i <= chars.len(),
            res@ + replaced(s@.skip(i as int), pattern@, with@) == replaced(s@, pattern@, with@),
        decreases chars.len() - i,
    {
        let ghost rest = s@.skip(i as int);
        let ghost before = res@;
        if stands_at(chars.as_slice(), wanted.as_slice(), i) {
            assert(rest.subrange(0, pattern@.len() as int) =~= s@.subrange(
                i as int,
                i + pattern@.len(),
            ));
            assert(rest.skip(pattern@.len() as int) == s@.skip(i + pattern@.len()));
            res.append(with);
            i = i + wanted.len();
            assert(before + (with@ + replaced(s@.skip(i as int), pattern@, with@)) == res@
                + replaced(s@.skip(i as int), pattern@, with@));
        } else {
            assert(!occurs_at(rest, pattern@, 0)) by {
                if occurs_at(rest, pattern@, 0) {
                    assert(rest.subrange(0, pattern@.len() as int) =~= s@.subrange(
                        i as int,
                        i + pattern@.len(),
                    ));
                }
            }
            assert(rest.skip(1) == s@.skip(i + 1));
            res.push(chars[i]);
            i = i + 1;
            assert(before + (seq![rest[0]] + replaced(s@.skip(i as int), pattern@, with@)) == res@
                + replaced(s@.skip(i as int), pattern@, with@));
        }
    }
    assert(s@.skip(i as int) == Seq::<char>::empty());
    res
}

/// A text that does not hold the pattern is left as it is.
pub proof fn lemma_replaced_absent(s: Seq<char>, pattern: Seq<char>, with: Seq<char>)
    requires
        pattern.len() > 0,
        !occurs_in(s, pattern),
    ensures
        replaced(s, pattern, with) == s,
    decreases s.len(),
{
    if s.len() > 0 {
        assert(!occurs_at(s, pattern, 0));
        assert(!occurs_in(s.skip(1), pattern)) by {
            if occurs_in(s.skip(1), pattern) {
                let i = choose|i: int| occurs_at(s.skip(1), pattern, i);
                assert(s.skip(1).subrange(i, i + pattern.len()) =~= s.subrange(
                    i + 1,
                    i + 1 + pattern.len(),
                ));
                assert(occurs_at(s, pattern, i + 1));
            }
        }
        lemma_replaced_absent(s.skip(1), pattern, with);
        assert(seq![s[0]] + s.skip(1) == s);
    }
}

/// Where the pattern stands for the first time after `before`, the text before
/// it is kept, it gives way to the replacement, and what follows it is treated
/// by itself.
pub proof fn lemma_replaced_first(
    before: Seq<char>,
    pattern: Seq<char>,
    after: Seq<char>,
    with: Seq<char>,
)
    requires
        pattern.len() > 0,
        forall|i: int| 0 <= i < before.len() ==> !occurs_at(before + pattern + after, pattern, i),
    ensures
        replaced(before + pattern + after, pattern, with) == before + with + replaced(
            after,
            pattern,
            with,
        ),
    decreases before.len(),
{
    let s = before + pattern + after;
    if before.len() == 0 {
        assert(s.subrange(0, pattern.len() as int) =~= pattern);
        assert(s.skip(pattern.len() as int) =~= after);
        assert(before + with + replaced(after, pattern, with) =~= with + replaced(
            after,
            pattern,
            with,
        ));
    } else {
        let rest = before.skip(1);
        assert(!occurs_at(s, pattern, 0));
        assert(s.skip(1) =~= rest + pattern + after);
        assert forall|i: int| 0 <= i < rest.len() implies !occurs_at(
            rest + pattern + after,
            pattern,
            i,
        ) by {
            assert(!occurs_at(s, pattern, i + 1));
            if occurs_at(rest + pattern + after, pattern, i) {
                assert(s.subrange(i + 1, i + 1 + pattern.len()) =~= s.skip(1).subrange(
                    i,
                    i + pattern.len(),
                ));
            }
        }
        lemma_replaced_first(rest, pattern, after, with);
        assert(seq![s[0]] + (rest + with + replaced(after, pattern, with)) =~= before + with
            + replaced(after, pattern, with));
    }
}

/// The parts one after the other, with `separator` between each two.
pub open spec fn joined(parts: Seq<Seq<char>>, separator: Seq<char>) -> Seq<char>
    decreases parts.len(),
{
    if parts.len() == 0 {
        seq![]
    } else if parts.len() == 1 {
        parts[0]
    } else {
        joined(parts.drop_last(), separator) + separator + parts.last()
    }
}

/// The parts one after the other, with `separator` between each two, as
/// `join` gives them.
pub fn join(parts: &Vec<String>, separator: &str) -> (res: String)
    ensures
        res@ == joined(views(parts@), separator@),
{
    let mut res = String::new();
    for i in 0..parts.len()
        invariant
            res@ == joined(views(parts@).take(i as int), separator@),
    {
        if i > 0 {
            res.append(separator);
        }
        res.append(parts[i].as_str());
        proof {
            let upto = views(parts@).take(i + 1);
            assert(upto.drop_last() == views(parts@).take(i as int));
            assert(upto.last() == parts@[i as int]@);
            if i == 0 {
                assert(upto.len() == 1);
                assert(res@ =~= upto[0]);
            }
        }
    }
    assert(views(parts@).take(parts@.len() as int) == views(parts@));
    res
}

/// Whether two texts are equal.
pub fn same_text(a: &str, b: &str) -> (res: bool)
    ensures
        res == (a@ == b@),
{
    let left = chars_of(a);
    let right = chars_of(b);
    if left.len() != right.len() {
        return false;
    }
    for i in 0..left.len()
        invariant
            left@ == a@,
            right@ == b@,
            left.len() == right.len(),
            forall|j: int| 0 <= j < i ==> left@[j] == right@[j],
    {
        if left[i] != right[i] {
            return false;
        }
    }
    assert(a@ =~= b@);
    true
}

/// The text is in quotes: from `i` on, its first quote that no backslash stands
/// before is its last character.
pub open spec fn is_closed(text: Seq<char>, i: int) -> bool
    decreases text.len() + 1 - i,
{
    if i >= text.len() {
        false
    } else if text[i] == '"' {
        i + 1 == text.len()
    } else if text[i] == '\\' {
        is_closed(text, i + 2)
    } else {
        is_closed(text, i + 1)
    }
}

/// Characters that are neither quotes nor backslashes may stand in quotes.
pub proof fn lemma_closed_from(text: Seq<char>, from: int, to: int)
    requires
        0 <= from <= to <= text.len(),
        forall|k: int| from <= k < to ==> text[k] != '"' && text[k] != '\\',
        is_closed(text, to),
    ensures
        is_closed(text, from),
    decreases to - from,
{
    if from < to {
        lemma_closed_from(text, from + 1, to);
    }
}

/// The decimal digits of a number.
pub open spec fn decimal(n: nat) -> Seq<char>
    decreases n,
{
    if n < 10 {
        seq![((48 + n) as u8) as char]
    } else {
        decimal(n / 10).push(((48 + n % 10) as u8) as char)
    }
}

/// The decimal digits of a number, as `Display` writes them.
pub fn decimal_of(n: u64) -> (res: String)
    ensures
        res@ == decimal(n as nat),
    decreases n,
{
    let mut res = if n < 10 {
        String::new()
    } else {
        decimal_of(n / 10)
    };
    let digit: u8 = 48 + (n % 10) as u8;
    res.push(digit as char);
    assert(n < 10 ==> res@ =~= decimal(n as nat));
    res
}

/// The given words, each as a string of its own.
pub(crate) fn owned(words: Vec<&str>) -> (res: Vec<String>)
    ensures
        views(res@) == words@.map_values(|w: &str| w@),
{
    let mut res: Vec<String> = Vec::new();
    for i in 0..words.len()
        invariant
            views(res@) == words@.take(i as int).map_values(|w: &str| w@),
    {
        let ghost before = views(res@);
        let word = words[i].to_owned();
        res.push(word);
        assert(views(res@) =~= before.push(word@));
        assert(words@.take(i + 1).map_values(|w: &str| w@) =~= before.push(word@));
    }
    assert(words@.take(words@.len() as int) =~= words@);
    res
}

/// There is one sequence of characters for each string, in the same order.
pub proof fn lemma_views(items: Seq<String>)
    ensures
        views(items).len() == items.len(),
        forall|i: int| 0 <= i < items.len() ==> #[trigger] views(items)[i] == items[i]@,
{
}

/// Without trailing whitespace, a text ends with its last other character, and
/// nothing before that is touched.
pub proof fn lemma_trailing_space(s: Seq<char>)
    ensures
        exists|n: int|
            #![trigger s.take(n)]
            0 <= n <= s.len() && without_trailing_space(s) == s.take(n) && (n > 0
                ==> !is_white_space(s[n - 1])) && (forall|i: int|
                n <= i < s.len() ==> is_white_space(#[trigger] s[i])),
    decreases s.len(),
{
    if s.len() > 0 && is_white_space(s.last()) {
        let before = s.drop_last();
        lemma_trailing_space(before);
        let n = choose|n: int|
            #![trigger before.take(n)]
            0 <= n <= before.len() && without_trailing_space(before) == before.take(n) && (n > 0
                ==> !is_white_space(before[n - 1])) && (forall|i: int|
                n <= i < before.len() ==> is_white_space(#[trigger] before[i]));
        assert(s.take(n) =~= before.take(n));
        assert forall|i: int| n <= i < s.len() implies is_white_space(#[trigger] s[i]) by {
            if i < before.len() {
                assert(before[i] == s[i]);
            }
        }
        if n > 0 {
            assert(before[n - 1] == s[n - 1]);
        }
    } else {
        assert(s.take(s.len() as int) =~= s);
    }
}

/// Trimming takes away the whitespace at both ends of a text and nothing else:
/// what is left begins and ends with its first and last other character.
pub proof fn lemma_trimmed(s: Seq<char>)
    ensures
        exists|i: int, j: int|
            #![trigger s.subrange(i, j)]
            0 <= i <= j <= s.len() && trimmed(s) == s.subrange(i, j) && (i < j
                ==> !is_white_space(s[i]) && !is_white_space(s[j - 1])) && (forall|k: int|
                0 <= k < i || j <= k < s.len() ==> is_white_space(#[trigger] s[k])),
{
    lemma_leading_space(s);
    let rest = without_leading_space(s);
    let i = s.len() - rest.len();
    lemma_trailing_space(rest);
    let n = choose|n: int|
        #![trigger rest.take(n)]
        0 <= n <= rest.len() && without_trailing_space(rest) == rest.take(n) && (n > 0
            ==> !is_white_space(rest[n - 1])) && (forall|k: int|
            n <= k < rest.len() ==> is_white_space(#[trigger] rest[k]));
    let j = i + n;
    assert(s.subrange(i, j) =~= rest.take(n)) by {
        assert(s.skip(i) == rest);
    }
    lemma_leading_space_ends(s);
    assert forall|k: int| 0 <= k < i || j <= k < s.len() implies is_white_space(#[trigger] s[k]) by {
        if k < i {
            assert(s.take(i)[k] == s[k]);
        } else {
            assert(rest[k - i] == s.skip(i)[k - i]);
        }
    }
    if i < j {
        assert(rest[n - 1] == s.skip(i)[n - 1]);
        assert(rest[0] == s.skip(i)[0]);
    }
}

proof fn lemma_leading_space_ends(s: Seq<char>)
    ensures
        without_leading_space(s).len() > 0 ==> !is_white_space(without_leading_space(s)[0]),
    decreases s.len(),
{
    if s.len() > 0 && is_white_space(s[0]) {
        lemma_leading_space_ends(s.skip(1));
    }
}

/// The empty text has no lines, and a text without a line feed is one line.
pub proof fn lemma_last_line(s: Seq<char>)
    requires
        !s.contains('\n'),
    ensures
        s.len() == 0 ==> lines_of(s).len() == 0,
        s.len() > 0 ==> lines_of(s) == seq![s],
{
    assert forall|i: int| 0 <= i < s.len() implies s[i] != '\n' by {
        assert(s.contains(s[i]));
    }
    lemma_position_unique(s, '\n', s.len() as int);
}

/// The first line of a text ends at its first line feed, or at the carriage
/// return before that, and the other lines are those of the rest.
pub proof fn lemma_first_line(line: Seq<char>, rest: Seq<char>)
    requires
        !line.contains('\n'),
    ensures
        lines_of(line + seq!['\n'] + rest).len() == 1 + lines_of(rest).len(),
        lines_of(line + seq!['\n'] + rest).skip(1) == lines_of(rest),
        line.len() > 0 && line.last() == '\r' ==> lines_of(line + seq!['\n'] + rest)[0]
            == line.take(line.len() - 1),
        line.len() == 0 || line.last() != '\r' ==> lines_of(line + seq!['\n'] + rest)[0] == line,
{
    let all = line + seq!['\n'] + rest;
    let n = line.len() as int;
    assert forall|i: int| 0 <= i < n implies all[i] != '\n' by {
        assert(all[i] == line[i]);
        assert(line.contains(line[i]));
    }
    assert(all[n] == '\n');
    lemma_position_unique(all, '\n', n);
    assert(all.take(n) =~= line);
    assert(all.skip(n + 1) =~= rest);
    assert(lines_of(all).skip(1) =~= lines_of(rest));
    if n > 0 {
        assert(line.drop_last() =~= line.take(n - 1));
    }
}

/// A pattern stands at an index if and only if its characters stand there one
/// after the other.
pub proof fn lemma_occurs_at(s: Seq<char>, pattern: Seq<char>, i: int)
    ensures
        occurs_at(s, pattern, i) <==> 0 <= i && i + pattern.len() <= s.len() && (forall|k: int|
            0 <= k < pattern.len() ==> #[trigger] pattern[k] == s[i + k]),
{
    if 0 <= i && i + pattern.len() <= s.len() {
        let part = s.subrange(i, i + pattern.len());
        if occurs_at(s, pattern, i) {
            assert forall|k: int| 0 <= k < pattern.len() implies #[trigger] pattern[k] == s[i
                + k] by {
                assert(part[k] == s[i + k]);
            }
        }
        if forall|k: int| 0 <= k < pattern.len() ==> #[trigger] pattern[k] == s[i + k] {
            assert(part =~= pattern);
        }
    }
}

/// A text holds a pattern if and only if it is something, the pattern, and
/// something.
pub proof fn lemma_occurs_in(s: Seq<char>, pattern: Seq<char>)
    ensures
        occurs_in(s, pattern) <==> exists|before: Seq<char>, after: Seq<char>|
            s == #[trigger] (before + pattern + after),
{
    if occurs_in(s, pattern) {
        let i = choose|i: int| occurs_at(s, pattern, i);
        let before = s.take(i);
        let after = s.skip(i + pattern.len());
        assert(s.subrange(i, i + pattern.len()) == pattern);
        assert(s =~= before + pattern + after);
    }
    if exists|before: Seq<char>, after: Seq<char>| s == #[trigger] (before + pattern + after) {
        let (before, after) = choose|before: Seq<char>, after: Seq<char>|
            s == #[trigger] (before + pattern + after);
        let i = before.len() as int;
        assert(s.subrange(i, i + pattern.len()) =~= pattern);
        assert(occurs_at(s, pattern, i));
    }
}

/// Joining nothing gives nothing, one part gives itself, and a further part
/// follows behind the separator.
pub proof fn lemma_joined(parts: Seq<Seq<char>>, part: Seq<char>, separator: Seq<char>)
    ensures
        joined(seq![], separator) == Seq::<char>::empty(),
        joined(seq![part], separator) == part,
        parts.len() > 0 ==> joined(parts.push(part), separator) == joined(parts, separator)
            + separator + part,
{
    assert(parts.push(part).drop_last() =~= parts);
}

/// The digits of a number are those of its tenth and the digit of the rest.
pub proof fn lemma_decimal(n: nat, digit: nat)
    requires
        digit < 10,
    ensures
        decimal(digit) == seq!["0123456789"@[digit as int]],
        n > 0 ==> decimal(10 * n + digit) == decimal(n) + seq!["0123456789"@[digit as int]],
{
    reveal_strlit("0123456789");
    let c = "0123456789"@[digit as int];
    assert(c == ((48 + digit) as u8) as char);
    assert(decimal(digit) =~= seq![c]);
    if n > 0 {
        assert((10 * n + digit) / 10 == n);
        assert((10 * n + digit) % 10 == digit);
        assert(decimal(10 * n + digit) =~= decimal(n) + seq![c]);
    }
}

} // verus!
