//! Staged files, as `git status --porcelain` lists them.

use crate::encoding::{from_utf8, from_utf8_lossy};
use crate::quoting::{byte_text, bytes_text, path_bytes, path_in_text, quoted};
use crate::text::{
    chars_of, is_closed, lines, lines_of, occurs_at, occurs_in, owned, stands_at, string_of, views,
};
use vstd::prelude::*;
use vstd::slice::slice_subrange;
use vstd::string::StrSliceExecFns;
use vstd::utf8::{
    decode_utf8, decode_utf8_encode_utf8, encode_scalar, encode_utf8, encode_utf8_decode_utf8, encode_utf8_first_scalar,
    encode_utf8_valid_utf8, is_char_boundary, is_char_boundary_iff_not_is_continuation_byte,
    is_char_boundary_start_end_of_seq, valid_utf8_split,
};

verus! {

/// The command that lists the states of files.
pub fn status_command() -> (res: Vec<String>)
    ensures
        views(res@) == seq!["git"@, "status"@, "--porcelain"@],
{
    let res = owned(vec!["git", "status", "--porcelain"]);
    assert(views(res@) =~= seq!["git"@, "status"@, "--porcelain"@]);
    res
}

/// The files that a commit takes up.
#[derive(Debug)]
pub struct StagedFiles {
    /// Files that are staged (in the index) and not dirty (working tree matches
    /// index).
    pub clean: Vec<Vec<u8>>,
}

impl StagedFiles {
    /// The paths of the clean files.
    pub open spec fn paths(self) -> Seq<Seq<u8>> {
        self.clean@.map_values(|p: Vec<u8>| p@)
    }
}

/// A line of a status: two characters for the states of a file, one byte, and
/// the file's path. Lines of fewer than three bytes hold no file.
pub open spec fn is_status_line(line: Seq<char>) -> bool {
    encode_utf8(line).len() >= 3 ==> line.len() >= 2 && is_char_boundary(encode_utf8(line), 3)
}

/// Every line of a status is one.
pub open spec fn is_status(text: Seq<char>) -> bool {
    forall|i: int| 0 <= i < lines_of(text).len() ==> is_status_line(#[trigger] lines_of(text)[i])
}

/// The line lists a file that is staged and not dirty: the state in the index
/// is neither unmodified nor untracked, and that in the working tree is
/// unmodified.
pub open spec fn lists_clean_file(line: Seq<char>) -> bool {
    encode_utf8(line).len() >= 3 && line[0] != ' ' && line[0] != '?' && line[1] == ' '
}

/// The state of a file in the index says that it was renamed or copied.
pub open spec fn is_moved(index: char) -> bool {
    index == 'R' || index == 'C'
}

/// The end of a quoted path whose characters go on at `i`: behind the next
/// quote that no backslash stands before.
pub open spec fn quoted_end(text: Seq<char>, i: int) -> int
    decreases text.len() + 1 - i,
{
    if i >= text.len() {
        text.len() as int
    } else if text[i] == '"' {
        i + 1
    } else if text[i] == '\\' {
        quoted_end(text, i + 2)
    } else {
        quoted_end(text, i + 1)
    }
}

/// Where the path that a file had before can end at the earliest: behind its
/// quotes, where it has any.
pub open spec fn source_end(text: Seq<char>) -> int {
    if text.len() > 0 && text[0] == '"' {
        quoted_end(text, 1)
    } else {
        0
    }
}

/// The arrow between the path that a file had before and its present one: the
/// first from `i` on, or the end of the text.
pub open spec fn arrow_at(text: Seq<char>, i: int) -> int
    decreases text.len() - i,
{
    if i >= text.len() {
        text.len() as int
    } else if occurs_at(text, " -> "@, i) {
        i
    } else {
        arrow_at(text, i + 1)
    }
}

/// The present path of a file that was renamed or copied: what follows the
/// arrow, or the whole text where there is none.
pub open spec fn present_path(text: Seq<char>) -> Seq<char> {
    let at = arrow_at(text, source_end(text));
    if at < text.len() {
        text.skip(at + 4)
    } else {
        text
    }
}

/// The text of the path in a line of a status: what follows its third byte.
pub open spec fn listed_text(line: Seq<char>) -> Seq<char> {
    decode_utf8(encode_utf8(line).skip(3))
}

/// The path that a line of a status lists, without the quotes that it may stand
/// in. That of a file that was renamed or copied stands behind the path that it
/// had before.
pub open spec fn listed_path(line: Seq<char>) -> Seq<u8> {
    if is_moved(line[0]) {
        path_bytes(present_path(listed_text(line)))
    } else {
        path_bytes(listed_text(line))
    }
}

/// The paths of the files that a status lists as staged and not dirty, in its
/// order.
pub open spec fn clean_paths(lines: Seq<Seq<char>>) -> Seq<Seq<u8>> {
    lines.filter(|l: Seq<char>| lists_clean_file(l)).map_values(|l: Seq<char>| listed_path(l))
}

/// The line that lists `path` with the given states in the index and in the
/// working tree.
pub open spec fn status_line(index: char, tree: char, path: Seq<char>) -> Seq<char> {
    seq![index, tree, ' '] + path
}

/// The line that lists a file which had the path `source` before and has `path`
/// now.
pub open spec fn moved_line(index: char, tree: char, source: Seq<char>, path: Seq<char>) -> Seq<
    char,
> {
    status_line(index, tree, source + " -> "@ + path)
}

/// A path as a status writes it: without spaces, or in quotes.
pub open spec fn is_written_path(text: Seq<char>) -> bool {
    if text.len() > 0 && text[0] == '"' {
        is_closed(text, 1)
    } else {
        !text.contains(' ')
    }
}

proof fn lemma_quoted_end(text: Seq<char>, rest: Seq<char>, i: int)
    requires
        0 <= i,
        is_closed(text, i),
    ensures
        quoted_end(text + rest, i) == text.len(),
    decreases text.len() + 1 - i,
{
    if text[i] == '\\' {
        lemma_quoted_end(text, rest, i + 2);
    } else if text[i] != '"' {
        lemma_quoted_end(text, rest, i + 1);
    }
}

proof fn lemma_arrow_at(text: Seq<char>, from: int, at: int)
    requires
        0 <= from <= at < text.len(),
        occurs_at(text, " -> "@, at),
        forall|k: int| from <= k < at ==> text[k] != ' ',
    ensures
        arrow_at(text, from) == at,
    decreases at - from,
{
    if from < at {
        reveal_strlit(" -> ");
        if occurs_at(text, " -> "@, from) {
            assert(text.subrange(from, from + 4)[0] == ' ');
        }
        lemma_arrow_at(text, from + 1, at);
    }
}

/// The present path of a file that was renamed or copied is read from behind
/// the path that it had before, whatever characters either of them holds.
pub proof fn lemma_present_path(source: Seq<char>, path: Seq<char>)
    requires
        is_written_path(source),
    ensures
        present_path(source + " -> "@ + path) == path,
{
    reveal_strlit(" -> ");
    let text = source + " -> "@ + path;
    let at = source.len() as int;
    assert(text.subrange(at, at + 4) =~= " -> "@);
    assert(text.skip(at + 4) =~= path);
    if source.len() > 0 && source[0] == '"' {
        assert(text =~= source + (" -> "@ + path));
        lemma_quoted_end(source, " -> "@ + path, 1);
        assert(text[0] == '"');
        lemma_arrow_at(text, at, at);
    } else {
        assert(text[0] != '"') by {
            if source.len() == 0 {
                assert(text[0] == " -> "@[0]);
            }
        }
        assert forall|k: int| 0 <= k < at implies text[k] != ' ' by {
            assert(source.contains(source[k]));
        }
        lemma_arrow_at(text, 0, at);
    }
}

/// A line of a status whose states are ASCII lists its path, which git may have
/// written in quotes, and lists it as clean if and only if the working tree's state is unmodified and that of the
/// index neither unmodified nor untracked. Of a file that was renamed or copied
/// it lists the present path.
pub proof fn lemma_status_line(index: char, tree: char, path: Seq<char>)
    requires
        index as u32 <= 0x7f,
        tree as u32 <= 0x7f,
    ensures
        is_status_line(status_line(index, tree, path)),
        !is_moved(index) ==> listed_path(status_line(index, tree, path)) == path_bytes(path),
        is_moved(index) ==> listed_path(status_line(index, tree, path)) == path_bytes(
            present_path(path),
        ),
        is_moved(index) ==> forall|source: Seq<char>, present: Seq<char>|
            is_written_path(source) && path == #[trigger] (source + " -> "@ + present)
                ==> listed_path(status_line(index, tree, path)) == path_bytes(present),
        lists_clean_file(status_line(index, tree, path)) <==> index != ' ' && index != '?' && tree
            == ' ',
{
    let line = status_line(index, tree, path);
    let bytes = encode_utf8(line);
    let after_index = line.drop_first();
    let after_tree = after_index.drop_first();
    assert(after_index[0] == tree);
    assert(after_tree[0] == ' ');
    assert(after_tree.drop_first() =~= path);
    let rest = encode_utf8(path);
    assert(encode_utf8(after_tree) =~= encode_scalar(' ' as u32) + rest);
    assert(encode_utf8(after_index) =~= encode_scalar(tree as u32) + encode_utf8(after_tree));
    assert(bytes =~= encode_scalar(index as u32) + (encode_scalar(tree as u32) + (encode_scalar(
        ' ' as u32,
    ) + rest)));
    assert(bytes.skip(3) =~= rest);
    encode_utf8_decode_utf8(path);
    assert forall|source: Seq<char>, present: Seq<char>|
        is_written_path(source) && path == #[trigger] (source + " -> "@ + present) implies
        present_path(path) == present by {
        lemma_present_path(source, present);
    }
    encode_utf8_valid_utf8(line);
    encode_utf8_valid_utf8(path);
    if path.len() == 0 {
        assert(bytes.len() == 3);
        is_char_boundary_start_end_of_seq(bytes);
    } else {
        encode_utf8_first_scalar(path);
        assert(bytes[3] == rest[0]);
        is_char_boundary_start_end_of_seq(rest);
        is_char_boundary_iff_not_is_continuation_byte(rest, 0);
        is_char_boundary_iff_not_is_continuation_byte(bytes, 3);
    }
}

proof fn lemma_quoted_closed(text: Seq<char>, i: int, bytes: Seq<u8>)
    requires
        0 <= i <= text.len(),
        text.skip(i) == bytes_text(bytes) + seq!['"'],
    ensures
        is_closed(text, i),
    decreases bytes.len(),
{
    let rest = text.skip(i);
    if bytes.len() == 0 {
        assert(rest =~= seq!['"']);
        assert(text[i] == rest[0]);
    } else {
        let first = byte_text(bytes[0]);
        let later = bytes.skip(1);
        let n = first.len() as int;
        assert(rest =~= first + (bytes_text(later) + seq!['"']));
        assert(text.skip(i + n) =~= rest.skip(n));
        assert(rest.skip(n) =~= bytes_text(later) + seq!['"']);
        lemma_quoted_closed(text, i + n, later);
        assert forall|k: int| 0 <= k < n implies text[i + k] == #[trigger] first[k] by {
            assert(rest[k] == first[k]);
        }
        assert(text[i] == first[0]);
        if n == 4 {
            assert(text[i + 2] == first[2]);
            assert(text[i + 3] == first[3]);
            crate::text::lemma_closed_from(text, i + 2, i + 4);
        }
    }
}

/// A path in quotes is one as a status writes it, whatever bytes it holds.
pub proof fn lemma_quoted_is_written(path: Seq<u8>)
    ensures
        is_written_path(quoted(path)),
{
    let text = quoted(path);
    assert(text[0] == '"');
    assert(text.skip(1) =~= bytes_text(path) + seq!['"']);
    lemma_quoted_closed(text, 1, path);
}

/// A file whose path is written in quotes is listed with its path, whatever
/// bytes that holds, also where it was renamed or copied.
pub proof fn lemma_quoted_path_listed(index: char, tree: char, source: Seq<char>, path: Seq<u8>)
    requires
        index as u32 <= 0x7f,
        tree as u32 <= 0x7f,
        is_written_path(source),
    ensures
        !is_moved(index) ==> listed_path(status_line(index, tree, quoted(path))) == path,
        is_moved(index) ==> listed_path(moved_line(index, tree, source, quoted(path))) == path,
{
    crate::quoting::lemma_quoted_read_back(path);
    lemma_status_line(index, tree, quoted(path));
    lemma_status_line(index, tree, source + " -> "@ + quoted(path));
}

/// A file as a status lists it: the states in the index and in the working
/// tree, the path that it had before, where it was renamed or copied, and its
/// path, both as git writes them.
pub struct Listed {
    pub index: char,
    pub tree: char,
    pub source: Option<Seq<char>>,
    pub path: Seq<char>,
}

impl Listed {
    /// The line that lists the file.
    pub open spec fn line(self) -> Seq<char> {
        match self.source {
            Some(source) => moved_line(self.index, self.tree, source, self.path),
            None => status_line(self.index, self.tree, self.path),
        }
    }

    /// The line can be told from its neighbours and its parts from each other:
    /// the states are ASCII, there is a path that the file had before if and
    /// only if it was renamed or copied, there is no line feed, and no carriage
    /// return at the end.
    pub open spec fn is_plain(self) -> bool {
        &&& self.index as u32 <= 0x7f
        &&& self.tree as u32 <= 0x7f
        &&& self.source is Some <==> is_moved(self.index)
        &&& self.source matches Some(source) ==> is_written_path(source)
        &&& !self.line().contains('\n')
        &&& self.line().last() != '\r'
    }

    /// The file is staged and not dirty.
    pub open spec fn is_clean(self) -> bool {
        self.index != ' ' && self.index != '?' && self.tree == ' '
    }
}

proof fn lemma_listed(file: Listed)
    requires
        file.is_plain(),
    ensures
        is_status_line(file.line()),
        listed_path(file.line()) == path_bytes(file.path),
        lists_clean_file(file.line()) <==> file.is_clean(),
{
    match file.source {
        Some(source) => {
            lemma_status_line(file.index, file.tree, source + " -> "@ + file.path);
        },
        None => {
            lemma_status_line(file.index, file.tree, file.path);
        },
    }
}

/// A status that lists these files is read as one, and gives the present paths
/// of those that are staged and not dirty, in their order.
pub proof fn lemma_status_read_back(files: Seq<Listed>)
    requires
        forall|i: int| 0 <= i < files.len() ==> (#[trigger] files[i]).is_plain(),
    ensures
        ({
            let text = crate::text::ended_lines(files.map_values(|f: Listed| f.line()));
            &&& is_status(text)
            &&& clean_paths(lines_of(text)) == files.filter(|f: Listed| f.is_clean()).map_values(
                |f: Listed| path_bytes(f.path),
            )
        }),
{
    let lines = files.map_values(|f: Listed| f.line());
    assert forall|i: int|
        #![trigger lines[i]]
        0 <= i < lines.len() implies !lines[i].contains('\n') && (lines[i].len() > 0
        ==> lines[i].last() != '\r') && is_status_line(lines[i]) by {
        assert(files[i].is_plain());
        lemma_listed(files[i]);
    }
    crate::text::lemma_lines_read_back(lines);
    lemma_clean_paths(files);
}

proof fn lemma_clean_paths(files: Seq<Listed>)
    requires
        forall|i: int| 0 <= i < files.len() ==> (#[trigger] files[i]).is_plain(),
    ensures
        clean_paths(files.map_values(|f: Listed| f.line())) == files.filter(
            |f: Listed| f.is_clean(),
        ).map_values(|f: Listed| path_bytes(f.path)),
    decreases files.len(),
{
    reveal(Seq::filter);
    let lines = files.map_values(|f: Listed| f.line());
    let clean = files.filter(|f: Listed| f.is_clean());
    if files.len() == 0 {
        assert(clean_paths(lines) =~= clean.map_values(|f: Listed| path_bytes(f.path)));
    } else {
        let last = files.last();
        let before = files.drop_last();
        assert(last == files[files.len() - 1]);
        lemma_listed(last);
        assert forall|i: int| 0 <= i < before.len() implies (#[trigger] before[i]).is_plain() by {
            assert(before[i] == files[i]);
        }
        lemma_clean_paths(before);
        assert(lines.drop_last() =~= before.map_values(|f: Listed| f.line()));
        assert(lines.last() == last.line());
        let paths = clean_paths(before.map_values(|f: Listed| f.line()));
        if last.is_clean() {
            assert(clean_paths(lines) =~= paths.push(path_bytes(last.path)));
            assert(clean.map_values(|f: Listed| path_bytes(f.path)) =~= paths.push(
                path_bytes(last.path),
            ));
        } else {
            assert(clean_paths(lines) =~= paths);
        }
    }
}

fn find_present_path(text: &[char]) -> (res: usize)
    ensures
        res <= text.len(),
        text@.skip(res as int) == present_path(text@),
{
    let arrow = chars_of(" -> ");
    proof {
        reveal_strlit(" -> ");
    }
    let n = text.len();
    let mut at: usize = 0;
    if n > 0 && text[0] == '"' {
        at = 1;
        while at < n && text[at] != '"'
            invariant
                n == text.len(),
                1 <= at <= n,
                quoted_end(text@, 1) == quoted_end(text@, at as int),
            decreases n - at,
        {
            if text[at] == '\\' {
                assert(at + 2 >= n ==> quoted_end(text@, at + 2) == quoted_end(text@, n as int));
                at = if n - at > 2 { at + 2 } else { n };
            } else {
                at = at + 1;
            }
        }
        if at < n {
            at = at + 1;
        }
    }
    assert(at == source_end(text@));
    while at < n && !stands_at(text, arrow.as_slice(), at)
        invariant
            n == text.len(),
            at <= n,
            arrow@ == " -> "@,
            arrow_at(text@, source_end(text@)) == arrow_at(text@, at as int),
        decreases n - at,
    {
        at = at + 1;
    }
    if at < n {
        at + 4
    } else {
        assert(text@.skip(0) =~= text@);
        0
    }
}

fn path_in(line: &str) -> (res: Vec<u8>)
    requires
        lists_clean_file(line@),
        is_status_line(line@),
    ensures
        res@ == listed_path(line@),
{
    let bytes = line.as_bytes_vec();
    let rest = slice_subrange(bytes.as_slice(), 3, bytes.len());
    proof {
        encode_utf8_valid_utf8(line@);
        valid_utf8_split(bytes@, 3);
        assert(rest@ =~= bytes@.skip(3));
    }
    match from_utf8(rest) {
        Some(text) => {
            let chars = chars_of(line);
            if chars[0] == 'R' || chars[0] == 'C' {
                let all = chars_of(text);
                let at = find_present_path(all.as_slice());
                let present = string_of(slice_subrange(all.as_slice(), at, all.len()));
                assert(present@ =~= all@.skip(at as int));
                path_in_text(present.as_str())
            } else {
                path_in_text(text)
            }
        },
        None => Vec::new(),
    }
}

/// Whether every line of a text is a line of a status.
pub fn reads_as_status(text: &str) -> (res: bool)
    ensures
        res == is_status(text@),
{
    let all = lines(text);
    for i in 0..all.len()
        invariant
            views(all@) == lines_of(text@),
            forall|j: int| 0 <= j < i ==> is_status_line(#[trigger] lines_of(text@)[j]),
    {
        let line = all[i].as_str();
        assert(line@ == lines_of(text@)[i as int]);
        let size = line.as_bytes_vec().len();
        if size >= 3 && (chars_of(line).len() < 2 || !line.is_char_boundary(3)) {
            return false;
        }
    }
    true
}

/// The files that the lines of a status list as staged and not dirty.
pub fn parse_status(text: &str) -> (res: StagedFiles)
    requires
        is_status(text@),
    ensures
        res.paths() == clean_paths(lines_of(text@)),
{
    let all = lines(text);
    let ghost wanted = lines_of(text@);
    let ghost keep = |l: Seq<char>| lists_clean_file(l);
    let ghost path = |l: Seq<char>| listed_path(l);
    let mut clean: Vec<Vec<u8>> = Vec::new();
    let ghost paths = |p: Vec<u8>| p@;
    assert(clean@.map_values(paths) =~= wanted.take(0).filter(keep).map_values(path)) by {
        reveal(Seq::filter);
    }
    for i in 0..all.len()
        invariant
            is_status(text@),
            wanted == lines_of(text@),
            views(all@) == wanted,
            keep == (|l: Seq<char>| lists_clean_file(l)),
            path == (|l: Seq<char>| listed_path(l)),
            paths == (|p: Vec<u8>| p@),
            clean@.map_values(paths) == wanted.take(i as int).filter(keep).map_values(path),
    {
        let line = all[i].as_str();
        assert(line@ == wanted[i as int]);
        assert(is_status_line(wanted[i as int]));
        let bytes = line.as_bytes_vec();
        let chars = chars_of(line);
        let ghost before = clean@.map_values(paths);
        proof {
            reveal(Seq::filter);
            assert(wanted.take(i + 1).drop_last() =~= wanted.take(i as int));
            assert(wanted.take(i + 1).last() == line@);
        }
        if bytes.len() >= 3 && chars[0] != ' ' && chars[0] != '?' && chars[1] == ' ' {
            let listed = path_in(line);
            clean.push(listed);
            assert(clean@.map_values(paths) =~= before.push(listed@));
            assert(wanted.take(i + 1).filter(keep).map_values(path) =~= before.push(listed@));
        }
    }
    assert(wanted.take(all@.len() as int) =~= wanted);
    StagedFiles { clean }
}

/// The files that `git status --porcelain` lists as staged and not dirty, from
/// what it wrote to its standard output. Nothing where that has a line that is
/// no line of a status.
pub fn staged_files(stdout: &[u8]) -> (res: Option<StagedFiles>)
    ensures
        res is Some <==> is_status(crate::encoding::text_of(stdout@)),
        res matches Some(files) ==> files.paths() == clean_paths(
            lines_of(crate::encoding::text_of(stdout@)),
        ),
{
    let text = from_utf8_lossy(stdout);
    if reads_as_status(text.as_str()) {
        Some(parse_status(text.as_str()))
    } else {
        None
    }
}

/// A file whose path is not in quotes is listed with exactly that path, as it
/// stands in the line; a file that was renamed or copied with the present one.
pub proof fn lemma_bare_path_listed(
    index: char,
    tree: char,
    source: Seq<char>,
    path: Seq<char>,
)
    requires
        index as u32 <= 0x7f,
        tree as u32 <= 0x7f,
        path.len() == 0 || path[0] != '"',
        is_written_path(source),
    ensures
        index != 'R' && index != 'C' ==> listed_path(seq![index, tree, ' '] + path) == encode_utf8(
            path,
        ),
        index == 'R' || index == 'C' ==> listed_path(
            seq![index, tree, ' '] + (source + " -> "@ + path),
        ) == encode_utf8(path),
{
    crate::quoting::lemma_bare_path(path);
    lemma_status_line(index, tree, path);
    lemma_status_line(index, tree, source + " -> "@ + path);
}

/// A line lists a clean file if and only if it has at least three bytes, its
/// first character is neither a space nor a question mark, and its second is a
/// space.
pub proof fn lemma_clean_line(line: Seq<char>)
    ensures
        lists_clean_file(line) <==> encode_utf8(line).len() >= 3 && line[0] != ' ' && line[0] != '?'
            && line[1] == ' ',
{
}

/// A text is a status if and only if each of its lines of three bytes or more
/// has two characters, and a character that begins behind the third byte.
pub proof fn lemma_is_status(text: Seq<char>)
    ensures
        is_status(text) <==> forall|i: int|
            #![trigger lines_of(text)[i]]
            0 <= i < lines_of(text).len() && encode_utf8(lines_of(text)[i]).len() >= 3
                ==> lines_of(text)[i].len() >= 2 && is_char_boundary(
                encode_utf8(lines_of(text)[i]),
                3,
            ),
{
    if is_status(text) {
        assert forall|i: int|
            #![trigger lines_of(text)[i]]
            0 <= i < lines_of(text).len() && encode_utf8(lines_of(text)[i]).len() >= 3 implies
            lines_of(text)[i].len() >= 2 && is_char_boundary(encode_utf8(lines_of(text)[i]), 3) by {
            assert(is_status_line(lines_of(text)[i]));
        }
    }
}

/// The text of the path in a line is what stands behind the third byte of the
/// line, and a line of a file that was not moved lists the path of that text.
pub proof fn lemma_listed_text(line: Seq<char>)
    requires
        is_status_line(line),
        encode_utf8(line).len() >= 3,
    ensures
        encode_utf8(listed_text(line)) == encode_utf8(line).skip(3),
        line[0] != 'R' && line[0] != 'C' ==> listed_path(line) == path_bytes(listed_text(line)),
        line[0] == 'R' || line[0] == 'C' ==> listed_path(line) == path_bytes(
            present_path(listed_text(line)),
        ),
{
    let bytes = encode_utf8(line);
    encode_utf8_valid_utf8(line);
    valid_utf8_split(bytes, 3);
    assert(bytes.subrange(3, bytes.len() as int) =~= bytes.skip(3));
    decode_utf8_encode_utf8(bytes.skip(3));
}

proof fn lemma_arrow_first(text: Seq<char>, from: int, at: int)
    requires
        0 <= from <= at <= text.len(),
        at < text.len() ==> occurs_at(text, " -> "@, at),
        forall|k: int| from <= k < at ==> !occurs_at(text, " -> "@, k),
    ensures
        arrow_at(text, from) == at,
    decreases at - from,
{
    if from < at {
        assert(!occurs_at(text, " -> "@, from));
        lemma_arrow_first(text, from + 1, at);
    }
}

/// The present path of a moved file follows the first arrow behind what is in
/// quotes at the beginning, if anything is. Without such an arrow it is all of
/// the text.
pub proof fn lemma_first_arrow(written: Seq<char>, between: Seq<char>, rest: Seq<char>)
    requires
        written.len() == 0 || (written[0] == '"' && is_closed(written, 1)),
        written.len() == 0 ==> between.len() == 0 || between[0] != '"',
        forall|k: int|
            written.len() <= k < written.len() + between.len() ==> !occurs_at(
                written + between + " -> "@ + rest,
                " -> "@,
                k,
            ),
    ensures
        present_path(written + between + " -> "@ + rest) == rest,
        !occurs_in(between, " -> "@) ==> present_path(written + between) == written + between,
{
    reveal_strlit(" -> ");
    let all = written + between + " -> "@ + rest;
    let at = (written.len() + between.len()) as int;
    assert(all.subrange(at, at + 4) =~= " -> "@);
    assert(all.skip(at + 4) =~= rest);
    let short = written + between;
    if written.len() > 0 {
        assert(all =~= written + (between + " -> "@ + rest));
        lemma_quoted_end(written, between + " -> "@ + rest, 1);
        lemma_quoted_end(written, between, 1);
        assert(all[0] == '"' && short[0] == '"');
    } else {
        assert(all[0] != '"') by {
            if between.len() == 0 {
                assert(all[0] == " -> "@[0]);
            } else {
                assert(all[0] == between[0]);
            }
        }
        if short.len() > 0 {
            assert(short[0] == between[0]);
        }
    }
    assert(source_end(all) == written.len());
    assert(source_end(short) == written.len());
    lemma_arrow_first(all, written.len() as int, at);
    if !occurs_in(between, " -> "@) {
        assert forall|k: int| written.len() <= k < short.len() implies !occurs_at(
            short,
            " -> "@,
            k,
        ) by {
            if occurs_at(short, " -> "@, k) {
                let j = k - written.len();
                assert(between.subrange(j, j + 4) =~= short.subrange(k, k + 4));
                assert(occurs_at(between, " -> "@, j));
            }
        }
        lemma_arrow_first(short, written.len() as int, short.len() as int);
    }
}

/// The files that are staged and not dirty are those that the lines list as
/// such, in their order: a further line adds its file behind the others, or
/// nothing.
pub proof fn lemma_clean_paths_step(lines: Seq<Seq<char>>, line: Seq<char>)
    ensures
        clean_paths(seq![]).len() == 0,
        encode_utf8(line).len() >= 3 && line[0] != ' ' && line[0] != '?' && line[1] == ' '
            ==> clean_paths(lines.push(line)) == clean_paths(lines).push(listed_path(line)),
        !(encode_utf8(line).len() >= 3 && line[0] != ' ' && line[0] != '?' && line[1] == ' ')
            ==> clean_paths(lines.push(line)) == clean_paths(lines),
{
    reveal(Seq::filter);
    let keep = |l: Seq<char>| lists_clean_file(l);
    let path = |l: Seq<char>| listed_path(l);
    assert(lines.push(line).drop_last() =~= lines);
    let kept = lines.filter(keep);
    assert(kept.push(line).map_values(path) =~= kept.map_values(path).push(listed_path(line)));
}

/// The paths of staged files are those that are held, in their order.
pub proof fn lemma_staged_paths(files: StagedFiles)
    ensures
        files.paths().len() == files.clean@.len(),
        forall|i: int|
            0 <= i < files.clean@.len() ==> #[trigger] files.paths()[i] == files.clean@[i]@,
{
}

proof fn lemma_quoted_end_closed(text: Seq<char>, i: int)
    requires
        0 <= i,
    ensures
        quoted_end(text, i) <= text.len() || i > text.len(),
        quoted_end(text, i) < text.len() ==> i < quoted_end(text, i) && is_closed(
            text.take(quoted_end(text, i)),
            i,
        ),
    decreases text.len() + 1 - i,
{
    if i < text.len() && text[i] != '"' {
        let next = if text[i] == '\\' {
            i + 2
        } else {
            i + 1
        };
        lemma_quoted_end_closed(text, next);
        let end = quoted_end(text, i);
        if end < text.len() {
            assert(text.take(end)[i] == text[i]);
        }
    } else if i + 1 < text.len() {
        assert(text.take(i + 1)[i] == text[i]);
    }
}

/// Where a text begins with a quote that nothing closes before its end, there is
/// no arrow in it, and the present path is all of the text.
pub proof fn lemma_open_quote(text: Seq<char>)
    requires
        text.len() > 0,
        text[0] == '"',
        forall|n: int| 0 <= n < text.len() ==> !is_closed(#[trigger] text.take(n), 1),
    ensures
        present_path(text) == text,
{
    lemma_quoted_end_closed(text, 1);
    let end = quoted_end(text, 1);
    if end < text.len() {
        assert(is_closed(text.take(end), 1));
    }
}

} // verus!
