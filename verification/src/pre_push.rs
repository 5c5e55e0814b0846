//! Before a push: which files have changed, and which crates that affects.

use crate::command::CommandOutput;
use crate::encoding::from_utf8_lossy;
use crate::order::sorted_set;
use crate::paths::{join, parent};
use crate::quoting::{path_bytes, path_in_text};
use crate::text::{
    chars_of, find, lines, occurs_at, owned, position, same_text, starts_with, string_of, trim,
    trimmed, views,
};
use vstd::prelude::*;
use vstd::slice::slice_subrange;
use vstd::string::{StrSliceExecFns, StringExecFns};
use vstd::utf8::encode_utf8;

verus! {

/// The command that names the commit where the current one and the main branch
/// part.
pub fn merge_base_command() -> (res: Vec<String>)
    ensures
        views(res@) == seq!["git"@, "merge-base"@, "HEAD"@, "origin/main"@],
{
    let res = owned(vec!["git", "merge-base", "HEAD", "origin/main"]);
    assert(views(res@) =~= seq!["git"@, "merge-base"@, "HEAD"@, "origin/main"@]);
    res
}

/// The commit that changes are counted from: what `git merge-base` names, or
/// the current one where that fails. `Err` is why it could not be run.
pub open spec fn base_of(run: Result<CommandOutput, String>) -> Seq<char> {
    match run {
        Ok(output) => if output.succeeded() {
            crate::text::trimmed(crate::encoding::text_of(output.stdout@))
        } else {
            "HEAD"@
        },
        Err(_) => "HEAD"@,
    }
}

/// The commit that changes are counted from: what `git merge-base` names, or
/// the current one where that fails.
pub fn merge_base(run: &Result<CommandOutput, String>) -> (res: String)
    ensures
        res@ == base_of(*run),
{
    match run {
        Ok(output) => {
            if output.success() {
                trim(from_utf8_lossy(output.stdout.as_slice()).as_str())
            } else {
                "HEAD".to_owned()
            }
        },
        Err(_) => "HEAD".to_owned(),
    }
}

/// The range of commits from the given one to the current one.
pub fn commit_range(base: &str) -> (res: String)
    ensures
        res@ == base@ + "...HEAD"@,
{
    base.to_owned().concat("...HEAD")
}

/// A listing of files by git.
#[derive(Clone, Copy, Debug, PartialEq, Eq, Structural)]
pub enum Listing {
    /// The files that differ from the merge base.
    Changed,
    /// The files that are staged.
    Staged,
}

impl Listing {
    /// What is said where the listing could not be run.
    pub open spec fn not_run_text(self) -> Seq<char> {
        match self {
            Listing::Changed => "Failed to get changed files: "@,
            Listing::Staged => "Failed to get staged files: "@,
        }
    }

    /// What is said where the listing failed.
    pub open spec fn failed_text(self) -> Seq<char> {
        match self {
            Listing::Changed => "git diff failed: "@,
            Listing::Staged => "git diff --cached failed: "@,
        }
    }
}

/// The words of the command of a listing, where changes are counted from the
/// commit `base`.
pub open spec fn listing_words(listing: Listing, base: Seq<char>) -> Seq<Seq<char>> {
    seq![
        "git"@,
        "diff"@,
        "--name-only"@,
        match listing {
            Listing::Changed => base + "...HEAD"@,
            Listing::Staged => "--cached"@,
        },
    ]
}

/// The command of a listing, where changes are counted from the commit `base`.
pub fn listing_command(listing: Listing, base: &str) -> (res: Vec<String>)
    ensures
        views(res@) == listing_words(listing, base@),
{
    let what = match listing {
        Listing::Changed => commit_range(base),
        Listing::Staged => "--cached".to_owned(),
    };
    let res = owned(vec!["git", "diff", "--name-only", what.as_str()]);
    assert(views(res@) =~= listing_words(listing, base@));
    res
}

/// The files that a listing gave, one on each line, or what is said of its
/// failure.
pub fn listed_files(listing: Listing, run: &Result<CommandOutput, String>) -> (res: Result<
    Vec<String>,
    String,
>)
    ensures
        match *run {
            Ok(output) => if output.succeeded() {
                res is Ok && views(res->Ok_0@) == crate::text::lines_of(
                    crate::encoding::text_of(output.stdout@),
                )
            } else {
                res is Err && res->Err_0@ == listing.failed_text() + crate::encoding::text_of(
                    output.stderr@,
                )
            },
            Err(reason) => res is Err && res->Err_0@ == listing.not_run_text() + reason@,
        },
{
    match run {
        Ok(output) => {
            if output.success() {
                Ok(lines(from_utf8_lossy(output.stdout.as_slice()).as_str()))
            } else {
                let said = match listing {
                    Listing::Changed => "git diff failed: ",
                    Listing::Staged => "git diff --cached failed: ",
                };
                Err(
                    said.to_owned().concat(
                        from_utf8_lossy(output.stderr.as_slice()).as_str(),
                    ),
                )
            }
        },
        Err(reason) => {
            let said = match listing {
                Listing::Changed => "Failed to get changed files: ",
                Listing::Staged => "Failed to get staged files: ",
            };
            Err(said.to_owned().concat(reason.as_str()))
        },
    }
}

/// The files of both listings, in increasing order and each once.
pub fn changed_files(changed: Vec<String>, staged: Vec<String>) -> (res: Vec<String>)
    ensures
        crate::order::is_sorted_set(
            views(res@),
            views(changed@).to_set() + views(staged@).to_set(),
        ),
{
    let mut all = changed;
    let mut more = staged;
    all.append(&mut more);
    proof {
        let a = views(changed@);
        let b = views(staged@);
        assert(views(all@) =~= a + b);
        assert forall|t: Seq<char>| (a + b).contains(t) <==> (a.contains(t) || b.contains(t)) by {
            if a.contains(t) {
                let i = choose|i: int| 0 <= i < a.len() && a[i] == t;
                assert((a + b)[i] == t);
            }
            if b.contains(t) {
                let i = choose|i: int| 0 <= i < b.len() && b[i] == t;
                assert((a + b)[a.len() + i] == t);
            }
            if (a + b).contains(t) {
                let i = choose|i: int| 0 <= i < (a + b).len() && (a + b)[i] == t;
                if i >= a.len() {
                    assert(b[i - a.len()] == t);
                }
            }
        }
        assert((a + b).to_set() =~= a.to_set() + b.to_set());
    }
    sorted_set(all)
}

/// Which of two listings a file comes from does not matter, nor how often it is
/// listed.
pub proof fn lemma_listings_exchangeable(
    one: Seq<Seq<char>>,
    other: Seq<Seq<char>>,
    changed: Seq<Seq<char>>,
    staged: Seq<Seq<char>>,
)
    requires
        crate::order::is_sorted_set(one, changed.to_set() + staged.to_set()),
        crate::order::is_sorted_set(other, staged.to_set() + changed.to_set()),
    ensures
        one == other,
{
    assert(changed.to_set() + staged.to_set() =~= staged.to_set() + changed.to_set());
    crate::order::lemma_sorted_set_unique(one, other);
}

/// The file name of a manifest.
pub open spec fn manifest_name() -> Seq<u8> {
    encode_utf8("Cargo.toml"@)
}

/// The manifests that a file may belong to, from the closest directory above it
/// outwards.
pub open spec fn manifests_above(path: Seq<u8>) -> Seq<Seq<u8>>
    decreases path.len(),
{
    proof {
        crate::paths::lemma_parent_shorter(path);
    }
    match crate::paths::parent_of(path) {
        None => seq![],
        Some(dir) => if dir.len() == 0 {
            seq![manifest_name()]
        } else {
            seq![crate::paths::below(dir, manifest_name())] + manifests_above(dir)
        },
    }
}

/// The manifests that a file may belong to, from the closest directory above it
/// outwards. The first of them that exists is the one. The file's path is as git
/// writes it.
pub fn manifest_candidates(file: &str) -> (res: Vec<Vec<u8>>)
    ensures
        res@.map_values(|p: Vec<u8>| p@) == manifests_above(path_bytes(file@)),
{
    let ghost view = |p: Vec<u8>| p@;
    let name = "Cargo.toml".as_bytes_vec();
    let mut res: Vec<Vec<u8>> = Vec::new();
    let mut current = path_in_text(file);
    let mut done = false;
    assert(res@.map_values(view) + manifests_above(current@) =~= manifests_above(
        path_bytes(file@),
    ));
    while !done
        invariant
            view == (|p: Vec<u8>| p@),
            name@ == manifest_name(),
            !done ==> res@.map_values(view) + manifests_above(current@) == manifests_above(
                path_bytes(file@),
            ),
            done ==> res@.map_values(view) == manifests_above(path_bytes(file@)),
        decreases (if done {
            0
        } else {
            1 + current.len()
        }),
    {
        let ghost before = res@.map_values(view);
        proof {
            crate::paths::lemma_parent_shorter(current@);
        }
        match parent(current.as_slice()) {
            None => {
                assert(before + manifests_above(current@) =~= before);
                done = true;
            },
            Some(dir) => {
                if dir.len() == 0 {
                    let candidate = "Cargo.toml".as_bytes_vec();
                    res.push(candidate);
                    assert(res@.map_values(view) =~= before + seq![candidate@]);
                    done = true;
                } else {
                    let candidate = join(dir.as_slice(), name.as_slice());
                    res.push(candidate);
                    assert(res@.map_values(view) =~= before.push(candidate@));
                    assert(before + manifests_above(current@) =~= before.push(candidate@)
                        + manifests_above(dir@));
                    current = dir;
                }
            },
        }
    }
    res
}

/// A file of the workspace may belong to as many manifests as its path has
/// components, and the last of them is that of the workspace.
pub proof fn lemma_manifests_above(path: Seq<u8>)
    requires
        crate::paths::components(path).len() > 0,
        !(crate::paths::components(path)[0] is Root),
    ensures
        manifests_above(path).len() == crate::paths::components(path).len(),
        manifests_above(path).last() == manifest_name(),
    decreases path.len(),
{
    crate::paths::lemma_parent_shorter(path);
    crate::paths::lemma_parent_components(path);
    let all = crate::paths::components(path);
    assert(all.last() == crate::paths::places(path).last().component);
    crate::paths::lemma_root_first(path);
    assert(crate::paths::parent_of(path) is Some);
    let dir = crate::paths::parent_of(path)->0;
    crate::paths::lemma_places_ends(path);
    assert(all.len() == crate::paths::places(path).len());
    if dir.len() > 0 {
        assert(crate::paths::components(dir)[0] == all[0]);
        lemma_manifests_above(dir);
    }
}

/// The key of a line of a manifest: what stands before its first equals sign.
pub open spec fn key_of(line: Seq<char>) -> Seq<char> {
    trimmed(line.take(position(line, '=') as int))
}

/// The value of a line of a manifest, which follows its first equals sign. Where
/// that is in quotes, it is what stands up to the closing one, and otherwise
/// what stands before a comment.
pub open spec fn value_of(line: Seq<char>) -> Seq<char> {
    let after = trimmed(line.skip((position(line, '=') + 1) as int));
    if after.len() > 0 && (after[0] == '"' || after[0] == '\'') {
        after.skip(1).take(position(after.skip(1), after[0]) as int)
    } else {
        without_comment(after)
    }
}

/// A line of a manifest up to its first number sign, without whitespace at
/// either end. That is the line without its comment where it holds no text in
/// quotes.
pub open spec fn without_comment(line: Seq<char>) -> Seq<char> {
    trimmed(line.take(position(line, '#') as int))
}

/// The line is the head of the package section.
pub open spec fn is_package_head(line: Seq<char>) -> bool {
    without_comment(line) == "[package]"@
}

/// The line, without whitespace at either end, is the head of a section.
pub open spec fn is_head(line: Seq<char>) -> bool {
    occurs_at(trimmed(line), "["@, 0)
}

/// The line has the key `name` and a value.
pub open spec fn is_name_field(line: Seq<char>) -> bool {
    position(line, '=') < line.len() && key_of(line) == "name"@
}

/// The name in the package section of a manifest, from the given lines of it
/// on, where `in_package` tells whether the lines before end in that section.
pub open spec fn name_in(lines: Seq<Seq<char>>, in_package: bool) -> Option<Seq<char>>
    decreases lines.len(),
{
    if lines.len() == 0 {
        None
    } else if is_package_head(lines[0]) {
        name_in(lines.skip(1), true)
    } else if is_head(lines[0]) {
        name_in(lines.skip(1), false)
    } else if in_package && is_name_field(lines[0]) {
        Some(value_of(lines[0]))
    } else {
        name_in(lines.skip(1), in_package)
    }
}

fn before_char(line: &str, c: char) -> (res: String)
    ensures
        res@ == trimmed(line@.take(position(line@, c) as int)),
{
    let chars = chars_of(line);
    let end = find(chars.as_slice(), c);
    proof {
        crate::text::lemma_position(line@, c);
    }
    let part = string_of(slice_subrange(chars.as_slice(), 0, end));
    assert(part@ =~= line@.take(end as int));
    trim(part.as_str())
}

fn name_value(line: &str) -> (res: Option<String>)
    ensures
        res is Some <==> is_name_field(line@),
        res matches Some(value) ==> value@ == value_of(line@),
{
    let chars = chars_of(line);
    let at = find(chars.as_slice(), '=');
    proof {
        crate::text::lemma_position(line@, '=');
    }
    if at >= chars.len() || !same_text(before_char(line, '=').as_str(), "name") {
        return None;
    }
    let rest = string_of(slice_subrange(chars.as_slice(), at + 1, chars.len()));
    assert(rest@ =~= line@.skip(at + 1));
    let after = trim(rest.as_str());
    let found = chars_of(after.as_str());
    if found.len() > 0 && (found[0] == '"' || found[0] == '\'') {
        let inside = slice_subrange(found.as_slice(), 1, found.len());
        assert(inside@ =~= after@.skip(1));
        let end = find(inside, found[0]);
        proof {
            crate::text::lemma_position(inside@, found@[0]);
        }
        let value = string_of(slice_subrange(inside, 0, end));
        assert(value@ =~= inside@.take(end as int));
        Some(value)
    } else {
        Some(before_char(after.as_str(), '#'))
    }
}

/// The name of the package that a manifest is of: the value of the first line
/// of its package section with the key `name`.
pub fn package_name(manifest: &str) -> (res: Option<String>)
    ensures
        crate::metadata::opt_view(res) == name_in(crate::text::lines_of(manifest@), false),
{
    let all = lines(manifest);
    let ghost wanted = views(all@);
    let mut in_package = false;
    assert(wanted.skip(0) =~= wanted);
    for i in 0..all.len()
        invariant
            wanted == views(all@),
            wanted == crate::text::lines_of(manifest@),
            name_in(wanted, false) == name_in(wanted.skip(i as int), in_package),
    {
        assert(wanted.skip(i as int)[0] == all@[i as int]@);
        assert(wanted.skip(i as int).skip(1) =~= wanted.skip(i + 1));
        let line = all[i].as_str();
        if same_text(before_char(line, '#').as_str(), "[package]") {
            in_package = true;
        } else if starts_with(trim(line).as_str(), "[") {
            in_package = false;
        } else if in_package {
            if let Some(value) = name_value(line) {
                return Some(value);
            }
        }
    }
    assert(wanted.skip(all@.len() as int).len() == 0);
    None
}

/// A line of a manifest that gives the package the name `name`.
pub open spec fn name_line(name: Seq<char>) -> Seq<char> {
    "name = \""@ + name + "\""@
}

/// Nothing but whitespace, or whitespace and a comment.
pub open spec fn is_remark(text: Seq<char>) -> bool {
    let rest = crate::text::without_leading_space(text);
    rest.len() == 0 || rest[0] == '#'
}

/// The value of a line that names a package is that name, whatever follows it.
pub proof fn lemma_name_line_value(name: Seq<char>, rest: Seq<char>)
    requires
        !name.contains('"'),
    ensures
        is_name_field(name_line(name) + rest),
        value_of(name_line(name) + rest) == name,
{
    reveal_strlit("name = \"");
    reveal_strlit("\"");
    reveal_strlit("name");
    let line = name_line(name) + rest;
    let start = "name = \""@;
    assert forall|k: int| 0 <= k < 8 implies line[k] == #[trigger] start[k] by {}
    assert(line[5] == start[5]);
    assert forall|k: int| 0 <= k < 5 implies line[k] != '=' by {
        assert(line[k] == start[k]);
    }
    crate::text::lemma_position_unique(line, '=', 5);
    let key = line.take(5);
    assert(key =~= "name"@ + seq![' ']);
    assert(key[0] == 'n');
    assert(crate::text::without_leading_space(key) == key);
    assert(key.drop_last() =~= "name"@);
    assert(key.last() == ' ');
    assert("name"@.last() == 'e');
    assert(crate::text::without_trailing_space("name"@) == "name"@);
    assert(key_of(line) == "name"@);
    let tail = name + seq!['"'] + rest;
    let after = line.skip(6);
    assert(after =~= seq![' '] + (seq!['"'] + tail));
    assert(after[0] == ' ');
    assert(after.skip(1) =~= seq!['"'] + tail);
    let bare = seq!['"'] + tail;
    assert(bare[0] == '"');
    assert(crate::text::without_leading_space(bare) == bare);
    assert(crate::text::without_leading_space(after) == bare);
    let kept = seq!['"'] + name + seq!['"'];
    assert(bare =~= kept + rest);
    crate::text::lemma_trailing_space_after(kept, rest);
    let value = trimmed(after);
    assert(kept.is_prefix_of(value));
    assert forall|k: int| 0 <= k < kept.len() implies value[k] == #[trigger] kept[k] by {
        assert(value.subrange(0, kept.len() as int)[k] == kept[k]);
    }
    assert(value[0] == kept[0]);
    let inside = value.skip(1);
    let n = name.len() as int;
    assert forall|k: int| 0 <= k < n implies inside[k] == #[trigger] name[k] by {
        assert(value[k + 1] == kept[k + 1]);
    }
    assert forall|k: int| 0 <= k < n implies inside[k] != '"' by {
        assert(inside[k] == name[k]);
        assert(name.contains(name[k]));
    }
    assert(value[n + 1] == kept[n + 1]);
    assert(inside[n] == '"');
    crate::text::lemma_position_unique(inside, '"', n);
    assert(inside.take(n) =~= name);
}

/// The head of the package section may be followed by a comment.
pub proof fn lemma_package_head(remark: Seq<char>)
    requires
        is_remark(remark),
    ensures
        is_package_head("[package]"@ + remark),
{
    reveal_strlit("[package]");
    let head = "[package]"@;
    let line = head + remark;
    crate::text::lemma_leading_space(remark);
    let rest = crate::text::without_leading_space(remark);
    let n = remark.len() - rest.len();
    let space = remark.take(n);
    assert(line.take(head.len() + n) =~= head + space);
    assert forall|k: int| 0 <= k < head.len() + n implies line[k] != '#' by {
        if k < head.len() {
            assert(line[k] == head[k]);
        } else {
            assert(line[k] == space[k - head.len()]);
        }
    }
    if rest.len() > 0 {
        assert(remark.skip(n)[0] == rest[0]);
        assert(line[head.len() + n] == '#');
    }
    crate::text::lemma_position_unique(line, '#', head.len() + n);
    assert((head + space)[0] == '[');
    assert(crate::text::without_leading_space(head + space) == head + space);
    crate::text::lemma_trailing_space_gone(head, space);
    assert(head.last() == ']');
    assert(crate::text::without_trailing_space(head) == head);
}

/// A line with the key `name` begins with that word.
pub proof fn lemma_name_field_begins(line: Seq<char>)
    requires
        is_name_field(line),
    ensures
        occurs_at(trimmed(line), "name"@, 0),
{
    reveal_strlit("name");
    let p = position(line, '=') as int;
    crate::text::lemma_position(line, '=');
    let key = line.take(p);
    crate::text::lemma_leading_space(key);
    let bare = crate::text::without_leading_space(key);
    let n = key.len() - bare.len();
    crate::text::lemma_trailing_space_prefix(bare);
    assert(bare.len() >= 4);
    assert forall|k: int| 0 <= k < 4 implies bare[k] == #[trigger] "name"@[k] by {
        assert(bare.subrange(0, 4)[k] == "name"@[k]);
    }
    assert(key.skip(n) =~= bare);
    assert forall|k: int| 0 <= k < bare.len() implies line[n + k] == #[trigger] bare[k] by {
        assert(key.skip(n)[k] == bare[k]);
    }
    assert forall|k: int| 0 <= k < n implies crate::text::is_white_space(#[trigger] line[k]) by {
        assert(key.take(n)[k] == line[k]);
    }
    assert("name"@[0] == 'n' && "name"@[3] == 'e');
    assert(line[n] == bare[0]);
    crate::text::lemma_leading_space_unique(line, n);
    let all = line.skip(n);
    let word = all.take(4);
    assert forall|k: int| 0 <= k < 4 implies all[k] == #[trigger] "name"@[k] by {
        assert(line[n + k] == bare[k]);
    }
    assert(word =~= "name"@);
    assert(all =~= word + all.skip(4));
    assert(word.last() == 'e');
    crate::text::lemma_trailing_space_after(word, all.skip(4));
    assert(trimmed(line).subrange(0, 4) =~= "name"@);
}

proof fn lemma_name_below_head(between: Seq<Seq<char>>, line: Seq<char>, rest: Seq<Seq<char>>)
    requires
        is_name_field(line),
        !is_head(line),
        !is_package_head(line),
        forall|i: int|
            0 <= i < between.len() ==> !is_package_head(#[trigger] between[i]) && !is_head(
                between[i],
            ) && !is_name_field(between[i]),
    ensures
        name_in(between + seq![line] + rest, true) == Some(value_of(line)),
    decreases between.len(),
{
    let all = between + seq![line] + rest;
    if between.len() == 0 {
        assert(all[0] == line);
    } else {
        let later = between.skip(1);
        assert(all[0] == between[0]);
        assert(all.skip(1) =~= later + seq![line] + rest);
        assert forall|i: int| 0 <= i < later.len() implies !is_package_head(#[trigger] later[i])
            && !is_head(later[i]) && !is_name_field(later[i]) by {
            assert(later[i] == between[i + 1]);
        }
        lemma_name_below_head(later, line, rest);
    }
}

proof fn lemma_head_is_head(line: Seq<char>)
    requires
        is_package_head(line),
    ensures
        is_head(line),
{
    reveal_strlit("[package]");
    reveal_strlit("[");
    let p = position(line, '#') as int;
    crate::text::lemma_position(line, '#');
    let part = line.take(p);
    crate::text::lemma_leading_space(part);
    let bare = crate::text::without_leading_space(part);
    let n = part.len() - bare.len();
    crate::text::lemma_trailing_space_prefix(bare);
    assert(bare.subrange(0, 9)[0] == '[');
    assert(part.skip(n)[0] == bare[0]);
    assert(line[n] == '[');
    assert forall|k: int| 0 <= k < n implies crate::text::is_white_space(#[trigger] line[k]) by {
        assert(part.take(n)[k] == line[k]);
    }
    crate::text::lemma_leading_space_unique(line, n);
    let all = line.skip(n);
    assert(all =~= seq!['['] + all.skip(1));
    crate::text::lemma_trailing_space_after(seq!['['], all.skip(1));
    assert(trimmed(line).subrange(0, 1) =~= "["@);
}

/// The name of a package is read from the line of its section that gives it.
/// Comments may follow the head of the section, and anything the name; other
/// fields may stand between them, other sections before, and anything after.
pub proof fn lemma_name_read(
    before: Seq<Seq<char>>,
    remark: Seq<char>,
    between: Seq<Seq<char>>,
    name: Seq<char>,
    tail: Seq<char>,
    rest: Seq<Seq<char>>,
)
    requires
        !name.contains('"'),
        is_remark(remark),
        forall|i: int| 0 <= i < before.len() ==> !is_package_head(#[trigger] before[i]),
        forall|i: int|
            0 <= i < between.len() ==> !is_head(#[trigger] between[i]) && !is_name_field(
                between[i],
            ),
    ensures
        name_in(
            before + seq!["[package]"@ + remark] + between + seq![name_line(name) + tail] + rest,
            false,
        ) == Some(name),
    decreases before.len(),
{
    let head = "[package]"@ + remark;
    let line = name_line(name) + tail;
    let all = before + seq![head] + between + seq![line] + rest;
    if before.len() == 0 {
        lemma_package_head(remark);
        lemma_name_line_value(name, tail);
        reveal_strlit("name = \"");
        reveal_strlit("name");
        reveal_strlit("[");
        lemma_name_field_begins(line);
        assert(!is_head(line)) by {
            let shown = trimmed(line);
            assert(shown.subrange(0, 4)[0] == 'n');
            if is_head(line) {
                assert(shown.subrange(0, 1)[0] == '[');
            }
        }
        if is_package_head(line) {
            lemma_head_is_head(line);
        }
        assert forall|i: int| 0 <= i < between.len() implies !is_package_head(
            #[trigger] between[i],
        ) && !is_head(between[i]) && !is_name_field(between[i]) by {
            if is_package_head(between[i]) {
                lemma_head_is_head(between[i]);
            }
        }
        lemma_name_below_head(between, line, rest);
        assert(all[0] == head);
        assert(all.skip(1) =~= between + seq![line] + rest);
    } else {
        let later = before.skip(1);
        assert(all[0] == before[0]);
        assert(all.skip(1) =~= later + seq![head] + between + seq![line] + rest);
        assert forall|i: int| 0 <= i < later.len() implies !is_package_head(#[trigger] later[i]) by {
            assert(later[i] == before[i + 1]);
        }
        lemma_name_read(later, remark, between, name, tail, rest);
    }
}

/// A manifest without a package section names no package, whatever its other
/// sections hold.
pub proof fn lemma_no_package_section(lines: Seq<Seq<char>>)
    requires
        forall|i: int| 0 <= i < lines.len() ==> !is_package_head(#[trigger] lines[i]),
    ensures
        name_in(lines, false) is None,
    decreases lines.len(),
{
    if lines.len() > 0 {
        let later = lines.skip(1);
        assert forall|i: int| 0 <= i < later.len() implies !is_package_head(#[trigger] later[i]) by {
            assert(later[i] == lines[i + 1]);
        }
        lemma_no_package_section(later);
    }
}

/// The names of the packages that manifests are of, where they can be told. A
/// manifest that could not be read is missing.
pub open spec fn names_in(manifests: Seq<Option<String>>) -> Seq<Seq<char>>
    decreases manifests.len(),
{
    if manifests.len() == 0 {
        seq![]
    } else {
        let before = names_in(manifests.drop_last());
        match manifests.last() {
            Some(manifest) => match name_in(crate::text::lines_of(manifest@), false) {
                Some(name) => before.push(name),
                None => before,
            },
            None => before,
        }
    }
}

/// The crates that changes affect: the packages of the given manifests, in
/// increasing order and each once. Each changed file gives the manifest that it
/// belongs to, where there is one and it can be read.
pub fn affected_crates(manifests: &Vec<Option<String>>) -> (res: Vec<String>)
    ensures
        crate::order::is_sorted_set(views(res@), names_in(manifests@).to_set()),
        forall|i: int|
            #![trigger manifests@[i]]
            0 <= i < manifests@.len() && (manifests@[i] matches Some(text) && name_in(
                crate::text::lines_of(text@),
                false,
            ) is Some) ==> views(res@).contains(
                name_in(crate::text::lines_of(manifests@[i]->0@), false)->0,
            ),
        forall|name: Seq<char>| #[trigger]
            views(res@).contains(name) ==> exists|i: int|
                0 <= i < manifests@.len() && (#[trigger] manifests@[i] matches Some(text)
                    && name_in(crate::text::lines_of(text@), false) == Some(name)),
{
    let mut names: Vec<String> = Vec::new();
    assert(views(names@) =~= names_in(manifests@.take(0)));
    for i in 0..manifests.len()
        invariant
            views(names@) == names_in(manifests@.take(i as int)),
    {
        let ghost before = views(names@);
        assert(manifests@.take(i + 1).drop_last() =~= manifests@.take(i as int));
        assert(manifests@.take(i + 1).last() == manifests@[i as int]);
        if let Some(manifest) = &manifests[i] {
            if let Some(name) = package_name(manifest.as_str()) {
                names.push(name);
                assert(views(names@) =~= before.push(name@));
            }
        }
    }
    assert(manifests@.take(manifests@.len() as int) =~= manifests@);
    let res = sorted_set(names);
    proof {
        lemma_names_in(manifests@);
        crate::order::lemma_sorted_set(views(res@), names_in(manifests@).to_set());
        assert forall|i: int|
            #![trigger manifests@[i]]
            0 <= i < manifests@.len() && (manifests@[i] matches Some(text) && name_in(
                crate::text::lines_of(text@),
                false,
            ) is Some) implies views(res@).contains(
            name_in(crate::text::lines_of(manifests@[i]->0@), false)->0,
        ) by {
            let name = name_in(crate::text::lines_of(manifests@[i]->0@), false)->0;
            assert(names_in(manifests@).contains(name));
            assert(names_in(manifests@).to_set().contains(name));
        }
        assert forall|name: Seq<char>| #[trigger] views(res@).contains(name) implies exists|i: int|
            0 <= i < manifests@.len() && (#[trigger] manifests@[i] matches Some(text) && name_in(
                crate::text::lines_of(text@),
                false,
            ) == Some(name)) by {
            let j = choose|j: int| 0 <= j < views(res@).len() && views(res@)[j] == name;
            assert(names_in(manifests@).to_set().contains(views(res@)[j]));
            assert(names_in(manifests@).contains(name));
        }
    }
    res
}

/// What the changes before a push come to.
#[derive(Debug)]
pub enum Finding {
    /// No file has changed.
    NoChanges,
    /// Files have changed, but none that belongs to a crate.
    NoCrates,
    /// These crates are affected.
    Crates(Vec<String>),
}

/// What the changes before a push come to: the changed files, and the manifests
/// that they belong to, as [`affected_crates`] takes them.
pub fn assess(changed: &Vec<String>, manifests: &Vec<Option<String>>) -> (res: Finding)
    ensures
        res is NoChanges <==> changed@.len() == 0,
        res is NoCrates <==> changed@.len() != 0 && names_in(manifests@).len() == 0,
        res matches Finding::Crates(crates) ==> crate::order::is_sorted_set(
            views(crates@),
            names_in(manifests@).to_set(),
        ),
        forall|i: int|
            #![trigger manifests@[i]]
            changed@.len() > 0 && 0 <= i < manifests@.len() && (manifests@[i] matches Some(text)
                && name_in(crate::text::lines_of(text@), false) is Some) ==> (
            res matches Finding::Crates(crates) && views(crates@).contains(
                name_in(crate::text::lines_of(manifests@[i]->0@), false)->0,
            )),
        res matches Finding::Crates(crates) ==> crates@.len() > 0 && forall|name: Seq<char>|
            #[trigger]
            views(crates@).contains(name) ==> exists|i: int|
                0 <= i < manifests@.len() && (#[trigger] manifests@[i] matches Some(text)
                    && name_in(crate::text::lines_of(text@), false) == Some(name)),
{
    if changed.len() == 0 {
        return Finding::NoChanges;
    }
    let crates = affected_crates(manifests);
    let ghost names = names_in(manifests@);
    proof {
        if names.len() > 0 {
            assert(names.to_set().contains(names[0]));
            assert(views(crates@).contains(names[0]));
        }
        if crates@.len() > 0 {
            assert(views(crates@).to_set().contains(views(crates@)[0]));
            assert(names.contains(views(crates@)[0]));
        }
    }
    if crates.len() == 0 {
        Finding::NoCrates
    } else {
        Finding::Crates(crates)
    }
}

/// Each manifest that names a package adds that name to the names, and no name
/// comes from anywhere else.
pub proof fn lemma_names_in(manifests: Seq<Option<String>>)
    ensures
        forall|i: int|
            #![trigger manifests[i]]
            0 <= i < manifests.len() && (manifests[i] matches Some(text) && name_in(
                crate::text::lines_of(text@),
                false,
            ) is Some) ==> names_in(manifests).contains(
                name_in(crate::text::lines_of(manifests[i]->0@), false)->0,
            ),
        forall|name: Seq<char>|
            #![trigger names_in(manifests).contains(name)]
            names_in(manifests).contains(name) ==> exists|i: int|
                0 <= i < manifests.len() && (#[trigger] manifests[i] matches Some(text) && name_in(
                    crate::text::lines_of(text@),
                    false,
                ) == Some(name)),
    decreases manifests.len(),
{
    if manifests.len() > 0 {
        let before = manifests.drop_last();
        let few = names_in(before);
        let all = names_in(manifests);
        lemma_names_in(before);
        assert forall|i: int|
            #![trigger manifests[i]]
            0 <= i < manifests.len() && (manifests[i] matches Some(text) && name_in(
                crate::text::lines_of(text@),
                false,
            ) is Some) implies all.contains(
            name_in(crate::text::lines_of(manifests[i]->0@), false)->0,
        ) by {
            let name = name_in(crate::text::lines_of(manifests[i]->0@), false)->0;
            if i < before.len() {
                assert(before[i] == manifests[i]);
                assert(few.contains(name));
                let k = choose|k: int| 0 <= k < few.len() && few[k] == name;
                assert(all[k] == name);
            } else {
                assert(all[all.len() - 1] == name);
            }
        }
        assert forall|name: Seq<char>|
            #![trigger all.contains(name)]
            all.contains(name) implies exists|i: int|
            0 <= i < manifests.len() && (#[trigger] manifests[i] matches Some(text) && name_in(
                crate::text::lines_of(text@),
                false,
            ) == Some(name)) by {
            let k = choose|k: int| 0 <= k < all.len() && all[k] == name;
            if k < few.len() {
                assert(few[k] == name);
                assert(few.contains(name));
                let i = choose|i: int|
                    0 <= i < before.len() && (#[trigger] before[i] matches Some(text) && name_in(
                        crate::text::lines_of(text@),
                        false,
                    ) == Some(name));
                assert(manifests[i] == before[i]);
            } else {
                assert(manifests[manifests.len() - 1] == manifests.last());
            }
        }
    }
}

/// The head of the package section is `[package]`, a head of any section begins
/// with a bracket, and a field is the name if and only if that is its key.
pub proof fn lemma_manifest_lines(line: Seq<char>)
    ensures
        is_package_head(line) <==> trimmed(line.take(position(line, '#') as int)) == "[package]"@,
        is_head(line) <==> trimmed(line).len() > 0 && trimmed(line)[0] == '[',
        is_name_field(line) <==> position(line, '=') < line.len() && trimmed(
            line.take(position(line, '=') as int),
        ) == "name"@,
{
    reveal_strlit("[");
    crate::text::lemma_occurs_at(trimmed(line), "["@, 0);
    assert("["@[0] == '[');
    if trimmed(line).len() > 0 && trimmed(line)[0] == '[' {
        assert(occurs_at(trimmed(line), "["@, 0));
    }
}

/// The name of a manifest is read line by line: the head of the package section
/// starts it, any other head ends it, and in it the first field with the name
/// decides. All other lines are passed over.
pub proof fn lemma_name_step(line: Seq<char>, rest: Seq<Seq<char>>, in_package: bool)
    ensures
        name_in(seq![], in_package) is None,
        is_package_head(line) ==> name_in(seq![line] + rest, in_package) == name_in(rest, true),
        !is_package_head(line) && is_head(line) ==> name_in(seq![line] + rest, in_package)
            == name_in(rest, false),
        !is_head(line) && in_package && is_name_field(line) ==> name_in(
            seq![line] + rest,
            in_package,
        ) == Some(value_of(line)),
        !is_head(line) && !(in_package && is_name_field(line)) ==> name_in(
            seq![line] + rest,
            in_package,
        ) == name_in(rest, in_package),
{
    let all = seq![line] + rest;
    assert(all[0] == line);
    assert(all.skip(1) =~= rest);
    if is_package_head(line) {
        lemma_head_is_head(line);
    }
}

/// A value in quotes is what stands between them: it holds no such quote, and
/// ends before the next one, or with the line. Any other value is what stands
/// before a number sign, without whitespace at either end.
pub proof fn lemma_value(line: Seq<char>)
    requires
        position(line, '=') < line.len(),
    ensures
        ({
            let after = trimmed(line.skip(position(line, '=') + 1int));
            let value = value_of(line);
            if after.len() > 0 && (after[0] == '"' || after[0] == '\'') {
                &&& !value.contains(after[0])
                &&& value.len() < after.len()
                &&& after.subrange(1, 1int + value.len()) == value
                &&& 1 + value.len() == after.len() || after[1int + value.len()] == after[0]
            } else {
                value == trimmed(after.take(position(after, '#') as int))
            }
        }),
{
    let after = trimmed(line.skip(position(line, '=') + 1int));
    let value = value_of(line);
    if after.len() > 0 && (after[0] == '"' || after[0] == '\'') {
        let inside = after.skip(1);
        crate::text::lemma_position(inside, after[0]);
        let n = position(inside, after[0]) as int;
        assert(after.subrange(1, 1 + n) =~= value);
        if value.contains(after[0]) {
            let k = choose|k: int| 0 <= k < value.len() && value[k] == after[0];
            assert(inside[k] == value[k]);
        }
        if n < inside.len() {
            assert(after[1 + n] == inside[n]);
        }
    }
}

/// Changes are counted from what `git merge-base` wrote if it ended with the
/// code zero, and from the current commit in every other case.
pub proof fn lemma_base(output: CommandOutput, reason: String)
    ensures
        output.code == Some(0i32) ==> base_of(Ok(output)) == trimmed(
            crate::encoding::text_of(output.stdout@),
        ),
        output.code != Some(0i32) ==> base_of(Ok(output)) == "HEAD"@,
        base_of(Err(reason)) == "HEAD"@,
{
}

/// The changed files are asked for from the given commit on, the staged ones
/// from the index, and each listing has its own words for its failures.
pub proof fn lemma_listings(base: Seq<char>)
    ensures
        listing_words(Listing::Changed, base) == seq!["git"@, "diff"@, "--name-only"@].push(
            base + "...HEAD"@,
        ),
        listing_words(Listing::Staged, base) == seq!["git"@, "diff"@, "--name-only"@].push(
            "--cached"@,
        ),
        Listing::Changed.not_run_text() == "Failed to get changed files: "@,
        Listing::Staged.not_run_text() == "Failed to get staged files: "@,
        Listing::Changed.failed_text() == "git diff failed: "@,
        Listing::Staged.failed_text() == "git diff --cached failed: "@,
{
    assert(listing_words(Listing::Changed, base) =~= seq!["git"@, "diff"@, "--name-only"@].push(
        base + "...HEAD"@,
    ));
    assert(listing_words(Listing::Staged, base) =~= seq!["git"@, "diff"@, "--name-only"@].push(
        "--cached"@,
    ));
}

/// The first manifest that a file may belong to is that of the directory it is
/// in, and the others are those that this directory may belong to. The empty
/// path and the root belong to none.
pub proof fn lemma_manifests_step(path: Seq<u8>)
    ensures
        crate::paths::parent_of(path) is None ==> manifests_above(path).len() == 0,
        crate::paths::parent_of(path) matches Some(dir) ==> {
            &&& manifests_above(path).len() > 0
            &&& manifests_above(path)[0] == crate::paths::below(dir, encode_utf8("Cargo.toml"@))
            &&& dir.len() == 0 ==> manifests_above(path).len() == 1
            &&& dir.len() > 0 ==> manifests_above(path).skip(1) == manifests_above(dir)
        },
{
    if let Some(dir) = crate::paths::parent_of(path) {
        let name = manifest_name();
        if dir.len() == 0 {
            reveal_strlit("Cargo.toml");
            crate::paths::lemma_below(dir, name);
            vstd::utf8::is_ascii_chars_encode_utf8("Cargo.toml"@);
            assert("Cargo.toml"@[0] == 'C');
            assert(name[0] == 'C' as u8);
        } else {
            assert(manifests_above(path).skip(1) =~= manifests_above(dir));
        }
    }
}

} // verus!
