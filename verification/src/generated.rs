//! The generated files besides READMEs: the workflow, the funding file, the
//! hook and formatted sources.

use crate::command::CommandOutput;
use crate::encoding::{from_utf8, from_utf8_lossy, text_of};
use crate::job::Job;
use crate::metadata::{edition_for, edition_of, owner, owner_of, Metadata, PackageView};
use crate::paths::{
    below, components, has_extension, has_path, is_among, is_rust_source, join, path_views,
    rust_extension,
};
use crate::status::StagedFiles;
use crate::templates::{CARGO_HUSKY_PRECOMMIT_HOOK, GITHUB_FUNDING_YML, GITHUB_TEST_WORKFLOW};
use crate::text::{contains, lines, lines_of, occurs_in, owned, views};
use vstd::prelude::*;
use vstd::slice::slice_to_vec;
use vstd::string::{StrSliceExecFns, StringExecFns};
use vstd::utf8::{decode_utf8, encode_utf8, valid_utf8};

verus! {

/// What marks a workflow that is kept by hand.
pub const HANDWRITTEN_MARKER: &'static str = "# HANDWRITTEN: facet-dev";

/// Where the workflow stands.
pub const WORKFLOW_PATH: &'static str = ".github/workflows/test.yml";

/// Where the funding file stands.
pub const FUNDING_PATH: &'static str = ".github/FUNDING.yml";

/// Where the hook stands.
pub const HOOK_PATH: &'static str = ".cargo-husky/hooks/pre-commit";

/// The job writes `content` to `path`, where `old_content` stands now.
pub open spec fn is_job_for(
    job: Job,
    path: Seq<char>,
    old_content: Option<Vec<u8>>,
    content: Seq<char>,
    executable: bool,
) -> bool {
    &&& job.path@ == encode_utf8(path)
    &&& job.old_content == old_content
    &&& job.new_content@ == encode_utf8(content)
    &&& job.executable == executable
}

fn template_job(path: &str, old_content: Option<Vec<u8>>, content: &str, executable: bool) -> (res:
    Job)
    ensures
        is_job_for(res, path@, old_content, content@, executable),
{
    Job {
        path: path.as_bytes_vec(),
        old_content,
        new_content: content.as_bytes_vec(),
        executable,
    }
}

/// The file is kept by hand: it is UTF-8 and holds the marker that says so.
pub open spec fn is_handwritten(content: Option<Vec<u8>>) -> bool {
    match content {
        Some(bytes) => valid_utf8(bytes@) && occurs_in(decode_utf8(bytes@), HANDWRITTEN_MARKER@),
        None => false,
    }
}

/// The job that writes the workflow, where `old_content` is what it holds now,
/// if it exists. None where it is kept by hand.
pub fn github_workflow_job(old_content: Option<Vec<u8>>) -> (res: Option<Job>)
    ensures
        res is None <==> is_handwritten(old_content),
        res matches Some(job) ==> is_job_for(
            job,
            WORKFLOW_PATH@,
            old_content,
            GITHUB_TEST_WORKFLOW@,
            false,
        ),
        res matches Some(job) ==> {
            &&& job.path@ == encode_utf8(".github/workflows/test.yml"@)
            &&& job.old_content == old_content
            &&& job.new_content@ == encode_utf8(GITHUB_TEST_WORKFLOW@)
            &&& !job.executable
        },
        res is None <==> (old_content matches Some(bytes) && valid_utf8(bytes@) && occurs_in(
            decode_utf8(bytes@),
            "# HANDWRITTEN: facet-dev"@,
        )),
{
    if let Some(bytes) = &old_content {
        if let Some(text) = from_utf8(bytes.as_slice()) {
            if contains(text, HANDWRITTEN_MARKER) {
                return None;
            }
        }
    }
    Some(template_job(WORKFLOW_PATH, old_content, GITHUB_TEST_WORKFLOW, false))
}

/// The job that writes the funding file, where `old_content` is what it holds
/// now, if it exists.
pub fn github_funding_job(old_content: Option<Vec<u8>>) -> (res: Job)
    ensures
        is_job_for(res, FUNDING_PATH@, old_content, GITHUB_FUNDING_YML@, false),
        res.path@ == encode_utf8(".github/FUNDING.yml"@),
        res.old_content == old_content,
        res.new_content@ == encode_utf8(GITHUB_FUNDING_YML@),
        !res.executable,
{
    template_job(FUNDING_PATH, old_content, GITHUB_FUNDING_YML, false)
}

/// The job that writes the hook that runs before a commit, where `old_content`
/// is what it holds now, if it exists. The hook is executable.
pub fn precommit_hook_job(old_content: Option<Vec<u8>>) -> (res: Job)
    ensures
        is_job_for(res, HOOK_PATH@, old_content, CARGO_HUSKY_PRECOMMIT_HOOK@, true),
        res.path@ == encode_utf8(".cargo-husky/hooks/pre-commit"@),
        res.old_content == old_content,
        res.new_content@ == encode_utf8(CARGO_HUSKY_PRECOMMIT_HOOK@),
        res.executable,
{
    template_job(HOOK_PATH, old_content, CARGO_HUSKY_PRECOMMIT_HOOK, true)
}

/// What is said where cargo-husky, which installs the hook, is no dev
/// dependency.
pub open spec fn husky_missing_lines() -> Seq<Seq<char>> {
    seq![
        "cargo-husky is not a dev dependency or cargo tree failed"@,
        "To add cargo-husky as a dev dependency, run:"@,
        "  cargo add cargo-husky --dev --no-default-features -F user-hooks"@,
    ]
}

/// Whether the hook can be installed, from a run of `cargo tree` that looks for
/// cargo-husky; otherwise what is said before the program ends.
pub fn husky_available(run: &Result<CommandOutput, String>) -> (res: Result<(), Vec<String>>)
    ensures
        match *run {
            Ok(output) => if output.succeeded() {
                res is Ok
            } else {
                res is Err && views(res->Err_0@) == husky_missing_lines()
            },
            Err(reason) => res is Err && views(res->Err_0@) == seq![
                "Failed to run cargo tree command: "@ + reason@,
            ],
        },
        res is Ok <==> (*run matches Ok(output) && output.code == Some(0i32)),
{
    match run {
        Ok(output) => {
            if output.success() {
                Ok(())
            } else {
                let said = owned(
                    vec![
                        "cargo-husky is not a dev dependency or cargo tree failed",
                        "To add cargo-husky as a dev dependency, run:",
                        "  cargo add cargo-husky --dev --no-default-features -F user-hooks",
                    ],
                );
                assert(views(said@) =~= husky_missing_lines());
                Err(said)
            }
        },
        Err(reason) => {
            let line = "Failed to run cargo tree command: ".to_owned().concat(reason.as_str());
            let mut said: Vec<String> = Vec::new();
            said.push(line);
            assert(views(said@) =~= seq![line@]);
            Err(said)
        },
    }
}

/// The command that looks for cargo-husky among the dev dependencies.
pub fn husky_command() -> (res: Vec<String>)
    ensures
        views(res@) == seq!["cargo"@, "tree"@, "-e"@, "dev"@, "-i"@, "cargo-husky"@],
{
    let res = owned(vec!["cargo", "tree", "-e", "dev", "-i", "cargo-husky"]);
    assert(views(res@) =~= seq!["cargo"@, "tree"@, "-e"@, "dev"@, "-i"@, "cargo-husky"@]);
    res
}

/// The command that lists the sources of all packages of the workspace that
/// `cargo fmt` would change.
pub fn fmt_command() -> (res: Vec<String>)
    ensures
        views(res@) == seq!["cargo"@, "fmt"@, "--all"@, "--"@, "--check"@, "-l"@],
{
    let res = owned(vec!["cargo", "fmt", "--all", "--", "--check", "-l"]);
    assert(views(res@) =~= seq!["cargo"@, "fmt"@, "--all"@, "--"@, "--check"@, "-l"@]);
    res
}

/// What a listing by `cargo fmt` gave.
#[derive(Debug)]
pub struct FmtListing {
    /// The files that it would change.
    pub files: Vec<Vec<u8>>,
    /// What is said of its failure, where it failed for another reason than
    /// files that it would change.
    pub complaint: Option<String>,
}

/// What is said of a failure of `cargo fmt`, if anything: why it could not be
/// run, or what it wrote to its standard error where it failed.
pub open spec fn fmt_complaint(run: Result<CommandOutput, String>) -> Option<Seq<char>> {
    match run {
        Ok(output) => if !output.succeeded() && output.stderr@.len() > 0 {
            Some("cargo fmt failed: "@ + text_of(output.stderr@))
        } else {
            None
        },
        Err(reason) => Some("Failed to run cargo fmt: "@ + reason@),
    }
}

/// The files that `cargo fmt` would change, one on each line of what it wrote;
/// none where it could not be run.
pub open spec fn fmt_files(run: Result<CommandOutput, String>) -> Seq<Seq<u8>> {
    match run {
        Ok(output) => lines_of(text_of(output.stdout@)).map_values(
            |line: Seq<char>| encode_utf8(line),
        ),
        Err(_) => seq![],
    }
}

/// What a listing by `cargo fmt` gave; `Err` is why it could not be run.
pub fn fmt_listing(run: &Result<CommandOutput, String>) -> (res: FmtListing)
    ensures
        path_views(res.files@) == fmt_files(*run),
        crate::metadata::opt_view(res.complaint) == fmt_complaint(*run),
{
    match run {
        Ok(output) => {
            let all = lines(from_utf8_lossy(output.stdout.as_slice()).as_str());
            let ghost wanted = fmt_files(*run);
            let mut files: Vec<Vec<u8>> = Vec::new();
            for i in 0..all.len()
                invariant
                    wanted == views(all@).map_values(|line: Seq<char>| encode_utf8(line)),
                    path_views(files@) == wanted.take(i as int),
            {
                let ghost before = path_views(files@);
                let file = all[i].as_str().as_bytes_vec();
                files.push(file);
                assert(wanted[i as int] == encode_utf8(views(all@)[i as int]));
                assert(path_views(files@) =~= before.push(file@));
                assert(wanted.take(i + 1) =~= before.push(file@));
            }
            assert(wanted.take(all@.len() as int) =~= wanted);
            let complaint = if !output.success() && output.stderr.len() > 0 {
                Some(
                    "cargo fmt failed: ".to_owned().concat(
                        from_utf8_lossy(output.stderr.as_slice()).as_str(),
                    ),
                )
            } else {
                None
            };
            FmtListing { files, complaint }
        },
        Err(reason) => {
            let files: Vec<Vec<u8>> = Vec::new();
            assert(path_views(files@) =~= fmt_files(*run));
            FmtListing {
                files,
                complaint: Some("Failed to run cargo fmt: ".to_owned().concat(reason.as_str())),
            }
        },
    }
}

/// The command that formats a source of the given edition that it reads from its
/// standard input.
pub fn rustfmt_command(edition: &str) -> (res: Vec<String>)
    ensures
        views(res@) == seq!["rustfmt"@, "--edition"@, edition@, "--emit"@, "stdout"@],
{
    let res = owned(vec!["rustfmt", "--edition", edition, "--emit", "stdout"]);
    assert(views(res@) =~= seq!["rustfmt"@, "--edition"@, edition@, "--emit"@, "stdout"@]);
    res
}

/// A source to be formatted.
#[derive(Debug)]
pub struct Source {
    /// Where it stands.
    pub path: Vec<u8>,
    /// The edition of Rust that it is written in.
    pub edition: String,
}

/// The content of a [`Source`].
#[verifier::ext_equal]
pub struct SourceView {
    pub path: Seq<u8>,
    pub edition: Seq<char>,
}

impl View for Source {
    type V = SourceView;

    open spec fn view(&self) -> SourceView {
        SourceView { path: self.path@, edition: self.edition@ }
    }
}

/// Paths from the directory `dir` on.
pub open spec fn absolute(dir: Seq<u8>, paths: Seq<Seq<u8>>) -> Seq<Seq<u8>> {
    paths.map_values(|p: Seq<u8>| below(dir, p))
}

/// The path is that of a Rust source of one of the packages, where it goes on
/// from the directory `dir`.
pub open spec fn is_package_source(
    path: Seq<u8>,
    dir: Seq<u8>,
    packages: Seq<PackageView>,
) -> bool {
    has_extension(path, rust_extension()) && owner_of(packages, below(dir, path)) is Some
}

/// Paths, and those sources of packages among the listed ones that are none of
/// them, each once.
pub open spec fn with_listed(
    paths: Seq<Seq<u8>>,
    listed: Seq<Seq<u8>>,
    dir: Seq<u8>,
    packages: Seq<PackageView>,
) -> Seq<Seq<u8>>
    decreases listed.len(),
{
    if listed.len() == 0 {
        paths
    } else {
        let before = with_listed(paths, listed.drop_last(), dir, packages);
        let last = listed.last();
        if is_package_source(last, dir, packages) && !has_path(
            absolute(dir, before),
            below(dir, last),
        ) {
            before.push(last)
        } else {
            before
        }
    }
}

/// The Rust sources to be formatted: those that are staged and not dirty, and
/// the listed ones that belong to packages.
pub open spec fn sources_to_format(
    staged: Seq<Seq<u8>>,
    listed: Seq<Seq<u8>>,
    dir: Seq<u8>,
    packages: Seq<PackageView>,
) -> Seq<Seq<u8>> {
    with_listed(
        staged.filter(|p: Seq<u8>| has_extension(p, rust_extension())),
        listed,
        dir,
        packages,
    )
}

/// A source with the edition of the package that it belongs to, where its path
/// goes on from the directory `dir`.
pub open spec fn source_at(path: Seq<u8>, dir: Seq<u8>, packages: Seq<PackageView>) -> SourceView {
    SourceView { path, edition: edition_of(packages, below(dir, path)) }
}

/// Every listed source of a package is formatted, whether it is staged or not.
pub proof fn lemma_listed_is_formatted(
    staged: Seq<Seq<u8>>,
    listed: Seq<Seq<u8>>,
    dir: Seq<u8>,
    packages: Seq<PackageView>,
    at: int,
)
    requires
        0 <= at < listed.len(),
        is_package_source(listed[at], dir, packages),
    ensures
        has_path(
            absolute(dir, sources_to_format(staged, listed, dir, packages)),
            below(dir, listed[at]),
        ),
{
    lemma_with_listed(
        staged.filter(|p: Seq<u8>| has_extension(p, rust_extension())),
        listed,
        dir,
        packages,
        at,
    );
}

proof fn lemma_with_listed(
    paths: Seq<Seq<u8>>,
    listed: Seq<Seq<u8>>,
    dir: Seq<u8>,
    packages: Seq<PackageView>,
    at: int,
)
    requires
        0 <= at < listed.len(),
        is_package_source(listed[at], dir, packages),
    ensures
        has_path(
            absolute(dir, with_listed(paths, listed, dir, packages)),
            below(dir, listed[at]),
        ),
    decreases listed.len(),
{
    let fewer = listed.drop_last();
    let before = absolute(dir, with_listed(paths, fewer, dir, packages));
    let all = absolute(dir, with_listed(paths, listed, dir, packages));
    let wanted = below(dir, listed[at]);
    if at < fewer.len() {
        lemma_with_listed(paths, fewer, dir, packages, at);
        assert(fewer[at] == listed[at]);
    }
    if has_path(before, wanted) {
        let i = choose|i: int|
            0 <= i < before.len() && components(#[trigger] before[i]) == components(wanted);
        assert(all[i] == before[i]);
    } else {
        assert(all[all.len() - 1] == wanted);
    }
}

/// The sources to be formatted: the Rust sources among the files that are staged
/// and not dirty, and those among the listed ones that belong to packages, with
/// the editions of the packages that they belong to. Relative paths go on from
/// the directory `dir`.
pub fn rustfmt_targets(
    staged: &StagedFiles,
    listed: &Vec<Vec<u8>>,
    dir: &[u8],
    metadata: &Metadata,
) -> (res: Vec<Source>)
    ensures
        res@.map_values(|s: Source| s@) == sources_to_format(
            staged.paths(),
            path_views(listed@),
            dir@,
            metadata@.packages,
        ).map_values(|p: Seq<u8>| source_at(p, dir@, metadata@.packages)),
{
    let ghost keep = |p: Seq<u8>| has_extension(p, rust_extension());
    let ghost all = staged.paths();
    let ghost known = all.filter(keep);
    let mut paths: Vec<Vec<u8>> = Vec::new();
    let mut places: Vec<Vec<u8>> = Vec::new();
    assert(path_views(paths@) =~= all.take(0).filter(keep)) by {
        reveal(Seq::filter);
    }
    assert(path_views(places@) =~= absolute(dir@, path_views(paths@)));
    for i in 0..staged.clean.len()
        invariant
            keep == (|p: Seq<u8>| has_extension(p, rust_extension())),
            all == staged.paths(),
            path_views(paths@) == all.take(i as int).filter(keep),
            path_views(places@) == absolute(dir@, path_views(paths@)),
    {
        let ghost before = path_views(paths@);
        let path = staged.clean[i].as_slice();
        proof {
            reveal(Seq::filter);
            assert(all.take(i + 1).drop_last() =~= all.take(i as int));
            assert(all.take(i + 1).last() == path@);
        }
        if is_rust_source(path) {
            let kept = slice_to_vec(path);
            paths.push(kept);
            assert(path_views(paths@) =~= before.push(kept@));
            let ghost known_places = path_views(places@);
            let place = join(dir, path);
            places.push(place);
            assert(path_views(places@) =~= known_places.push(place@));
            assert(absolute(dir@, before.push(kept@)) =~= known_places.push(place@));
        }
    }
    assert(all.take(staged.clean@.len() as int) =~= all);
    let ghost wanted = path_views(listed@);
    assert(wanted.take(0) =~= seq![]);
    for i in 0..listed.len()
        invariant
            wanted == path_views(listed@),
            path_views(paths@) == with_listed(
                known,
                wanted.take(i as int),
                dir@,
                metadata@.packages,
            ),
            path_views(places@) == absolute(dir@, path_views(paths@)),
    {
        let ghost before = path_views(paths@);
        let path = listed[i].as_slice();
        assert(wanted.take(i + 1).drop_last() =~= wanted.take(i as int));
        assert(wanted.take(i + 1).last() == path@);
        if is_rust_source(path) {
            let place = join(dir, path);
            if owner(metadata, place.as_slice()).is_some() && !is_among(
                &places,
                place.as_slice(),
            ) {
                let kept = slice_to_vec(path);
                paths.push(kept);
                assert(path_views(paths@) =~= before.push(kept@));
                let ghost known_places = path_views(places@);
                places.push(place);
                assert(path_views(places@) =~= known_places.push(place@));
                assert(absolute(dir@, before.push(kept@)) =~= known_places.push(place@));
            }
        }
    }
    assert(wanted.take(listed@.len() as int) =~= wanted);
    let ghost chosen = path_views(paths@);
    let ghost target = |p: Seq<u8>| source_at(p, dir@, metadata@.packages);
    let ghost view = |s: Source| s@;
    let mut res: Vec<Source> = Vec::new();
    for i in 0..paths.len()
        invariant
            chosen == path_views(paths@),
            target == (|p: Seq<u8>| source_at(p, dir@, metadata@.packages)),
            view == (|s: Source| s@),
            path_views(places@) == absolute(dir@, chosen),
            res@.map_values(view) == chosen.map_values(target).take(i as int),
    {
        let ghost before = res@.map_values(view);
        assert(path_views(places@).len() == chosen.len());
        assert(path_views(places@)[i as int] == below(dir@, chosen[i as int]));
        let found = Source {
            path: slice_to_vec(paths[i].as_slice()),
            edition: edition_for(metadata, places[i].as_slice()),
        };
        assert(found@ =~= source_at(chosen[i as int], dir@, metadata@.packages));
        res.push(found);
        assert(res@.map_values(view) =~= before.push(found@));
        assert(chosen.map_values(target).take(i + 1) =~= before.push(found@));
    }
    assert(chosen.map_values(target).take(paths@.len() as int) =~= chosen.map_values(target));
    res
}

/// What a source that could not be formatted is reported with.
#[derive(Debug)]
pub struct RustfmtFailure {
    /// What the command wrote to its standard error.
    pub stderr: String,
    /// What the command wrote to its standard output.
    pub stdout: String,
}

/// The job that writes a formatted source, where `original` is what the file
/// holds now and `output` what formatting it gave, or how that failed.
pub fn rustfmt_job(path: Vec<u8>, original: Vec<u8>, output: CommandOutput) -> (res: Result<
    Job,
    RustfmtFailure,
>)
    ensures
        res is Ok <==> output.succeeded(),
        res is Ok <==> output.code == Some(0i32),
        match res {
            Ok(job) => {
                &&& job.path == path
                &&& job.old_content == Some(original)
                &&& job.new_content == output.stdout
                &&& !job.executable
            },
            Err(failure) => {
                &&& failure.stderr@ == text_of(output.stderr@)
                &&& failure.stdout@ == text_of(output.stdout@)
            },
        },
{
    if output.success() {
        Ok(
            Job {
                path,
                old_content: Some(original),
                new_content: output.stdout,
                executable: false,
            },
        )
    } else {
        Err(
            RustfmtFailure {
                stderr: from_utf8_lossy(output.stderr.as_slice()),
                stdout: from_utf8_lossy(output.stdout.as_slice()),
            },
        )
    }
}

/// A generated file that already holds its text, and may be executed if and only
/// if it should be, needs no job. One that does not exist needs one, unless
/// there is nothing to write and it is not to be executable.
pub proof fn lemma_generated_file_up_to_date(
    job: Job,
    path: Seq<char>,
    old_content: Option<Vec<u8>>,
    content: Seq<char>,
    executable: bool,
    mode: u32,
)
    requires
        is_job_for(job, path, old_content, content, executable),
    ensures
        job.changes_nothing(Some(mode)) <==> match old_content {
            Some(old) => old@ == encode_utf8(content) && crate::job::allows_execution(mode)
                == executable,
            None => encode_utf8(content).len() == 0 && !executable,
        },
        job.changes_nothing(None) <==> match old_content {
            Some(old) => old@ == encode_utf8(content) && !executable,
            None => encode_utf8(content).len() == 0 && !executable,
        },
{
}

/// A job for a generated file writes the given text to the given path, and
/// knows what stands there now.
pub proof fn lemma_job_for(
    job: Job,
    path: Seq<char>,
    old_content: Option<Vec<u8>>,
    content: Seq<char>,
    executable: bool,
)
    requires
        is_job_for(job, path, old_content, content, executable),
    ensures
        job.path@ == encode_utf8(path),
        job.old_content == old_content,
        job.new_content@ == encode_utf8(content),
        job.executable == executable,
{
}

/// Only a file that is UTF-8 and holds the marker is kept by hand. Neither a
/// missing file nor one that is no UTF-8 is.
pub proof fn lemma_handwritten(content: Option<Vec<u8>>)
    ensures
        content is None ==> !is_handwritten(content),
        content matches Some(bytes) ==> (is_handwritten(content) <==> valid_utf8(bytes@)
            && occurs_in(decode_utf8(bytes@), "# HANDWRITTEN: facet-dev"@)),
{
}

/// Where cargo-husky is missing, three lines say how to add it.
pub proof fn lemma_husky_missing()
    ensures
        husky_missing_lines().len() == 3,
        husky_missing_lines()[0] == "cargo-husky is not a dev dependency or cargo tree failed"@,
        husky_missing_lines()[1] == "To add cargo-husky as a dev dependency, run:"@,
        husky_missing_lines()[2]
            == "  cargo add cargo-husky --dev --no-default-features -F user-hooks"@,
{
}

/// `cargo fmt` lists one file on each line of what it wrote, however it ended,
/// and is complained of where it could not be run, or failed and said why.
pub proof fn lemma_fmt_run(output: CommandOutput, reason: String)
    ensures
        fmt_files(Ok(output)).len() == lines_of(text_of(output.stdout@)).len(),
        forall|i: int|
            0 <= i < fmt_files(Ok(output)).len() ==> #[trigger] fmt_files(Ok(output))[i]
                == encode_utf8(lines_of(text_of(output.stdout@))[i]),
        fmt_files(Err(reason)).len() == 0,
        fmt_complaint(Err(reason)) == Some("Failed to run cargo fmt: "@ + reason@),
        output.code == Some(0i32) || output.stderr@.len() == 0 ==> fmt_complaint(Ok(output)) is None,
        output.code != Some(0i32) && output.stderr@.len() > 0 ==> fmt_complaint(Ok(output)) == Some(
            "cargo fmt failed: "@ + text_of(output.stderr@),
        ),
{
}

/// What is read of a source is what it holds.
pub proof fn lemma_source_view(source: Source)
    ensures
        source@.path == source.path@,
        source@.edition == source.edition@,
{
}

/// A relative path goes on from the directory, an absolute one stays; a source
/// keeps its path and has the edition of the file that it leads to.
pub proof fn lemma_source_at(
    path: Seq<u8>,
    dir: Seq<u8>,
    packages: Seq<PackageView>,
    paths: Seq<Seq<u8>>,
)
    ensures
        source_at(path, dir, packages).path == path,
        source_at(path, dir, packages).edition == edition_of(packages, below(dir, path)),
        absolute(dir, paths).len() == paths.len(),
        forall|i: int|
            0 <= i < paths.len() ==> #[trigger] absolute(dir, paths)[i] == below(dir, paths[i]),
        is_package_source(path, dir, packages) <==> has_extension(path, rust_extension())
            && owner_of(packages, below(dir, path)) is Some,
{
}

/// Without a listing, the Rust sources among the staged files are formatted, in
/// their order: a further staged file adds itself behind the others if and only
/// if it is one.
pub proof fn lemma_staged_sources(
    staged: Seq<Seq<u8>>,
    path: Seq<u8>,
    dir: Seq<u8>,
    packages: Seq<PackageView>,
)
    ensures
        sources_to_format(seq![], seq![], dir, packages).len() == 0,
        has_extension(path, rust_extension()) ==> sources_to_format(
            staged.push(path),
            seq![],
            dir,
            packages,
        ) == sources_to_format(staged, seq![], dir, packages).push(path),
        !has_extension(path, rust_extension()) ==> sources_to_format(
            staged.push(path),
            seq![],
            dir,
            packages,
        ) == sources_to_format(staged, seq![], dir, packages),
{
    reveal(Seq::filter);
    assert(staged.push(path).drop_last() =~= staged);
}

/// A further listed file is formatted behind the others if and only if it is a
/// Rust source of a package and none of them is that file.
pub proof fn lemma_listed_sources(
    staged: Seq<Seq<u8>>,
    listed: Seq<Seq<u8>>,
    path: Seq<u8>,
    dir: Seq<u8>,
    packages: Seq<PackageView>,
)
    ensures
        ({
            let few = sources_to_format(staged, listed, dir, packages);
            let more = sources_to_format(staged, listed.push(path), dir, packages);
            let known = exists|i: int|
                0 <= i < few.len() && components(below(dir, #[trigger] few[i])) == components(
                    below(dir, path),
                );
            &&& has_extension(path, rust_extension()) && owner_of(packages, below(dir, path))
                is Some && !known ==> more == few.push(path)
            &&& !has_extension(path, rust_extension()) || owner_of(packages, below(dir, path))
                is None || known ==> more == few
        }),
{
    assert(listed.push(path).drop_last() =~= listed);
    let few = sources_to_format(staged, listed, dir, packages);
    let places = absolute(dir, few);
    let wanted = below(dir, path);
    if has_path(places, wanted) {
        let i = choose|i: int|
            0 <= i < places.len() && components(#[trigger] places[i]) == components(wanted);
        assert(components(below(dir, few[i])) == components(wanted));
    }
    if exists|i: int|
        0 <= i < few.len() && components(below(dir, #[trigger] few[i])) == components(wanted) {
        let i = choose|i: int|
            0 <= i < few.len() && components(below(dir, #[trigger] few[i])) == components(wanted);
        assert(places[i] == below(dir, few[i]));
    }
}

} // verus!
