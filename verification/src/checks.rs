//! The checks that are run before a push: their commands, and what follows from
//! how each of them ends.

use crate::command::{
    command_error_report, command_failure_report, error_lines, failure_lines,
    only_lacks_doc_tests, should_skip_doc_tests, CommandOutput,
};
use crate::metadata::{
    metadata_command, metadata_in, metadata_words, msrv_is_consistent, package_line, package_lines,
    parse_metadata, parsed_json, same_rust_version, PackageView,
};
use crate::text::{owned, views};
use vstd::prelude::*;

verus! {

/// A kind of check.
#[derive(Clone, Copy, Debug, PartialEq, Eq, Structural)]
pub enum CheckKind {
    /// Lints of one crate.
    Clippy,
    /// The tests of all affected crates.
    Test,
    /// The doc tests of all affected crates.
    DocTest,
    /// The documentation of one crate.
    Doc,
    /// The oldest supported Rust version, the same throughout the workspace.
    Msrv,
}

/// A command to be run as a check.
#[derive(Debug)]
pub struct Check {
    /// What is checked.
    pub kind: CheckKind,
    /// The crate that it is about, where it is about one.
    pub subject: Option<String>,
    /// The command and its arguments.
    pub command: Vec<String>,
    /// The environment variables that the command is given.
    pub envs: Vec<(String, String)>,
}

/// The content of a [`Check`].
#[verifier::ext_equal]
pub struct CheckView {
    pub kind: CheckKind,
    pub subject: Option<Seq<char>>,
    pub command: Seq<Seq<char>>,
    pub envs: Seq<(Seq<char>, Seq<char>)>,
}

impl View for Check {
    type V = CheckView;

    open spec fn view(&self) -> CheckView {
        CheckView {
            kind: self.kind,
            subject: crate::metadata::opt_view(self.subject),
            command: views(self.command@),
            envs: crate::command::env_views(self.envs@),
        }
    }
}

impl Check {
    /// Whether the output of the check is shown as it comes once it takes longer
    /// than expected: that of the tests and the doc tests is.
    pub fn is_streamed(&self) -> (res: bool)
        ensures
            res == (self@.kind == CheckKind::Test || self@.kind == CheckKind::DocTest),
    {
        self.kind == CheckKind::Test || self.kind == CheckKind::DocTest
    }
}

/// The contents of checks.
pub open spec fn check_views(checks: Seq<Check>) -> Seq<CheckView> {
    checks.map_values(|c: Check| c@)
}

/// The lints of a crate, for all targets and features, with warnings denied.
pub open spec fn clippy_check(name: Seq<char>) -> CheckView {
    CheckView {
        kind: CheckKind::Clippy,
        subject: Some(name),
        command: seq![
            "cargo"@,
            "clippy"@,
            "-p"@,
            name,
            "--all-targets"@,
            "--all-features"@,
            "--"@,
            "-D"@,
            "warnings"@,
        ],
        envs: seq![],
    }
}

/// The documentation of a crate, with all features and warnings denied.
pub open spec fn doc_check(name: Seq<char>) -> CheckView {
    CheckView {
        kind: CheckKind::Doc,
        subject: Some(name),
        command: seq!["cargo"@, "doc"@, "-p"@, name, "--all-features"@],
        envs: seq![("RUSTDOCFLAGS"@, "-D warnings"@)],
    }
}

/// The arguments that select packages.
pub open spec fn package_arguments(crates: Seq<Seq<char>>) -> Seq<Seq<char>>
    decreases crates.len(),
{
    if crates.len() == 0 {
        seq![]
    } else {
        package_arguments(crates.drop_last()) + seq!["-p"@, crates.last()]
    }
}

/// The tests of the given crates, with all features.
pub open spec fn test_check(crates: Seq<Seq<char>>) -> CheckView {
    CheckView {
        kind: CheckKind::Test,
        subject: None,
        command: seq!["cargo"@, "test"@] + package_arguments(crates) + seq!["--all-features"@],
        envs: seq![],
    }
}

/// The doc tests of the given crates, with all features.
pub open spec fn doctest_check(crates: Seq<Seq<char>>) -> CheckView {
    CheckView {
        kind: CheckKind::DocTest,
        subject: None,
        command: seq!["cargo"@, "test"@, "--doc"@] + package_arguments(crates) + seq![
            "--all-features"@,
        ],
        envs: seq![],
    }
}

/// The metadata of the workspace, which tell the oldest Rust version that each
/// of its packages supports.
pub open spec fn msrv_check() -> CheckView {
    CheckView {
        kind: CheckKind::Msrv,
        subject: None,
        command: metadata_words(),
        envs: seq![],
    }
}

/// The checks for a workspace of the given crates, of which some are affected
/// by changes, in the order in which they are run.
pub open spec fn plan_for(workspace: Seq<Seq<char>>, affected: Seq<Seq<char>>) -> Seq<CheckView> {
    workspace.map_values(|c: Seq<char>| clippy_check(c)) + seq![
        test_check(affected),
        doctest_check(affected),
    ] + workspace.map_values(|c: Seq<char>| doc_check(c)) + seq![msrv_check()]
}

fn clippy(name: &str) -> (res: Check)
    ensures
        res@ == clippy_check(name@),
{
    let res = Check {
        kind: CheckKind::Clippy,
        subject: Some(name.to_owned()),
        command: owned(
            vec![
                "cargo",
                "clippy",
                "-p",
                name,
                "--all-targets",
                "--all-features",
                "--",
                "-D",
                "warnings",
            ],
        ),
        envs: Vec::new(),
    };
    assert(res@ =~= clippy_check(name@));
    res
}

fn doc(name: &str) -> (res: Check)
    ensures
        res@ == doc_check(name@),
{
    let mut envs: Vec<(String, String)> = Vec::new();
    envs.push(("RUSTDOCFLAGS".to_owned(), "-D warnings".to_owned()));
    let res = Check {
        kind: CheckKind::Doc,
        subject: Some(name.to_owned()),
        command: owned(vec!["cargo", "doc", "-p", name, "--all-features"]),
        envs,
    };
    assert(res@ =~= doc_check(name@));
    res
}

fn with_packages(words: Vec<String>, crates: &Vec<String>, last: Vec<String>) -> (res: Vec<String>)
    ensures
        views(res@) == views(words@) + package_arguments(views(crates@)) + views(last@),
{
    let mut res = words;
    let ghost first = views(words@);
    let ghost names = views(crates@);
    assert(views(res@) =~= first + package_arguments(names.take(0)));
    for i in 0..crates.len()
        invariant
            names == views(crates@),
            views(res@) == first + package_arguments(names.take(i as int)),
    {
        let ghost before = views(res@);
        let flag = "-p".to_owned();
        let name = crates[i].clone();
        res.push(flag);
        res.push(name);
        assert(views(res@) =~= before + seq!["-p"@, name@]);
        assert(names.take(i + 1).drop_last() =~= names.take(i as int));
        assert(names.take(i + 1).last() == name@);
        assert(views(res@) =~= first + package_arguments(names.take(i + 1)));
    }
    assert(names.take(crates@.len() as int) =~= names);
    let ghost before = views(res@);
    let mut rest = last;
    res.append(&mut rest);
    assert(views(res@) =~= before + views(last@));
    res
}

fn tests(crates: &Vec<String>) -> (res: Check)
    ensures
        res@ == test_check(views(crates@)),
{
    let first = owned(vec!["cargo", "test"]);
    let last = owned(vec!["--all-features"]);
    assert(views(first@) =~= seq!["cargo"@, "test"@]);
    assert(views(last@) =~= seq!["--all-features"@]);
    let res = Check {
        kind: CheckKind::Test,
        subject: None,
        command: with_packages(first, crates, last),
        envs: Vec::new(),
    };
    assert(res@ =~= test_check(views(crates@)));
    res
}

fn doctest(crates: &Vec<String>) -> (res: Check)
    ensures
        res@ == doctest_check(views(crates@)),
{
    let first = owned(vec!["cargo", "test", "--doc"]);
    let last = owned(vec!["--all-features"]);
    assert(views(first@) =~= seq!["cargo"@, "test"@, "--doc"@]);
    assert(views(last@) =~= seq!["--all-features"@]);
    let res = Check {
        kind: CheckKind::DocTest,
        subject: None,
        command: with_packages(first, crates, last),
        envs: Vec::new(),
    };
    assert(res@ =~= doctest_check(views(crates@)));
    res
}

fn msrv() -> (res: Check)
    ensures
        res@ == msrv_check(),
{
    let res = Check {
        kind: CheckKind::Msrv,
        subject: None,
        command: metadata_command(),
        envs: Vec::new(),
    };
    assert(res@ =~= msrv_check());
    res
}

/// The checks for a workspace of the given crates, of which some are affected
/// by changes, in the order in which they are run.
pub fn plan(workspace: &Vec<String>, affected: &Vec<String>) -> (res: Vec<Check>)
    ensures
        check_views(res@) == plan_for(views(workspace@), views(affected@)),
{
    let ghost names = views(workspace@);
    let ghost lints = names.map_values(|c: Seq<char>| clippy_check(c));
    let ghost docs = names.map_values(|c: Seq<char>| doc_check(c));
    let mut res: Vec<Check> = Vec::new();
    for i in 0..workspace.len()
        invariant
            names == views(workspace@),
            lints == names.map_values(|c: Seq<char>| clippy_check(c)),
            check_views(res@) == lints.take(i as int),
    {
        let ghost before = check_views(res@);
        let check = clippy(workspace[i].as_str());
        res.push(check);
        assert(check_views(res@) =~= before.push(check@));
        assert(lints[i as int] == clippy_check(names[i as int]));
        assert(lints.take(i + 1) =~= before.push(check@));
    }
    assert(lints.take(workspace@.len() as int) =~= lints);
    let ghost first = check_views(res@);
    let all_tests = tests(affected);
    let doc_tests = doctest(affected);
    res.push(all_tests);
    res.push(doc_tests);
    let ghost middle = first + seq![all_tests@, doc_tests@];
    assert(check_views(res@) =~= middle + docs.take(0));
    for i in 0..workspace.len()
        invariant
            names == views(workspace@),
            docs == names.map_values(|c: Seq<char>| doc_check(c)),
            check_views(res@) == middle + docs.take(i as int),
    {
        let ghost before = check_views(res@);
        let check = doc(workspace[i].as_str());
        res.push(check);
        assert(check_views(res@) =~= before.push(check@));
        assert(docs[i as int] == doc_check(names[i as int]));
        assert(middle + docs.take(i + 1) =~= before.push(check@));
    }
    assert(docs.take(workspace@.len() as int) =~= docs);
    let ghost before = check_views(res@);
    let versions = msrv();
    res.push(versions);
    assert(check_views(res@) =~= before + seq![versions@]);
    res
}

/// Every crate of the workspace is linted and documented. Last, the oldest
/// supported Rust versions are compared.
pub proof fn lemma_plan_covers(workspace: Seq<Seq<char>>, affected: Seq<Seq<char>>, i: int)
    requires
        0 <= i < workspace.len(),
    ensures
        plan_for(workspace, affected).contains(clippy_check(workspace[i])),
        plan_for(workspace, affected).contains(doc_check(workspace[i])),
        plan_for(workspace, affected).last() == msrv_check(),
{
    let n = workspace.len() as int;
    let all = plan_for(workspace, affected);
    assert(all[i] == clippy_check(workspace[i]));
    assert(all[n + 2 + i] == doc_check(workspace[i]));
}

/// Every affected crate takes part in the tests and the doc tests.
pub proof fn lemma_plan_tests(workspace: Seq<Seq<char>>, affected: Seq<Seq<char>>, i: int)
    requires
        0 <= i < affected.len(),
    ensures
        plan_for(workspace, affected).contains(test_check(affected)),
        plan_for(workspace, affected).contains(doctest_check(affected)),
        exists|k: int|
            #![trigger package_arguments(affected)[k]]
            0 <= k < package_arguments(affected).len() - 1 && package_arguments(affected)[k]
                == "-p"@ && package_arguments(affected)[k + 1] == affected[i],
{
    let n = workspace.len() as int;
    let all = plan_for(workspace, affected);
    assert(all[n] == test_check(affected));
    assert(all[n + 1] == doctest_check(affected));
    lemma_package_arguments(affected, i);
    let words = package_arguments(affected);
    assert(words[2 * i] == "-p"@);
}

/// Each crate is selected by an argument and its name, in their order.
pub proof fn lemma_package_arguments(crates: Seq<Seq<char>>, i: int)
    requires
        0 <= i < crates.len(),
    ensures
        package_arguments(crates).len() == 2 * crates.len(),
        package_arguments(crates)[2 * i] == "-p"@,
        package_arguments(crates)[2 * i + 1] == crates[i],
    decreases crates.len(),
{
    let before = crates.drop_last();
    if before.len() == 0 {
        assert(package_arguments(before).len() == 0);
    } else if i < before.len() {
        lemma_package_arguments(before, i);
        assert(before[i] == crates[i]);
    } else {
        lemma_package_arguments(before, 0);
    }
}

/// A check has been passed: its command succeeded, and where it is about the
/// oldest supported Rust version, all packages have the same.
pub open spec fn passes(kind: CheckKind, run: Result<CommandOutput, String>) -> bool {
    match run {
        Ok(output) => output.succeeded() && (kind == CheckKind::Msrv ==> parsed_json(
            output.stdout@,
        ) is Ok && same_rust_version(metadata_in(parsed_json(output.stdout@)->Ok_0).packages)),
        Err(_) => false,
    }
}

/// A check is left out: there are no doc tests to run.
pub open spec fn is_left_out(kind: CheckKind, run: Result<CommandOutput, String>) -> bool {
    match run {
        Ok(output) => kind == CheckKind::DocTest && !output.succeeded() && only_lacks_doc_tests(
            output,
        ),
        Err(_) => false,
    }
}

/// The lines that report a check that failed.
pub open spec fn failure_report(check: CheckView, run: Result<CommandOutput, String>) -> Seq<
    Seq<char>,
> {
    match run {
        Err(reason) => error_lines(check.command, check.envs, reason@),
        Ok(output) => if !output.succeeded() {
            failure_lines(check.command, check.envs, output)
        } else {
            match parsed_json(output.stdout@) {
                Err(reason) => error_lines(
                    check.command,
                    check.envs,
                    "Failed to parse cargo metadata output: "@ + reason,
                ),
                Ok(value) => metadata_in(value).packages.map_values(
                    |p: PackageView| package_line(p),
                ),
            }
        },
    }
}

/// How a check ended.
#[derive(Debug)]
pub enum Verdict {
    /// It was passed.
    Passed,
    /// It was left out.
    LeftOut,
    /// It failed; these lines report how.
    Failed(Vec<String>),
}

/// How a check ended whose command was run; `Err` is why it could not be.
pub fn judge(check: &Check, run: &Result<CommandOutput, String>) -> (res: Verdict)
    ensures
        res is Passed <==> passes(check.kind, *run),
        res is LeftOut <==> is_left_out(check.kind, *run),
        res matches Verdict::Failed(lines) ==> views(lines@) == failure_report(check@, *run),
        res is Passed ==> (*run matches Ok(output) && output.code == Some(0i32)),
        res is LeftOut ==> check.kind == CheckKind::DocTest && (*run matches Ok(output)
            && output.code == Some(101i32)),
        check.kind != CheckKind::Msrv && (*run matches Ok(output) && output.code == Some(0i32))
            ==> res is Passed,
{
    match run {
        Err(reason) => Verdict::Failed(
            command_error_report(
                check.command.as_slice(),
                check.envs.as_slice(),
                reason.as_str(),
            ),
        ),
        Ok(output) => {
            if !output.success() {
                if check.kind == CheckKind::DocTest && should_skip_doc_tests(output) {
                    return Verdict::LeftOut;
                }
                return Verdict::Failed(
                    command_failure_report(
                        check.command.as_slice(),
                        check.envs.as_slice(),
                        output,
                    ),
                );
            }
            if check.kind != CheckKind::Msrv {
                return Verdict::Passed;
            }
            match parse_metadata(output.stdout.as_slice()) {
                Err(error) => Verdict::Failed(
                    command_error_report(
                        check.command.as_slice(),
                        check.envs.as_slice(),
                        error.message().as_str(),
                    ),
                ),
                Ok(metadata) => {
                    if msrv_is_consistent(&metadata) {
                        Verdict::Passed
                    } else {
                        Verdict::Failed(package_lines(&metadata))
                    }
                },
            }
        },
    }
}

/// How far the checks have come.
#[verifier::ext_equal]
pub struct Session {
    /// The checks, in their order.
    pub plan: Seq<CheckView>,
    /// How many of them have ended without failing.
    pub done: nat,
    /// One of them has failed.
    pub failed: bool,
}

impl Session {
    /// Nothing has been run yet.
    pub open spec fn start(plan: Seq<CheckView>) -> Session {
        Session { plan, done: 0, failed: false }
    }

    /// The check to be run next; none after a failure, or when all are done.
    pub open spec fn next(self) -> Option<CheckView> {
        if self.failed || self.done >= self.plan.len() {
            None
        } else {
            Some(self.plan[self.done as int])
        }
    }

    /// How far the checks have come once the next one has ended, where `ok`
    /// tells that it did not fail.
    pub open spec fn after(self, ok: bool) -> Session {
        if self.next() is None {
            self
        } else if ok {
            Session { done: self.done + 1, ..self }
        } else {
            Session { failed: true, ..self }
        }
    }

    /// The code to exit with: one after a failure, zero when all checks are
    /// done, and none before.
    pub open spec fn exit_code(self) -> Option<int> {
        if self.failed {
            Some(1)
        } else if self.done >= self.plan.len() {
            Some(0)
        } else {
            None
        }
    }
}

/// How far the checks have come after these ends, where each tells whether the
/// check did not fail.
pub open spec fn session_after(plan: Seq<CheckView>, ends: Seq<bool>) -> Session
    decreases ends.len(),
{
    if ends.len() == 0 {
        Session::start(plan)
    } else {
        session_after(plan, ends.drop_last()).after(ends.last())
    }
}

/// The checks exit with zero if and only if each of them was run and none
/// failed, and with one if and only if one failed. Nothing is run after that:
/// there is a next check only as long as no check failed.
pub proof fn lemma_exit_code(plan: Seq<CheckView>, ends: Seq<bool>)
    requires
        ends.len() <= plan.len(),
    ensures
        session_after(plan, ends).exit_code() == Some(0int) <==> ends.len() == plan.len() && (forall|
            i: int,
        |
            0 <= i < ends.len() ==> #[trigger] ends[i]),
        session_after(plan, ends).exit_code() == Some(1int) <==> (exists|i: int|
            0 <= i < ends.len() && !#[trigger] ends[i]),
        session_after(plan, ends).next() is Some <==> ends.len() < plan.len() && (forall|i: int|
            0 <= i < ends.len() ==> #[trigger] ends[i]),
{
    lemma_session(plan, ends);
}

proof fn lemma_session(plan: Seq<CheckView>, ends: Seq<bool>)
    requires
        ends.len() <= plan.len(),
    ensures
        session_after(plan, ends).plan == plan,
        session_after(plan, ends).failed <==> (exists|i: int|
            0 <= i < ends.len() && !#[trigger] ends[i]),
        !session_after(plan, ends).failed ==> session_after(plan, ends).done == ends.len(),
    decreases ends.len(),
{
    if ends.len() > 0 {
        let before = ends.drop_last();
        lemma_session(plan, before);
        if session_after(plan, before).failed {
            let i = choose|i: int| 0 <= i < before.len() && !#[trigger] before[i];
            assert(!ends[i]);
        } else {
            assert forall|i: int| 0 <= i < before.len() implies #[trigger] ends[i] by {
                assert(before[i]);
            }
            if !ends.last() {
                assert(!ends[ends.len() - 1]);
            }
        }
    }
}

/// The checks before a push, as they are run one after the other.
#[derive(Debug)]
pub struct PrePush {
    checks: Vec<Check>,
    done: usize,
    failed: bool,
}

impl View for PrePush {
    type V = Session;

    closed spec fn view(&self) -> Session {
        Session { plan: check_views(self.checks@), done: self.done as nat, failed: self.failed }
    }
}

impl PrePush {
    /// The checks for a workspace of the given crates, of which some are
    /// affected by changes. None has been run.
    pub fn new(workspace: &Vec<String>, affected: &Vec<String>) -> (res: Self)
        ensures
            res@ == Session::start(plan_for(views(workspace@), views(affected@))),
    {
        PrePush { checks: plan(workspace, affected), done: 0, failed: false }
    }

    /// The check to be run next; none after a failure, or when all are done.
    pub fn next(&self) -> (res: Option<&Check>)
        ensures
            match res {
                Some(check) => self@.next() == Some(check@),
                None => self@.next() is None,
            },
    {
        if self.failed || self.done >= self.checks.len() {
            None
        } else {
            assert(check_views(self.checks@)[self.done as int] == self.checks@[self.done as int]@);
            Some(&self.checks[self.done])
        }
    }

    /// Takes note of how the command of the next check ended; `Err` is why it
    /// could not be run.
    pub fn record(&mut self, run: &Result<CommandOutput, String>) -> (res: Verdict)
        requires
            old(self)@.next() is Some,
        ensures
            ({
                let kind = old(self)@.next()->0.kind;
                &&& res is Passed <==> passes(kind, *run)
                &&& res is LeftOut <==> is_left_out(kind, *run)
                &&& final(self)@ == old(self)@.after(!(res is Failed))
            }),
            res matches Verdict::Failed(lines) ==> views(lines@) == failure_report(
                old(self)@.next()->0,
                *run,
            ),
            res is Passed ==> (*run matches Ok(output) && output.code == Some(0i32)),
            res is LeftOut ==> old(self)@.next()->0.kind == CheckKind::DocTest && (*run matches Ok(
                output,
            ) && output.code == Some(101i32)),
    {
        let ghost before = self@;
        assert(self.done < self.checks.len());
        assert(check_views(self.checks@)[self.done as int] == self.checks@[self.done as int]@);
        let verdict = judge(&self.checks[self.done], run);
        match verdict {
            Verdict::Failed(_) => {
                self.failed = true;
            },
            _ => {
                self.done = self.done + 1;
            },
        }
        assert(self@ =~= before.after(!(verdict is Failed)));
        verdict
    }

    /// The code to exit with: one after a failure, zero when all checks are
    /// done, and none before.
    pub fn exit_code(&self) -> (res: Option<i32>)
        ensures
            match res {
                Some(code) => self@.exit_code() == Some(code as int),
                None => self@.exit_code() is None,
            },
    {
        if self.failed {
            Some(1)
        } else if self.done >= self.checks.len() {
            Some(0)
        } else {
            None
        }
    }
}

/// What is read of a check is what it holds.
pub proof fn lemma_check_view(check: Check)
    ensures
        check@.kind == check.kind,
        check@.subject is Some <==> check.subject is Some,
        check.subject matches Some(subject) ==> check@.subject == Some(subject@),
        check@.command == views(check.command@),
        check@.envs == crate::command::env_views(check.envs@),
{
}

/// What is read of several checks is what is read of each, in their order.
pub proof fn lemma_check_views(checks: Seq<Check>)
    ensures
        check_views(checks).len() == checks.len(),
        forall|i: int| 0 <= i < checks.len() ==> #[trigger] check_views(checks)[i] == checks[i]@,
{
}

/// The lints and the documentation are each about one crate, cover all features
/// and deny warnings: the lints by their arguments, the documentation by the
/// environment. The lints cover all targets.
pub proof fn lemma_crate_checks(name: Seq<char>)
    ensures
        clippy_check(name).kind == CheckKind::Clippy,
        clippy_check(name).subject == Some(name),
        clippy_check(name).command == seq!["cargo"@, "clippy"@, "-p"@, name] + seq![
            "--all-targets"@,
            "--all-features"@,
        ] + seq!["--"@, "-D"@, "warnings"@],
        clippy_check(name).envs.len() == 0,
        doc_check(name).kind == CheckKind::Doc,
        doc_check(name).subject == Some(name),
        doc_check(name).command == seq!["cargo"@, "doc"@, "-p"@, name] + seq!["--all-features"@],
        doc_check(name).envs == seq![("RUSTDOCFLAGS"@, "-D warnings"@)],
{
    assert(clippy_check(name).command =~= seq!["cargo"@, "clippy"@, "-p"@, name] + seq![
        "--all-targets"@,
        "--all-features"@,
    ] + seq!["--"@, "-D"@, "warnings"@]);
    assert(doc_check(name).command =~= seq!["cargo"@, "doc"@, "-p"@, name] + seq![
        "--all-features"@,
    ]);
}

/// The tests and the doc tests select the given crates and nothing else, and
/// cover all features.
pub proof fn lemma_test_checks(crates: Seq<Seq<char>>)
    ensures
        package_arguments(crates).len() == 2 * crates.len(),
        test_check(crates).kind == CheckKind::Test,
        test_check(crates).subject is None,
        test_check(crates).command == seq!["cargo"@, "test"@] + package_arguments(crates) + seq![
            "--all-features"@,
        ],
        test_check(crates).envs.len() == 0,
        doctest_check(crates).kind == CheckKind::DocTest,
        doctest_check(crates).subject is None,
        doctest_check(crates).command == seq!["cargo"@, "test"@, "--doc"@] + package_arguments(
            crates,
        ) + seq!["--all-features"@],
        doctest_check(crates).envs.len() == 0,
        msrv_check().kind == CheckKind::Msrv,
        msrv_check().subject is None,
        msrv_check().command == seq![
            "cargo"@,
            "metadata"@,
            "--format-version"@,
            "1"@,
            "--no-deps"@,
        ],
        msrv_check().envs.len() == 0,
{
    if crates.len() > 0 {
        lemma_package_arguments(crates, 0);
    }
}

/// The checks are, in this order: the lints of each crate of the workspace, the
/// tests and the doc tests of the affected crates, the documentation of each
/// crate of the workspace, and the comparison of Rust versions. There is no
/// other.
pub proof fn lemma_plan(workspace: Seq<Seq<char>>, affected: Seq<Seq<char>>)
    ensures
        ({
            let n = workspace.len() as int;
            let all = plan_for(workspace, affected);
            &&& all.len() == 2 * n + 3
            &&& forall|i: int| 0 <= i < n ==> #[trigger] all[i] == clippy_check(workspace[i])
            &&& all[n] == test_check(affected)
            &&& all[n + 1] == doctest_check(affected)
            &&& forall|i: int|
                n + 2 <= i < 2 * n + 2 ==> #[trigger] all[i] == doc_check(workspace[i - n - 2])
            &&& all[2 * n + 2] == msrv_check()
        }),
{
}

/// Whatever the check is about, a command that ended with another exit code than
/// zero, or with none, or could not be run, does not pass. It is left out only
/// where it was to run doc tests, ended with the code 101, and said in one of
/// four ways that there are none; otherwise it failed.
pub proof fn lemma_failure_is_no_pass(kind: CheckKind, output: CommandOutput, reason: String)
    ensures
        !passes(kind, Err(reason)),
        !is_left_out(kind, Err(reason)),
        output.code != Some(0i32) ==> !passes(kind, Ok(output)),
        is_left_out(kind, Ok(output)) <==> kind == CheckKind::DocTest && output.code == Some(101i32)
            && (crate::text::occurs_in(
            crate::encoding::text_of(output.stderr@),
            "there is nothing to test"@,
        ) || crate::text::occurs_in(
            crate::encoding::text_of(output.stderr@),
            "found no library targets to test"@,
        ) || crate::text::occurs_in(
            crate::encoding::text_of(output.stderr@),
            "found no binaries to test"@,
        ) || crate::text::occurs_in(
            crate::encoding::text_of(output.stderr@),
            "no library targets found"@,
        )),
{
}

/// A command that ended with the exit code zero passes its check, and that is
/// not left out. Only where Rust versions are compared it must also have written
/// metadata in which all packages have the same.
pub proof fn lemma_success_passes(kind: CheckKind, output: CommandOutput)
    requires
        output.code == Some(0i32),
    ensures
        kind != CheckKind::Msrv ==> passes(kind, Ok(output)),
        kind == CheckKind::Msrv ==> (passes(kind, Ok(output)) <==> match parsed_json(
            output.stdout@,
        ) {
            Ok(value) => forall|i: int, j: int|
                0 <= i < metadata_in(value).packages.len() && 0 <= j < metadata_in(
                    value,
                ).packages.len() ==> (#[trigger] metadata_in(value).packages[i]).rust_version == (
                #[trigger] metadata_in(value).packages[j]).rust_version,
            Err(_) => false,
        }),
        !is_left_out(kind, Ok(output)),
{
}

/// A check whose command failed, or could not be run, is reported as that. One
/// whose command succeeded is reported with what is wrong with the metadata that
/// it wrote, or with a line for each package.
pub proof fn lemma_failure_report(check: CheckView, output: CommandOutput, reason: String)
    ensures
        failure_report(check, Err(reason)) == error_lines(check.command, check.envs, reason@),
        output.code != Some(0i32) ==> failure_report(check, Ok(output)) == failure_lines(
            check.command,
            check.envs,
            output,
        ),
        output.code == Some(0i32) ==> match parsed_json(output.stdout@) {
            Err(said) => failure_report(check, Ok(output)) == error_lines(
                check.command,
                check.envs,
                "Failed to parse cargo metadata output: "@ + said,
            ),
            Ok(value) => failure_report(check, Ok(output)).len() == metadata_in(value).packages.len()
                && forall|i: int|
                0 <= i < metadata_in(value).packages.len() ==> #[trigger] failure_report(
                    check,
                    Ok(output),
                )[i] == package_line(metadata_in(value).packages[i]),
        },
{
}

/// The checks are run one after the other. As long as none failed, the next is
/// the first that has not been run; after a failure there is none, and the end
/// is the code one, for good.
pub proof fn lemma_session_steps(session: Session, plan: Seq<CheckView>, ok: bool)
    ensures
        Session::start(plan).plan == plan,
        Session::start(plan).done == 0,
        !Session::start(plan).failed,
        session.after(ok).plan == session.plan,
        session.failed ==> session.after(ok) == session && session.next() is None
            && session.exit_code() == Some(1int),
        !session.failed && session.done < session.plan.len() ==> {
            &&& session.next() == Some(session.plan[session.done as int])
            &&& session.exit_code() is None
            &&& ok ==> session.after(ok).done == session.done + 1 && !session.after(ok).failed
            &&& !ok ==> session.after(ok).failed && session.after(ok).done == session.done
        },
        !session.failed && session.done >= session.plan.len() ==> session.next() is None
            && session.exit_code() == Some(0int) && session.after(ok) == session,
{
}

} // verus!
