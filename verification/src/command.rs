//! Commands: how they are shown, what they gave, and what is reported of one
//! that failed.

use crate::encoding::{debug_format, from_utf8_lossy};
use crate::text::{chars_of, contains, decimal_of, is_whitespace, join, trim_end, views};
use vstd::prelude::*;
use vstd::string::StringExecFns;

verus! {

/// What a command that ran has left behind.
#[derive(Debug)]
pub struct CommandOutput {
    /// The exit code; nothing where a signal ended the command.
    pub code: Option<i32>,
    /// How the command ended, in words.
    pub status: String,
    /// What it wrote to its standard output.
    pub stdout: Vec<u8>,
    /// What it wrote to its standard error.
    pub stderr: Vec<u8>,
}

impl CommandOutput {
    /// The command ended with the exit code zero.
    pub open spec fn succeeded(self) -> bool {
        self.code == Some(0i32)
    }

    /// Whether the command ended with the exit code zero.
    pub fn success(&self) -> (res: bool)
        ensures
            res == self.succeeded(),
            res == (self.code == Some(0i32)),
    {
        match self.code {
            Some(code) => code == 0,
            None => false,
        }
    }
}

/// A text that a shell takes as one word as it stands: without whitespace,
/// quotes and backslashes.
pub open spec fn is_plain(part: Seq<char>) -> bool {
    forall|i: int| 0 <= i < part.len() ==> is_plain_char(#[trigger] part[i])
}

/// A character that needs no quoting.
pub open spec fn is_plain_char(c: char) -> bool {
    !crate::text::is_white_space(c) && c != '"' && c != '\'' && c != '\\'
}

/// A part of a command line: as it stands where it is plain, quoted otherwise.
pub open spec fn escaped(part: Seq<char>) -> Seq<char> {
    if is_plain(part) {
        part
    } else {
        crate::encoding::debug_text(part)
    }
}

/// `shown` shows a part of a command line: as it stands where it is plain, and
/// otherwise as a string literal whose value it is, with no whitespace but
/// spaces.
pub open spec fn shows(shown: Seq<char>, part: Seq<char>) -> bool {
    if is_plain(part) {
        shown == part
    } else {
        crate::encoding::literal_value(shown) == Some(part) && crate::encoding::has_only_spaces(
            shown,
        )
    }
}

/// A part that is not plain is shown in quotes, with no quote between them that
/// is not escaped.
pub proof fn lemma_shown_in_quotes(shown: Seq<char>, part: Seq<char>)
    requires
        shows(shown, part),
        !is_plain(part),
    ensures
        shown.len() >= 2,
        shown[0] == '"',
        shown.last() == '"',
        crate::text::is_closed(shown, 1),
{
    crate::encoding::lemma_literal_quoted(shown);
}

/// Two different parts are never shown alike.
pub proof fn lemma_shown_apart(
    shown: Seq<char>,
    part: Seq<char>,
    other_shown: Seq<char>,
    other: Seq<char>,
)
    requires
        shows(shown, part),
        shows(other_shown, other),
        part != other,
    ensures
        shown != other_shown,
{
    if shown == other_shown && is_plain(part) != is_plain(other) {
        crate::encoding::lemma_literal_quoted(shown);
        assert(!is_plain_char(shown[0]));
    }
}

/// Whether a part needs no quoting.
pub fn needs_no_quotes(part: &str) -> (res: bool)
    ensures
        res == is_plain(part@),
{
    let chars = chars_of(part);
    for i in 0..chars.len()
        invariant
            chars@ == part@,
            forall|j: int| 0 <= j < i ==> is_plain_char(#[trigger] chars@[j]),
    {
        let c = chars[i];
        if is_whitespace(c) || c == '"' || c == '\'' || c == '\\' {
            assert(!is_plain_char(part@[i as int]));
            return false;
        }
    }
    true
}

/// A part of a command line: as it stands where it is plain, quoted otherwise.
pub fn shell_escape(part: &str) -> (res: String)
    ensures
        res@ == escaped(part@),
        shows(res@, part@),
{
    if needs_no_quotes(part) {
        part.to_owned()
    } else {
        debug_format(part)
    }
}

/// A command line: its parts, each quoted where it needs to be, with a space
/// between each two.
pub open spec fn command_line(parts: Seq<Seq<char>>) -> Seq<char> {
    crate::text::joined(parts.map_values(|p: Seq<char>| escaped(p)), " "@)
}

/// A command line: its parts, each quoted where it needs to be, with a space
/// between each two.
pub fn format_command_line(parts: &[String]) -> (res: String)
    ensures
        res@ == command_line(views(parts@)),
{
    let mut shown: Vec<String> = Vec::new();
    let ghost wanted = views(parts@).map_values(|p: Seq<char>| escaped(p));
    for i in 0..parts.len()
        invariant
            wanted == views(parts@).map_values(|p: Seq<char>| escaped(p)),
            views(shown@) == wanted.take(i as int),
    {
        let ghost before = views(shown@);
        let part = shell_escape(parts[i].as_str());
        shown.push(part);
        assert(wanted[i as int] == escaped(views(parts@)[i as int]));
        assert(views(shown@) =~= before.push(part@));
        assert(wanted.take(i + 1) =~= before.push(part@));
    }
    assert(wanted.take(parts@.len() as int) =~= wanted);
    join(&shown, " ")
}

/// A command line of plain parts shows them as they stand.
pub proof fn lemma_plain_command_line(parts: Seq<Seq<char>>)
    requires
        forall|i: int| 0 <= i < parts.len() ==> is_plain(#[trigger] parts[i]),
    ensures
        command_line(parts) == crate::text::joined(parts, " "@),
{
    assert(parts.map_values(|p: Seq<char>| escaped(p)) =~= parts);
}

/// A stream under its label: what it held, without whitespace at its end.
pub open spec fn labelled(label: Seq<char>, text: Seq<char>) -> Seq<char> {
    "    "@ + label + ":\n"@ + crate::text::without_trailing_space(text)
}

/// A stream under its label: what it held, without whitespace at its end.
pub fn label_text(label: &str, text: &str) -> (res: String)
    ensures
        res@ == labelled(label@, text@),
{
    let mut res = "    ".to_owned();
    res.append(label);
    res.append(":\n");
    res.append(trim_end(text).as_str());
    res
}

/// What is reported of a stream.
pub open spec fn stream_text(label: Seq<char>, data: Seq<u8>) -> Seq<char> {
    if data.len() == 0 {
        "    "@ + label + ": <empty>"@
    } else {
        labelled(label, crate::encoding::text_of(data))
    }
}

/// What is reported of a stream.
pub fn stream_report(label: &str, data: &[u8]) -> (res: String)
    ensures
        res@ == stream_text(label@, data@),
{
    if data.len() == 0 {
        let mut res = "    ".to_owned();
        res.append(label);
        res.append(": <empty>");
        res
    } else {
        label_text(label, from_utf8_lossy(data).as_str())
    }
}

/// The names and values of environment variables.
pub open spec fn env_views(envs: Seq<(String, String)>) -> Seq<(Seq<char>, Seq<char>)> {
    envs.map_values(|e: (String, String)| (e.0@, e.1@))
}

/// What is reported of one environment variable.
pub open spec fn env_text(env: (Seq<char>, Seq<char>)) -> Seq<char> {
    "    env: "@ + env.0 + "="@ + env.1
}

/// What is reported of environment variables, one line for each.
pub open spec fn env_lines(envs: Seq<(Seq<char>, Seq<char>)>) -> Seq<Seq<char>> {
    envs.map_values(|e: (Seq<char>, Seq<char>)| env_text(e))
}

/// What is reported of the environment variables that a command was given.
pub fn env_report(envs: &[(String, String)]) -> (res: Vec<String>)
    ensures
        views(res@) == env_lines(env_views(envs@)),
        res@.len() == envs@.len(),
        forall|i: int|
            0 <= i < envs@.len() ==> (#[trigger] res@[i])@ == "    env: "@ + envs@[i].0@ + "="@
                + envs@[i].1@,
{
    let mut res: Vec<String> = Vec::new();
    for i in 0..envs.len()
        invariant
            views(res@) == env_lines(env_views(envs@.take(i as int))),
    {
        let ghost before = views(res@);
        let mut line = "    env: ".to_owned();
        line.append(envs[i].0.as_str());
        line.append("=");
        line.append(envs[i].1.as_str());
        res.push(line);
        assert(views(res@) =~= before.push(line@));
        assert(env_views(envs@.take(i + 1)) =~= env_views(envs@.take(i as int)).push(
            (envs@[i as int].0@, envs@[i as int].1@),
        ));
        assert(env_lines(env_views(envs@.take(i + 1))) =~= before.push(line@));
    }
    assert(envs@.take(envs@.len() as int) =~= envs@);
    assert forall|i: int| 0 <= i < envs@.len() implies (#[trigger] res@[i])@ == "    env: "@
        + envs@[i].0@ + "="@ + envs@[i].1@ by {
        assert(views(res@)[i] == res@[i]@);
    }
    assert(views(res@).len() == res@.len());
    res
}

/// The decimal digits of a number, after its sign where it is negative.
pub open spec fn signed_decimal(n: int) -> Seq<char> {
    if n < 0 {
        seq!['-'] + crate::text::decimal((-n) as nat)
    } else {
        crate::text::decimal(n as nat)
    }
}

/// What is reported of an exit code.
pub open spec fn exit_code_text(code: Option<i32>) -> Seq<char> {
    "    exit code: "@ + match code {
        Some(code) => signed_decimal(code as int),
        None => "terminated by signal"@,
    }
}

/// What is reported of an exit code.
pub fn exit_code_report(code: Option<i32>) -> (res: String)
    ensures
        res@ == exit_code_text(code),
{
    let mut res = "    exit code: ".to_owned();
    match code {
        Some(code) => {
            let wide: i64 = code as i64;
            if wide < 0 {
                res.push('-');
                res.append(decimal_of((-wide) as u64).as_str());
                assert(res@ =~= "    exit code: "@ + signed_decimal(code as int));
            } else {
                res.append(decimal_of(wide as u64).as_str());
            }
        },
        None => {
            res.append("terminated by signal");
        },
    }
    res
}

/// The lines that report a command and its environment.
pub open spec fn command_lines(
    command: Seq<Seq<char>>,
    envs: Seq<(Seq<char>, Seq<char>)>,
) -> Seq<Seq<char>> {
    seq!["    command: "@ + command_line(command)] + env_lines(envs)
}

fn command_report(command: &[String], envs: &[(String, String)]) -> (res: Vec<String>)
    ensures
        views(res@) == command_lines(views(command@), env_views(envs@)),
{
    let mut line = "    command: ".to_owned();
    line.append(format_command_line(command).as_str());
    let mut res: Vec<String> = Vec::new();
    res.push(line);
    let mut rest = env_report(envs);
    let ghost shown = rest@;
    res.append(&mut rest);
    assert(views(res@) =~= seq![line@] + views(shown));
    res
}

/// The lines that report a command that ran and failed.
pub open spec fn failure_lines(
    command: Seq<Seq<char>>,
    envs: Seq<(Seq<char>, Seq<char>)>,
    output: CommandOutput,
) -> Seq<Seq<char>> {
    command_lines(command, envs) + seq![
        exit_code_text(output.code),
        stream_text("stdout"@, output.stdout@),
        stream_text("stderr"@, output.stderr@),
    ]
}

/// The lines that report a command that ran and failed.
pub fn command_failure_report(
    command: &[String],
    envs: &[(String, String)],
    output: &CommandOutput,
) -> (res: Vec<String>)
    ensures
        views(res@) == failure_lines(views(command@), env_views(envs@), *output),
{
    let mut res = command_report(command, envs);
    res.push(exit_code_report(output.code));
    res.push(stream_report("stdout", output.stdout.as_slice()));
    res.push(stream_report("stderr", output.stderr.as_slice()));
    assert(views(res@) =~= failure_lines(views(command@), env_views(envs@), *output));
    res
}

/// The lines that report a command that could not be run.
pub open spec fn error_lines(
    command: Seq<Seq<char>>,
    envs: Seq<(Seq<char>, Seq<char>)>,
    error: Seq<char>,
) -> Seq<Seq<char>> {
    command_lines(command, envs).push("    error: "@ + error)
}

/// The lines that report a command that could not be run.
pub fn command_error_report(command: &[String], envs: &[(String, String)], error: &str) -> (res: Vec<
    String,
>)
    ensures
        views(res@) == error_lines(views(command@), env_views(envs@), error@),
{
    let mut res = command_report(command, envs);
    let mut line = "    error: ".to_owned();
    line.append(error);
    res.push(line);
    assert(views(res@) =~= error_lines(views(command@), env_views(envs@), error@));
    res
}

/// The messages by which `cargo test --doc` tells that a package has nothing to
/// test.
pub open spec fn tells_nothing_to_test(stderr: Seq<char>) -> bool {
    ||| crate::text::occurs_in(stderr, "there is nothing to test"@)
    ||| crate::text::occurs_in(stderr, "found no library targets to test"@)
    ||| crate::text::occurs_in(stderr, "found no binaries to test"@)
    ||| crate::text::occurs_in(stderr, "no library targets found"@)
}

/// Whether a text holds one of the messages by which `cargo test --doc` tells
/// that a package has nothing to test.
pub fn says_nothing_to_test(stderr: &str) -> (res: bool)
    ensures
        res == tells_nothing_to_test(stderr@),
{
    contains(stderr, "there is nothing to test") || contains(
        stderr,
        "found no library targets to test",
    ) || contains(stderr, "found no binaries to test") || contains(
        stderr,
        "no library targets found",
    )
}

/// A run of the doc tests failed only for want of anything to test.
pub open spec fn only_lacks_doc_tests(output: CommandOutput) -> bool {
    output.code == Some(101i32) && tells_nothing_to_test(
        crate::encoding::text_of(output.stderr@),
    )
}

/// Whether a run of the doc tests failed only for want of anything to test.
pub fn should_skip_doc_tests(output: &CommandOutput) -> (res: bool)
    ensures
        res == only_lacks_doc_tests(*output),
        res ==> output.code == Some(101i32),
{
    match output.code {
        Some(code) => code == 101 && says_nothing_to_test(
            from_utf8_lossy(output.stderr.as_slice()).as_str(),
        ),
        None => false,
    }
}

/// A command succeeded if and only if it ended with the exit code zero: neither
/// another code nor a signal is success.
pub proof fn lemma_success(output: CommandOutput)
    ensures
        output.succeeded() <==> output.code == Some(0i32),
        output.code is None ==> !output.succeeded(),
        forall|code: i32| output.code == Some(code) && code != 0 ==> !output.succeeded(),
{
}

/// A part is shown as it stands if and only if none of its characters is
/// whitespace, a quote or a backslash; what is written for any other is what
/// `{:?}` makes of it.
pub proof fn lemma_escaped(part: Seq<char>)
    ensures
        (forall|i: int|
            0 <= i < part.len() ==> !crate::text::is_white_space(#[trigger] part[i]) && part[i] != '"'
                && part[i] != '\'' && part[i] != '\\') ==> escaped(part) == part && shows(part, part),
        (exists|i: int|
            0 <= i < part.len() && (crate::text::is_white_space(#[trigger] part[i]) || part[i] == '"'
                || part[i] == '\'' || part[i] == '\\')) ==> escaped(part)
            == crate::encoding::debug_text(part) && !shows(part, part),
{
    if exists|i: int|
        0 <= i < part.len() && (crate::text::is_white_space(#[trigger] part[i]) || part[i] == '"'
            || part[i] == '\'' || part[i] == '\\') {
        let i = choose|i: int|
            0 <= i < part.len() && (crate::text::is_white_space(#[trigger] part[i]) || part[i] == '"'
                || part[i] == '\'' || part[i] == '\\');
        assert(!is_plain_char(part[i]));
        if shows(part, part) {
            lemma_literal_longer(part);
        }
    } else {
        assert forall|i: int| 0 <= i < part.len() implies is_plain_char(#[trigger] part[i]) by {}
    }
}

proof fn lemma_literal_longer(text: Seq<char>)
    requires
        crate::encoding::literal_value(text) is Some,
    ensures
        crate::encoding::literal_value(text)->0.len() < text.len(),
{
    lemma_rest_longer(text.skip(1));
}

proof fn lemma_rest_longer(text: Seq<char>)
    requires
        crate::encoding::literal_rest(text) is Some,
    ensures
        crate::encoding::literal_rest(text)->0.len() < text.len(),
    decreases text.len(),
{
    if text[0] == '\\' {
        match crate::encoding::escape_at(text) {
            Some((_, size)) => {
                lemma_rest_longer(text.skip(size));
            },
            None => {},
        }
    } else if text[0] != '"' {
        lemma_rest_longer(text.skip(1));
    }
}

/// A further part of a command line follows behind a space.
pub proof fn lemma_command_line(parts: Seq<Seq<char>>, part: Seq<char>)
    ensures
        command_line(seq![]).len() == 0,
        command_line(seq![part]) == escaped(part),
        parts.len() > 0 ==> command_line(parts.push(part)) == command_line(parts) + " "@ + escaped(
            part,
        ),
{
    let show = |p: Seq<char>| escaped(p);
    let shown = parts.map_values(show);
    crate::text::lemma_joined(shown, escaped(part), " "@);
    assert(Seq::<Seq<char>>::empty().map_values(show) =~= seq![]);
    assert(seq![part].map_values(show) =~= seq![escaped(part)]);
    assert(parts.push(part).map_values(show) =~= shown.push(escaped(part)));
}

/// What is reported of a stream names it: an empty one is called so, and of any
/// other the text follows, without the whitespace at its end.
pub proof fn lemma_stream_text(label: Seq<char>, data: Seq<u8>)
    ensures
        data.len() == 0 ==> stream_text(label, data) == "    "@ + label + ": <empty>"@,
        data.len() > 0 ==> stream_text(label, data) == "    "@ + label + ":\n"@
            + crate::text::without_trailing_space(crate::encoding::text_of(data)),
{
}

/// An exit code is reported in decimal, with a sign where it is negative, and a
/// signal as such.
pub proof fn lemma_exit_code_text(code: i32)
    ensures
        exit_code_text(None) == "    exit code: terminated by signal"@,
        code >= 0 ==> exit_code_text(Some(code)) == "    exit code: "@ + crate::text::decimal(
            code as nat,
        ),
        code < 0 ==> exit_code_text(Some(code)) == "    exit code: -"@ + crate::text::decimal(
            (-code) as nat,
        ),
{
    reveal_strlit("    exit code: terminated by signal");
    reveal_strlit("    exit code: ");
    reveal_strlit("    exit code: -");
    reveal_strlit("terminated by signal");
    assert(exit_code_text(None) =~= "    exit code: terminated by signal"@);
    let digits = crate::text::decimal((-code) as nat);
    assert("    exit code: "@ + (seq!['-'] + digits) =~= "    exit code: -"@ + digits);
}

/// A command that failed is reported with its command line, one line for each
/// variable of its environment in their order, its exit code, and its two
/// streams. Of one that could not be run the reason takes the place of these.
pub proof fn lemma_report_lines(
    command: Seq<Seq<char>>,
    envs: Seq<(Seq<char>, Seq<char>)>,
    output: CommandOutput,
    error: Seq<char>,
)
    ensures
        failure_lines(command, envs, output).len() == envs.len() + 4,
        error_lines(command, envs, error).len() == envs.len() + 2,
        failure_lines(command, envs, output)[0] == "    command: "@ + command_line(command),
        error_lines(command, envs, error)[0] == "    command: "@ + command_line(command),
        forall|i: int|
            0 < i <= envs.len() ==> #[trigger] failure_lines(command, envs, output)[i]
                == "    env: "@ + envs[i - 1].0 + "="@ + envs[i - 1].1,
        forall|i: int|
            0 < i <= envs.len() ==> #[trigger] error_lines(command, envs, error)[i]
                == "    env: "@ + envs[i - 1].0 + "="@ + envs[i - 1].1,
        failure_lines(command, envs, output)[envs.len() + 1int] == exit_code_text(output.code),
        failure_lines(command, envs, output)[envs.len() + 2int] == stream_text(
            "stdout"@,
            output.stdout@,
        ),
        failure_lines(command, envs, output)[envs.len() + 3int] == stream_text(
            "stderr"@,
            output.stderr@,
        ),
        error_lines(command, envs, error)[envs.len() + 1int] == "    error: "@ + error,
{
    assert forall|i: int| 0 < i <= envs.len() implies #[trigger] failure_lines(
        command,
        envs,
        output,
    )[i] == "    env: "@ + envs[i - 1].0 + "="@ + envs[i - 1].1 by {
        assert(env_lines(envs)[i - 1] == env_text(envs[i - 1]));
    }
    assert forall|i: int| 0 < i <= envs.len() implies #[trigger] error_lines(
        command,
        envs,
        error,
    )[i] == "    env: "@ + envs[i - 1].0 + "="@ + envs[i - 1].1 by {
        assert(env_lines(envs)[i - 1] == env_text(envs[i - 1]));
    }
}

/// The names and values of variables are taken in their order.
pub proof fn lemma_env_views(envs: Seq<(String, String)>)
    ensures
        env_views(envs).len() == envs.len(),
        forall|i: int|
            0 <= i < envs.len() ==> #[trigger] env_views(envs)[i] == (envs[i].0@, envs[i].1@),
{
}

/// Doc tests are left out if and only if they ended with the code that cargo
/// uses for errors, and said in one of four ways that there is nothing to test.
pub proof fn lemma_lacks_doc_tests(output: CommandOutput)
    ensures
        only_lacks_doc_tests(output) <==> output.code == Some(101i32) && exists|said: Seq<char>|
            (said == "there is nothing to test"@ || said == "found no library targets to test"@
                || said == "found no binaries to test"@ || said == "no library targets found"@)
                && #[trigger] crate::text::occurs_in(
                crate::encoding::text_of(output.stderr@),
                said,
            ),
{
    let text = crate::encoding::text_of(output.stderr@);
    if tells_nothing_to_test(text) {
        if crate::text::occurs_in(text, "there is nothing to test"@) {
        } else if crate::text::occurs_in(text, "found no library targets to test"@) {
        } else if crate::text::occurs_in(text, "found no binaries to test"@) {
        } else {
            assert(crate::text::occurs_in(text, "no library targets found"@));
        }
    }
}

/// A stream stands under its label, without the whitespace at its end, also
/// where nothing else is left of it.
pub proof fn lemma_labelled(label: Seq<char>, text: Seq<char>)
    ensures
        labelled(label, text) == "    "@ + label + ":\n"@ + crate::text::without_trailing_space(
            text,
        ),
{
}

} // verus!
