//! Running a command with its output held back at first: what it writes is
//! collected, and shown as it comes only once the command has taken longer than
//! expected.

use crate::text::{join, views};
use vstd::prelude::*;
use vstd::string::StrSliceExecFns;
use vstd::utf8::encode_utf8;

verus! {

/// How long a command may run before its output is shown, in milliseconds.
pub const THRESHOLD_MILLIS: u64 = 5000;

/// How long the display of the elapsed time stays, in milliseconds.
pub const REFRESH_MILLIS: u64 = 1000;

/// What is known of a running command.
#[verifier::ext_equal]
pub struct Progress {
    /// Output is being shown as it comes.
    pub streaming: bool,
    /// The lines of the standard output so far.
    pub stdout: Seq<Seq<char>>,
    /// The lines of the standard error so far.
    pub stderr: Seq<Seq<char>>,
}

/// One look at a command that is still running.
pub struct Poll {
    /// How long the command has been running, in milliseconds.
    pub elapsed: nat,
    /// The lines of the standard output since the look before.
    pub stdout: Seq<Seq<char>>,
    /// The lines of the standard error since the look before.
    pub stderr: Seq<Seq<char>>,
}

/// A stream that a command writes to.
pub enum Stream {
    /// The standard output.
    Stdout,
    /// The standard error.
    Stderr,
}

/// Lines, each with the stream that it is on.
pub open spec fn lines_on(stream: Stream, lines: Seq<Seq<char>>) -> Seq<(Stream, Seq<char>)> {
    lines.map_values(|line: Seq<char>| (stream, line))
}

impl Progress {
    /// What is known when the command starts.
    pub open spec fn start() -> Progress {
        Progress { streaming: false, stdout: seq![], stderr: seq![] }
    }

    /// What is known after a look.
    pub open spec fn after(self, poll: Poll) -> Progress {
        Progress {
            streaming: self.streaming || poll.elapsed >= THRESHOLD_MILLIS,
            stdout: self.stdout + poll.stdout,
            stderr: self.stderr + poll.stderr,
        }
    }

    /// The look finds for the first time that the command takes longer than
    /// expected.
    pub open spec fn announces(self, poll: Poll) -> bool {
        !self.streaming && self.after(poll).streaming
    }

    /// Of the lines of a stream that were known before a look, those that the
    /// look makes visible: all of them when output begins to be shown.
    pub open spec fn released(self, poll: Poll, known: Seq<Seq<char>>) -> Seq<Seq<char>> {
        if self.announces(poll) {
            known
        } else {
            seq![]
        }
    }

    /// Of the lines of a stream that a look finds, those that it makes visible:
    /// all of them while output is being shown.
    pub open spec fn passed_on(self, poll: Poll, found: Seq<Seq<char>>) -> Seq<Seq<char>> {
        if self.after(poll).streaming {
            found
        } else {
            seq![]
        }
    }

    /// The lines of the standard output that a look makes visible.
    pub open spec fn shown_stdout(self, poll: Poll) -> Seq<Seq<char>> {
        self.released(poll, self.stdout) + self.passed_on(poll, poll.stdout)
    }

    /// The lines of the standard error that a look makes visible.
    pub open spec fn shown_stderr(self, poll: Poll) -> Seq<Seq<char>> {
        self.released(poll, self.stderr) + self.passed_on(poll, poll.stderr)
    }

    /// All that a look makes visible, in this order: what was known of the
    /// standard output, what was known of the standard error, and what is new
    /// of either.
    pub open spec fn shown(self, poll: Poll) -> Seq<(Stream, Seq<char>)> {
        lines_on(Stream::Stdout, self.released(poll, self.stdout)) + lines_on(
            Stream::Stderr,
            self.released(poll, self.stderr),
        ) + lines_on(Stream::Stdout, self.passed_on(poll, poll.stdout)) + lines_on(
            Stream::Stderr,
            self.passed_on(poll, poll.stderr),
        )
    }

    /// The last lines of a stream, as far as they are made visible when the
    /// command has ended.
    pub open spec fn shown_at_end(self, last: Seq<Seq<char>>) -> Seq<Seq<char>> {
        if self.streaming {
            last
        } else {
            seq![]
        }
    }
}

/// What is known after all these looks.
pub open spec fn progress(polls: Seq<Poll>) -> Progress
    decreases polls.len(),
{
    if polls.len() == 0 {
        Progress::start()
    } else {
        progress(polls.drop_last()).after(polls.last())
    }
}

/// How often these looks have announced that the command takes longer than
/// expected.
pub open spec fn announcements(polls: Seq<Poll>) -> nat
    decreases polls.len(),
{
    if polls.len() == 0 {
        0
    } else {
        let before = progress(polls.drop_last());
        announcements(polls.drop_last()) + if before.announces(polls.last()) {
            1nat
        } else {
            0nat
        }
    }
}

/// That a command takes longer than expected is announced once, when output
/// begins to be shown.
pub proof fn lemma_announced_once(polls: Seq<Poll>)
    ensures
        announcements(polls) == (if progress(polls).streaming {
            1nat
        } else {
            0nat
        }),
    decreases polls.len(),
{
    if polls.len() > 0 {
        lemma_announced_once(polls.drop_last());
    }
}

/// All lines of the standard output that these looks have made visible.
pub open spec fn all_shown_stdout(polls: Seq<Poll>) -> Seq<Seq<char>>
    decreases polls.len(),
{
    if polls.len() == 0 {
        seq![]
    } else {
        all_shown_stdout(polls.drop_last()) + progress(polls.drop_last()).shown_stdout(polls.last())
    }
}

/// All lines of the standard error that these looks have made visible.
pub open spec fn all_shown_stderr(polls: Seq<Poll>) -> Seq<Seq<char>>
    decreases polls.len(),
{
    if polls.len() == 0 {
        seq![]
    } else {
        all_shown_stderr(polls.drop_last()) + progress(polls.drop_last()).shown_stderr(polls.last())
    }
}

/// The lines that a look makes visible on each stream are those that it makes
/// visible on both, without the ones of the other.
pub proof fn lemma_shown_by_stream(before: Progress, poll: Poll)
    ensures
        before.shown(poll).filter(|l: (Stream, Seq<char>)| l.0 is Stdout) == lines_on(
            Stream::Stdout,
            before.shown_stdout(poll),
        ),
        before.shown(poll).filter(|l: (Stream, Seq<char>)| l.0 is Stderr) == lines_on(
            Stream::Stderr,
            before.shown_stderr(poll),
        ),
{
    let a = before.released(poll, before.stdout);
    let b = before.released(poll, before.stderr);
    let c = before.passed_on(poll, poll.stdout);
    let d = before.passed_on(poll, poll.stderr);
    let out = |l: (Stream, Seq<char>)| l.0 is Stdout;
    let err = |l: (Stream, Seq<char>)| l.0 is Stderr;
    let pa = lines_on(Stream::Stdout, a);
    let pb = lines_on(Stream::Stderr, b);
    let pc = lines_on(Stream::Stdout, c);
    let pd = lines_on(Stream::Stderr, d);
    Seq::filter_distributes_over_add(pa, pb, out);
    Seq::filter_distributes_over_add(pa + pb, pc, out);
    Seq::filter_distributes_over_add(pa + pb + pc, pd, out);
    Seq::filter_distributes_over_add(pa, pb, err);
    Seq::filter_distributes_over_add(pa + pb, pc, err);
    Seq::filter_distributes_over_add(pa + pb + pc, pd, err);
    lemma_filter_lines(Stream::Stdout, a, out, true);
    lemma_filter_lines(Stream::Stderr, b, out, false);
    lemma_filter_lines(Stream::Stdout, c, out, true);
    lemma_filter_lines(Stream::Stderr, d, out, false);
    lemma_filter_lines(Stream::Stdout, a, err, false);
    lemma_filter_lines(Stream::Stderr, b, err, true);
    lemma_filter_lines(Stream::Stdout, c, err, false);
    lemma_filter_lines(Stream::Stderr, d, err, true);
    assert(before.shown(poll) == pa + pb + pc + pd);
    assert((pa + pb + pc + pd).filter(out) =~= pa + pc);
    assert((pa + pb + pc + pd).filter(err) =~= pb + pd);
    assert(pa + pc =~= lines_on(Stream::Stdout, a + c));
    assert(pb + pd =~= lines_on(Stream::Stderr, b + d));
}

proof fn lemma_filter_lines(
    stream: Stream,
    lines: Seq<Seq<char>>,
    keep: spec_fn((Stream, Seq<char>)) -> bool,
    kept: bool,
)
    requires
        forall|i: int| 0 <= i < lines.len() ==> keep((stream, #[trigger] lines[i])) == kept,
    ensures
        lines_on(stream, lines).filter(keep) == (if kept {
            lines_on(stream, lines)
        } else {
            seq![]
        }),
    decreases lines.len(),
{
    reveal(Seq::filter);
    let all = lines_on(stream, lines);
    if lines.len() == 0 {
        assert(all =~= seq![]);
    } else {
        let before = lines.drop_last();
        assert forall|i: int| 0 <= i < before.len() implies keep((stream, #[trigger] before[i]))
            == kept by {
            assert(before[i] == lines[i]);
        }
        lemma_filter_lines(stream, before, keep, kept);
        assert(all.drop_last() =~= lines_on(stream, before));
        assert(all.last() == (stream, lines[lines.len() - 1]));
        assert(all =~= all.drop_last().push(all.last()));
    }
}

/// Output is shown from the first look on that finds the command running past
/// the threshold, and not before.
pub proof fn lemma_streams_past_threshold(polls: Seq<Poll>)
    ensures
        progress(polls).streaming <==> exists|i: int|
            0 <= i < polls.len() && (#[trigger] polls[i]).elapsed >= THRESHOLD_MILLIS,
    decreases polls.len(),
{
    if polls.len() > 0 {
        let before = polls.drop_last();
        lemma_streams_past_threshold(before);
        if progress(before).streaming {
            let i = choose|i: int|
                0 <= i < before.len() && (#[trigger] before[i]).elapsed >= THRESHOLD_MILLIS;
            assert(polls[i].elapsed >= THRESHOLD_MILLIS);
        }
        if exists|i: int| 0 <= i < polls.len() && (#[trigger] polls[i]).elapsed >= THRESHOLD_MILLIS {
            let i = choose|i: int|
                0 <= i < polls.len() && (#[trigger] polls[i]).elapsed >= THRESHOLD_MILLIS;
            if i < before.len() {
                assert(before[i].elapsed >= THRESHOLD_MILLIS);
            }
        }
    }
}

proof fn lemma_shown_so_far(polls: Seq<Poll>)
    ensures
        all_shown_stdout(polls) == (if progress(polls).streaming {
            progress(polls).stdout
        } else {
            seq![]
        }),
        all_shown_stderr(polls) == (if progress(polls).streaming {
            progress(polls).stderr
        } else {
            seq![]
        }),
    decreases polls.len(),
{
    if polls.len() > 0 {
        lemma_shown_so_far(polls.drop_last());
        assert(all_shown_stdout(polls) =~= if progress(polls).streaming {
            progress(polls).stdout
        } else {
            seq![]
        });
        assert(all_shown_stderr(polls) =~= if progress(polls).streaming {
            progress(polls).stderr
        } else {
            seq![]
        });
    }
}

/// Of a command that was never found running past the threshold nothing is
/// shown. Of one that was, every line is shown, once and in order.
pub proof fn lemma_shows_all_or_nothing(
    polls: Seq<Poll>,
    last_stdout: Seq<Seq<char>>,
    last_stderr: Seq<Seq<char>>,
)
    ensures
        all_shown_stdout(polls) + progress(polls).shown_at_end(last_stdout) == (if progress(
            polls,
        ).streaming {
            progress(polls).stdout + last_stdout
        } else {
            seq![]
        }),
        all_shown_stderr(polls) + progress(polls).shown_at_end(last_stderr) == (if progress(
            polls,
        ).streaming {
            progress(polls).stderr + last_stderr
        } else {
            seq![]
        }),
{
    lemma_shown_so_far(polls);
    if !progress(polls).streaming {
        assert(all_shown_stdout(polls) + progress(polls).shown_at_end(last_stdout) =~= seq![]);
        assert(all_shown_stderr(polls) + progress(polls).shown_at_end(last_stderr) =~= seq![]);
    }
}

/// A running command whose output is held back until it takes longer than
/// expected.
#[derive(Debug)]
pub struct StreamedRun {
    streaming: bool,
    stdout: Vec<String>,
    stderr: Vec<String>,
}

/// What a look at a running command asks for, in this order.
#[derive(Debug)]
pub struct PollActions {
    /// Say that the command takes longer than expected.
    pub announce: bool,
    /// Show the lines of the standard output from `stdout_from` up to
    /// `stdout_new`.
    pub stdout_from: usize,
    /// Then show the lines of the standard error from `stderr_from` up to
    /// `stderr_new`.
    pub stderr_from: usize,
    /// Then show the lines of the standard output from this one on.
    pub stdout_new: usize,
    /// Then show the lines of the standard error from this one on.
    pub stderr_new: usize,
    /// Show how long the command has been running.
    pub show_elapsed: bool,
    /// Wait a little before the next look.
    pub pause: bool,
}

/// What the end of a command asks for, in this order.
#[derive(Debug)]
pub struct FinishActions {
    /// Show these lines of the standard output.
    pub stdout_lines: Vec<String>,
    /// Show these lines of the standard error.
    pub stderr_lines: Vec<String>,
    /// End the display with an empty line.
    pub empty_line: bool,
    /// All that the command wrote to its standard output.
    pub stdout: Vec<u8>,
    /// All that the command wrote to its standard error.
    pub stderr: Vec<u8>,
}

impl PollActions {
    /// The lines that are asked to be shown, in their order, where these are
    /// all lines of the two streams.
    pub open spec fn shown(self, stdout: Seq<Seq<char>>, stderr: Seq<Seq<char>>) -> Seq<
        (Stream, Seq<char>),
    > {
        lines_on(
            Stream::Stdout,
            stdout.subrange(self.stdout_from as int, self.stdout_new as int),
        ) + lines_on(
            Stream::Stderr,
            stderr.subrange(self.stderr_from as int, self.stderr_new as int),
        ) + lines_on(Stream::Stdout, stdout.skip(self.stdout_new as int)) + lines_on(
            Stream::Stderr,
            stderr.skip(self.stderr_new as int),
        )
    }
}

impl View for StreamedRun {
    type V = Progress;

    closed spec fn view(&self) -> Progress {
        Progress {
            streaming: self.streaming,
            stdout: views(self.stdout@),
            stderr: views(self.stderr@),
        }
    }
}

/// The bytes of lines with a line feed between each two.
pub open spec fn joined_bytes(lines: Seq<Seq<char>>) -> Seq<u8> {
    encode_utf8(crate::text::joined(lines, "\n"@))
}

impl StreamedRun {
    /// A command that has just been started.
    pub fn new() -> (res: Self)
        ensures
            res@ == Progress::start(),
    {
        let res = StreamedRun { streaming: false, stdout: Vec::new(), stderr: Vec::new() };
        assert(res@ =~= Progress::start());
        res
    }

    /// The lines of the standard output so far.
    pub fn stdout_lines(&self) -> (res: &Vec<String>)
        ensures
            views(res@) == self@.stdout,
    {
        &self.stdout
    }

    /// The lines of the standard error so far.
    pub fn stderr_lines(&self) -> (res: &Vec<String>)
        ensures
            views(res@) == self@.stderr,
    {
        &self.stderr
    }

    /// Takes note of what a look at the running command found: how long it has
    /// been running, how long the display of that time is old, both in
    /// milliseconds, and the lines that are new.
    pub fn poll(
        &mut self,
        elapsed: u64,
        since_display: u64,
        stdout: Vec<String>,
        stderr: Vec<String>,
    ) -> (res: PollActions)
        ensures
            ({
                let poll = Poll {
                    elapsed: elapsed as nat,
                    stdout: views(stdout@),
                    stderr: views(stderr@),
                };
                &&& final(self)@ == old(self)@.after(poll)
                &&& res.announce == old(self)@.announces(poll)
                &&& res.stdout_from <= res.stdout_new <= final(self)@.stdout.len()
                &&& res.stderr_from <= res.stderr_new <= final(self)@.stderr.len()
                &&& res.shown(final(self)@.stdout, final(self)@.stderr) == old(self)@.shown(poll)
            }),
            res.show_elapsed == (final(self)@.streaming && since_display >= REFRESH_MILLIS),
            res.show_elapsed == (final(self)@.streaming && since_display >= 1000),
            res.announce == (!old(self)@.streaming && elapsed >= 5000),
            final(self)@.streaming == (old(self)@.streaming || elapsed >= 5000),
            res.pause == (stdout@.len() == 0 && stderr@.len() == 0),
    {
        let ghost poll = Poll {
            elapsed: elapsed as nat,
            stdout: views(stdout@),
            stderr: views(stderr@),
        };
        let ghost before = self@;
        let announce = !self.streaming && elapsed >= THRESHOLD_MILLIS;
        let pause = stdout.len() == 0 && stderr.len() == 0;
        let known_stdout = self.stdout.len();
        let known_stderr = self.stderr.len();
        if announce {
            self.streaming = true;
        }
        let mut more_stdout = stdout;
        let mut more_stderr = stderr;
        self.stdout.append(&mut more_stdout);
        self.stderr.append(&mut more_stderr);
        assert(views(self.stdout@) =~= before.stdout + poll.stdout);
        assert(views(self.stderr@) =~= before.stderr + poll.stderr);
        assert(self@ =~= before.after(poll));
        let stdout_new = if self.streaming {
            known_stdout
        } else {
            self.stdout.len()
        };
        let stderr_new = if self.streaming {
            known_stderr
        } else {
            self.stderr.len()
        };
        let res = PollActions {
            announce,
            stdout_from: if announce {
                0
            } else {
                stdout_new
            },
            stderr_from: if announce {
                0
            } else {
                stderr_new
            },
            stdout_new,
            stderr_new,
            show_elapsed: self.streaming && since_display >= REFRESH_MILLIS,
            pause,
        };
        proof {
            let out = self@.stdout;
            let err = self@.stderr;
            assert(out.subrange(res.stdout_from as int, stdout_new as int) =~= before.released(
                poll,
                before.stdout,
            ));
            assert(err.subrange(res.stderr_from as int, stderr_new as int) =~= before.released(
                poll,
                before.stderr,
            ));
            assert(out.skip(stdout_new as int) =~= before.passed_on(poll, poll.stdout));
            assert(err.skip(stderr_new as int) =~= before.passed_on(poll, poll.stderr));
        }
        res
    }

    /// Takes note of the end of the command and of the lines that came last.
    pub fn finish(self, stdout: Vec<String>, stderr: Vec<String>) -> (res: FinishActions)
        ensures
            views(res.stdout_lines@) == self@.shown_at_end(views(stdout@)),
            views(res.stderr_lines@) == self@.shown_at_end(views(stderr@)),
            res.empty_line == self@.streaming,
            res.stdout@ == joined_bytes(self@.stdout + views(stdout@)),
            res.stderr@ == joined_bytes(self@.stderr + views(stderr@)),
    {
        let streaming = self.streaming;
        let mut all_stdout = self.stdout;
        let mut all_stderr = self.stderr;
        let mut stdout_lines: Vec<String> = Vec::new();
        let mut stderr_lines: Vec<String> = Vec::new();
        for i in 0..stdout.len()
            invariant
                all_stdout@ == self.stdout@ + stdout@.take(i as int),
                stdout_lines@ == stdout@.take(i as int),
        {
            all_stdout.push(stdout[i].clone());
            stdout_lines.push(stdout[i].clone());
            assert(stdout@.take(i + 1) =~= stdout@.take(i as int).push(stdout@[i as int]));
        }
        for i in 0..stderr.len()
            invariant
                all_stderr@ == self.stderr@ + stderr@.take(i as int),
                stderr_lines@ == stderr@.take(i as int),
        {
            all_stderr.push(stderr[i].clone());
            stderr_lines.push(stderr[i].clone());
            assert(stderr@.take(i + 1) =~= stderr@.take(i as int).push(stderr@[i as int]));
        }
        assert(stdout@.take(stdout@.len() as int) =~= stdout@);
        assert(stderr@.take(stderr@.len() as int) =~= stderr@);
        assert(views(all_stdout@) =~= self@.stdout + views(stdout@));
        assert(views(all_stderr@) =~= self@.stderr + views(stderr@));
        if !streaming {
            stdout_lines.clear();
            stderr_lines.clear();
            assert(views(stdout_lines@) =~= seq![]);
            assert(views(stderr_lines@) =~= seq![]);
        }
        FinishActions {
            stdout_lines,
            stderr_lines,
            empty_line: streaming,
            stdout: join(&all_stdout, "\n").as_str().as_bytes_vec(),
            stderr: join(&all_stderr, "\n").as_str().as_bytes_vec(),
        }
    }
}

/// At the start nothing is shown and nothing is known. A look adds the lines
/// that it finds to those that are known, and starts the showing if and only if
/// the command has been running for five seconds; once started it goes on.
pub proof fn lemma_look(before: Progress, poll: Poll)
    ensures
        !Progress::start().streaming,
        Progress::start().stdout.len() == 0,
        Progress::start().stderr.len() == 0,
        before.after(poll).stdout == before.stdout + poll.stdout,
        before.after(poll).stderr == before.stderr + poll.stderr,
        before.after(poll).streaming <==> before.streaming || poll.elapsed >= 5000,
        before.announces(poll) <==> !before.streaming && poll.elapsed >= 5000,
{
}

/// What a look makes visible: while output is shown, what it finds; when it
/// starts the showing, all that was known and what it finds; otherwise nothing.
/// On each occasion the standard output comes before the standard error.
pub proof fn lemma_look_shows(before: Progress, poll: Poll)
    ensures
        !before.streaming && poll.elapsed < 5000 ==> before.shown(poll).len() == 0,
        before.streaming ==> before.shown(poll) == poll.stdout.map_values(
            |line: Seq<char>| (Stream::Stdout, line),
        ) + poll.stderr.map_values(|line: Seq<char>| (Stream::Stderr, line)),
        !before.streaming && poll.elapsed >= 5000 ==> before.shown(poll)
            == before.stdout.map_values(|line: Seq<char>| (Stream::Stdout, line))
            + before.stderr.map_values(|line: Seq<char>| (Stream::Stderr, line))
            + poll.stdout.map_values(|line: Seq<char>| (Stream::Stdout, line))
            + poll.stderr.map_values(|line: Seq<char>| (Stream::Stderr, line)),
{
    let out = |line: Seq<char>| (Stream::Stdout, line);
    let err = |line: Seq<char>| (Stream::Stderr, line);
    assert(lines_on(Stream::Stdout, seq![]) =~= seq![]);
    assert(lines_on(Stream::Stderr, seq![]) =~= seq![]);
    assert(lines_on(Stream::Stdout, poll.stdout) =~= poll.stdout.map_values(out));
    assert(lines_on(Stream::Stderr, poll.stderr) =~= poll.stderr.map_values(err));
    assert(lines_on(Stream::Stdout, before.stdout) =~= before.stdout.map_values(out));
    assert(lines_on(Stream::Stderr, before.stderr) =~= before.stderr.map_values(err));
    if before.streaming {
        assert(before.shown(poll) =~= poll.stdout.map_values(out) + poll.stderr.map_values(err));
    } else if poll.elapsed < 5000 {
        assert(before.shown(poll) =~= seq![]);
    }
}

/// At the end the last lines are shown if and only if output was being shown.
pub proof fn lemma_end_shows(before: Progress, last: Seq<Seq<char>>)
    ensures
        before.streaming ==> before.shown_at_end(last) == last,
        !before.streaming ==> before.shown_at_end(last).len() == 0,
{
}

/// What a command wrote is all its lines, in their order, with a line feed
/// between each two and none at the end.
pub proof fn lemma_joined_bytes(lines: Seq<Seq<char>>, line: Seq<char>)
    ensures
        joined_bytes(seq![]) == encode_utf8(seq![]),
        joined_bytes(seq![line]) == encode_utf8(line),
        lines.len() > 0 ==> joined_bytes(lines.push(line)) == encode_utf8(
            crate::text::joined(lines, "\n"@) + seq!['\n'] + line,
        ),
{
    reveal_strlit("\n");
    crate::text::lemma_joined(lines, line, "\n"@);
    assert("\n"@ =~= seq!['\n']);
}

/// What a look asks to be shown are four ranges of the known lines, one after
/// the other.
pub proof fn lemma_asked(
    asked: PollActions,
    stdout: Seq<Seq<char>>,
    stderr: Seq<Seq<char>>,
)
    ensures
        asked.shown(stdout, stderr) == stdout.subrange(
            asked.stdout_from as int,
            asked.stdout_new as int,
        ).map_values(|line: Seq<char>| (Stream::Stdout, line)) + stderr.subrange(
            asked.stderr_from as int,
            asked.stderr_new as int,
        ).map_values(|line: Seq<char>| (Stream::Stderr, line)) + stdout.skip(
            asked.stdout_new as int,
        ).map_values(|line: Seq<char>| (Stream::Stdout, line)) + stderr.skip(
            asked.stderr_new as int,
        ).map_values(|line: Seq<char>| (Stream::Stderr, line)),
{
    let out = |line: Seq<char>| (Stream::Stdout, line);
    let err = |line: Seq<char>| (Stream::Stderr, line);
    let a = stdout.subrange(asked.stdout_from as int, asked.stdout_new as int);
    let b = stderr.subrange(asked.stderr_from as int, asked.stderr_new as int);
    let c = stdout.skip(asked.stdout_new as int);
    let d = stderr.skip(asked.stderr_new as int);
    assert(lines_on(Stream::Stdout, a) =~= a.map_values(out));
    assert(lines_on(Stream::Stderr, b) =~= b.map_values(err));
    assert(lines_on(Stream::Stdout, c) =~= c.map_values(out));
    assert(lines_on(Stream::Stderr, d) =~= d.map_values(err));
}

} // verus!
