//! The command line and the log level.

use crate::encoding::to_lowercase;
use crate::text::same_text;
use vstd::prelude::*;

verus! {

/// What the program is to do.
#[derive(Debug)]
pub enum Action {
    /// Run the checks before a push.
    PrePush,
    /// Show the packages of the workspace.
    DebugPackages,
    /// Generate files, with templates from the given directory where there is
    /// one.
    Generate { template_dir: Option<String> },
}

/// What the program is to do with these arguments, of which the first is the
/// name of the program.
pub fn parse_arguments(args: &Vec<String>) -> (res: Action)
    ensures
        res is PrePush <==> args@.len() > 1 && args@[1]@ == "pre-push"@,
        res is DebugPackages <==> args@.len() > 1 && args@[1]@ == "debug-packages"@,
        res matches Action::Generate { template_dir } ==> {
            &&& template_dir is Some <==> args@.len() > 2 && args@[1]@ == "--template-dir"@
            &&& template_dir matches Some(dir) ==> dir == args@[2]
        },
{
    proof {
        reveal_strlit("pre-push");
        reveal_strlit("debug-packages");
        reveal_strlit("--template-dir");
        assert("pre-push"@.len() != "debug-packages"@.len());
        assert("pre-push"@[0] != "--template-dir"@[0]);
        assert("debug-packages"@[0] != "--template-dir"@[0]);
    }
    if args.len() > 1 {
        let first = args[1].as_str();
        if same_text(first, "pre-push") {
            return Action::PrePush;
        }
        if same_text(first, "debug-packages") {
            return Action::DebugPackages;
        }
        if args.len() > 2 && same_text(first, "--template-dir") {
            return Action::Generate { template_dir: Some(args[2].clone()) };
        }
    }
    Action::Generate { template_dir: None }
}

/// How much is logged.
#[derive(Clone, Copy, Debug, PartialEq, Eq, Structural)]
pub enum Level {
    Trace,
    Debug,
    Info,
    Warn,
    Error,
}

impl Level {
    /// The word for the level.
    pub open spec fn word(self) -> Seq<char> {
        match self {
            Level::Trace => "trace"@,
            Level::Debug => "debug"@,
            Level::Info => "info"@,
            Level::Warn => "warn"@,
            Level::Error => "error"@,
        }
    }
}

/// The level that a word in lowercase stands for, if any.
pub fn level_for_word(word: &str) -> (res: Option<Level>)
    ensures
        match res {
            Some(level) => word@ == level.word(),
            None => forall|level: Level| word@ != #[trigger] level.word(),
        },
{
    if same_text(word, "trace") {
        Some(Level::Trace)
    } else if same_text(word, "debug") {
        Some(Level::Debug)
    } else if same_text(word, "info") {
        Some(Level::Info)
    } else if same_text(word, "warn") {
        Some(Level::Warn)
    } else if same_text(word, "error") {
        Some(Level::Error)
    } else {
        None
    }
}

/// No two levels have the same word.
pub proof fn lemma_words_differ(a: Level, b: Level)
    requires
        a.word() == b.word(),
    ensures
        a == b,
{
    reveal_strlit("trace");
    reveal_strlit("debug");
    reveal_strlit("info");
    reveal_strlit("warn");
    reveal_strlit("error");
    assert("trace"@[0] == 't' && "debug"@[0] == 'd' && "info"@[0] == 'i' && "warn"@[0] == 'w'
        && "error"@[0] == 'e');
    assert(a.word()[0] == b.word()[0]);
}

/// The level that a text asks for, in whatever case it is written; information
/// and above where it asks for none.
pub fn log_level(text: Option<&str>) -> (res: Level)
    ensures
        match text {
            Some(text) => {
                let word = crate::encoding::lowercase_text(text@);
                word == res.word() || (res == Level::Info && forall|level: Level|
                    word != #[trigger] level.word())
            },
            None => res == Level::Info,
        },
{
    match text {
        Some(text) => match level_for_word(to_lowercase(text).as_str()) {
            Some(level) => level,
            None => Level::Info,
        },
        None => Level::Info,
    }
}

/// The five levels go by these words and no others.
pub proof fn lemma_words(level: Level)
    ensures
        level == Level::Trace <==> level.word() == "trace"@,
        level == Level::Debug <==> level.word() == "debug"@,
        level == Level::Info <==> level.word() == "info"@,
        level == Level::Warn <==> level.word() == "warn"@,
        level == Level::Error <==> level.word() == "error"@,
{
    if level.word() == "trace"@ {
        lemma_words_differ(level, Level::Trace);
    }
    if level.word() == "debug"@ {
        lemma_words_differ(level, Level::Debug);
    }
    if level.word() == "info"@ {
        lemma_words_differ(level, Level::Info);
    }
    if level.word() == "warn"@ {
        lemma_words_differ(level, Level::Warn);
    }
    if level.word() == "error"@ {
        lemma_words_differ(level, Level::Error);
    }
}

} // verus!
