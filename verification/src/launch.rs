//! The steps of opening a URL: which program is looked for, which is started, and what is
//! reported when that fails. The steps ask, the caller looks and answers.
use vstd::prelude::*;

use crate::browser;
use crate::text;

verus! {

/// The platforms with openers of their own.
pub enum Platform {
    MacOs,
    Linux,
    Other,
}

/// Why a URL was not opened.
pub enum OpenError {
    /// The configured template has no words, or an empty first one.
    NoProgram,
    /// The configured program was not found.
    NotFound { program: String },
    /// None of the platform's openers was found.
    NoOpener,
    /// The program was found and could not be started.
    CouldNotStart { tool: String, error: String },
}

/// Where opening a URL stands.
pub enum Step {
    /// To be answered: whether the configured `program` can be found.
    Find { program: String, args: Vec<String> },
    /// To be answered: whether the platform opener `candidates[next]` is on the `PATH`.
    Probe { url: String, candidates: Vec<String>, next: usize },
    /// To be done: start `tool`, detached, with `args`; `configured` says where it comes from.
    Start { tool: String, args: Vec<String>, configured: bool },
    /// The opener runs.
    Opened,
    /// The URL was not opened.
    Failed(OpenError),
}

/// What the caller found.
pub enum Answer {
    /// The program that was asked for is there, or not.
    Found(bool),
    /// The program was started.
    Started,
    /// The program could not be started, for this reason.
    Refused(String),
}

/// What an `OpenError` says.
pub enum Failure {
    NoProgram,
    NotFound { program: Seq<char> },
    NoOpener,
    CouldNotStart { tool: Seq<char>, error: Seq<char> },
}

/// What a `Step` says.
pub enum Stage {
    Find { program: Seq<char>, args: Seq<Seq<char>> },
    Probe { url: Seq<char>, candidates: Seq<Seq<char>>, next: int },
    Start { tool: Seq<char>, args: Seq<Seq<char>>, configured: bool },
    Opened,
    Failed(Failure),
}

/// What an `Answer` says.
pub enum Reply {
    Found(bool),
    Started,
    Refused(Seq<char>),
}

impl View for OpenError {
    type V = Failure;

    open spec fn view(&self) -> Failure {
        match self {
            OpenError::NoProgram => Failure::NoProgram,
            OpenError::NotFound { program } => Failure::NotFound { program: program@ },
            OpenError::NoOpener => Failure::NoOpener,
            OpenError::CouldNotStart { tool, error } => Failure::CouldNotStart {
                tool: tool@,
                error: error@,
            },
        }
    }
}

impl View for Step {
    type V = Stage;

    open spec fn view(&self) -> Stage {
        match self {
            Step::Find { program, args } => Stage::Find {
                program: program@,
                args: text::texts(args@),
            },
            Step::Probe { url, candidates, next } => Stage::Probe {
                url: url@,
                candidates: text::texts(candidates@),
                next: *next as int,
            },
            Step::Start { tool, args, configured } => Stage::Start {
                tool: tool@,
                args: text::texts(args@),
                configured: *configured,
            },
            Step::Opened => Stage::Opened,
            Step::Failed(error) => Stage::Failed(error@),
        }
    }
}

impl View for Answer {
    type V = Reply;

    open spec fn view(&self) -> Reply {
        match self {
            Answer::Found(found) => Reply::Found(*found),
            Answer::Started => Reply::Started,
            Answer::Refused(error) => Reply::Refused(error@),
        }
    }
}

/// The openers that `platform` is searched for, in this order.
pub open spec fn platform_openers(platform: Platform) -> Seq<Seq<char>> {
    match platform {
        Platform::MacOs => seq!["open"@],
        Platform::Linux => seq!["xdg-open"@],
        Platform::Other => seq!["open"@, "xdg-open"@],
    }
}

/// Where opening starts: with the configured template where there is one, with the first of the
/// platform's openers otherwise.
pub open spec fn first_stage(
    url: Seq<char>,
    configured: Option<Seq<char>>,
    platform: Platform,
) -> Stage {
    match configured {
        Some(template) => match browser::template_argv(template, url) {
            Some((program, args)) => Stage::Find { program, args },
            None => Stage::Failed(Failure::NoProgram),
        },
        None => Stage::Probe { url, candidates: platform_openers(platform), next: 0 },
    }
}

/// Where opening goes on after `reply`. A reply to another question changes nothing.
pub open spec fn next_stage(stage: Stage, reply: Reply) -> Stage {
    match (stage, reply) {
        (Stage::Find { program, args }, Reply::Found(found)) => if found {
            Stage::Start { tool: program, args, configured: true }
        } else {
            Stage::Failed(Failure::NotFound { program })
        },
        (Stage::Probe { url, candidates, next }, Reply::Found(found)) => if found && next
            < candidates.len() {
            Stage::Start { tool: candidates[next], args: seq![url], configured: false }
        } else if next + 1 < candidates.len() {
            Stage::Probe { url, candidates, next: next + 1 }
        } else {
            Stage::Failed(Failure::NoOpener)
        },
        (Stage::Start { .. }, Reply::Started) => Stage::Opened,
        (Stage::Start { tool, .. }, Reply::Refused(error)) => Stage::Failed(
            Failure::CouldNotStart { tool, error },
        ),
        _ => stage,
    }
}

/// Where opening stands after all of `replies`.
pub open spec fn after_replies(stage: Stage, replies: Seq<Reply>) -> Stage
    decreases replies.len(),
{
    if replies.len() == 0 {
        stage
    } else {
        next_stage(after_replies(stage, replies.drop_last()), replies.last())
    }
}

/// The names of the openers that `platform` is searched for.
pub fn openers(platform: Platform) -> (r: Vec<String>)
    ensures
        text::texts(r@) == platform_openers(platform),
{
    let mut r: Vec<String> = Vec::new();
    match platform {
        Platform::MacOs => {
            r.push("open".to_owned());
        },
        Platform::Linux => {
            r.push("xdg-open".to_owned());
        },
        Platform::Other => {
            r.push("open".to_owned());
            r.push("xdg-open".to_owned());
        },
    }
    assert(text::texts(r@) =~= platform_openers(platform));
    r
}

/// The first step of opening `url` through the `configured` opener, or else through one of the
/// platform's.
pub fn begin(url: &str, configured: Option<&str>, platform: Platform) -> (r: Step)
    ensures
        r@ == first_stage(
            url@,
            match configured {
                Some(template) => Some(template@),
                None => None,
            },
            platform,
        ),
{
    match configured {
        Some(template) => match browser::opener_argv(template, url) {
            Some((program, args)) => Step::Find { program, args },
            None => Step::Failed(OpenError::NoProgram),
        },
        None => Step::Probe { url: url.to_owned(), candidates: openers(platform), next: 0 },
    }
}

/// The step that comes after `step` was answered.
pub fn advance(step: Step, answer: Answer) -> (r: Step)
    ensures
        r@ == next_stage(step@, answer@),
{
    match (step, answer) {
        (Step::Find { program, args }, Answer::Found(found)) => {
            if found {
                Step::Start { tool: program, args, configured: true }
            } else {
                Step::Failed(OpenError::NotFound { program })
            }
        },
        (Step::Probe { url, candidates, next }, Answer::Found(found)) => {
            if found && next < candidates.len() {
                let tool = candidates[next].clone();
                let mut args: Vec<String> = Vec::new();
                args.push(url);
                assert(text::texts(args@) =~= seq![url@]);
                Step::Start { tool, args, configured: false }
            } else if next < candidates.len() && next + 1 < candidates.len() {
                Step::Probe { url, candidates, next: next + 1 }
            } else {
                Step::Failed(OpenError::NoOpener)
            }
        },
        (Step::Start { .. }, Answer::Started) => Step::Opened,
        (Step::Start { tool, .. }, Answer::Refused(error)) => Step::Failed(
            OpenError::CouldNotStart { tool, error },
        ),
        (step, _) => step,
    }
}

/// The string `s` as `Debug` shows it.
pub uninterp spec fn debug_quoted(s: Seq<char>) -> Seq<char>;

/// `format!` with `{:?}`, which calls the `Debug` of `str`: what it writes depends on `s` alone.
/// Which characters it escapes, and how, is left unsaid.
#[verifier::external_body]
fn quote(s: &str) -> (r: String)
    ensures
        r@ == debug_quoted(s@),
{
    format!("{:?}", s)
}

/// What is reported for `failure`, where `quoted` is how the program's name is shown.
pub open spec fn report(failure: Failure, quoted: Seq<char>) -> Seq<char> {
    match failure {
        Failure::NoProgram => "the `url_opener` setting names no program"@,
        Failure::NotFound { .. } => "URL opener "@ + quoted + " was not found"@,
        Failure::NoOpener => "no URL opener found: install `open`/`xdg-open`, or set `url_opener`"@,
        Failure::CouldNotStart { error, .. } => "URL opener "@ + quoted + " could not start: "@
            + error,
    }
}

/// The program that `failure` is about.
pub open spec fn blamed(failure: Failure) -> Seq<char> {
    match failure {
        Failure::NotFound { program } => program,
        Failure::CouldNotStart { tool, .. } => tool,
        _ => Seq::empty(),
    }
}

impl OpenError {
    /// What is reported, where the program's name is shown as `quoted`.
    pub fn report_with(&self, quoted: &str) -> (r: String)
        ensures
            r@ == report(self@, quoted@),
    {
        match self {
            OpenError::NoProgram => "the `url_opener` setting names no program".to_owned(),
            OpenError::NotFound { .. } => "URL opener ".to_owned().concat(quoted).concat(
                " was not found",
            ),
            OpenError::NoOpener => "no URL opener found: install `open`/`xdg-open`, or set `url_opener`".to_owned(),
            OpenError::CouldNotStart { error, .. } => "URL opener ".to_owned().concat(
                quoted,
            ).concat(" could not start: ").concat(error.as_str()),
        }
    }

    /// What is reported to the user.
    pub fn message(&self) -> (r: String)
        ensures
            r@ == report(self@, debug_quoted(blamed(self@))),
    {
        let quoted = match self {
            OpenError::NotFound { program } => quote(program.as_str()),
            OpenError::CouldNotStart { tool, .. } => quote(tool.as_str()),
            _ => quote(""),
        };
        proof {
            reveal_strlit("");
            assert(""@ =~= Seq::<char>::empty());
        }
        self.report_with(quoted.as_str())
    }
}

/// A configured opener is never replaced: whatever is answered, what is looked for, started and
/// blamed is the program that the template names, with the arguments that the template gives.
pub proof fn law_configured_opener_is_never_replaced(
    url: Seq<char>,
    template: Seq<char>,
    platform: Platform,
    replies: Seq<Reply>,
)
    ensures
        match browser::template_argv(template, url) {
            None => after_replies(first_stage(url, Some(template), platform), replies)
                == Stage::Failed(Failure::NoProgram),
            Some((program, args)) => match after_replies(
                first_stage(url, Some(template), platform),
                replies,
            ) {
                Stage::Find { program: p, args: a } => p == program && a == args,
                Stage::Probe { .. } => false,
                Stage::Start { tool, args: a, configured } => tool == program && a == args
                    && configured,
                Stage::Opened => true,
                Stage::Failed(Failure::NotFound { program: p }) => p == program,
                Stage::Failed(Failure::CouldNotStart { tool, .. }) => tool == program,
                Stage::Failed(_) => false,
            },
        },
    decreases replies.len(),
{
    if replies.len() > 0 {
        law_configured_opener_is_never_replaced(url, template, platform, replies.drop_last());
    }
}

/// `n` times the answer that a program is not there.
pub open spec fn misses(n: nat) -> Seq<Reply> {
    Seq::new(n, |i: int| Reply::Found(false))
}

proof fn lemma_misses_move_on(url: Seq<char>, platform: Platform, n: nat)
    requires
        n < platform_openers(platform).len(),
    ensures
        after_replies(first_stage(url, None, platform), misses(n)) == (Stage::Probe {
            url,
            candidates: platform_openers(platform),
            next: n as int,
        }),
    decreases n,
{
    if n > 0 {
        lemma_misses_move_on(url, platform, (n - 1) as nat);
        assert(misses(n).drop_last() =~= misses((n - 1) as nat));
    }
}

/// Without a configured opener the first of the platform's openers that is found is started, with
/// the URL as its one argument.
pub proof fn law_first_opener_found_is_started(url: Seq<char>, platform: Platform, n: nat)
    requires
        n < platform_openers(platform).len(),
    ensures
        after_replies(first_stage(url, None, platform), misses(n).push(Reply::Found(true))) == (
        Stage::Start {
            tool: platform_openers(platform)[n as int],
            args: seq![url],
            configured: false,
        }),
{
    lemma_misses_move_on(url, platform, n);
    assert(misses(n).push(Reply::Found(true)).drop_last() =~= misses(n));
}

/// Where none of the platform's openers is found, that is what is reported.
pub proof fn law_no_opener_found_is_reported(url: Seq<char>, platform: Platform)
    ensures
        after_replies(
            first_stage(url, None, platform),
            misses(platform_openers(platform).len()),
        ) == Stage::Failed(Failure::NoOpener),
{
    let n = platform_openers(platform).len();
    lemma_misses_move_on(url, platform, (n - 1) as nat);
    assert(misses(n).drop_last() =~= misses((n - 1) as nat));
}

/// Once the opener runs, or the failure is known, no answer changes that.
pub proof fn law_an_outcome_is_final(stage: Stage, replies: Seq<Reply>)
    requires
        stage is Opened || stage is Failed,
    ensures
        after_replies(stage, replies) == stage,
    decreases replies.len(),
{
    if replies.len() > 0 {
        law_an_outcome_is_final(stage, replies.drop_last());
    }
}

/// No URL counts as opened unless a program was started for it.
pub proof fn law_nothing_opens_unless_started(
    url: Seq<char>,
    configured: Option<Seq<char>>,
    platform: Platform,
    replies: Seq<Reply>,
)
    requires
        after_replies(first_stage(url, configured, platform), replies) is Opened,
    ensures
        replies.contains(Reply::Started),
    decreases replies.len(),
{
    if replies.len() > 0 {
        let earlier = replies.drop_last();
        if after_replies(first_stage(url, configured, platform), earlier) is Opened {
            law_nothing_opens_unless_started(url, configured, platform, earlier);
            let i = choose|i: int| 0 <= i < earlier.len() && earlier[i] == Reply::Started;
            assert(replies[i] == Reply::Started);
        } else {
            assert(replies[replies.len() - 1] == Reply::Started);
        }
    }
}

} // verus!
