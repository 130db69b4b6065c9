//! What holds of every opening of a URL, stated on the steps themselves and on what they were
//! answered: one step at a time, and from the first step to the outcome.
use vstd::prelude::*;

use crate::browser;
use crate::launch;
use crate::launch::{Answer, OpenError, Platform, Step};
use crate::text;

verus! {

/// `steps` are what opening `url` goes through where it is answered with `answers`.
pub open spec fn opening(
    url: &str,
    configured: Option<&str>,
    platform: Platform,
    answers: Seq<Answer>,
    steps: Seq<Step>,
) -> bool {
    &&& steps.len() == answers.len() + 1
    &&& call_ensures(launch::begin, (url, configured, platform), steps[0])
    &&& forall|i: int|
        0 <= i < answers.len() ==> call_ensures(
            launch::advance,
            (steps[i], #[trigger] answers[i]),
            steps[i + 1],
        )
}

/// `a` and `b` say the same, string by string.
pub open spec fn same_strings(a: Seq<String>, b: Seq<String>) -> bool {
    a.len() == b.len() && forall|i: int| 0 <= i < a.len() ==> (#[trigger] a[i])@ == b[i]@
}

proof fn lemma_same_texts(a: Seq<String>, b: Seq<String>)
    requires
        text::texts(a) == text::texts(b),
    ensures
        same_strings(a, b),
{
    assert(text::texts(a).len() == a.len());
    assert(text::texts(b).len() == b.len());
    assert forall|i: int| 0 <= i < a.len() implies (#[trigger] a[i])@ == b[i]@ by {
        assert(text::texts(a)[i] == a[i]@);
        assert(text::texts(b)[i] == b[i]@);
    }
}

/// The openers of each platform, in the order in which they are looked for.
pub proof fn law_each_platform_has_its_openers(platform: Platform, r: Vec<String>)
    requires
        call_ensures(launch::openers, (platform,), r),
    ensures
        match platform {
            Platform::MacOs => r@.len() == 1 && r@[0]@ == "open"@,
            Platform::Linux => r@.len() == 1 && r@[0]@ == "xdg-open"@,
            Platform::Other => r@.len() == 2 && r@[0]@ == "open"@ && r@[1]@ == "xdg-open"@,
        },
{
    let all = text::texts(r@);
    assert(all.len() == r@.len());
    assert(r@.len() > 0 ==> all[0] == r@[0]@);
    assert(r@.len() > 1 ==> all[1] == r@[1]@);
}

/// A program that was started has opened the URL, wherever the program comes from.
pub proof fn law_what_was_started_has_opened(step: Step, answer: Answer, next: Step)
    requires
        call_ensures(launch::advance, (step, answer), next),
        step is Start,
        answer is Started,
    ensures
        next is Opened,
{
}

/// A program that could not be started is a failure that names it and tells the reason.
pub proof fn law_what_could_not_start_is_blamed(
    tool: String,
    args: Vec<String>,
    configured: bool,
    reason: String,
    next: Step,
)
    requires
        call_ensures(
            launch::advance,
            (Step::Start { tool, args, configured }, Answer::Refused(reason)),
            next,
        ),
    ensures
        next matches Step::Failed(OpenError::CouldNotStart { tool: blamed, error }) && blamed@
            == tool@ && error@ == reason@,
{
}

/// A configured program that is found is started with its arguments, and one that is not found is
/// a failure that names it.
pub proof fn law_a_configured_program_is_started_or_missed(
    program: String,
    args: Vec<String>,
    found: bool,
    next: Step,
)
    requires
        call_ensures(launch::advance, (Step::Find { program, args }, Answer::Found(found)), next),
    ensures
        found ==> (next matches Step::Start { tool, args: given, configured } && tool@ == program@
            && same_strings(given@, args@) && configured),
        !found ==> (next matches Step::Failed(OpenError::NotFound { program: missed }) && missed@
            == program@),
{
    if let Step::Start { args: given, .. } = next {
        lemma_same_texts(given@, args@);
    }
}

/// A platform opener that is found is started with the URL as its one argument. Where one is not
/// found the next is looked for, and behind the last there is no opener, whatever is answered.
pub proof fn law_a_platform_opener_is_started_or_passed_over(
    url: String,
    candidates: Vec<String>,
    at: usize,
    found: bool,
    next: Step,
)
    requires
        call_ensures(
            launch::advance,
            (Step::Probe { url, candidates, next: at }, Answer::Found(found)),
            next,
        ),
    ensures
        found && at < candidates@.len() ==> (next matches Step::Start { tool, args, configured }
            && tool@ == candidates@[at as int]@ && args@.len() == 1 && args@[0]@ == url@
            && !configured),
        !found && at + 1 < candidates@.len() ==> (next matches Step::Probe {
            url: same,
            candidates: others,
            next: later,
        } && same@ == url@ && same_strings(others@, candidates@) && later == at + 1),
        !found && at + 1 == candidates@.len() ==> next == Step::Failed(OpenError::NoOpener),
        at >= candidates@.len() ==> next == Step::Failed(OpenError::NoOpener),
{
    assert(text::texts(candidates@).len() == candidates@.len());
    if at < candidates@.len() {
        assert(text::texts(candidates@)[at as int] == candidates@[at as int]@);
    }
    if let Step::Start { args, .. } = next {
        assert(text::texts(args@).len() == args@.len());
        assert(text::texts(args@)[0] == args@[0]@);
    }
    if let Step::Probe { candidates: others, .. } = next {
        lemma_same_texts(others@, candidates@);
    }
}

/// An outcome is final, whatever is answered.
pub proof fn law_an_outcome_stays(step: Step, answer: Answer, next: Step)
    requires
        call_ensures(launch::advance, (step, answer), next),
    ensures
        step is Opened ==> next is Opened,
        step matches Step::Failed(error) ==> (next matches Step::Failed(kept) && match error {
            OpenError::NoProgram => kept is NoProgram,
            OpenError::NoOpener => kept is NoOpener,
            OpenError::NotFound { program } => kept matches OpenError::NotFound { program: p } && p@
                == program@,
            OpenError::CouldNotStart { tool, error } => kept matches OpenError::CouldNotStart {
                tool: t,
                error: e,
            } && t@ == tool@ && e@ == error@,
        }),
{
}

/// An answer to another question than the one that was asked changes nothing.
pub proof fn law_a_stray_answer_changes_nothing(step: Step, answer: Answer, next: Step)
    requires
        call_ensures(launch::advance, (step, answer), next),
    ensures
        !(answer is Found) ==> (step matches Step::Find { program, args } ==> (
        next matches Step::Find { program: p, args: a } && p@ == program@ && same_strings(
            a@,
            args@,
        ))),
        !(answer is Found) ==> (step matches Step::Probe { url, candidates, next: at } ==> (
        next matches Step::Probe { url: u, candidates: c, next: n } && u@ == url@ && same_strings(
            c@,
            candidates@,
        ) && n == at)),
        answer is Found ==> (step matches Step::Start { tool, args, configured } ==> (
        next matches Step::Start { tool: t, args: a, configured: c } && t@ == tool@ && same_strings(
            a@,
            args@,
        ) && c == configured)),
{
    match (step, next) {
        (Step::Find { args, .. }, Step::Find { args: a, .. }) => {
            lemma_same_texts(a@, args@);
        },
        (Step::Probe { candidates, .. }, Step::Probe { candidates: c, .. }) => {
            if !(answer is Found) {
                lemma_same_texts(c@, candidates@);
            }
        },
        (Step::Start { args, .. }, Step::Start { args: a, .. }) => {
            lemma_same_texts(a@, args@);
        },
        _ => {},
    }
}

/// Opening starts with the program and the arguments of the configured template, whatever the
/// platform has, and fails at once where the template names no program.
pub proof fn law_a_configured_template_is_what_is_looked_for(
    url: &str,
    template: &str,
    platform: Platform,
    argv: Option<(String, Vec<String>)>,
    step: Step,
)
    requires
        call_ensures(launch::begin, (url, Some(template), platform), step),
        call_ensures(browser::opener_argv, (template, url), argv),
    ensures
        match argv {
            None => step == Step::Failed(OpenError::NoProgram),
            Some((program, args)) => step matches Step::Find { program: p, args: a } && p@
                == program@ && same_strings(a@, args@),
        },
{
    if let Some((program, args)) = argv {
        if let Step::Find { args: a, .. } = step {
            lemma_same_texts(a@, args@);
        }
    }
}

/// Without a configured template, opening starts with the first of the platform's openers.
pub proof fn law_the_platform_is_asked_where_nothing_is_configured(
    url: &str,
    platform: Platform,
    names: Vec<String>,
    step: Step,
)
    requires
        call_ensures(launch::begin, (url, None, platform), step),
        call_ensures(launch::openers, (platform,), names),
    ensures
        step matches Step::Probe { url: u, candidates, next } && u@ == url@ && same_strings(
            candidates@,
            names@,
        ) && next == 0,
{
    if let Step::Probe { candidates, .. } = step {
        lemma_same_texts(candidates@, names@);
    }
}

/// Once a program was started the URL is open, and stays so: no answer turns that into a failure.
pub proof fn law_once_started_always_opened(
    url: &str,
    configured: Option<&str>,
    platform: Platform,
    answers: Seq<Answer>,
    steps: Seq<Step>,
    i: int,
    later: int,
)
    requires
        opening(url, configured, platform, answers, steps),
        0 <= i < answers.len(),
        steps[i] is Start,
        answers[i] is Started,
        i < later < steps.len(),
    ensures
        steps[later] is Opened,
    decreases later,
{
    if later == i + 1 {
        law_what_was_started_has_opened(steps[i], answers[i], steps[i + 1]);
    } else {
        law_once_started_always_opened(
            url,
            configured,
            platform,
            answers,
            steps,
            i,
            later - 1,
        );
        law_an_outcome_stays(steps[later - 1], answers[later - 1], steps[later]);
    }
}

/// A URL is open only where a program was to be started and was.
pub proof fn law_opened_only_when_started(
    url: &str,
    configured: Option<&str>,
    platform: Platform,
    answers: Seq<Answer>,
    steps: Seq<Step>,
    k: int,
)
    requires
        opening(url, configured, platform, answers, steps),
        0 <= k < steps.len(),
        steps[k] is Opened,
    ensures
        exists|i: int| 0 <= i < k && steps[i] is Start && (#[trigger] answers[i]) is Started,
    decreases k,
{
    if k > 0 {
        let answer = answers[k - 1];
        assert(call_ensures(launch::advance, (steps[k - 1], answer), steps[k]));
        if steps[k - 1] is Opened {
            law_opened_only_when_started(url, configured, platform, answers, steps, k - 1);
        } else {
            assert(steps[k - 1] is Start && answers[k - 1] is Started);
        }
    }
}

/// What comes of opening a URL through a configured template. A template without a program is the
/// failure; a program that is not found is one too, and names it; one that is found is started with
/// the template's arguments, and its start decides.
pub proof fn law_what_comes_of_a_configured_opener(
    url: &str,
    template: &str,
    platform: Platform,
    answers: Seq<Answer>,
    steps: Seq<Step>,
    argv: Option<(String, Vec<String>)>,
)
    requires
        opening(url, Some(template), platform, answers, steps),
        call_ensures(browser::opener_argv, (template, url), argv),
    ensures
        argv is None ==> steps[0] == Step::Failed(OpenError::NoProgram),
        argv matches Some((program, args)) ==> {
            &&& answers.len() > 0 && answers[0] == Answer::Found(false) ==> (
            steps[1] matches Step::Failed(OpenError::NotFound { program: p }) && p@ == program@)
            &&& answers.len() > 0 && answers[0] == Answer::Found(true) ==> (
            steps[1] matches Step::Start { tool, args: a, configured } && tool@ == program@
                && same_strings(a@, args@) && configured)
            &&& answers.len() > 1 && answers[0] == Answer::Found(true) && answers[1] is Started
                ==> steps[2] is Opened
            &&& answers.len() > 1 && answers[0] == Answer::Found(true) ==> (
            answers[1] matches Answer::Refused(reason) ==> (steps[2] matches Step::Failed(
                OpenError::CouldNotStart { tool, error },
            ) && tool@ == program@ && error@ == reason@))
        },
{
    law_a_configured_template_is_what_is_looked_for(url, template, platform, argv, steps[0]);
    if let Some((program, args)) = argv {
        if let Step::Find { program: p, args: a } = steps[0] {
            if answers.len() > 0 {
                if let Answer::Found(found) = answers[0] {
                    law_a_configured_program_is_started_or_missed(p, a, found, steps[1]);
                    if answers.len() > 1 {
                        assert(call_ensures(launch::advance, (steps[1], answers[1]), steps[2]));
                    }
                }
            }
        }
    }
}

/// Where the search for a platform opener stands once `n` of them were not found.
proof fn lemma_search_goes_on(
    url: &str,
    platform: Platform,
    answers: Seq<Answer>,
    steps: Seq<Step>,
    names: Vec<String>,
    n: int,
)
    requires
        opening(url, None, platform, answers, steps),
        call_ensures(launch::openers, (platform,), names),
        0 <= n < names@.len(),
        n <= answers.len(),
        forall|k: int| 0 <= k < n ==> #[trigger] answers[k] == Answer::Found(false),
    ensures
        steps[n] matches Step::Probe { url: u, candidates, next } && u@ == url@ && same_strings(
            candidates@,
            names@,
        ) && next == n,
    decreases n,
{
    law_the_platform_is_asked_where_nothing_is_configured(url, platform, names, steps[0]);
    if n > 0 {
        lemma_search_goes_on(url, platform, answers, steps, names, n - 1);
        assert(answers[n - 1] == Answer::Found(false));
        if let Step::Probe { url: u, candidates, next } = steps[n - 1] {
            law_a_platform_opener_is_started_or_passed_over(u, candidates, next, false, steps[n]);
            if let Step::Probe { candidates: others, .. } = steps[n] {
                assert forall|i: int| 0 <= i < others@.len() implies (#[trigger] others@[i])@
                    == names@[i]@ by {
                    assert(others@[i]@ == candidates@[i]@);
                }
            }
        }
    }
}

/// What comes of opening a URL without a configured opener, where the first `n` of the platform's
/// openers are not found: the next one, if it is found, is started with the URL, and its start
/// decides. Where all were missed, that there is no opener is the failure.
pub proof fn law_what_comes_of_the_platform_openers(
    url: &str,
    platform: Platform,
    answers: Seq<Answer>,
    steps: Seq<Step>,
    names: Vec<String>,
    n: int,
)
    requires
        opening(url, None, platform, answers, steps),
        call_ensures(launch::openers, (platform,), names),
        0 <= n <= names@.len(),
        n <= answers.len(),
        forall|k: int| 0 <= k < n ==> #[trigger] answers[k] == Answer::Found(false),
    ensures
        n == names@.len() ==> steps[n] == Step::Failed(OpenError::NoOpener),
        n < names@.len() && n < answers.len() && answers[n] == Answer::Found(true) ==> {
            &&& steps[n + 1] matches Step::Start { tool, args, configured } && tool@ == names@[n]@
                && args@.len() == 1 && args@[0]@ == url@ && !configured
            &&& n + 1 < answers.len() && answers[n + 1] is Started ==> steps[n + 2] is Opened
            &&& n + 1 < answers.len() ==> (answers[n + 1] matches Answer::Refused(reason) ==> (
            steps[n + 2] matches Step::Failed(OpenError::CouldNotStart { tool, error }) && tool@
                == names@[n]@ && error@ == reason@))
        },
{
    law_each_platform_has_its_openers(platform, names);
    if n == names@.len() {
        lemma_search_goes_on(url, platform, answers, steps, names, n - 1);
        assert(answers[n - 1] == Answer::Found(false));
        if let Step::Probe { url: u, candidates, next } = steps[n - 1] {
            law_a_platform_opener_is_started_or_passed_over(u, candidates, next, false, steps[n]);
        }
    } else {
        lemma_search_goes_on(url, platform, answers, steps, names, n);
        if n < answers.len() && answers[n] == Answer::Found(true) {
            if let Step::Probe { url: u, candidates, next } = steps[n] {
                law_a_platform_opener_is_started_or_passed_over(
                    u,
                    candidates,
                    next,
                    true,
                    steps[n + 1],
                );
                assert(candidates@[n]@ == names@[n]@);
                if n + 1 < answers.len() {
                    assert(call_ensures(
                        launch::advance,
                        (steps[n + 1], answers[n + 1]),
                        steps[n + 2],
                    ));
                }
            }
        }
    }
}

/// What is reported for each failure, where the program's name is shown as `quoted`.
pub proof fn law_each_failure_is_reported_in_its_words(error: OpenError, quoted: &str, r: String)
    requires
        call_ensures(OpenError::report_with, (&error, quoted), r),
    ensures
        match error {
            OpenError::NoProgram => r@ == "the `url_opener` setting names no program"@,
            OpenError::NotFound { .. } => r@ == "URL opener "@ + quoted@ + " was not found"@,
            OpenError::NoOpener => r@
                == "no URL opener found: install `open`/`xdg-open`, or set `url_opener`"@,
            OpenError::CouldNotStart { error: reason, .. } => r@ == "URL opener "@ + quoted@
                + " could not start: "@ + reason@,
        },
{
}

/// What is reported to the user shows the name of the program that was not found or did not start.
pub proof fn law_a_report_shows_the_program(error: OpenError, r: String)
    requires
        call_ensures(OpenError::message, (&error,), r),
    ensures
        match error {
            OpenError::NoProgram => r@ == "the `url_opener` setting names no program"@,
            OpenError::NotFound { program } => r@ == "URL opener "@ + launch::debug_quoted(program@)
                + " was not found"@,
            OpenError::NoOpener => r@
                == "no URL opener found: install `open`/`xdg-open`, or set `url_opener`"@,
            OpenError::CouldNotStart { tool, error: reason } => r@ == "URL opener "@
                + launch::debug_quoted(tool@) + " could not start: "@ + reason@,
        },
{
}

} // verus!
