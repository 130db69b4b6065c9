use reviewr::browser::{openable_url, opener_argv, words_argv};
use reviewr::editor::split_command;
use reviewr::launch::{advance, begin, openers, Answer, OpenError, Platform, Step};
use reviewr::markdown::hostile_char;
use reviewr::text::{chars_of, contains, is_white_space, replace, to_ascii_lower, trim};

/// Whether `step` failed, and what is reported.
fn failure(step: Step) -> Option<String> {
    match step {
        Step::Failed(error) => Some(error.message()),
        _ => None,
    }
}

#[test]
fn a_configured_opener_that_cannot_start_is_reported_never_replaced() {
    let step = begin("https://x.dev", Some("reviewr-no-such-opener {url}"), Platform::Linux);
    assert!(matches!(&step, Step::Find { program, .. } if program == "reviewr-no-such-opener"));
    let error = failure(advance(step, Answer::Found(false))).unwrap();
    assert!(error.contains("reviewr-no-such-opener"), "{error}");
}

#[test]
fn the_opener_template_splits_like_editor_and_places_the_url() {
    let url = "https://example.com/pr?a=1&b=2";
    let argv = |t: &str| opener_argv(t, url).map(|(p, a)| (p, a.join("|")));
    assert_eq!(argv("remote-open"), Some(("remote-open".into(), url.into())), "appended");
    assert_eq!(
        argv("ssh laptop 'open -g' {url}"),
        Some(("ssh".into(), format!("laptop|open -g|{url}"))),
        "quoted words stay whole",
    );
    assert_eq!(
        argv("bridge --url={url} --new"),
        Some(("bridge".into(), format!("--url={url}|--new"))),
        "placed where named, never appended twice",
    );
    assert_eq!(argv("   "), None, "no program");
    // A URL is one word whatever it holds, and is substituted once.
    let odd = "https://x/a b'c{url}";
    assert_eq!(opener_argv("bridge {url}", odd).map(|(_, a)| a), Some(vec![odd.to_string()]));
}

#[test]
fn the_url_guard_admits_http_and_https_case_insensitively() {
    assert_eq!(openable_url("https://ci.example/1"), Ok("https://ci.example/1"));
    assert_eq!(openable_url("HTTP://ci.example"), Ok("HTTP://ci.example"));
    assert_eq!(openable_url("  https://x.dev  "), Ok("https://x.dev"), "trimmed");
}

#[test]
fn the_url_guard_rejects_other_schemes_and_hostile_bytes() {
    for bad in [
        "javascript:alert(1)",
        "file:///etc/passwd",
        "https:evil", // scheme without authority
        "https://",   // nothing after the scheme
        "ftp://host",
        "https://a\u{202e}b",   // bidi override
        "https://a\u{1b}[31mb", // control character
        "",
    ] {
        assert!(openable_url(bad).is_err(), "{bad:?} must not open");
    }
}

#[test]
fn a_refused_url_is_answered_with_the_scheme() {
    assert_eq!(openable_url("ftp://host"), Err("unsupported link scheme"));
    assert_eq!(openable_url("https://a\u{7f}"), Err("unsupported link scheme"));
}

#[test]
fn the_scheme_needs_something_behind_it() {
    assert_eq!(openable_url("http://"), Err("unsupported link scheme"));
    assert_eq!(openable_url("http://x"), Ok("http://x"));
    assert_eq!(openable_url("hTTpS://x"), Ok("hTTpS://x"));
    assert_eq!(openable_url("https:// "), Err("unsupported link scheme"), "trimmed first");
    assert_eq!(openable_url("http:///"), Ok("http:///"));
    assert_eq!(openable_url("http://é"), Ok("http://é"));
}

#[test]
fn hostile_characters_at_the_ends_are_not_trimmed_into_safety() {
    // A tab is white space at an end and a control character inside.
    assert_eq!(openable_url("\thttps://x.dev\n"), Ok("https://x.dev"));
    assert!(openable_url("https://x\t.dev").is_err());
    assert!(openable_url("\u{1}https://x.dev").is_err());
    assert!(openable_url("https://x.dev\u{2066}").is_err());
}

#[test]
fn guarding_twice_changes_nothing() {
    let once = openable_url(" \u{3000}HTTPS://x.dev/a b ").unwrap();
    assert_eq!(once, "HTTPS://x.dev/a b");
    assert_eq!(openable_url(once), Ok(once));
}

#[test]
fn the_case_of_letters_does_not_decide() {
    for (a, b) in [("https://x.dev/A", "HTTPS://X.DEV/a"), ("ftp://h", "FTP://H")] {
        assert_eq!(openable_url(a).is_ok(), openable_url(b).is_ok());
    }
}

#[test]
fn white_space_and_control_characters_are_those_of_unicode() {
    for c in '\0'..=char::MAX {
        assert_eq!(is_white_space(c), c.is_whitespace(), "{c:?}");
        let bidi = ('\u{202a}'..='\u{202e}').contains(&c) || ('\u{2066}'..='\u{2069}').contains(&c);
        assert_eq!(hostile_char(c), c.is_control() || bidi, "{c:?}");
        assert_eq!(to_ascii_lower(c), c.to_ascii_lowercase(), "{c:?}");
    }
}

#[test]
fn trimming_agrees_with_the_standard_library() {
    for s in ["", " ", " \u{a0}\u{2003} ", "a", " a", "a ", "\u{85} a b\u{1680}", "\u{200b}a"] {
        assert_eq!(trim(s), s.trim(), "{s:?}");
    }
}

#[test]
fn searching_and_replacing_agree_with_the_standard_library() {
    for s in ["", "{url}", "{{url}}", "a{url}b{url}", "{ur", "url}", "{url}{url", "ü{url}ß"] {
        assert_eq!(contains(s, "{url}"), s.contains("{url}"), "{s:?}");
        assert_eq!(replace(s, "{url}", "{url}x"), s.replace("{url}", "{url}x"), "{s:?}");
        assert_eq!(replace(s, "{url}", ""), s.replace("{url}", ""), "{s:?}");
    }
    assert!(contains("", ""));
    assert_eq!(replace("aaaa", "aa", "b"), "bb");
    assert_eq!(replace("aaa", "aa", "b"), "ba", "from the left, without overlap");
    assert_eq!(chars_of("aé"), vec!['a', 'é']);
}

#[test]
fn a_command_splits_at_white_space_outside_quotes() {
    let split = |s: &str| split_command(s).join("|");
    assert_eq!(split_command(""), Vec::<String>::new());
    assert_eq!(split(" vim \t -f  "), "vim|-f");
    assert_eq!(split("'a b' \"c  d\""), "a b|c  d");
    assert_eq!(split("a'b c'd"), "ab cd", "quotes join what they touch");
    assert_eq!(split("'a\"b' \"c'd\""), "a\"b|c'd", "the other mark is text");
    assert_eq!(split("a 'b c"), "a|b c", "an open quote runs to the end");
    assert_eq!(split_command("a '' b"), vec!["a", "", "b"], "an empty word");
}

#[test]
fn quoted_text_is_one_word() {
    assert_eq!(split_command("'open -g {url}'"), vec!["open -g {url}"]);
    assert_eq!(split_command("\" \""), vec![" "]);
}

#[test]
fn an_empty_program_is_no_program() {
    assert_eq!(opener_argv("''", "https://x.dev"), None);
    assert_eq!(opener_argv("'' {url}", "https://x.dev"), None);
    assert_eq!(opener_argv("{url}", ""), None, "nothing is left of the first word");
    assert_eq!(opener_argv("{url}", "x"), Some(("x".to_string(), vec![])));
}

#[test]
fn a_url_never_splits() {
    for url in ["", "x", "a b c", "'a b", "{url} {url}"] {
        let (program, args) = opener_argv("run --to {url} 'x {url}'", url).unwrap();
        assert_eq!(program, "run");
        assert_eq!(args, vec!["--to".to_string(), url.to_string(), format!("x {url}")]);
    }
}

#[test]
fn a_name_pieced_together_by_quotes_is_filled_and_the_url_is_appended() {
    // The template as written does not name the URL, the word that comes of it does.
    assert_eq!(opener_argv("run {u'rl'}", "x"), Some(("run".into(), vec!["x".into(), "x".into()])));
}

#[test]
fn words_decide_the_arguments() {
    let words = vec!["run".to_string(), "-u={url}".to_string()];
    assert_eq!(words_argv(&words, true, "x"), Some(("run".into(), vec!["-u=x".into()])));
    assert_eq!(
        words_argv(&words, false, "x"),
        Some(("run".into(), vec!["-u=x".into(), "x".into()]))
    );
    assert_eq!(words_argv(&vec![], false, "x"), None);
}

#[test]
fn a_configured_opener_is_found_and_started() {
    let step = begin("https://x.dev", Some("bridge --new"), Platform::MacOs);
    let step = advance(step, Answer::Found(true));
    match &step {
        Step::Start { tool, args, configured } => {
            assert_eq!(tool, "bridge");
            assert_eq!(args, &vec!["--new".to_string(), "https://x.dev".to_string()]);
            assert!(*configured);
        }
        _ => panic!("the opener is started"),
    }
    assert!(matches!(advance(step, Answer::Started), Step::Opened));
}

#[test]
fn the_first_platform_opener_on_the_path_is_started() {
    let step = begin("https://x.dev", None, Platform::Other);
    assert!(matches!(step, Step::Probe { next: 0, .. }));
    let step = advance(step, Answer::Found(false));
    assert!(matches!(step, Step::Probe { next: 1, .. }));
    let step = advance(step, Answer::Found(true));
    match &step {
        Step::Start { tool, args, configured } => {
            assert_eq!(tool, "xdg-open");
            assert_eq!(args, &vec!["https://x.dev".to_string()]);
            assert!(!*configured);
        }
        _ => panic!("the opener is started"),
    }
    assert_eq!(
        failure(advance(step, Answer::Refused("denied".into()))).unwrap(),
        "URL opener \"xdg-open\" could not start: denied"
    );
}

#[test]
fn each_platform_has_its_openers() {
    assert_eq!(openers(Platform::MacOs), vec!["open"]);
    assert_eq!(openers(Platform::Linux), vec!["xdg-open"]);
    assert_eq!(openers(Platform::Other), vec!["open", "xdg-open"]);
}

#[test]
fn each_failure_is_reported_in_its_own_words() {
    assert_eq!(
        failure(begin("x", Some(" "), Platform::Linux)).unwrap(),
        "the `url_opener` setting names no program"
    );
    assert_eq!(
        failure(advance(begin("x", None, Platform::Linux), Answer::Found(false))).unwrap(),
        "no URL opener found: install `open`/`xdg-open`, or set `url_opener`"
    );
    assert_eq!(
        failure(advance(begin("x", Some("'a\"b'"), Platform::Linux), Answer::Found(false))).unwrap(),
        "URL opener \"a\\\"b\" was not found"
    );
    let error = OpenError::NotFound { program: "p".into() };
    assert_eq!(error.report_with("<p>"), "URL opener <p> was not found");
    let error = OpenError::CouldNotStart { tool: "t".into(), error: "e".into() };
    assert_eq!(error.report_with("<t>"), "URL opener <t> could not start: e");
}

#[test]
fn an_outcome_is_final_and_a_stray_answer_changes_nothing() {
    assert!(matches!(advance(Step::Opened, Answer::Found(false)), Step::Opened));
    let failed = Step::Failed(OpenError::NoOpener);
    assert!(matches!(advance(failed, Answer::Started), Step::Failed(OpenError::NoOpener)));
    let step = begin("x", Some("run"), Platform::Linux);
    assert!(matches!(advance(step, Answer::Started), Step::Find { .. }));
}
