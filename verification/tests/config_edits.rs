use webhook_cli::config::{
    default_no_log, default_no_wait, default_port, Config, HeaderEntry, HeaderRemoval,
};

fn s(x: &str) -> String {
    x.to_string()
}

fn tokens_of(c: &Config) -> Vec<String> {
    c.tokens().clone()
}

#[test]
fn defaults_are_port_9090_with_logging_and_waiting() {
    assert_eq!(default_port(), 9090);
    assert!(!default_no_log());
    assert!(!default_no_wait());
    let c = Config::default();
    assert_eq!(c.port(), 9090);
    assert!(!c.no_log());
    assert!(!c.no_wait());
    assert!(c.tokens().is_empty());
    assert!(c.header_entries().is_empty());
    assert!(c.has_no_credentials());
}

#[test]
fn add_token_refuses_duplicates() {
    let mut c = Config::default();
    assert!(c.add_token(s("abc")));
    assert!(c.add_token(s("def")));
    assert!(!c.add_token(s("abc")));
    assert_eq!(tokens_of(&c), vec![s("abc"), s("def")]);
    assert!(!c.has_no_credentials());
}

#[test]
fn delete_token_removes_first_occurrence_only() {
    let mut c = Config::from_parts(vec![s("a"), s("b"), s("a")], vec![], 9090, false, false);
    assert!(c.delete_token("a"));
    assert_eq!(tokens_of(&c), vec![s("b"), s("a")]);
    assert!(!c.delete_token("zzz"));
    assert_eq!(tokens_of(&c), vec![s("b"), s("a")]);
}

#[test]
fn delete_token_undoes_add_token() {
    let mut c = Config::from_parts(vec![s("x"), s("y")], vec![], 1, true, false);
    assert!(c.add_token(s("new")));
    assert!(c.delete_token("new"));
    assert_eq!(tokens_of(&c), vec![s("x"), s("y")]);
}

#[test]
fn add_header_token_lowercases_the_name() {
    let mut c = Config::default();
    assert!(c.add_header_token("X-Gitlab-Token", s("gitlab-secret-abc")));
    assert_eq!(
        c.header_tokens("x-gitlab-token").cloned(),
        Some(vec![s("gitlab-secret-abc")])
    );
    assert!(c.header_tokens("X-Gitlab-Token").is_none());
    // the same token again, under another spelling of the name, is refused
    assert!(!c.add_header_token("X-GITLAB-TOKEN", s("gitlab-secret-abc")));
    assert!(c.add_header_token("x-gitlab-token", s("second")));
    assert_eq!(
        c.header_tokens("x-gitlab-token").cloned(),
        Some(vec![s("gitlab-secret-abc"), s("second")])
    );
    assert_eq!(c.header_entries().len(), 1);
}

#[test]
fn remove_header_outcomes() {
    let mut c = Config::default();
    assert_eq!(c.remove_header("X-A", None), HeaderRemoval::HeaderNotFound);
    c.add_header_token("X-A", s("t1"));
    c.add_header_token("X-A", s("t2"));
    assert_eq!(c.remove_header("x-a", Some("nope")), HeaderRemoval::TokenNotFound);
    assert_eq!(c.remove_header("X-a", Some("t1")), HeaderRemoval::TokenDeleted);
    assert_eq!(c.header_tokens("x-a").cloned(), Some(vec![s("t2")]));
    // removing the last token removes the header
    assert_eq!(c.remove_header("X-A", Some("t2")), HeaderRemoval::TokenDeleted);
    assert!(c.header_tokens("x-a").is_none());
    c.add_header_token("X-B", s("t"));
    assert_eq!(c.remove_header("X-B", None), HeaderRemoval::HeaderDeleted);
    assert!(c.has_no_credentials());
}

#[test]
fn remove_header_token_undoes_add() {
    let mut c = Config::default();
    c.add_header_token("X-Keep", s("k"));
    assert!(c.add_header_token("X-Keep", s("extra")));
    assert_eq!(c.remove_header("X-Keep", Some("extra")), HeaderRemoval::TokenDeleted);
    assert_eq!(c.header_tokens("x-keep").cloned(), Some(vec![s("k")]));
    assert!(c.add_header_token("X-New", s("n")));
    assert_eq!(c.remove_header("X-New", Some("n")), HeaderRemoval::TokenDeleted);
    assert!(c.header_tokens("x-new").is_none());
    assert_eq!(c.header_entries().len(), 1);
}

#[test]
fn from_parts_keeps_the_last_entry_of_a_name() {
    let c = Config::from_parts(
        vec![],
        vec![
            HeaderEntry { name: s("h"), tokens: vec![s("first")] },
            HeaderEntry { name: s("g"), tokens: vec![s("g1")] },
            HeaderEntry { name: s("h"), tokens: vec![s("second")] },
        ],
        8080,
        true,
        true,
    );
    assert_eq!(c.header_entries().len(), 2);
    assert_eq!(c.header_tokens("h").cloned(), Some(vec![s("second")]));
    assert_eq!(c.header_tokens("g").cloned(), Some(vec![s("g1")]));
    assert_eq!(c.port(), 8080);
    assert!(c.no_log());
    assert!(c.no_wait());
}

#[test]
fn sorted_header_names_are_in_string_order() {
    let mut c = Config::default();
    for name in ["x-zeta", "x-alpha", "authorization-2", "x-alph", "b"] {
        c.add_header_token(name, s("t"));
    }
    let names = c.sorted_header_names();
    let mut expected: Vec<String> =
        vec![s("x-zeta"), s("x-alpha"), s("authorization-2"), s("x-alph"), s("b")];
    expected.sort();
    assert_eq!(names, expected);
    assert_eq!(names[0], "authorization-2");
    assert_eq!(names[4], "x-zeta");
}

#[test]
fn sorted_header_names_of_no_headers_is_empty() {
    assert!(Config::default().sorted_header_names().is_empty());
}

#[test]
fn settings_take_the_command_line_port_and_either_flag() {
    let c = Config::from_parts(vec![], vec![], 7000, false, true);
    let s1 = c.resolve_settings(None, false, false);
    assert_eq!((s1.port, s1.no_log, s1.no_wait), (7000, false, true));
    let s2 = c.resolve_settings(Some(8081), true, false);
    assert_eq!((s2.port, s2.no_log, s2.no_wait), (8081, true, true));
    let mut c2 = c;
    c2.apply_settings(s2);
    assert_eq!(c2.port(), 8081);
    assert!(c2.no_log());
    assert!(c2.no_wait());
}

#[test]
fn rebuilding_from_own_parts_gives_the_same_config() {
    let mut c = Config::from_parts(vec![s("t1"), s("t2")], vec![], 8088, true, false);
    c.add_header_token("X-A", s("a1"));
    c.add_header_token("X-A", s("a2"));
    c.add_header_token("X-B", s("b"));
    let entries: Vec<HeaderEntry> = c
        .header_entries()
        .iter()
        .map(|e| HeaderEntry { name: e.name.clone(), tokens: e.tokens.clone() })
        .collect();
    let r = Config::from_parts(c.tokens().clone(), entries, c.port(), c.no_log(), c.no_wait());
    assert_eq!(r.tokens(), c.tokens());
    assert_eq!(r.sorted_header_names(), c.sorted_header_names());
    for name in c.sorted_header_names() {
        assert_eq!(r.header_tokens(&name), c.header_tokens(&name));
    }
    assert_eq!((r.port(), r.no_log(), r.no_wait()), (8088, true, false));
}
