use webhook_cli::auth::{accepts_resolved, authorize, find_value, AuthDecision, RequestHeader, ResolvedHeader};
use webhook_cli::config::Config;
use webhook_cli::webhook::{
    clean_script_path, exit_code, plan_request, request_no_wait, status_code, Rejection,
};

fn s(x: &str) -> String {
    x.to_string()
}

fn header(name: &str, value: &str) -> RequestHeader {
    RequestHeader { name: s(name), value: Some(s(value)) }
}

fn configured() -> Config {
    let mut c = Config::default();
    c.add_token(s("my-secret-token"));
    c.add_header_token("X-Gitlab-Token", s("gitlab-secret-abc"));
    c
}

#[test]
fn nothing_configured_rejects_everything() {
    let c = Config::default();
    let req = vec![header("authorization", "Bearer anything")];
    assert_eq!(authorize(&c, &req), AuthDecision::NoCredentials);
}

#[test]
fn bearer_token_is_accepted() {
    let c = configured();
    assert_eq!(
        authorize(&c, &vec![header("authorization", "Bearer my-secret-token")]),
        AuthDecision::Accepted
    );
    // repeated scheme word and surrounding blanks are removed
    assert_eq!(
        authorize(&c, &vec![header("authorization", "Bearer Bearer  my-secret-token \t")]),
        AuthDecision::Accepted
    );
    assert_eq!(
        authorize(&c, &vec![header("authorization", "bearer my-secret-token")]),
        AuthDecision::Rejected
    );
    assert_eq!(
        authorize(&c, &vec![header("authorization", "my-secret-token")]),
        AuthDecision::Rejected
    );
}

#[test]
fn custom_header_is_accepted_whatever_authorization_holds() {
    let c = configured();
    assert_eq!(
        authorize(&c, &vec![header("x-gitlab-token", " gitlab-secret-abc ")]),
        AuthDecision::Accepted
    );
    assert_eq!(
        authorize(
            &c,
            &vec![header("authorization", "Bearer wrong"), header("x-gitlab-token", "gitlab-secret-abc")]
        ),
        AuthDecision::Accepted
    );
    assert_eq!(
        authorize(&c, &vec![header("x-gitlab-token", "wrong"), header("x-other", "gitlab-secret-abc")]),
        AuthDecision::Rejected
    );
}

#[test]
fn only_the_first_value_of_a_header_counts() {
    let c = configured();
    let req = vec![header("x-gitlab-token", "wrong"), header("x-gitlab-token", "gitlab-secret-abc")];
    assert_eq!(authorize(&c, &req), AuthDecision::Rejected);
    let unreadable = vec![RequestHeader { name: s("x-gitlab-token"), value: None }];
    assert_eq!(authorize(&c, &unreadable), AuthDecision::Rejected);
}

#[test]
fn configured_names_are_looked_up_as_the_http_layer_stores_them() {
    // a name stored with capitals (e.g. edited by hand) still matches the
    // lowercase name the HTTP layer reports
    let mut c = Config::default();
    c.add_header_token_exact(s("X-My-Header"), s("v"));
    assert_eq!(authorize(&c, &vec![header("x-my-header", "v")]), AuthDecision::Accepted);
    // a name that is not a valid header name never matches
    let mut bad = Config::default();
    bad.add_header_token_exact(s("bad name"), s("v"));
    assert_eq!(authorize(&bad, &vec![header("bad name", "v")]), AuthDecision::Rejected);
}

#[test]
fn added_token_takes_effect_and_deleted_token_stops_working() {
    let mut c = configured();
    let req = vec![header("authorization", "Bearer fresh")];
    assert_eq!(authorize(&c, &req), AuthDecision::Rejected);
    c.add_token(s("fresh"));
    assert_eq!(authorize(&c, &req), AuthDecision::Accepted);
    c.delete_token("fresh");
    assert_eq!(authorize(&c, &req), AuthDecision::Rejected);
}

#[test]
fn resolved_decision_on_given_keys() {
    let tokens = vec![s("t")];
    let resolved = vec![ResolvedHeader { key: Some(s("x-k")), tokens: vec![s("v")] }];
    let req = vec![header("auth-key", "Bearer t"), header("x-k", "nope")];
    assert!(accepts_resolved(&tokens, &Some(s("auth-key")), &resolved, &req));
    assert!(!accepts_resolved(&tokens, &None, &resolved, &req));
    let req2 = vec![header("x-k", "v")];
    assert!(accepts_resolved(&vec![], &None, &resolved, &req2));
    assert_eq!(find_value(&req, "x-k"), Some(&s("nope")));
    assert_eq!(find_value(&req, "absent"), None);
}

#[test]
fn script_paths_and_plans() {
    assert_eq!(clean_script_path("///opt/run.sh"), Some(s("opt/run.sh")));
    assert_eq!(clean_script_path("//"), None);
    let c = configured();
    let ok = vec![header("authorization", "Bearer my-secret-token")];
    let plan = plan_request(&c, &ok, "/path/to/script.sh", None, None, false).ok().unwrap();
    assert_eq!(plan.script, "path/to/script.sh");
    assert_eq!(plan.relative, "path/to/script.sh");
    assert_eq!(plan.absolute, "/path/to/script.sh");
    assert!(!plan.no_wait);
    assert_eq!(plan_request(&c, &ok, "/", None, None, false).err(), Some(Rejection::EmptyScriptPath));
    assert_eq!(
        plan_request(&c, &vec![], "/a.sh", None, None, false).err(),
        Some(Rejection::InvalidCredentials)
    );
    assert_eq!(
        plan_request(&Config::default(), &ok, "/a.sh", None, None, false).err(),
        Some(Rejection::NoCredentials)
    );
}

#[test]
fn waiting_is_decided_by_wait_then_no_wait_then_the_server() {
    assert!(!request_no_wait(Some(true), Some(true), true));
    assert!(request_no_wait(Some(false), Some(false), false));
    assert!(request_no_wait(None, Some(true), false));
    assert!(!request_no_wait(None, Some(false), true));
    assert!(request_no_wait(None, None, true));
    assert!(!request_no_wait(None, None, false));
}

#[test]
fn status_codes_and_exit_codes() {
    assert_eq!(status_code(Rejection::NoCredentials), 401);
    assert_eq!(status_code(Rejection::InvalidCredentials), 401);
    assert_eq!(status_code(Rejection::EmptyScriptPath), 400);
    assert_eq!(status_code(Rejection::ScriptNotFound), 404);
    assert_eq!(status_code(Rejection::SpawnFailed), 500);
    assert_eq!(status_code(Rejection::WaitFailed), 500);
    assert_eq!(exit_code(Some(3)), 3);
    assert_eq!(exit_code(None), -1);
}

#[test]
fn more_credentials_keep_access() {
    let mut c = configured();
    let req = vec![header("x-gitlab-token", "gitlab-secret-abc")];
    assert_eq!(authorize(&c, &req), AuthDecision::Accepted);
    c.add_token(s("another"));
    c.add_header_token("X-Gitlab-Token", s("rotated"));
    c.add_header_token("X-Other", s("o"));
    assert_eq!(authorize(&c, &req), AuthDecision::Accepted);
}

#[test]
fn header_names_match_without_regard_to_case() {
    let mut c = Config::default();
    c.add_header_token_exact(s("X-UPPER-Case_Name"), s("v"));
    assert_eq!(authorize(&c, &vec![header("x-upper-case_name", "v")]), AuthDecision::Accepted);
    // the stored form of a request header is always lowercase, so a
    // capitalised request name never matches
    assert_eq!(authorize(&c, &vec![header("X-UPPER-Case_Name", "v")]), AuthDecision::Rejected);
    let mut empty = Config::default();
    empty.add_header_token_exact(s(""), s("v"));
    assert_eq!(authorize(&empty, &vec![header("", "v")]), AuthDecision::Rejected);
}
