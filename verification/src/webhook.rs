//! Handling one webhook request up to running the script: who may call,
//! which script file is meant, and whether the caller waits for it.
use vstd::prelude::*;

use crate::auth::{authorize, decision, request_view, AuthDecision, RequestHeader};
use crate::config::Config;
use crate::paths::{join, join_path};
use crate::text::{strip_prefixes, strip_prefixes_str};

verus! {

/// Why a request is answered without its script's output.
#[derive(PartialEq, Eq, Structural, Clone, Copy, Debug)]
pub enum Rejection {
    /// Nothing is configured to authenticate with.
    NoCredentials,
    /// No valid credential was presented.
    InvalidCredentials,
    /// The script path is empty once its leading slashes are removed.
    EmptyScriptPath,
    /// Neither reading of the script path names an existing file.
    ScriptNotFound,
    /// The script could not be started.
    SpawnFailed,
    /// The script's completion could not be awaited.
    WaitFailed,
}

/// The HTTP status a rejection is answered with.
pub open spec fn rejection_status(r: Rejection) -> u16 {
    match r {
        Rejection::NoCredentials => 401,
        Rejection::InvalidCredentials => 401,
        Rejection::EmptyScriptPath => 400,
        Rejection::ScriptNotFound => 404,
        Rejection::SpawnFailed => 500,
        Rejection::WaitFailed => 500,
    }
}

/// The HTTP status a rejection is answered with.
pub fn status_code(r: Rejection) -> (code: u16)
    ensures
        code == rejection_status(r),
{
    match r {
        Rejection::NoCredentials => 401,
        Rejection::InvalidCredentials => 401,
        Rejection::EmptyScriptPath => 400,
        Rejection::ScriptNotFound => 404,
        Rejection::SpawnFailed => 500,
        Rejection::WaitFailed => 500,
    }
}

/// The script path without its leading slashes.
pub open spec fn cleaned_path(p: Seq<char>) -> Seq<char> {
    strip_prefixes(p, seq!['/'])
}

/// The script path without its leading slashes, or `None` if nothing is
/// left.
pub fn clean_script_path(path: &str) -> (r: Option<String>)
    ensures
        match r {
            Some(c) => c@ == cleaned_path(path@) && c@.len() > 0,
            None => cleaned_path(path@).len() == 0,
        },
{
    let slash = "/";
    proof {
        reveal_strlit("/");
    }
    assert(slash@ =~= seq!['/']);
    let c = strip_prefixes_str(path, slash);
    if c.as_str().is_empty() {
        None
    } else {
        Some(c)
    }
}

/// Whether the caller does not wait for the script: `wait` decides where
/// given, else `no_wait`, else the server's setting.
pub open spec fn skips_waiting(wait: Option<bool>, no_wait: Option<bool>, server_no_wait: bool) -> bool {
    match wait {
        Some(w) => !w,
        None => match no_wait {
            Some(n) => n,
            None => server_no_wait,
        },
    }
}

/// Whether the caller does not wait for the script.
pub fn request_no_wait(wait: Option<bool>, no_wait: Option<bool>, server_no_wait: bool) -> (r: bool)
    ensures
        r == skips_waiting(wait, no_wait, server_no_wait),
{
    if let Some(w) = wait {
        !w
    } else if let Some(n) = no_wait {
        n
    } else {
        server_no_wait
    }
}

/// What an accepted request runs.
pub struct RequestPlan {
    /// The script path without leading slashes.
    pub script: String,
    /// The script path read relative to the working directory; tried first.
    pub relative: String,
    /// The script path read from the root directory; tried second.
    pub absolute: String,
    /// Whether the script runs without the caller waiting for it.
    pub no_wait: bool,
}

/// Checks a webhook request and says what it runs: the credentials are
/// checked first, then the script path.
pub fn plan_request(
    config: &Config,
    headers: &Vec<RequestHeader>,
    script_path: &str,
    wait: Option<bool>,
    no_wait: Option<bool>,
    server_no_wait: bool,
) -> (r: Result<RequestPlan, Rejection>)
    requires
        config.wf(),
    ensures
        match decision(config@, request_view(headers@)) {
            AuthDecision::NoCredentials => r == Err::<RequestPlan, Rejection>(
                Rejection::NoCredentials,
            ),
            AuthDecision::Rejected => r == Err::<RequestPlan, Rejection>(
                Rejection::InvalidCredentials,
            ),
            AuthDecision::Accepted => if cleaned_path(script_path@).len() == 0 {
                r == Err::<RequestPlan, Rejection>(Rejection::EmptyScriptPath)
            } else {
                &&& r is Ok
                &&& r->Ok_0.script@ == cleaned_path(script_path@)
                &&& r->Ok_0.relative@ == cleaned_path(script_path@)
                &&& r->Ok_0.absolute@ == join_path(seq!['/'], cleaned_path(script_path@))
                &&& r->Ok_0.no_wait == skips_waiting(wait, no_wait, server_no_wait)
            },
        },
{
    match authorize(config, headers) {
        AuthDecision::NoCredentials => {
            return Err(Rejection::NoCredentials);
        },
        AuthDecision::Rejected => {
            return Err(Rejection::InvalidCredentials);
        },
        AuthDecision::Accepted => {},
    }
    let script = match clean_script_path(script_path) {
        Some(c) => c,
        None => {
            return Err(Rejection::EmptyScriptPath);
        },
    };
    let relative = script.clone();
    let root = "/";
    proof {
        reveal_strlit("/");
    }
    assert(root@ =~= seq!['/']);
    let absolute = join(root, script.as_str());
    Ok(RequestPlan { script, relative, absolute, no_wait: request_no_wait(wait, no_wait, server_no_wait) })
}

/// The exit code reported for a finished script: its own, or -1 where it
/// has none (ended by a signal).
pub fn exit_code(code: Option<i32>) -> (r: i32)
    ensures
        r == (match code {
            Some(c) => c,
            None => -1i32,
        }),
{
    match code {
        Some(c) => c,
        None => -1,
    }
}


/// The `wait` parameter, when given, alone decides: the call skips waiting
/// exactly when `wait` is false, whatever `no_wait` and the server say.
/// Without `wait`, `no_wait` decides when given; without both, the
/// server's setting does.
pub proof fn lemma_wait_parameter_decides(w: bool, n: Option<bool>, x: bool, server: bool)
    ensures
        skips_waiting(Some(w), n, server) == !w,
        skips_waiting(None, Some(x), server) == x,
        skips_waiting(None, None, server) == server,
{
}

/// Cleaning a script path removes its leading slashes and nothing else:
/// the path is a run of `/` followed by the cleaned path, and the cleaned
/// path does not begin with `/`. A path that does not begin with `/` comes
/// back unchanged.
pub proof fn lemma_cleaning_removes_only_leading_slashes(p: Seq<char>)
    ensures
        cleaned_path(p).len() <= p.len(),
        p.skip(p.len() - cleaned_path(p).len()) == cleaned_path(p),
        forall|i: int| 0 <= i < p.len() - cleaned_path(p).len() ==> p[i] == '/',
        cleaned_path(p).len() > 0 ==> cleaned_path(p)[0] != '/',
        (p.len() == 0 || p[0] != '/') ==> cleaned_path(p) == p,
    decreases p.len(),
{
    let slash = seq!['/'];
    if slash.is_prefix_of(p) {
        let rest = p.skip(1);
        lemma_cleaning_removes_only_leading_slashes(rest);
        assert(cleaned_path(p) == cleaned_path(rest));
        assert(p[0] == '/') by {
            assert(p.subrange(0, 1) =~= slash);
            assert(p.subrange(0, 1)[0] == p[0]);
        }
        let c = cleaned_path(p);
        assert(p.skip(p.len() - c.len()) =~= rest.skip(rest.len() - c.len()));
        assert forall|i: int| 0 <= i < p.len() - c.len() implies p[i] == '/' by {
            if i > 0 {
                assert(p[i] == rest[i - 1]);
            }
        }
    } else {
        assert(cleaned_path(p) == p);
        assert(p.skip(0) =~= p);
        if p.len() > 0 && p[0] == '/' {
            assert(p.subrange(0, 1) =~= slash);
        }
    }
}

} // verus!
