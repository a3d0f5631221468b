//! Where the daemon keeps its files: the configuration directory under the
//! home directory, and the configuration, PID and log files inside it.
use vstd::prelude::*;

use crate::text::{chars_of, string_of};

verus! {

/// The path `part` appended to `base` (`Path::join` on Unix): an absolute
/// `part` replaces `base`; otherwise a `/` goes between them unless `base` is
/// empty or already ends in one.
pub open spec fn join_path(base: Seq<char>, part: Seq<char>) -> Seq<char> {
    if part.len() > 0 && part[0] == '/' {
        part
    } else if base.len() > 0 && base.last() != '/' {
        base + seq!['/'] + part
    } else {
        base + part
    }
}

/// The directory used when no home directory is known.
pub open spec fn fallback_home() -> Seq<char> {
    seq!['/', 't', 'm', 'p']
}

/// `$HOME/.config/webhook-daemon`, with `/tmp` for an unknown home.
pub open spec fn config_dir(home: Option<Seq<char>>) -> Seq<char> {
    let base = match home {
        Some(h) => h,
        None => fallback_home(),
    };
    join_path(join_path(base, ".config"@), "webhook-daemon"@)
}

/// `base` joined with `part`.
pub fn join(base: &str, part: &str) -> (r: String)
    ensures
        r@ == join_path(base@, part@),
{
    let b = chars_of(base);
    let p = chars_of(part);
    if p.len() > 0 && p[0] == '/' {
        return string_of(&p);
    }
    let mut all = b;
    if all.len() > 0 && all[all.len() - 1] != '/' {
        all.push('/');
    }
    let mut i: usize = 0;
    let ghost head = all@;
    while i < p.len()
        invariant
            i <= p.len(),
            p@ == part@,
            all@ == head + p@.take(i as int),
        decreases p.len() - i,
    {
        all.push(p[i]);
        assert(p@.take(i + 1) =~= p@.take(i as int).push(p@[i as int]));
        i = i + 1;
    }
    assert(p@.take(p.len() as int) =~= p@);
    proof {
        if base@.len() > 0 && base@.last() != '/' {
            assert(head =~= base@ + seq!['/']);
        } else {
            assert(head =~= base@);
        }
    }
    string_of(&all)
}

/// The configuration directory for the given home directory (the value of
/// `HOME`, or `None` where it is unset or not Unicode).
pub fn get_config_dir(home: Option<String>) -> (r: String)
    ensures
        r@ == config_dir(home.deep_view()),
{
    let base = match home {
        Some(h) => h,
        None => {
            let t = String::from_str("/tmp");
            proof {
                reveal_strlit("/tmp");
            }
            assert(t@ =~= fallback_home());
            t
        },
    };
    let dot_config = join(base.as_str(), ".config");
    join(dot_config.as_str(), "webhook-daemon")
}

/// The configuration file inside the configuration directory.
pub fn get_config_file_path(config_dir: &str) -> (r: String)
    ensures
        r@ == join_path(config_dir@, "config.json"@),
{
    join(config_dir, "config.json")
}

/// The file that records the running daemon's PID and settings.
pub fn get_pid_file_path(config_dir: &str) -> (r: String)
    ensures
        r@ == join_path(config_dir@, "daemon.pid"@),
{
    join(config_dir, "daemon.pid")
}

/// The file that the background daemon logs to.
pub fn get_log_file_path(config_dir: &str) -> (r: String)
    ensures
        r@ == join_path(config_dir@, "daemon.log"@),
{
    join(config_dir, "daemon.log")
}


/// Joining keeps both parts whole: an absolute part stands alone;
/// otherwise the result is the base, then a single `/` exactly when the
/// base is non-empty and does not already end in one, then the part.
pub proof fn lemma_join_keeps_both_parts(base: Seq<char>, part: Seq<char>)
    ensures
        part.len() > 0 && part[0] == '/' ==> join_path(base, part) == part,
        !(part.len() > 0 && part[0] == '/') ==> {
            let j = join_path(base, part);
            let gap: int = if base.len() > 0 && base.last() != '/' {
                1
            } else {
                0
            };
            &&& j.len() == base.len() + gap + part.len()
            &&& j.take(base.len() as int) == base
            &&& j.skip(base.len() + gap) == part
            &&& gap == 1 ==> j[base.len() as int] == '/'
        },
{
    if !(part.len() > 0 && part[0] == '/') {
        let j = join_path(base, part);
        if base.len() > 0 && base.last() != '/' {
            assert(j.take(base.len() as int) =~= base);
            assert(j.skip(base.len() + 1int) =~= part);
        } else {
            assert(j.take(base.len() as int) =~= base);
            assert(j.skip(base.len() as int) =~= part);
        }
    }
}

} // verus!
