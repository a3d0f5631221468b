//! The PID file: `pid:port:no_log:no_wait`, written when the server starts
//! and read back to find, stop or describe the running daemon.
use vstd::prelude::*;

use crate::text::{
    all_digits, bool_text, is_white_space, lemma_decimal, lemma_parse_decimal, lemma_split_plain_suffix,
    lemma_split_sep, lemma_trim_unchanged, decimal, lemma_split_on_nonempty, parse_bool, parse_bool_text, parse_i32, parse_integer,
    parse_u16, push_bool, push_decimal, split_fields, split_on, trim, trim_str,
};

verus! {

/// What the PID file says of the daemon.
#[derive(PartialEq, Eq, Structural, Clone, Copy, Debug)]
pub struct PidRecord {
    pub pid: i32,
    pub port: u16,
    pub no_log: bool,
    pub no_wait: bool,
}

/// The text written to the PID file.
pub open spec fn record_text(pid: u32, port: u16, no_log: bool, no_wait: bool) -> Seq<char> {
    decimal(pid as nat) + seq![':'] + decimal(port as nat) + seq![':'] + bool_text(no_log) + seq![
        ':',
    ] + bool_text(no_wait)
}

/// The text of the PID file for a daemon with this PID and these settings.
pub fn pid_file_content(pid: u32, port: u16, no_log: bool, no_wait: bool) -> (r: String)
    ensures
        r@ == record_text(pid, port, no_log, no_wait),
{
    let mut s = String::new();
    push_decimal(&mut s, pid);
    s.append(":");
    proof {
        reveal_strlit(":");
    }
    push_decimal(&mut s, port as u32);
    s.append(":");
    push_bool(&mut s, no_log);
    s.append(":");
    push_bool(&mut s, no_wait);
    assert(s@ =~= record_text(pid, port, no_log, no_wait));
    s
}

/// The field at `i`, if there are that many.
pub open spec fn field_at(fields: Seq<Seq<char>>, i: int) -> Option<Seq<char>> {
    if 0 <= i < fields.len() {
        Some(fields[i])
    } else {
        None
    }
}

/// The PID that the PID file's text gives: its first `:`-separated field,
/// after trimming, read as an `i32`.
pub open spec fn pid_of_text(content: Seq<char>) -> Option<i32> {
    match parse_integer(split_on(trim(content), ':')[0], true, i32::MIN as int, i32::MAX as int) {
        Some(v) => Some(v as i32),
        None => None,
    }
}

/// The port field read as a `u16`, or 9090 where it is missing or unreadable.
pub open spec fn port_of_field(f: Option<Seq<char>>) -> u16 {
    match f {
        Some(t) => match parse_integer(t, false, 0, u16::MAX as int) {
            Some(v) => v as u16,
            None => 9090,
        },
        None => 9090,
    }
}

/// A flag field read as a `bool`, or `false` where it is missing or
/// unreadable.
pub open spec fn flag_of_field(f: Option<Seq<char>>) -> bool {
    match f {
        Some(t) => match parse_bool_text(t) {
            Some(b) => b,
            None => false,
        },
        None => false,
    }
}

/// What the PID file's text says, where its PID is readable.
pub open spec fn record_of_text(content: Seq<char>) -> Option<PidRecord> {
    let fields = split_on(trim(content), ':');
    match pid_of_text(content) {
        Some(pid) => Some(
            PidRecord {
                pid,
                port: port_of_field(field_at(fields, 1)),
                no_log: flag_of_field(field_at(fields, 2)),
                no_wait: flag_of_field(field_at(fields, 3)),
            },
        ),
        None => None,
    }
}

/// The fields of the trimmed PID file text.
fn record_fields(content: &str) -> (r: Vec<Vec<char>>)
    ensures
        r.deep_view() == split_on(trim(content@), ':'),
        r.len() >= 1,
{
    let t = trim_str(content);
    let r = split_fields(t.as_str(), ':');
    proof {
        lemma_split_on_nonempty(t@, ':');
    }
    r
}

/// The PID that the PID file's text gives, if readable.
pub fn parse_pid(content: &str) -> (r: Option<i32>)
    ensures
        r == pid_of_text(content@),
{
    let fields = record_fields(content);
    assert(fields@[0]@ == fields.deep_view()[0]);
    match parse_i32(fields[0].as_slice()) {
        Some(v) => Some(v),
        None => None,
    }
}

/// The field at `i` of `fields`, if there are that many.
fn field(fields: &Vec<Vec<char>>, i: usize) -> (r: Option<&Vec<char>>)
    ensures
        match r {
            Some(f) => field_at(fields.deep_view(), i as int) == Some(f@),
            None => field_at(fields.deep_view(), i as int) is None,
        },
{
    if i < fields.len() {
        assert(fields.deep_view()[i as int] == fields@[i as int]@);
        Some(&fields[i])
    } else {
        None
    }
}

/// What the PID file's text says, where its PID is readable.
pub fn parse_pid_record(content: &str) -> (r: Option<PidRecord>)
    ensures
        r == record_of_text(content@),
{
    let fields = record_fields(content);
    assert(fields@[0]@ == fields.deep_view()[0]);
    let pid = match parse_i32(fields[0].as_slice()) {
        Some(v) => v,
        None => {
            return None;
        },
    };
    let port = match field(&fields, 1) {
        Some(f) => match parse_u16(f.as_slice()) {
            Some(p) => p,
            None => 9090,
        },
        None => 9090,
    };
    let no_log = match field(&fields, 2) {
        Some(f) => match parse_bool(f.as_slice()) {
            Some(b) => b,
            None => false,
        },
        None => false,
    };
    let no_wait = match field(&fields, 3) {
        Some(f) => match parse_bool(f.as_slice()) {
            Some(b) => b,
            None => false,
        },
        None => false,
    };
    Some(PidRecord { pid, port, no_log, no_wait })
}

proof fn lemma_no_separator_in_digits(s: Seq<char>)
    requires
        all_digits(s),
    ensures
        !s.contains(':'),
{
    if s.contains(':') {
        let i = choose|i: int| 0 <= i < s.len() && s[i] == ':';
        assert(crate::text::is_digit(s[i]));
    }
}

proof fn lemma_no_separator_in_flag(b: bool)
    ensures
        !bool_text(b).contains(':'),
{
    if bool_text(b).contains(':') {
        let i = choose|i: int| 0 <= i < bool_text(b).len() && bool_text(b)[i] == ':';
    }
}

/// Splitting `prefix`, a separator, then `part` (which holds no separator)
/// adds `part` as the last field.
proof fn lemma_split_next(prefix: Seq<char>, part: Seq<char>)
    requires
        !part.contains(':'),
    ensures
        split_on(prefix + seq![':'] + part, ':') == split_on(prefix, ':').push(part),
{
    lemma_split_sep(prefix, ':');
    assert(prefix + seq![':'] =~= prefix.push(':'));
    lemma_split_plain_suffix(prefix.push(':'), part, ':');
    let p = split_on(prefix, ':').push(Seq::empty());
    assert(Seq::<char>::empty() + part =~= part);
    assert(p.update(p.len() - 1, p.last() + part) =~= split_on(prefix, ':').push(part));
}

/// What the PID file is written with is what is read back from it: the
/// PID, the port and both flags, for every PID that fits an `i32`.
pub proof fn lemma_record_roundtrip(pid: u32, port: u16, no_log: bool, no_wait: bool)
    requires
        pid <= i32::MAX,
    ensures
        record_of_text(record_text(pid, port, no_log, no_wait)) == Some(
            PidRecord { pid: pid as i32, port, no_log, no_wait },
        ),
{
    let a = decimal(pid as nat);
    let b = decimal(port as nat);
    let c = bool_text(no_log);
    let d = bool_text(no_wait);
    lemma_decimal(pid as nat);
    lemma_decimal(port as nat);
    lemma_no_separator_in_digits(a);
    lemma_no_separator_in_digits(b);
    lemma_no_separator_in_flag(no_log);
    lemma_no_separator_in_flag(no_wait);
    let t = record_text(pid, port, no_log, no_wait);
    // the text has no whitespace at either end
    assert(t[0] == a[0]);
    assert(crate::text::is_digit(a[0]));
    assert(t.last() == d.last());
    assert(!is_white_space(d.last()));
    lemma_trim_unchanged(t);
    // the fields are the four parts
    lemma_split_plain_suffix(Seq::empty(), a, ':');
    assert(Seq::<char>::empty() + a =~= a);
    assert(split_on(Seq::<char>::empty(), ':') =~= seq![Seq::<char>::empty()]);
    assert(split_on(a, ':') =~= seq![a]);
    lemma_split_next(a, b);
    lemma_split_next(a + seq![':'] + b, c);
    lemma_split_next(a + seq![':'] + b + seq![':'] + c, d);
    let fields = split_on(t, ':');
    assert(fields =~= seq![a, b, c, d]);
    lemma_parse_decimal(pid as nat, true, i32::MIN as int, i32::MAX as int);
    lemma_parse_decimal(port as nat, false, 0, u16::MAX as int);
    assert(fields[0] == a);
    assert(field_at(fields, 1) == Some(b));
    assert(field_at(fields, 2) == Some(c));
    assert(field_at(fields, 3) == Some(d));
}

} // verus!
