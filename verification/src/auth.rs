//! Deciding whether a webhook request may run a script: a bearer token in
//! `Authorization`, or a configured token in one of the configured custom
//! headers.
use vstd::prelude::*;

use crate::config::{contains_text, entries_view, has_name, header_map, Config, ConfigView, HeaderEntry};
use crate::text::{starts_with, strip_prefixes, strip_prefixes_str, trim, trim_str};

verus! {

/// One header of a request: its name as the HTTP layer stores it, and its
/// value as text where the value is visible ASCII (`None` otherwise).
pub struct RequestHeader {
    pub name: String,
    pub value: Option<String>,
}

/// The request's headers as text.
pub open spec fn request_view(r: Seq<RequestHeader>) -> Seq<(Seq<char>, Option<Seq<char>>)> {
    r.map_values(|h: RequestHeader| (h.name@, h.value.deep_view()))
}

/// The first header stored under `key`, and its value if readable.
pub open spec fn lookup(req: Seq<(Seq<char>, Option<Seq<char>>)>, key: Seq<char>) -> Option<
    Option<Seq<char>>,
>
    decreases req.len(),
{
    if req.len() == 0 {
        None
    } else if req[0].0 == key {
        Some(req[0].1)
    } else {
        lookup(req.drop_first(), key)
    }
}

/// The readable value of the first header stored under `key`, where there
/// is a key, such a header, and its value is readable.
pub open spec fn readable_value(req: Seq<(Seq<char>, Option<Seq<char>>)>, key: Option<Seq<char>>) -> Option<
    Seq<char>,
> {
    match key {
        None => None,
        Some(k) => match lookup(req, k) {
            Some(Some(v)) => Some(v),
            _ => None,
        },
    }
}

/// The characters a header name may hold (RFC 7230 `tchar`).
pub open spec fn is_header_name_char(c: char) -> bool {
    ||| c == '!'
    ||| ('#' <= c && c <= '\'')
    ||| c == '*'
    ||| c == '+'
    ||| c == '-'
    ||| c == '.'
    ||| ('0' <= c && c <= '9')
    ||| ('A' <= c && c <= 'Z')
    ||| ('^' <= c && c <= 'z')
    ||| c == '|'
    ||| c == '~'
}

/// `c` with an ASCII capital letter made small.
pub open spec fn ascii_lower(c: char) -> char {
    if 'A' <= c && c <= 'Z' {
        ((c as u32) + 32) as char
    } else {
        c
    }
}

/// The key under which the HTTP layer stores a header given by `name`: the
/// name in ASCII lowercase, where it is 1 to 65535 header-name characters;
/// `None` for any other name.
pub open spec fn canonical_header_name(name: Seq<char>) -> Option<Seq<char>> {
    if 1 <= name.len() <= 65535 && forall|i: int|
        0 <= i < name.len() ==> is_header_name_char(#[trigger] name[i]) {
        Some(name.map_values(|c: char| ascii_lower(c)))
    } else {
        None
    }
}

/// `HeaderName::from_bytes`, then `HeaderName::as_str`: the stored form of
/// a header name. `from_bytes` maps each byte through a table that keeps
/// the header-name characters, makes ASCII capitals small and refuses
/// every other byte (all non-ASCII ones among them), and refuses an empty
/// name or one longer than 65535 bytes; `as_str` gives the mapped name.
#[verifier::external_body]
fn header_key(name: &str) -> (r: Option<String>)
    ensures
        r.deep_view() == canonical_header_name(name@),
{
    match axum::http::HeaderName::from_bytes(name.as_bytes()) {
        Ok(n) => Some(n.as_str().to_string()),
        Err(_) => None,
    }
}

/// Header names match without regard to ASCII case: two names that agree
/// once ASCII capitals are made small are stored under the same key.
pub proof fn lemma_header_names_ignore_case(a: Seq<char>, b: Seq<char>)
    requires
        a.len() == b.len(),
        forall|i: int| 0 <= i < a.len() ==> ascii_lower(#[trigger] a[i]) == ascii_lower(b[i]),
    ensures
        canonical_header_name(a) == canonical_header_name(b),
{
    assert forall|i: int| 0 <= i < a.len() implies is_header_name_char(#[trigger] a[i])
        == is_header_name_char(b[i]) by {
        let (x, y) = (a[i], b[i]);
        assert(ascii_lower(x) == ascii_lower(y));
        if 'A' <= x && x <= 'Z' {
            assert(ascii_lower(x) as u32 == x as u32 + 32);
        }
        if 'A' <= y && y <= 'Z' {
            assert(ascii_lower(y) as u32 == y as u32 + 32);
        }
    }
    let va = forall|i: int| 0 <= i < a.len() ==> is_header_name_char(#[trigger] a[i]);
    let vb = forall|i: int| 0 <= i < b.len() ==> is_header_name_char(#[trigger] b[i]);
    assert(va == vb) by {
        if va {
            assert forall|i: int| 0 <= i < b.len() implies is_header_name_char(#[trigger] b[i]) by {
                assert(is_header_name_char(a[i]));
            }
        }
        if vb {
            assert forall|i: int| 0 <= i < a.len() implies is_header_name_char(#[trigger] a[i]) by {
                assert(is_header_name_char(b[i]));
            }
        }
    }
    if va && 1 <= a.len() <= 65535 {
        let ma = a.map_values(|c: char| ascii_lower(c));
        let mb = b.map_values(|c: char| ascii_lower(c));
        assert(ma =~= mb);
        assert(canonical_header_name(a) == Some(ma));
        assert(canonical_header_name(b) == Some(mb));
    }
}

/// The scheme word that a bearer credential begins with.
pub open spec fn bearer_prefix() -> Seq<char> {
    seq!['B', 'e', 'a', 'r', 'e', 'r', ' ']
}

/// The name of the header that carries bearer tokens.
pub open spec fn authorization_name() -> Seq<char> {
    seq!['A', 'u', 't', 'h', 'o', 'r', 'i', 'z', 'a', 't', 'i', 'o', 'n']
}

/// The token that an `Authorization` value offers: the value without every
/// leading `Bearer `, then without surrounding whitespace.
pub open spec fn offered_bearer(v: Seq<char>) -> Seq<char> {
    trim(strip_prefixes(v, bearer_prefix()))
}

/// An `Authorization` value that begins with `Bearer ` and offers one of
/// the bearer tokens.
pub open spec fn bearer_accepts(tokens: Seq<Seq<char>>, value: Option<Seq<char>>) -> bool {
    match value {
        Some(v) => bearer_prefix().is_prefix_of(v) && tokens.contains(offered_bearer(v)),
        None => false,
    }
}

/// A custom header, looked up under `key`, whose trimmed value is one of
/// `tokens`.
pub open spec fn header_accepts(
    req: Seq<(Seq<char>, Option<Seq<char>>)>,
    key: Option<Seq<char>>,
    tokens: Seq<Seq<char>>,
) -> bool {
    match readable_value(req, key) {
        Some(v) => tokens.contains(trim(v)),
        None => false,
    }
}

/// The request presents a valid credential: a configured bearer token, or
/// a configured token in any configured custom header.
pub open spec fn authorized(c: ConfigView, req: Seq<(Seq<char>, Option<Seq<char>>)>) -> bool {
    ||| bearer_accepts(c.tokens, readable_value(req, canonical_header_name(authorization_name())))
    ||| exists|name: Seq<char>|
        #![trigger c.headers.contains_key(name)]
        c.headers.contains_key(name) && header_accepts(
            req,
            canonical_header_name(name),
            c.headers[name],
        )
}

/// The verdict on a request.
#[derive(PartialEq, Eq, Structural, Clone, Copy, Debug)]
pub enum AuthDecision {
    /// Nothing is configured to authenticate with, so nothing is accepted.
    NoCredentials,
    /// No presented credential is valid.
    Rejected,
    /// A presented credential is valid.
    Accepted,
}

/// The verdict that a configuration gives a request.
pub open spec fn decision(c: ConfigView, req: Seq<(Seq<char>, Option<Seq<char>>)>) -> AuthDecision {
    if c.tokens.len() == 0 && c.headers.dom().is_empty() {
        AuthDecision::NoCredentials
    } else if authorized(c, req) {
        AuthDecision::Accepted
    } else {
        AuthDecision::Rejected
    }
}

/// A configured custom header with the key it is stored under.
pub struct ResolvedHeader {
    pub key: Option<String>,
    pub tokens: Vec<String>,
}

/// The value of the first request header stored under `key`, if readable.
pub fn find_value<'a>(request: &'a Vec<RequestHeader>, key: &str) -> (r: Option<&'a String>)
    ensures
        r.deep_view() == readable_value(request_view(request@), Some(key@)),
{
    let ghost req = request_view(request@);
    let mut i: usize = 0;
    assert(req.skip(0) =~= req);
    while i < request.len()
        invariant
            i <= request.len(),
            req == request_view(request@),
            lookup(req, key@) == lookup(req.skip(i as int), key@),
        decreases request.len() - i,
    {
        let h = &request[i];
        assert(req.skip(i as int)[0] == (h.name@, h.value.deep_view()));
        if crate::text::same_text(h.name.as_str(), key) {
            return match &h.value {
                Some(v) => Some(v),
                None => None,
            };
        }
        assert(req.skip(i as int).drop_first() =~= req.skip(i + 1));
        i = i + 1;
    }
    None
}

/// Whether an `Authorization` value offers one of `tokens` as a bearer
/// token.
pub fn bearer_matches(tokens: &Vec<String>, value: &str) -> (r: bool)
    ensures
        r == bearer_accepts(tokens.deep_view(), Some(value@)),
{
    let prefix = "Bearer ";
    proof {
        reveal_strlit("Bearer ");
    }
    assert(prefix@ =~= bearer_prefix());
    if !starts_with(value, prefix) {
        return false;
    }
    let stripped = strip_prefixes_str(value, prefix);
    let offered = trim_str(stripped.as_str());
    contains_text(tokens, offered.as_str())
}

/// Whether the custom header stored under `key` carries one of `tokens`.
pub fn custom_header_matches(
    request: &Vec<RequestHeader>,
    key: &Option<String>,
    tokens: &Vec<String>,
) -> (r: bool)
    ensures
        r == header_accepts(request_view(request@), key.deep_view(), tokens.deep_view()),
{
    match key {
        None => false,
        Some(k) => match find_value(request, k.as_str()) {
            Some(v) => {
                let t = trim_str(v.as_str());
                contains_text(tokens, t.as_str())
            },
            None => false,
        },
    }
}

/// Whether the request presents a valid credential, given the key of the
/// `Authorization` header and the keys of the configured custom headers.
pub fn accepts_resolved(
    tokens: &Vec<String>,
    authorization_key: &Option<String>,
    resolved: &Vec<ResolvedHeader>,
    request: &Vec<RequestHeader>,
) -> (r: bool)
    ensures
        r == (bearer_accepts(
            tokens.deep_view(),
            readable_value(request_view(request@), authorization_key.deep_view()),
        ) || exists|i: int|
            0 <= i < resolved.len() && header_accepts(
                request_view(request@),
                #[trigger] resolved@[i].key.deep_view(),
                resolved@[i].tokens.deep_view(),
            )),
{
    let bearer = match authorization_key {
        Some(k) => match find_value(request, k.as_str()) {
            Some(v) => bearer_matches(tokens, v.as_str()),
            None => false,
        },
        None => false,
    };
    if bearer {
        return true;
    }
    let mut i: usize = 0;
    while i < resolved.len()
        invariant
            i <= resolved.len(),
            forall|j: int|
                0 <= j < i ==> !header_accepts(
                    request_view(request@),
                    #[trigger] resolved@[j].key.deep_view(),
                    resolved@[j].tokens.deep_view(),
                ),
        decreases resolved.len() - i,
    {
        if custom_header_matches(request, &resolved[i].key, &resolved[i].tokens) {
            return true;
        }
        i = i + 1;
    }
    false
}

/// The configured custom headers with the keys they are stored under.
fn resolve_headers(entries: &Vec<HeaderEntry>) -> (r: Vec<ResolvedHeader>)
    ensures
        r.len() == entries.len(),
        forall|i: int|
            0 <= i < r.len() ==> (#[trigger] r@[i]).key.deep_view() == canonical_header_name(
                entries@[i].name@,
            ) && r@[i].tokens.deep_view() == entries@[i].tokens.deep_view(),
{
    let mut r: Vec<ResolvedHeader> = Vec::new();
    let mut i: usize = 0;
    while i < entries.len()
        invariant
            i <= entries.len(),
            r.len() == i,
            forall|j: int|
                0 <= j < i ==> (#[trigger] r@[j]).key.deep_view() == canonical_header_name(
                    entries@[j].name@,
                ) && r@[j].tokens.deep_view() == entries@[j].tokens.deep_view(),
        decreases entries.len() - i,
    {
        let key = header_key(entries[i].name.as_str());
        let tokens = entries[i].tokens.clone();
        assert(tokens.deep_view() =~= entries@[i as int].tokens.deep_view()) by {
            assert forall|k: int| 0 <= k < tokens.len() implies tokens@[k] == entries@[i as int].tokens@[k] by {
                assert(cloned::<String>(entries@[i as int].tokens@[k], tokens@[k]));
            }
        }
        r.push(ResolvedHeader { key, tokens });
        i = i + 1;
    }
    r
}

/// The verdict on a webhook request.
pub fn authorize(config: &Config, request: &Vec<RequestHeader>) -> (r: AuthDecision)
    requires
        config.wf(),
    ensures
        r == decision(config@, request_view(request@)),
{
    if config.has_no_credentials() {
        return AuthDecision::NoCredentials;
    }
    let entries = config.header_entries();
    let resolved = resolve_headers(entries);
    let authorization_key = header_key("Authorization");
    proof {
        reveal_strlit("Authorization");
        assert("Authorization"@ =~= authorization_name());
    }
    let ok = accepts_resolved(config.tokens(), &authorization_key, &resolved, request);
    proof {
        let req = request_view(request@);
        let h = entries_view(entries@);
        let c = config@;
        assert(c.headers == header_map(h));
        let custom_resolved = exists|i: int|
            0 <= i < resolved.len() && header_accepts(
                req,
                #[trigger] resolved@[i].key.deep_view(),
                resolved@[i].tokens.deep_view(),
            );
        let custom_config = exists|name: Seq<char>|
            #![trigger c.headers.contains_key(name)]
            c.headers.contains_key(name) && header_accepts(
                req,
                canonical_header_name(name),
                c.headers[name],
            );
        if custom_resolved {
            let i = choose|i: int|
                0 <= i < resolved.len() && header_accepts(
                    req,
                    #[trigger] resolved@[i].key.deep_view(),
                    resolved@[i].tokens.deep_view(),
                );
            assert(h[i] == (entries@[i].name@, entries@[i].tokens.deep_view()));
            assert(has_name(h, entries@[i].name@));
            crate::config::lemma_header_map_at(h, i);
            assert(c.headers.contains_key(entries@[i].name@));
        }
        if custom_config {
            let name = choose|name: Seq<char>|
                #![trigger c.headers.contains_key(name)]
                c.headers.contains_key(name) && header_accepts(
                    req,
                    canonical_header_name(name),
                    c.headers[name],
                );
            let i = choose|i: int| 0 <= i < h.len() && h[i].0 == name;
            crate::config::lemma_header_map_at(h, i);
            assert(h[i] == (entries@[i].name@, entries@[i].tokens.deep_view()));
            assert(resolved@[i].key.deep_view() == canonical_header_name(name));
        }
    }
    if ok {
        AuthDecision::Accepted
    } else {
        AuthDecision::Rejected
    }
}

/// A bearer token that has just been added lets in a request whose
/// `Authorization` header offers it after `Bearer `.
pub proof fn lemma_added_token_authenticates(
    c: ConfigView,
    t: Seq<char>,
    req: Seq<(Seq<char>, Option<Seq<char>>)>,
    v: Seq<char>,
)
    requires
        readable_value(req, canonical_header_name(authorization_name())) == Some(v),
        bearer_prefix().is_prefix_of(v),
        offered_bearer(v) == t,
    ensures
        decision(ConfigView { tokens: c.tokens.push(t), ..c }, req) == AuthDecision::Accepted,
{
    let c2 = ConfigView { tokens: c.tokens.push(t), ..c };
    assert(c2.tokens[c.tokens.len() as int] == t);
    assert(c2.tokens.contains(t));
    assert(c2.tokens.len() > 0);
}

/// A custom header that carries one of its configured tokens lets the
/// request in, whatever the `Authorization` header holds.
pub proof fn lemma_custom_header_authenticates(
    c: ConfigView,
    name: Seq<char>,
    req: Seq<(Seq<char>, Option<Seq<char>>)>,
    v: Seq<char>,
)
    requires
        c.headers.contains_key(name),
        readable_value(req, canonical_header_name(name)) == Some(v),
        c.headers[name].contains(trim(v)),
    ensures
        decision(c, req) == AuthDecision::Accepted,
{
    assert(c.headers.dom().contains(name));
    assert(header_accepts(req, canonical_header_name(name), c.headers[name]));
}

/// Adding credentials never shuts out a request that was let in: if every
/// bearer token and every header token of `c` is still configured in
/// `more`, whatever `c` accepts, `more` accepts.
pub proof fn lemma_more_credentials_keep_access(
    c: ConfigView,
    more: ConfigView,
    req: Seq<(Seq<char>, Option<Seq<char>>)>,
)
    requires
        forall|t: Seq<char>| #[trigger] c.tokens.contains(t) ==> more.tokens.contains(t),
        forall|n: Seq<char>|
            #[trigger] c.headers.contains_key(n) ==> more.headers.contains_key(n) && forall|
                t: Seq<char>,
            | #[trigger] c.headers[n].contains(t) ==> more.headers[n].contains(t),
        decision(c, req) == AuthDecision::Accepted,
    ensures
        decision(more, req) == AuthDecision::Accepted,
{
    let key = canonical_header_name(authorization_name());
    if bearer_accepts(c.tokens, readable_value(req, key)) {
        let v = readable_value(req, key)->0;
        assert(more.tokens.contains(offered_bearer(v)));
        assert(more.tokens.len() > 0);
    } else {
        let n = choose|n: Seq<char>|
            #![trigger c.headers.contains_key(n)]
            c.headers.contains_key(n) && header_accepts(req, canonical_header_name(n), c.headers[n]);
        let v = readable_value(req, canonical_header_name(n))->0;
        assert(c.headers[n].contains(trim(v)));
        assert(more.headers.contains_key(n));
        assert(more.headers[n].contains(trim(v)));
        assert(more.headers.dom().contains(n));
        assert(header_accepts(req, canonical_header_name(n), more.headers[n]));
    }
}


/// The bearer token is compared exactly as sent: for every token `t` with
/// no whitespace at either end that does not itself begin with `Bearer `,
/// an `Authorization` value of `Bearer ` followed by `t` is accepted
/// exactly when `t` is one of the configured tokens.
pub proof fn lemma_bearer_token_compared_as_sent(tokens: Seq<Seq<char>>, t: Seq<char>)
    requires
        t.len() > 0 ==> !crate::text::is_white_space(t[0]) && !crate::text::is_white_space(t.last()),
        !bearer_prefix().is_prefix_of(t),
    ensures
        bearer_accepts(tokens, Some(bearer_prefix() + t)) == tokens.contains(t),
{
    let v = bearer_prefix() + t;
    assert(bearer_prefix().is_prefix_of(v)) by {
        assert(v.subrange(0, bearer_prefix().len() as int) =~= bearer_prefix());
    }
    assert(v.skip(bearer_prefix().len() as int) =~= t);
    assert(strip_prefixes(v, bearer_prefix()) == strip_prefixes(t, bearer_prefix()));
    assert(strip_prefixes(t, bearer_prefix()) == t);
    if t.len() > 0 {
        crate::text::lemma_trim_unchanged(t);
    } else {
        assert(crate::text::trim_start(t) == t);
        assert(crate::text::trim_end(t) == t);
    }
    assert(offered_bearer(v) == t);
}


/// A custom header's value is compared exactly as sent, but for blanks at
/// its ends: a readable value with no whitespace at either end is accepted
/// exactly when it is one of the header's tokens.
pub proof fn lemma_custom_value_compared_as_sent(
    req: Seq<(Seq<char>, Option<Seq<char>>)>,
    key: Option<Seq<char>>,
    tokens: Seq<Seq<char>>,
    v: Seq<char>,
)
    requires
        readable_value(req, key) == Some(v),
        v.len() > 0 ==> !crate::text::is_white_space(v[0]) && !crate::text::is_white_space(v.last()),
    ensures
        header_accepts(req, key, tokens) == tokens.contains(v),
{
    if v.len() > 0 {
        crate::text::lemma_trim_unchanged(v);
    } else {
        assert(crate::text::trim_start(v) == v);
        assert(crate::text::trim_end(v) == v);
    }
}

/// Looking a header up finds the first header stored under the key: the
/// result is the value of a header with that key before which no header
/// has it, or nothing when no header has it.
pub proof fn lemma_lookup_finds_first(req: Seq<(Seq<char>, Option<Seq<char>>)>, key: Seq<char>)
    ensures
        match lookup(req, key) {
            Some(x) => exists|i: int|
                0 <= i < req.len() && req[i].0 == key && req[i].1 == x && forall|j: int|
                    0 <= j < i ==> #[trigger] req[j].0 != key,
            None => forall|i: int| 0 <= i < req.len() ==> #[trigger] req[i].0 != key,
        },
    decreases req.len(),
{
    if req.len() > 0 {
        let rest = req.drop_first();
        lemma_lookup_finds_first(rest, key);
        if req[0].0 != key {
            match lookup(rest, key) {
                Some(x) => {
                    let i = choose|i: int|
                        0 <= i < rest.len() && rest[i].0 == key && rest[i].1 == x && forall|j: int|
                            0 <= j < i ==> #[trigger] rest[j].0 != key;
                    assert(req[i + 1] == rest[i]);
                    assert forall|j: int| 0 <= j < i + 1 implies #[trigger] req[j].0 != key by {
                        if j > 0 {
                            assert(req[j] == rest[j - 1]);
                        }
                    }
                },
                None => {
                    assert forall|i: int| 0 <= i < req.len() implies #[trigger] req[i].0 != key by {
                        if i > 0 {
                            assert(req[i] == rest[i - 1]);
                        }
                    }
                },
            }
        }
    }
}

} // verus!
