//! The daemon's configuration: bearer tokens, tokens per custom header,
//! and the server settings, with the edits that the command line makes.
use vstd::prelude::*;

use crate::text::{
    lemma_text_less_total, lemma_text_less_transitive, lowercase, same_text, text_less, text_lt,
    to_lowercase,
};

verus! {

/// The port the server listens on unless told otherwise.
pub fn default_port() -> (r: u16)
    ensures
        r == 9090,
{
    9090
}

/// Logging is on unless turned off.
pub fn default_no_log() -> (r: bool)
    ensures
        r == false,
{
    false
}

/// Scripts are waited for unless told otherwise.
pub fn default_no_wait() -> (r: bool)
    ensures
        r == false,
{
    false
}

/// The tokens accepted in one custom header.
pub struct HeaderEntry {
    /// The header's name, as stored (lowercase when added by the command line).
    pub name: String,
    /// The accepted values, in the order they were added.
    pub tokens: Vec<String>,
}

/// A header entry as text.
pub open spec fn entry_view(e: HeaderEntry) -> (Seq<char>, Seq<Seq<char>>) {
    (e.name@, e.tokens.deep_view())
}

/// A list of header entries as text.
pub open spec fn entries_view(v: Seq<HeaderEntry>) -> Seq<(Seq<char>, Seq<Seq<char>>)> {
    v.map_values(|e: HeaderEntry| entry_view(e))
}

/// No header name occurs twice.
pub open spec fn names_distinct(h: Seq<(Seq<char>, Seq<Seq<char>>)>) -> bool {
    forall|i: int, j: int| 0 <= i < h.len() && 0 <= j < h.len() && i != j ==> h[i].0 != h[j].0
}

/// Whether some entry has this name.
pub open spec fn has_name(h: Seq<(Seq<char>, Seq<Seq<char>>)>, name: Seq<char>) -> bool {
    exists|i: int| 0 <= i < h.len() && h[i].0 == name
}

/// The header entries as a map from name to tokens.
pub open spec fn header_map(h: Seq<(Seq<char>, Seq<Seq<char>>)>) -> Map<Seq<char>, Seq<Seq<char>>> {
    Map::new(
        |k: Seq<char>| has_name(h, k),
        |k: Seq<char>| h[choose|i: int| 0 <= i < h.len() && h[i].0 == k].1,
    )
}

/// What a configuration holds.
pub struct ConfigView {
    pub tokens: Seq<Seq<char>>,
    pub headers: Map<Seq<char>, Seq<Seq<char>>>,
    pub port: u16,
    pub no_log: bool,
    pub no_wait: bool,
}

/// The daemon's configuration.
pub struct Config {
    tokens: Vec<String>,
    headers: Vec<HeaderEntry>,
    port: u16,
    no_log: bool,
    no_wait: bool,
}

impl View for Config {
    type V = ConfigView;

    closed spec fn view(&self) -> ConfigView {
        ConfigView {
            tokens: self.tokens.deep_view(),
            headers: header_map(entries_view(self.headers@)),
            port: self.port,
            no_log: self.no_log,
            no_wait: self.no_wait,
        }
    }
}

impl Default for Config {
    fn default() -> (r: Config)
        ensures
            r.wf(),
            r@.tokens == Seq::<Seq<char>>::empty(),
            r@.headers == Map::<Seq<char>, Seq<Seq<char>>>::empty(),
            r@.port == 9090,
            r@.no_log == false,
            r@.no_wait == false,
    {
        let r = Config {
            tokens: Vec::new(),
            headers: Vec::new(),
            port: default_port(),
            no_log: default_no_log(),
            no_wait: default_no_wait(),
        };
        assert(r.tokens.deep_view() =~= Seq::<Seq<char>>::empty());
        assert(header_map(entries_view(r.headers@)) =~= Map::<Seq<char>, Seq<Seq<char>>>::empty());
        r
    }
}

} // verus!

verus! {

/// Within distinct names, the map holds at each name the tokens of the one
/// entry with that name.
pub proof fn lemma_header_map_at(h: Seq<(Seq<char>, Seq<Seq<char>>)>, i: int)
    requires
        names_distinct(h),
        0 <= i < h.len(),
    ensures
        header_map(h).contains_key(h[i].0),
        header_map(h)[h[i].0] == h[i].1,
{
    assert(has_name(h, h[i].0));
    let j = choose|j: int| 0 <= j < h.len() && h[j].0 == h[i].0;
    assert(j == i);
}

proof fn lemma_header_map_push(h: Seq<(Seq<char>, Seq<Seq<char>>)>, e: (Seq<char>, Seq<Seq<char>>))
    requires
        names_distinct(h),
        !has_name(h, e.0),
    ensures
        names_distinct(h.push(e)),
        header_map(h.push(e)) =~= header_map(h).insert(e.0, e.1),
{
    let h2 = h.push(e);
    assert forall|i: int, j: int| 0 <= i < h2.len() && 0 <= j < h2.len() && i != j implies h2[i].0
        != h2[j].0 by {
        if i < h.len() && j < h.len() {
        } else if i == h.len() {
            assert(h2[j] == h[j]);
        } else {
            assert(h2[i] == h[i]);
        }
    }
    assert forall|k: Seq<char>| #[trigger] has_name(h2, k) == (has_name(h, k) || k == e.0) by {
        if has_name(h, k) {
            let i = choose|i: int| 0 <= i < h.len() && h[i].0 == k;
            assert(h2[i] == h[i]);
        }
        if k == e.0 {
            assert(h2[h.len() as int] == e);
        }
        if has_name(h2, k) && k != e.0 {
            let i = choose|i: int| 0 <= i < h2.len() && h2[i].0 == k;
            assert(i < h.len());
            assert(h[i] == h2[i]);
        }
    }
    assert forall|k: Seq<char>| #[trigger] header_map(h2).contains_key(k) implies header_map(h2)[k]
        == header_map(h).insert(e.0, e.1)[k] by {
        let i = choose|i: int| 0 <= i < h2.len() && h2[i].0 == k;
        lemma_header_map_at(h2, i);
        if i < h.len() {
            assert(h2[i] == h[i]);
            lemma_header_map_at(h, i);
        }
    }
}

proof fn lemma_header_map_update(
    h: Seq<(Seq<char>, Seq<Seq<char>>)>,
    i: int,
    tokens: Seq<Seq<char>>,
)
    requires
        names_distinct(h),
        0 <= i < h.len(),
    ensures
        names_distinct(h.update(i, (h[i].0, tokens))),
        header_map(h.update(i, (h[i].0, tokens))) =~= header_map(h).insert(h[i].0, tokens),
{
    let h2 = h.update(i, (h[i].0, tokens));
    assert forall|k: Seq<char>| #[trigger] has_name(h2, k) == has_name(h, k) by {
        if has_name(h, k) {
            let j = choose|j: int| 0 <= j < h.len() && h[j].0 == k;
            assert(h2[j].0 == k);
        }
        if has_name(h2, k) {
            let j = choose|j: int| 0 <= j < h2.len() && h2[j].0 == k;
            assert(h[j].0 == k);
        }
    }
    lemma_header_map_at(h, i);
    assert forall|k: Seq<char>| #[trigger] header_map(h2).contains_key(k) implies header_map(h2)[k]
        == header_map(h).insert(h[i].0, tokens)[k] by {
        let j = choose|j: int| 0 <= j < h2.len() && h2[j].0 == k;
        lemma_header_map_at(h2, j);
        if j != i {
            lemma_header_map_at(h, j);
        }
    }
}

proof fn lemma_header_map_remove(h: Seq<(Seq<char>, Seq<Seq<char>>)>, i: int)
    requires
        names_distinct(h),
        0 <= i < h.len(),
    ensures
        names_distinct(h.remove(i)),
        header_map(h.remove(i)) =~= header_map(h).remove(h[i].0),
{
    let h2 = h.remove(i);
    assert forall|a: int| 0 <= a < h2.len() implies #[trigger] h2[a] == (if a < i {
        h[a]
    } else {
        h[a + 1]
    }) by {}
    assert forall|k: Seq<char>| #[trigger] has_name(h2, k) == (has_name(h, k) && k != h[i].0) by {
        if has_name(h2, k) {
            let j = choose|j: int| 0 <= j < h2.len() && h2[j].0 == k;
            if j < i {
                assert(h[j].0 == k);
            } else {
                assert(h[j + 1].0 == k);
            }
        }
        if has_name(h, k) && k != h[i].0 {
            let j = choose|j: int| 0 <= j < h.len() && h[j].0 == k;
            if j < i {
                assert(h2[j].0 == k);
            } else {
                assert(h2[j - 1].0 == k);
            }
        }
    }
    assert forall|k: Seq<char>| #[trigger] header_map(h2).contains_key(k) implies header_map(h2)[k]
        == header_map(h).remove(h[i].0)[k] by {
        let j = choose|j: int| 0 <= j < h2.len() && h2[j].0 == k;
        lemma_header_map_at(h2, j);
        if j < i {
            lemma_header_map_at(h, j);
        } else {
            lemma_header_map_at(h, j + 1);
        }
    }
}

/// Where `t` stands first in `v`, if it does.
fn position(v: &Vec<String>, t: &str) -> (r: Option<usize>)
    ensures
        match r {
            Some(i) => v.deep_view().index_of_first(t@) == Some(i as int),
            None => v.deep_view().index_of_first(t@) is None,
        },
{
    let mut i: usize = 0;
    while i < v.len()
        invariant
            i <= v.len(),
            forall|k: int| 0 <= k < i ==> v.deep_view()[k] != t@,
        decreases v.len() - i,
    {
        if same_text(v[i].as_str(), t) {
            proof {
                v.deep_view().index_of_first_ensures(t@);
                assert(v.deep_view()[i as int] == t@);
            }
            return Some(i);
        }
        i = i + 1;
    }
    proof {
        v.deep_view().index_of_first_ensures(t@);
    }
    None
}

/// Whether `t` is among `v`.
pub fn contains_text(v: &Vec<String>, t: &str) -> (r: bool)
    ensures
        r == v.deep_view().contains(t@),
{
    let p = position(v, t);
    proof {
        v.deep_view().index_of_first_ensures(t@);
    }
    p.is_some()
}

/// Where the entry named `name` stands, if there is one.
fn entry_position(v: &Vec<HeaderEntry>, name: &str) -> (r: Option<usize>)
    requires
        names_distinct(entries_view(v@)),
    ensures
        match r {
            Some(i) => i < v.len() && v@[i as int].name@ == name@,
            None => !has_name(entries_view(v@), name@),
        },
{
    let mut i: usize = 0;
    while i < v.len()
        invariant
            i <= v.len(),
            forall|k: int| 0 <= k < i ==> v@[k].name@ != name@,
        decreases v.len() - i,
    {
        if same_text(v[i].name.as_str(), name) {
            return Some(i);
        }
        i = i + 1;
    }
    assert(!has_name(entries_view(v@), name@)) by {
        if has_name(entries_view(v@), name@) {
            let j = choose|j: int|
                0 <= j < entries_view(v@).len() && entries_view(v@)[j].0 == name@;
            assert(v@[j].name@ == name@);
        }
    }
    None
}

/// The outcome of removing a custom header or one of its tokens.
#[derive(PartialEq, Eq, Structural, Clone, Copy, Debug)]
pub enum HeaderRemoval {
    /// No header of that name is configured; nothing changed.
    HeaderNotFound,
    /// The header does not accept that token; nothing changed.
    TokenNotFound,
    /// The token was removed (and with it the header, if it was its last).
    TokenDeleted,
    /// The header and all its tokens were removed.
    HeaderDeleted,
}

/// The settings the server runs with, after the command line's overrides.
#[derive(PartialEq, Eq, Structural, Clone, Copy, Debug)]
pub struct Settings {
    pub port: u16,
    pub no_log: bool,
    pub no_wait: bool,
}

impl Config {
    /// The configuration is well formed: no header name occurs twice.
    pub closed spec fn wf(&self) -> bool {
        names_distinct(entries_view(self.headers@))
    }

    /// A configuration from its parts. Where a header name occurs more than
    /// once, the last entry of that name counts, as when a map is filled in
    /// order.
    pub fn from_parts(
        tokens: Vec<String>,
        headers: Vec<HeaderEntry>,
        port: u16,
        no_log: bool,
        no_wait: bool,
    ) -> (r: Config)
        ensures
            r.wf(),
            r@.tokens == tokens.deep_view(),
            r@.headers == fill_map(entries_view(headers@)),
            names_distinct(entries_view(headers@)) ==> r@.headers == header_map(
                entries_view(headers@),
            ),
            r@.port == port,
            r@.no_log == no_log,
            r@.no_wait == no_wait,
    {
        let mut r = Config { tokens, headers: Vec::new(), port, no_log, no_wait };
        assert(header_map(entries_view(r.headers@)) =~= fill_map(
            entries_view(headers@).take(0),
        ));
        let mut rest = headers;
        let ghost all = entries_view(headers@);
        let mut i: usize = 0;
        let n: usize = rest.len();
        while rest.len() > 0
            invariant
                r.wf(),
                i + rest.len() == n,
                n == all.len(),
                entries_view(rest@) == all.skip(i as int),
                header_map(entries_view(r.headers@)) == fill_map(all.take(i as int)),
                r.tokens.deep_view() == tokens.deep_view(),
                r.port == port,
                r.no_log == no_log,
                r.no_wait == no_wait,
            decreases rest.len(),
        {
            let ghost before = rest@;
            let e = rest.remove(0);
            assert(entries_view(before)[0] == all.skip(i as int)[0]);
            assert(entry_view(e) == all[i as int]);
            assert forall|k: int| 0 <= k < rest@.len() implies #[trigger] entries_view(rest@)[k]
                == all.skip(i + 1)[k] by {
                assert(rest@[k] == before[k + 1]);
                assert(entries_view(before)[k + 1] == all.skip(i as int)[k + 1]);
            }
            assert(entries_view(rest@) =~= all.skip(i + 1));
            assert(all.take(i + 1).drop_last() =~= all.take(i as int));
            r.set_header(e);
            i = i + 1;
        }
        assert(all.take(n as int) =~= all);
        proof {
            if names_distinct(all) {
                lemma_rebuild_from_entries(all);
            }
        }
        r
    }

    /// Puts `e` in place of the entry with its name, or adds it.
    fn set_header(&mut self, e: HeaderEntry)
        requires
            old(self).wf(),
        ensures
            final(self).wf(),
            final(self)@ == (ConfigView {
                headers: old(self)@.headers.insert(e.name@, e.tokens.deep_view()),
                ..old(self)@
            }),
    {
        let ghost h = entries_view(self.headers@);
        match entry_position(&self.headers, e.name.as_str()) {
            Some(i) => {
                let ghost ev = entry_view(e);
                self.headers.set(i, e);
                assert(entries_view(self.headers@) =~= h.update(i as int, (h[i as int].0, ev.1)));
                proof {
                    lemma_header_map_update(h, i as int, ev.1);
                }
            },
            None => {
                let ghost ev = entry_view(e);
                self.headers.push(e);
                assert(entries_view(self.headers@) =~= h.push(ev));
                proof {
                    lemma_header_map_push(h, ev);
                }
            },
        }
    }

    /// The bearer tokens.
    pub fn tokens(&self) -> (r: &Vec<String>)
        ensures
            r.deep_view() == self@.tokens,
    {
        &self.tokens
    }

    /// The header entries, each name once.
    pub fn header_entries(&self) -> (r: &Vec<HeaderEntry>)
        requires
            self.wf(),
        ensures
            names_distinct(entries_view(r@)),
            header_map(entries_view(r@)) == self@.headers,
    {
        &self.headers
    }

    /// The configured port.
    pub fn port(&self) -> (r: u16)
        ensures
            r == self@.port,
    {
        self.port
    }

    /// Whether logging is turned off.
    pub fn no_log(&self) -> (r: bool)
        ensures
            r == self@.no_log,
    {
        self.no_log
    }

    /// Whether scripts run without being waited for.
    pub fn no_wait(&self) -> (r: bool)
        ensures
            r == self@.no_wait,
    {
        self.no_wait
    }

    /// Whether nothing at all is configured to authenticate with.
    pub fn has_no_credentials(&self) -> (r: bool)
        ensures
            r == (self@.tokens.len() == 0 && self@.headers.dom().is_empty()),
    {
        proof {
            if self.headers.len() > 0 {
                assert(entries_view(self.headers@)[0].0 == self.headers@[0].name@);
                assert(has_name(entries_view(self.headers@), self.headers@[0].name@));
                assert(self@.headers.dom().contains(self.headers@[0].name@));
            } else {
                assert(self@.headers.dom() =~= Set::<Seq<char>>::empty());
            }
        }
        self.tokens.len() == 0 && self.headers.len() == 0
    }

    /// The tokens accepted in the header named `name`, if it is configured.
    pub fn header_tokens(&self, name: &str) -> (r: Option<&Vec<String>>)
        requires
            self.wf(),
        ensures
            match r {
                Some(v) => self@.headers.contains_key(name@) && v.deep_view()
                    == self@.headers[name@],
                None => !self@.headers.contains_key(name@),
            },
    {
        match entry_position(&self.headers, name) {
            Some(i) => {
                proof {
                    lemma_header_map_at(entries_view(self.headers@), i as int);
                }
                Some(&self.headers[i].tokens)
            },
            None => None,
        }
    }

    /// Adds a bearer token, unless it is already there. Returns whether it
    /// was added.
    pub fn add_token(&mut self, token: String) -> (added: bool)
        requires
            old(self).wf(),
        ensures
            final(self).wf(),
            added == !old(self)@.tokens.contains(token@),
            final(self)@ == (if added {
                ConfigView { tokens: old(self)@.tokens.push(token@), ..old(self)@ }
            } else {
                old(self)@
            }),
    {
        if contains_text(&self.tokens, token.as_str()) {
            return false;
        }
        let ghost before = self.tokens.deep_view();
        self.tokens.push(token);
        assert(self.tokens.deep_view() =~= before.push(token@));
        true
    }

    /// Removes the first occurrence of a bearer token. Returns whether it
    /// was there.
    pub fn delete_token(&mut self, token: &str) -> (deleted: bool)
        requires
            old(self).wf(),
        ensures
            final(self).wf(),
            deleted == old(self)@.tokens.contains(token@),
            final(self)@ == (ConfigView {
                tokens: old(self)@.tokens.remove_value(token@),
                ..old(self)@
            }),
    {
        proof {
            self.tokens.deep_view().index_of_first_ensures(token@);
        }
        match position(&self.tokens, token) {
            Some(i) => {
                let ghost before = self.tokens.deep_view();
                self.tokens.remove(i);
                assert(self.tokens.deep_view() =~= before.remove(i as int));
                true
            },
            None => false,
        }
    }

    /// Adds `token` to the header named exactly `name`, creating the header
    /// if needed, unless the header already accepts it. Returns whether it
    /// was added.
    pub fn add_header_token_exact(&mut self, name: String, token: String) -> (added: bool)
        requires
            old(self).wf(),
        ensures
            final(self).wf(),
            added == !(old(self)@.headers.contains_key(name@) && old(self)@.headers[name@].contains(
                token@,
            )),
            final(self)@ == (if added {
                ConfigView {
                    headers: headers_after_adding(old(self)@.headers, name@, token@),
                    ..old(self)@
                }
            } else {
                old(self)@
            }),
    {
        let ghost h = entries_view(self.headers@);
        match entry_position(&self.headers, name.as_str()) {
            Some(i) => {
                proof {
                    lemma_header_map_at(h, i as int);
                }
                if contains_text(&self.headers[i].tokens, token.as_str()) {
                    return false;
                }
                let mut e = self.headers.remove(i);
                let ghost before = e.tokens.deep_view();
                e.tokens.push(token);
                assert(e.tokens.deep_view() =~= before.push(token@));
                self.headers.insert(i, e);
                assert(entries_view(self.headers@) =~= h.update(
                    i as int,
                    (h[i as int].0, before.push(token@)),
                ));
                proof {
                    lemma_header_map_update(h, i as int, before.push(token@));
                }
                true
            },
            None => {
                let mut tokens: Vec<String> = Vec::new();
                tokens.push(token);
                let e = HeaderEntry { name, tokens };
                let ghost ev = entry_view(e);
                assert(ev.1 =~= seq![token@]);
                self.headers.push(e);
                assert(entries_view(self.headers@) =~= h.push(ev));
                proof {
                    lemma_header_map_push(h, ev);
                }
                true
            },
        }
    }

    /// Adds `token` to a custom header, whose name is stored in lowercase.
    /// Returns whether it was added.
    pub fn add_header_token(&mut self, header: &str, token: String) -> (added: bool)
        requires
            old(self).wf(),
        ensures
            final(self).wf(),
            added == !(old(self)@.headers.contains_key(lowercase(header@))
                && old(self)@.headers[lowercase(header@)].contains(token@)),
            final(self)@ == (if added {
                ConfigView {
                    headers: headers_after_adding(old(self)@.headers, lowercase(header@), token@),
                    ..old(self)@
                }
            } else {
                old(self)@
            }),
    {
        let name = to_lowercase(header);
        self.add_header_token_exact(name, token)
    }

    /// Removes a token from the header named exactly `name`, and the header
    /// too once it accepts no token; or, with no token given, the whole
    /// header.
    pub fn remove_header_exact(&mut self, name: &str, token: Option<&str>) -> (r: HeaderRemoval)
        requires
            old(self).wf(),
        ensures
            final(self).wf(),
            r == removal_outcome(old(self)@.headers, name@, token.deep_view()),
            final(self)@ == (ConfigView {
                headers: headers_after_removal(old(self)@.headers, name@, token.deep_view()),
                ..old(self)@
            }),
    {
        let ghost h = entries_view(self.headers@);
        let i = match entry_position(&self.headers, name) {
            Some(i) => i,
            None => {
                return HeaderRemoval::HeaderNotFound;
            },
        };
        proof {
            lemma_header_map_at(h, i as int);
        }
        match token {
            None => {
                self.headers.remove(i);
                assert(entries_view(self.headers@) =~= h.remove(i as int));
                proof {
                    lemma_header_map_remove(h, i as int);
                }
                HeaderRemoval::HeaderDeleted
            },
            Some(t) => {
                proof {
                    self.headers@[i as int].tokens.deep_view().index_of_first_ensures(t@);
                }
                let p = match position(&self.headers[i].tokens, t) {
                    Some(p) => p,
                    None => {
                        return HeaderRemoval::TokenNotFound;
                    },
                };
                let mut e = self.headers.remove(i);
                let ghost before = e.tokens.deep_view();
                e.tokens.remove(p);
                assert(e.tokens.deep_view() =~= before.remove(p as int));
                if e.tokens.len() == 0 {
                    assert(entries_view(self.headers@) =~= h.remove(i as int));
                    proof {
                        lemma_header_map_remove(h, i as int);
                    }
                } else {
                    self.headers.insert(i, e);
                    assert(entries_view(self.headers@) =~= h.update(
                        i as int,
                        (h[i as int].0, before.remove(p as int)),
                    ));
                    proof {
                        lemma_header_map_update(h, i as int, before.remove(p as int));
                    }
                }
                HeaderRemoval::TokenDeleted
            },
        }
    }

    /// Removes a token from a custom header (or, with no token, the whole
    /// header); the name is looked up in lowercase.
    pub fn remove_header(&mut self, header: &str, token: Option<&str>) -> (r: HeaderRemoval)
        requires
            old(self).wf(),
        ensures
            final(self).wf(),
            r == removal_outcome(old(self)@.headers, lowercase(header@), token.deep_view()),
            final(self)@ == (ConfigView {
                headers: headers_after_removal(
                    old(self)@.headers,
                    lowercase(header@),
                    token.deep_view(),
                ),
                ..old(self)@
            }),
    {
        let name = to_lowercase(header);
        self.remove_header_exact(name.as_str(), token)
    }

    /// The settings to run with: the port given on the command line, else
    /// the configured one; logging off or not waiting if either the command
    /// line or the configuration says so.
    pub fn resolve_settings(&self, port: Option<u16>, no_log: bool, no_wait: bool) -> (r: Settings)
        ensures
            r == resolved_settings(self@, port, no_log, no_wait),
    {
        Settings {
            port: match port {
                Some(p) => p,
                None => self.port,
            },
            no_log: no_log || self.no_log,
            no_wait: no_wait || self.no_wait,
        }
    }

    /// Records the settings the server is started with.
    pub fn apply_settings(&mut self, s: Settings)
        requires
            old(self).wf(),
        ensures
            final(self).wf(),
            final(self)@ == (ConfigView {
                port: s.port,
                no_log: s.no_log,
                no_wait: s.no_wait,
                ..old(self)@
            }),
    {
        self.port = s.port;
        self.no_log = s.no_log;
        self.no_wait = s.no_wait;
    }
}

/// A map filled with the given pairs in order, later pairs replacing
/// earlier ones of the same name.
pub open spec fn fill_map(h: Seq<(Seq<char>, Seq<Seq<char>>)>) -> Map<Seq<char>, Seq<Seq<char>>>
    decreases h.len(),
{
    if h.len() == 0 {
        Map::empty()
    } else {
        fill_map(h.drop_last()).insert(h.last().0, h.last().1)
    }
}

/// The settings that the command line and the configuration give together.
pub open spec fn resolved_settings(c: ConfigView, port: Option<u16>, no_log: bool, no_wait: bool) -> Settings {
    Settings {
        port: match port {
            Some(p) => p,
            None => c.port,
        },
        no_log: no_log || c.no_log,
        no_wait: no_wait || c.no_wait,
    }
}

/// What removing `token` (or, with none, the whole header) from the header
/// `name` reports.
pub open spec fn removal_outcome(
    headers: Map<Seq<char>, Seq<Seq<char>>>,
    name: Seq<char>,
    token: Option<Seq<char>>,
) -> HeaderRemoval {
    if !headers.contains_key(name) {
        HeaderRemoval::HeaderNotFound
    } else {
        match token {
            None => HeaderRemoval::HeaderDeleted,
            Some(t) => if headers[name].contains(t) {
                HeaderRemoval::TokenDeleted
            } else {
                HeaderRemoval::TokenNotFound
            },
        }
    }
}

/// The headers after removing `token` (or, with none, the whole header)
/// from the header `name`: a header left with no token goes too.
pub open spec fn headers_after_removal(
    headers: Map<Seq<char>, Seq<Seq<char>>>,
    name: Seq<char>,
    token: Option<Seq<char>>,
) -> Map<Seq<char>, Seq<Seq<char>>> {
    if !headers.contains_key(name) {
        headers
    } else {
        match token {
            None => headers.remove(name),
            Some(t) => if !headers[name].contains(t) {
                headers
            } else if headers[name].remove_value(t).len() == 0 {
                headers.remove(name)
            } else {
                headers.insert(name, headers[name].remove_value(t))
            },
        }
    }
}

/// Strictly increasing in the order of text.
pub open spec fn strictly_sorted(s: Seq<Seq<char>>) -> bool {
    forall|i: int, j: int| 0 <= i < j < s.len() ==> text_less(#[trigger] s[i], #[trigger] s[j])
}

/// `x` put into the sorted `r` at the place the order gives it.
fn insert_sorted(r: &mut Vec<String>, x: String)
    requires
        strictly_sorted(old(r).deep_view()),
        !old(r).deep_view().contains(x@),
    ensures
        strictly_sorted(final(r).deep_view()),
        final(r).len() == old(r).len() + 1,
        forall|k: Seq<char>| #[trigger] final(r).deep_view().contains(k) == (old(r).deep_view().contains(k)
            || k == x@),
{
    let ghost v = r.deep_view();
    let mut j: usize = 0;
    while j < r.len() && !text_lt(x.as_str(), r[j].as_str())
        invariant
            j <= r.len(),
            v == r.deep_view(),
            !v.contains(x@),
            forall|i: int| 0 <= i < j ==> text_less(#[trigger] v[i], x@),
        decreases r.len() - j,
    {
        proof {
            assert(v[j as int] == r@[j as int]@);
            lemma_text_less_total(x@, v[j as int]);
            if v[j as int] == x@ {
                assert(v.contains(x@));
            }
        }
        j = j + 1;
    }
    r.insert(j, x);
    let ghost w = r.deep_view();
    assert(w =~= v.insert(j as int, x@));
    assert forall|a: int, b: int| 0 <= a < b < w.len() implies text_less(
        #[trigger] w[a],
        #[trigger] w[b],
    ) by {
        if j < v.len() {
            assert(v[j as int] == r@[j as int + 1]@);
            assert(text_less(x@, v[j as int]));
        }
        if b < j {
        } else if b == j {
        } else if a < j {
            lemma_text_less_transitive(w[a], x@, v[j as int]);
            if b - 1 > j {
                lemma_text_less_transitive(w[a], v[j as int], w[b]);
            }
        } else if a == j {
            if b - 1 > j {
                lemma_text_less_transitive(x@, v[j as int], w[b]);
            }
        } else {
        }
    }
    assert forall|k: Seq<char>| #[trigger] w.contains(k) == (v.contains(k) || k == x@) by {
        if w.contains(k) {
            let i = choose|i: int| 0 <= i < w.len() && w[i] == k;
            if i < j {
                assert(v[i] == k);
            } else if i > j {
                assert(v[i - 1] == k);
            }
        }
        if v.contains(k) {
            let i = choose|i: int| 0 <= i < v.len() && v[i] == k;
            if i < j {
                assert(w[i] == k);
            } else {
                assert(w[i + 1] == k);
            }
        }
        if k == x@ {
            assert(w[j as int] == k);
        }
    }
}

impl Config {
    /// The names of the custom headers, in increasing order.
    pub fn sorted_header_names(&self) -> (r: Vec<String>)
        requires
            self.wf(),
        ensures
            strictly_sorted(r.deep_view()),
            forall|k: Seq<char>| #[trigger] r.deep_view().contains(k) == self@.headers.contains_key(k),
    {
        let ghost h = entries_view(self.headers@);
        let mut r: Vec<String> = Vec::new();
        let mut i: usize = 0;
        while i < self.headers.len()
            invariant
                i <= self.headers.len(),
                h == entries_view(self.headers@),
                names_distinct(h),
                strictly_sorted(r.deep_view()),
                forall|k: Seq<char>| #[trigger] r.deep_view().contains(k) == (exists|m: int|
                    0 <= m < i && h[m].0 == k),
            decreases self.headers.len() - i,
        {
            let name = self.headers[i].name.clone();
            assert(h[i as int].0 == name@);
            assert(!r.deep_view().contains(name@)) by {
                if r.deep_view().contains(name@) {
                    let m = choose|m: int| 0 <= m < i && h[m].0 == name@;
                }
            }
            let ghost before = r.deep_view();
            insert_sorted(&mut r, name);
            assert forall|k: Seq<char>| #[trigger] r.deep_view().contains(k) == (exists|m: int|
                0 <= m < i + 1 && h[m].0 == k) by {
                if before.contains(k) {
                    let m = choose|m: int| 0 <= m < i && h[m].0 == k;
                }
                if exists|m: int| 0 <= m < i + 1 && h[m].0 == k {
                    let m = choose|m: int| 0 <= m < i + 1 && h[m].0 == k;
                    if m < i {
                        assert(before.contains(k));
                    }
                }
            }
            i = i + 1;
        }
        assert forall|k: Seq<char>| #[trigger] r.deep_view().contains(k) == self@.headers.contains_key(
            k,
        ) by {
            assert(self@.headers.contains_key(k) == has_name(h, k));
        }
        r
    }
}

/// The headers after `add_header_token_exact` adds `token` to `name`.
pub open spec fn headers_after_adding(
    headers: Map<Seq<char>, Seq<Seq<char>>>,
    name: Seq<char>,
    token: Seq<char>,
) -> Map<Seq<char>, Seq<Seq<char>>> {
    headers.insert(
        name,
        if headers.contains_key(name) {
            headers[name].push(token)
        } else {
            seq![token]
        },
    )
}

/// `remove_value` on a sequence without the value leaves it unchanged,
/// and right after pushing the value it takes the pushed copy.
proof fn lemma_remove_pushed(s: Seq<Seq<char>>, t: Seq<char>)
    requires
        !s.contains(t),
    ensures
        s.push(t).remove_value(t) == s,
{
    let p = s.push(t);
    p.index_of_first_ensures(t);
    assert(p[s.len() as int] == t);
    let i = p.index_of_first(t)->0;
    if i < s.len() {
        assert(s[i] == t);
    }
    assert(p.remove(s.len() as int) =~= s);
}

/// Deleting a bearer token right after adding it gives back the tokens
/// there were.
pub proof fn lemma_delete_token_undoes_add(tokens: Seq<Seq<char>>, t: Seq<char>)
    requires
        !tokens.contains(t),
    ensures
        tokens.push(t).remove_value(t) == tokens,
{
    lemma_remove_pushed(tokens, t);
}

/// Deleting a header token right after adding it gives back the headers
/// there were, where the header was new or held other tokens without it.
pub proof fn lemma_remove_header_token_undoes_add(
    headers: Map<Seq<char>, Seq<Seq<char>>>,
    name: Seq<char>,
    token: Seq<char>,
)
    requires
        headers.contains_key(name) ==> headers[name].len() > 0 && !headers[name].contains(token),
    ensures
        headers_after_removal(headers_after_adding(headers, name, token), name, Some(token))
            == headers,
{
    let added = headers_after_adding(headers, name, token);
    if headers.contains_key(name) {
        lemma_remove_pushed(headers[name], token);
        assert(added[name] == headers[name].push(token));
        assert(added[name][headers[name].len() as int] == token);
        assert(added[name].contains(token));
        assert(added.insert(name, headers[name]) =~= headers);
    } else {
        let one = seq![token];
        assert(one[0] == token);
        assert(one.contains(token));
        lemma_remove_pushed(Seq::empty(), token);
        assert(Seq::<Seq<char>>::empty().push(token) =~= one);
        assert(added.remove(name) =~= headers);
    }
}

/// Once added, a token is accepted by its header, so adding it again is
/// refused and changes nothing.
pub proof fn lemma_added_header_token_present(
    headers: Map<Seq<char>, Seq<Seq<char>>>,
    name: Seq<char>,
    token: Seq<char>,
)
    ensures
        headers_after_adding(headers, name, token).contains_key(name),
        headers_after_adding(headers, name, token)[name].contains(token),
{
    let added = headers_after_adding(headers, name, token);
    if headers.contains_key(name) {
        assert(added[name][headers[name].len() as int] == token);
    } else {
        assert(added[name][0] == token);
    }
}

/// Filling a map in order from entries with distinct names gives the map
/// those entries stand for: a configuration saved as its tokens and header
/// entries, then rebuilt with `Config::from_parts`, is the configuration it
/// was (`header_entries` yields distinct names whose map is the
/// configuration's headers, and `from_parts` fills a map from them).
pub proof fn lemma_rebuild_from_entries(h: Seq<(Seq<char>, Seq<Seq<char>>)>)
    requires
        names_distinct(h),
    ensures
        fill_map(h) == header_map(h),
    decreases h.len(),
{
    if h.len() == 0 {
        assert(header_map(h) =~= Map::<Seq<char>, Seq<Seq<char>>>::empty());
    } else {
        let init = h.drop_last();
        let e = h.last();
        assert(names_distinct(init));
        lemma_rebuild_from_entries(init);
        assert(!has_name(init, e.0)) by {
            if has_name(init, e.0) {
                let i = choose|i: int| 0 <= i < init.len() && init[i].0 == e.0;
                assert(h[i].0 == h[h.len() - 1].0);
            }
        }
        assert(init.push(e) =~= h);
        lemma_header_map_push(init, e);
    }
}


/// The command line can only turn logging off and waiting off, never back
/// on: each resolved flag is true exactly when the command line or the
/// saved configuration sets it, and the port is the command line's when
/// given, else the saved one.
pub proof fn lemma_settings_flags_combine(
    c: ConfigView,
    port: Option<u16>,
    p: u16,
    no_log: bool,
    no_wait: bool,
)
    ensures
        resolved_settings(c, port, no_log, no_wait).no_log == (no_log || c.no_log),
        resolved_settings(c, port, no_log, no_wait).no_wait == (no_wait || c.no_wait),
        resolved_settings(c, Some(p), no_log, no_wait).port == p,
        resolved_settings(c, None, no_log, no_wait).port == c.port,
{
}


/// Removing from a header touches that header only. With no token the
/// header goes; with a token it holds, its first copy goes, and the header
/// with it once no token is left; with a token it does not hold, or a
/// header that is not there, nothing changes.
pub proof fn lemma_removal_touches_one_header(
    headers: Map<Seq<char>, Seq<Seq<char>>>,
    name: Seq<char>,
    token: Option<Seq<char>>,
    other: Seq<char>,
)
    requires
        other != name,
    ensures
        headers_after_removal(headers, name, token).contains_key(other) == headers.contains_key(
            other,
        ),
        headers.contains_key(other) ==> headers_after_removal(headers, name, token)[other]
            == headers[other],
        !headers.contains_key(name) ==> headers_after_removal(headers, name, token) == headers
            && removal_outcome(headers, name, token) == HeaderRemoval::HeaderNotFound,
        headers.contains_key(name) && token is None ==> !headers_after_removal(
            headers,
            name,
            token,
        ).contains_key(name) && removal_outcome(headers, name, token)
            == HeaderRemoval::HeaderDeleted,
        headers.contains_key(name) && token is Some && !headers[name].contains(token->0) ==> (
        headers_after_removal(headers, name, token) == headers && removal_outcome(
            headers,
            name,
            token,
        ) == HeaderRemoval::TokenNotFound),
        headers.contains_key(name) && token is Some && headers[name].contains(token->0) ==> ({
            let left = headers[name].remove_value(token->0);
            &&& removal_outcome(headers, name, token) == HeaderRemoval::TokenDeleted
            &&& left.len() + 1 == headers[name].len()
            &&& (left.len() == 0 ==> !headers_after_removal(headers, name, token).contains_key(name))
            &&& (left.len() > 0 ==> headers_after_removal(headers, name, token).contains_key(name)
                && headers_after_removal(headers, name, token)[name] == left)
        }),
{
    if headers.contains_key(name) && token is Some && headers[name].contains(token->0) {
        let s = headers[name];
        let t = token->0;
        s.index_of_first_ensures(t);
        let i = s.index_of_first(t)->0;
        assert(s.remove_value(t) == s.remove(i));
    }
}

} // verus!
