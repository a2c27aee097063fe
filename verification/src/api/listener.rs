//! The web UI's listener: moving it, and going back where a move fails.

use vstd::prelude::*;
use vstd::string::*;

use crate::api::config::ApiConfig;
use crate::names::name_same;
use crate::pick::{law_picked, picked};
use crate::text::{decimal, law_a_number_reads_back, number_read, push_decimal};

verus! {

/// How a failed move is told.
pub open spec fn move_failed_text() -> Seq<char> {
    "Web UI could not move to "@
}

/// An address as text.
pub open spec fn address_text(bind: Seq<char>, port: u16) -> Seq<char> {
    bind + ":"@ + decimal(port as int)
}

/// An address to listen on.
pub struct Address {
    pub bind: String,
    pub port: u16,
}

impl View for Address {
    type V = (Seq<char>, u16);

    open spec fn view(&self) -> (Seq<char>, u16) {
        (self.bind@, self.port)
    }
}

impl Address {
    pub fn text(&self) -> (s: String)
        ensures
            s@ == address_text(self@.0, self@.1),
    {
        let mut s: String = String::new();
        s.append(self.bind.as_str());
        s.append(":");
        push_decimal(&mut s, self.port as u64);
        assert(s@ =~= address_text(self.bind@, self.port));
        s
    }

    fn copy(&self) -> (a: Self)
        ensures
            a@ == self@,
    {
        Address { bind: self.bind.as_str().to_owned(), port: self.port }
    }
}

pub open spec fn address_opt(a: Option<Address>) -> Option<(Seq<char>, u16)> {
    match a {
        Some(x) => Some(x@),
        None => None,
    }
}

/// What is told of a move that failed.
pub open spec fn move_failure(wanted: (Seq<char>, u16), error: Seq<char>, kept: (
    Seq<char>,
    u16,
)) -> Seq<char> {
    move_failed_text() + address_text(wanted.0, wanted.1) + " ("@ + error + ") — still on "@
        + address_text(kept.0, kept.1) + "."@
}

/// Does a text start with another?
pub open spec fn begins(s: Seq<char>, with: Seq<char>) -> bool {
    s.len() >= with.len() && s.subrange(0, with.len() as int) == with
}

fn text_begins(s: &str, with: &str) -> (r: bool)
    ensures
        r == begins(s@, with@),
{
    let n: usize = with.unicode_len();
    if s.unicode_len() < n {
        return false;
    }
    let mut i: usize = 0;
    while i < n
        invariant
            i <= n,
            n == with@.len(),
            n <= s@.len(),
            forall|j: int| 0 <= j < i ==> #[trigger] s@[j] == with@[j],
        decreases n - i,
    {
        if s.get_char(i) != with.get_char(i) {
            assert(s@.subrange(0, n as int)[i as int] != with@[i as int]);
            return false;
        }
        i = i + 1;
    }
    assert(s@.subrange(0, n as int) =~= with@);
    true
}

/// The first `n` warnings without those of failed moves.
pub open spec fn without_move_failures(ws: Seq<Seq<char>>, n: int) -> Seq<Seq<char>>
    decreases n,
{
    if n <= 0 {
        Seq::empty()
    } else if begins(ws[n - 1], move_failed_text()) {
        without_move_failures(ws, n - 1)
    } else {
        without_move_failures(ws, n - 1).push(ws[n - 1])
    }
}

pub open spec fn texts(ws: Seq<String>) -> Seq<Seq<char>> {
    Seq::new(ws.len(), |i: int| ws[i]@)
}

/// A move succeeded: earlier failures are no longer worth telling.
pub fn clear_move_failures(warnings: &Vec<String>) -> (kept: Vec<String>)
    ensures
        texts(kept@) == without_move_failures(texts(warnings@), warnings@.len() as int),
{
    let mut kept: Vec<String> = Vec::new();
    let mut i: usize = 0;
    assert(texts(kept@) =~= Seq::<Seq<char>>::empty());
    while i < warnings.len()
        invariant
            i <= warnings@.len(),
            texts(kept@) == without_move_failures(texts(warnings@), i as int),
        decreases warnings@.len() - i,
    {
        let ghost held = texts(kept@);
        if !text_begins(warnings[i].as_str(), "Web UI could not move to ") {
            kept.push(warnings[i].as_str().to_owned());
            assert(texts(kept@) =~= held.push(texts(warnings@)[i as int]));
        }
        i = i + 1;
    }
    kept
}

/// What to do after a refused address.
pub enum Refused {
    /// Nothing was served before: the web UI ends.
    End,
    /// Go back to this address.
    GoBack(Address),
}

/// The listener, by the address it serves.
pub struct Listener {
    pub serving: Option<Address>,
}

impl Listener {
    pub fn new() -> (l: Self)
        ensures
            l.serving is None,
    {
        Listener { serving: None }
    }

    /// The address is bound, and is served from now on.
    pub fn on_bound(&mut self, a: &Address)
        ensures
            address_opt(final(self).serving) == Some(a@),
    {
        self.serving = Some(a.copy());
    }

    /// The configured address could not be bound: back to the one served before, if any.
    pub fn on_refused(&self) -> (r: Refused)
        ensures
            match r {
                Refused::End => self.serving is None,
                Refused::GoBack(a) => address_opt(self.serving) == Some(a@),
            },
    {
        match &self.serving {
            None => Refused::End,
            Some(a) => Refused::GoBack(a.copy()),
        }
    }

    /// The old address was bound again after a refused move: the settings go back to it,
    /// unless they have changed in the meantime, and the failure is told.
    pub fn on_went_back(&self, wanted: &Address, error: &str, api: &mut ApiConfig) -> (told: Option<
        String,
    >)
        ensures
            match address_opt(self.serving) {
                None => told is None && *final(api) == *old(api),
                Some(kept) => (told matches Some(t) && t@ == move_failure(wanted@, error@, kept))
                    && (if (old(api).bind@, old(api).port) == wanted@ {
                    (final(api).bind@, final(api).port) == kept
                } else {
                    *final(api) == *old(api)
                }),
            },
    {
        match &self.serving {
            None => None,
            Some(kept) => {
                let mut s: String = String::new();
                let from: String = wanted.text();
                let to: String = kept.text();
                s.append("Web UI could not move to ");
                s.append(from.as_str());
                s.append(" (");
                s.append(error);
                s.append(") — still on ");
                s.append(to.as_str());
                s.append(".");
                assert(s@ =~= move_failure(wanted@, error@, kept@));
                if name_same(api.bind.as_str(), wanted.bind.as_str()) && api.port == wanted.port {
                    api.bind = kept.bind.as_str().to_owned();
                    api.port = kept.port;
                }
                Some(s)
            },
        }
    }
}

/// What is told of a failed move is dropped by the next move that succeeds.
pub proof fn law_a_failure_is_told_until_a_move_succeeds(
    wanted: (Seq<char>, u16),
    error: Seq<char>,
    kept: (Seq<char>, u16),
    ws: Seq<Seq<char>>,
)
    ensures
        without_move_failures(ws.push(move_failure(wanted, error, kept)), ws.len() as int + 1)
            == without_move_failures(ws, ws.len() as int),
{
    let m = move_failure(wanted, error, kept);
    let all = ws.push(m);
    assert(m.subrange(0, move_failed_text().len() as int) =~= move_failed_text());
    lemma_same_prefix(ws, all, ws.len() as int);
}

proof fn lemma_same_prefix(a: Seq<Seq<char>>, b: Seq<Seq<char>>, n: int)
    requires
        0 <= n <= a.len(),
        n <= b.len(),
        forall|i: int| 0 <= i < n ==> a[i] == #[trigger] b[i],
    ensures
        without_move_failures(a, n) == without_move_failures(b, n),
    decreases n,
{
    if n > 0 {
        lemma_same_prefix(a, b, n - 1);
        assert(a[n - 1] == b[n - 1]);
    }
}

/// An address reads as its host, a colon and its port.
pub proof fn law_an_address_names_host_and_port(bind: Seq<char>, port: u16)
    ensures
        ({
            let s = address_text(bind, port);
            let n = bind.len() as int;
            &&& s.len() > n + 1
            &&& s.subrange(0, n) == bind
            &&& s[n] == ':'
            &&& number_read(s.subrange(n + 1, s.len() as int)) == port
        }),
{
    reveal_strlit(":");
    let s = address_text(bind, port);
    let n = bind.len() as int;
    law_a_number_reads_back(port as int);
    assert(s.subrange(0, n) =~= bind);
    assert(s.subrange(n + 1, s.len() as int) =~= decimal(port as int));
}

/// What is told of a failed move names the address that was wanted first, then the error, and
/// at the end the one that is kept.
pub proof fn law_a_failed_move_names_both_addresses(
    wanted: (Seq<char>, u16),
    error: Seq<char>,
    kept: (Seq<char>, u16),
)
    ensures
        ({
            let s = move_failure(wanted, error, kept);
            let head = "Web UI could not move to "@ + address_text(wanted.0, wanted.1);
            let tail = address_text(kept.0, kept.1) + "."@;
            let n = s.len() as int;
            let h = head.len() as int;
            let t = tail.len() as int;
            &&& n >= h + error.len() + t
            &&& s.subrange(0, h) == head
            &&& s.subrange(n - t, n) == tail
            &&& s.subrange(h, h + 2) == " ("@
            &&& s.subrange(h + 2, h + 2 + error.len()) == error
        }),
{
    reveal_strlit(" (");
    let s = move_failure(wanted, error, kept);
    let head = "Web UI could not move to "@ + address_text(wanted.0, wanted.1);
    let tail = address_text(kept.0, kept.1) + "."@;
    let n = s.len() as int;
    let h = head.len() as int;
    let t = tail.len() as int;
    assert(s.subrange(0, h) =~= head);
    assert(s.subrange(n - t, n) =~= tail);
    assert(s.subrange(h, h + 2) =~= " ("@);
    assert(s.subrange(h + 2, h + 2 + error.len()) =~= error);
}

/// A move that succeeds drops every warning that starts as a failed move does, and keeps every
/// other one.
pub proof fn law_only_failed_moves_are_dropped(ws: Seq<Seq<char>>, w: Seq<char>)
    ensures
        without_move_failures(ws, ws.len() as int).contains(w) <==> ws.contains(w) && !(w.len()
            >= "Web UI could not move to "@.len() && w.subrange(
            0,
            "Web UI could not move to "@.len() as int,
        ) == "Web UI could not move to "@),
        (forall|i: int| 0 <= i < ws.len() ==> !begins(#[trigger] ws[i], "Web UI could not move to "@))
            ==> without_move_failures(ws, ws.len() as int) == ws,
{
    let text = "Web UI could not move to "@;
    let n = ws.len() as int;
    let keep = |i: int| !begins(ws[i], text);
    let own = |i: int| ws[i];
    lemma_kept_as_picked(ws, n);
    law_picked(n, keep, own);
    let kept = without_move_failures(ws, n);
    if kept.contains(w) {
        let i = choose|i: int| 0 <= i < n && #[trigger] keep(i) && own(i) == w;
        assert(ws[i] == w);
    }
    if ws.contains(w) && !begins(w, text) {
        let i = choose|i: int| 0 <= i < n && ws[i] == w;
        assert(keep(i) && own(i) == w);
    }
    if forall|i: int| 0 <= i < n ==> !begins(#[trigger] ws[i], text) {
        lemma_none_dropped(ws, n);
        assert(ws.subrange(0, n) =~= ws);
    }
}

proof fn lemma_kept_as_picked(ws: Seq<Seq<char>>, n: int)
    requires
        0 <= n <= ws.len(),
    ensures
        without_move_failures(ws, n) == picked(
            n,
            |i: int| !begins(ws[i], "Web UI could not move to "@),
            |i: int| ws[i],
        ),
    decreases n,
{
    if n > 0 {
        lemma_kept_as_picked(ws, n - 1);
    }
}

proof fn lemma_none_dropped(ws: Seq<Seq<char>>, n: int)
    requires
        0 <= n <= ws.len(),
        forall|i: int|
            0 <= i < n ==> !begins(#[trigger] ws[i], "Web UI could not move to "@),
    ensures
        without_move_failures(ws, n) == ws.subrange(0, n),
    decreases n,
{
    if n > 0 {
        lemma_none_dropped(ws, n - 1);
        assert(ws.subrange(0, n - 1).push(ws[n - 1]) =~= ws.subrange(0, n));
    } else {
        assert(ws.subrange(0, n) =~= Seq::empty());
    }
}

/// A refused address sends the listener back to the one it serves, and ends it where it
/// serves none.
pub proof fn law_a_refusal_goes_back(l: Listener, r: Refused)
    requires
        call_ensures(Listener::on_refused, (&l,), r),
    ensures
        r is End <==> l.serving is None,
        r matches Refused::GoBack(a) ==> l.serving is Some && a.bind@ == l.serving->Some_0.bind@
            && a.port == l.serving->Some_0.port,
{
}

/// After a refused move the settings name the address that is kept, unless they were changed
/// again; the failure is told wherever something is served.
pub proof fn law_a_refused_move_is_taken_back(
    l: Listener,
    wanted: Address,
    error: &str,
    api: &mut ApiConfig,
    told: Option<String>,
)
    requires
        call_ensures(Listener::on_went_back, (&l, &wanted, error, api), told),
    ensures
        told is Some <==> l.serving is Some,
        l.serving is None ==> *final(api) == *old(api),
        l.serving is Some && old(api).bind@ == wanted.bind@ && old(api).port == wanted.port
            ==> final(api).bind@ == l.serving->Some_0.bind@ && final(api).port
            == l.serving->Some_0.port,
        old(api).bind@ != wanted.bind@ || old(api).port != wanted.port ==> *final(api) == *old(api),
        told matches Some(t) ==> begins(t@, "Web UI could not move to "@),
{
    if let Some(t) = told {
        let kept = l.serving->Some_0@;
        let text = "Web UI could not move to "@;
        assert(t@ == move_failure(wanted@, error@, kept));
        assert(t@.subrange(0, text.len() as int) =~= text);
    }
}

/// The address that was bound last is the one that is served.
pub proof fn law_the_bound_address_is_served(l: &mut Listener, a: Address, done: ())
    requires
        call_ensures(Listener::on_bound, (l, &a), done),
    ensures
        final(l).serving matches Some(s) && s.bind@ == a.bind@ && s.port == a.port,
{
}

/// The warnings that stay keep their order.
pub proof fn law_kept_warnings_keep_their_order(ws: Seq<Seq<char>>, n: int, a: int, b: int)
    requires
        0 <= n <= ws.len(),
        0 <= a < b < without_move_failures(ws, n).len(),
    ensures
        exists|i: int, j: int|
            0 <= i < j < n && #[trigger] ws[i] == without_move_failures(ws, n)[a]
                && #[trigger] ws[j] == without_move_failures(ws, n)[b],
    decreases n,
{
    let rest = without_move_failures(ws, n - 1);
    let all = without_move_failures(ws, n);
    if n > 0 {
        assert(all[a] == rest[a]);
        if b < rest.len() {
            law_kept_warnings_keep_their_order(ws, n - 1, a, b);
            assert(all[b] == rest[b]);
        } else {
            lemma_kept_stood(ws, n - 1, a);
            let i = choose|i: int| 0 <= i < n - 1 && #[trigger] ws[i] == rest[a];
            assert(ws[i] == all[a] && ws[n - 1] == all[b]);
        }
    }
}

proof fn lemma_kept_stood(ws: Seq<Seq<char>>, n: int, a: int)
    requires
        0 <= n <= ws.len(),
        0 <= a < without_move_failures(ws, n).len(),
    ensures
        exists|i: int| 0 <= i < n && #[trigger] ws[i] == without_move_failures(ws, n)[a],
    decreases n,
{
    if n > 0 {
        if a < without_move_failures(ws, n - 1).len() {
            lemma_kept_stood(ws, n - 1, a);
            let i = choose|i: int|
                0 <= i < n - 1 && #[trigger] ws[i] == without_move_failures(ws, n - 1)[a];
            assert(ws[i] == without_move_failures(ws, n)[a]);
        } else {
            assert(ws[n - 1] == without_move_failures(ws, n)[a]);
        }
    }
}

} // verus!
