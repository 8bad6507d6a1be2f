//! The daemon's routing rules.
//!
//! The daemon holds one extension connection and any number of CLI
//! connections. A CLI's `ask` is forwarded to the extension and remembered
//! under its request id; the extension's `ask_result` goes back to the CLI
//! that asked. When the extension goes away, every request still waiting is
//! answered with `NO_EXTENSION`.
//!
//! The sockets themselves stay with the caller: the router sees connection
//! ids and messages, and answers with the actions to perform.

use std::collections::HashSet;
use vstd::prelude::*;
use crate::protocol::{
    error_result, Ask, AskResult, AskResultView, AskView, Hello, HelloView, Role, DEFAULT_PORT,
    ERR_NO_EXTENSION,
};

verus! {

broadcast use vstd::std_specs::hash::group_hash_axioms;

/// Identifies one WebSocket connection to the daemon.
pub type ConnId = u64;

/// The port the daemon binds: the one asked for, or the default for 0.
pub fn daemon_port(port: u16) -> (r: u16)
    ensures
        r == if port == 0 { DEFAULT_PORT } else { port },
{
    if port == 0 {
        DEFAULT_PORT
    } else {
        port
    }
}

/// A text message from a connection, read as each of the shapes it may have.
/// `ty` is its `type` field (empty where there is none); `hello`, `ask` and
/// `ask_result` hold the message read as that shape, `None` where it does not
/// have it.
pub struct Incoming {
    pub ty: String,
    pub hello: Option<Hello>,
    pub ask: Option<Ask>,
    pub ask_result: Option<AskResult>,
}

pub struct IncomingView {
    pub ty: Seq<char>,
    pub hello: Option<HelloView>,
    pub ask: Option<AskView>,
    pub ask_result: Option<AskResultView>,
}

impl View for Incoming {
    type V = IncomingView;

    open spec fn view(&self) -> IncomingView {
        IncomingView {
            ty: self.ty@,
            hello: match self.hello {
                Some(h) => Some(h@),
                None => None,
            },
            ask: match self.ask {
                Some(a) => Some(a@),
                None => None,
            },
            ask_result: match self.ask_result {
                Some(r) => Some(r@),
                None => None,
            },
        }
    }
}

/// A message the daemon sends on a connection.
pub enum Outgoing {
    /// An answer to a CLI's request.
    Result(AskResult),
    /// A CLI's request, passed on to the extension.
    Forward(Ask),
}

pub enum OutgoingView {
    Result(AskResultView),
    Forward(AskView),
}

/// Something the daemon reports on its own console.
#[derive(Clone, Copy, PartialEq, Eq, Debug, Structural)]
pub enum Notice {
    ExtensionConnected,
    CliConnected(ConnId),
    ExtensionDisconnected,
}

/// What the caller is to do after a routing step.
pub enum Action {
    /// Send a message on a connection.
    Send(ConnId, Outgoing),
    /// Close a connection (a stale extension replaced by a new one).
    Close(ConnId),
    /// Report on the console.
    Notice(Notice),
}

pub enum ActionView {
    Send(ConnId, OutgoingView),
    Close(ConnId),
    Notice(Notice),
}

impl View for Outgoing {
    type V = OutgoingView;

    open spec fn view(&self) -> OutgoingView {
        match self {
            Outgoing::Result(r) => OutgoingView::Result(r@),
            Outgoing::Forward(a) => OutgoingView::Forward(a@),
        }
    }
}

impl View for Action {
    type V = ActionView;

    open spec fn view(&self) -> ActionView {
        match self {
            Action::Send(c, m) => ActionView::Send(*c, m@),
            Action::Close(c) => ActionView::Close(*c),
            Action::Notice(n) => ActionView::Notice(*n),
        }
    }
}

/// The actions, by their abstract values.
pub open spec fn actions_view(actions: Seq<Action>) -> Seq<ActionView> {
    actions.map_values(|a: Action| a@)
}

/// A message with type `hello`, `ask` or `ask_result` that does not have the
/// shape of that message.
pub struct MalformedMessage;

/// The daemon's routing state.
pub struct Router {
    conns: HashSet<ConnId>,
    clis: HashSet<ConnId>,
    ext: Option<ConnId>,
    pending: Vec<(String, ConnId)>,
}

/// The abstract routing state: the live connections, those that said they
/// are CLIs, the current extension, and the requests waiting for an answer
/// (request id, asking CLI) in the order they came.
pub struct RouterView {
    pub conns: Set<ConnId>,
    pub clis: Set<ConnId>,
    pub ext: Option<ConnId>,
    pub pending: Seq<(Seq<char>, ConnId)>,
}

/// The first index at or after `i` of a waiting request with id `k`.
pub open spec fn key_index_from(p: Seq<(Seq<char>, ConnId)>, k: Seq<char>, i: int) -> Option<int>
    decreases p.len() - i,
{
    if i < 0 || i >= p.len() {
        None
    } else if p[i].0 == k {
        Some(i)
    } else {
        key_index_from(p, k, i + 1)
    }
}

/// The index of the waiting request with id `k`.
pub open spec fn key_index(p: Seq<(Seq<char>, ConnId)>, k: Seq<char>) -> Option<int> {
    key_index_from(p, k, 0)
}

/// The CLI waiting for request `k`.
pub open spec fn pending_get(p: Seq<(Seq<char>, ConnId)>, k: Seq<char>) -> Option<ConnId> {
    match key_index(p, k) {
        Some(i) => Some(p[i].1),
        None => None,
    }
}

/// Request `k` now waits for CLI `c` (replacing any earlier entry for `k`).
pub open spec fn pending_insert(p: Seq<(Seq<char>, ConnId)>, k: Seq<char>, c: ConnId) -> Seq<(Seq<char>, ConnId)> {
    match key_index(p, k) {
        Some(i) => p.update(i, (k, c)),
        None => p.push((k, c)),
    }
}

/// Request `k` no longer waits.
pub open spec fn pending_remove(p: Seq<(Seq<char>, ConnId)>, k: Seq<char>) -> Seq<(Seq<char>, ConnId)> {
    match key_index(p, k) {
        Some(i) => p.remove(i),
        None => p,
    }
}

/// No request id waits twice.
pub open spec fn pending_unique(p: Seq<(Seq<char>, ConnId)>) -> bool {
    forall|i: int, j: int| 0 <= i < j < p.len() ==> p[i].0 != p[j].0
}

pub open spec fn no_extension_text() -> Seq<char> {
    "extension not connected \u{2014} open Chrome and check the WebAI Bridge icon is ON"@
}

pub open spec fn went_away_text() -> Seq<char> {
    "extension went away while routing"@
}

pub open spec fn disconnected_text() -> Seq<char> {
    "extension disconnected while waiting"@
}

/// A `NO_EXTENSION` answer to request `id`.
pub open spec fn no_extension(id: Seq<char>, message: Seq<char>) -> AskResultView {
    error_result(id, ERR_NO_EXTENSION@, message)
}

/// Send `r` to `c` if `c` is still connected.
pub open spec fn reply_if_live(conns: Set<ConnId>, c: ConnId, r: AskResultView) -> Seq<ActionView> {
    if conns.contains(c) {
        seq![ActionView::Send(c, OutgoingView::Result(r))]
    } else {
        Seq::empty()
    }
}

/// A connection `id` says hello in `role`: the first hello fixes its role.
pub open spec fn hello_step(r: RouterView, id: ConnId, role: Option<Role>, h: HelloView) -> (RouterView, Option<Role>, Seq<ActionView>) {
    if role is Some {
        (r, role, Seq::empty())
    } else {
        match h.role {
            Role::Extension => {
                let kick = match r.ext {
                    Some(old) => if r.conns.contains(old) {
                        seq![ActionView::Close(old)]
                    } else {
                        Seq::empty()
                    },
                    None => Seq::empty(),
                };
                (
                    RouterView { ext: Some(id), ..r },
                    Some(Role::Extension),
                    kick.push(ActionView::Notice(Notice::ExtensionConnected)),
                )
            },
            Role::Cli => (
                RouterView { clis: r.clis.insert(id), ..r },
                Some(Role::Cli),
                seq![ActionView::Notice(Notice::CliConnected(id))],
            ),
        }
    }
}

/// CLI `id` asks `a`: forwarded to the extension and remembered, or answered
/// with `NO_EXTENSION` at once.
pub open spec fn ask_step(r: RouterView, id: ConnId, a: AskView) -> (RouterView, Seq<ActionView>) {
    match r.ext {
        None => (r, reply_if_live(r.conns, id, no_extension(a.id, no_extension_text()))),
        Some(e) => if r.conns.contains(e) {
            (
                RouterView { pending: pending_insert(r.pending, a.id, id), ..r },
                seq![ActionView::Send(e, OutgoingView::Forward(a))],
            )
        } else {
            (
                RouterView { pending: pending_remove(r.pending, a.id), ..r },
                reply_if_live(r.conns, id, no_extension(a.id, went_away_text())),
            )
        },
    }
}

/// The extension answers: the answer goes to the CLI waiting for it, if any.
pub open spec fn result_step(r: RouterView, res: AskResultView) -> (RouterView, Seq<ActionView>) {
    match pending_get(r.pending, res.id) {
        Some(c) => (
            RouterView { pending: pending_remove(r.pending, res.id), ..r },
            reply_if_live(r.conns, c, res),
        ),
        None => (r, Seq::empty()),
    }
}

/// A text message `m` from connection `id`, whose role so far is `role`.
/// `None` where the message is malformed (nothing changes then).
pub open spec fn text_step(r: RouterView, id: ConnId, role: Option<Role>, m: IncomingView) -> Option<(RouterView, Option<Role>, Seq<ActionView>)> {
    if m.ty == "hello"@ {
        match m.hello {
            Some(h) => Some(hello_step(r, id, role, h)),
            None => None,
        }
    } else if role == Some(Role::Cli) && m.ty == "ask"@ {
        match m.ask {
            Some(a) => {
                let (r2, acts) = ask_step(r, id, a);
                Some((r2, role, acts))
            },
            None => None,
        }
    } else if role == Some(Role::Extension) && m.ty == "ask_result"@ {
        match m.ask_result {
            Some(res) => {
                let (r2, acts) = result_step(r, res);
                Some((r2, role, acts))
            },
            None => None,
        }
    } else {
        Some((r, role, Seq::empty()))
    }
}

/// `NO_EXTENSION` answers for every waiting request whose CLI is connected.
pub open spec fn fail_pending(p: Seq<(Seq<char>, ConnId)>, conns: Set<ConnId>) -> Seq<ActionView>
    decreases p.len(),
{
    if p.len() == 0 {
        Seq::empty()
    } else {
        fail_pending(p.drop_last(), conns) + reply_if_live(
            conns,
            p.last().1,
            no_extension(p.last().0, disconnected_text()),
        )
    }
}

/// A connection registers.
pub open spec fn connect_step(r: RouterView, id: ConnId) -> RouterView {
    RouterView { conns: r.conns.insert(id), ..r }
}

/// Connection `id`, whose role was `role`, goes away. If it was the current
/// extension, every waiting request is answered and forgotten.
pub open spec fn disconnect_step(r: RouterView, id: ConnId, role: Option<Role>) -> (RouterView, Seq<ActionView>) {
    let conns = r.conns.remove(id);
    if role == Some(Role::Extension) && r.ext == Some(id) {
        (
            RouterView { conns, ext: None, pending: Seq::empty(), ..r },
            seq![ActionView::Notice(Notice::ExtensionDisconnected)] + fail_pending(r.pending, conns),
        )
    } else if role == Some(Role::Cli) {
        (RouterView { conns, clis: r.clis.remove(id), ..r }, Seq::empty())
    } else {
        (RouterView { conns, ..r }, Seq::empty())
    }
}

/// The waiting requests, by their abstract values.
pub open spec fn pending_view(p: Seq<(String, ConnId)>) -> Seq<(Seq<char>, ConnId)> {
    p.map_values(|e: (String, ConnId)| (e.0@, e.1))
}

impl View for Router {
    type V = RouterView;

    closed spec fn view(&self) -> RouterView {
        RouterView {
            conns: self.conns@,
            clis: self.clis@,
            ext: self.ext,
            pending: pending_view(self.pending@),
        }
    }
}

/// The routing state of a daemon that has just started.
pub open spec fn initial_router() -> RouterView {
    RouterView { conns: Set::empty(), clis: Set::empty(), ext: None, pending: Seq::empty() }
}

/// Whether `s` holds exactly the text of `lit`.
fn text_is(s: &String, lit: &str) -> (r: bool)
    ensures
        r == (s@ == lit@),
{
    *s == String::from_str(lit)
}

/// Sends `r` to `c` if `c` is still connected.
fn push_reply(conns: &HashSet<ConnId>, actions: &mut Vec<Action>, c: ConnId, r: AskResult)
    ensures
        actions_view(final(actions)@) == actions_view(old(actions)@) + reply_if_live(conns@, c, r@),
{
    if conns.contains(&c) {
        actions.push(Action::Send(c, Outgoing::Result(r)));
        assert(actions_view(actions@) =~= actions_view(old(actions)@) + reply_if_live(conns@, c, r@));
    } else {
        assert(actions_view(actions@) =~= actions_view(old(actions)@) + reply_if_live(conns@, c, r@));
    }
}

impl Router {
    #[verifier::type_invariant]
    closed spec fn well_formed(self) -> bool {
        router_inv(self@)
    }

    /// A router with no connections and no waiting requests.
    pub fn new() -> (r: Router)
        ensures
            r@ == initial_router(),
            router_inv(r@),
    {
        let r = Router { conns: HashSet::new(), clis: HashSet::new(), ext: None, pending: Vec::new() };
        assert(pending_view(r.pending@) =~= Seq::empty());
        r
    }

    /// Connection `id` registers.
    pub fn connect(&mut self, id: ConnId)
        ensures
            final(self)@ == connect_step(old(self)@, id),
            router_inv(final(self)@),
    {
        proof { use_type_invariant(&*self); }
        let mut conns: HashSet<ConnId> = HashSet::new();
        std::mem::swap(&mut conns, &mut self.conns);
        conns.insert(id);
        self.conns = conns;
    }

    /// The index of the waiting request with id `k`.
    fn pending_index(&self, k: &String) -> (r: Option<usize>)
        ensures
            match r {
                Some(i) => key_index(self@.pending, k@) == Some(i as int) && i < self@.pending.len()
                    && self@.pending[i as int].0 == k@,
                None => key_index(self@.pending, k@) is None,
            },
    {
        let ghost p = self@.pending;
        let mut i: usize = 0;
        while i < self.pending.len()
            invariant
                i <= self.pending@.len(),
                p == pending_view(self.pending@),
                key_index(p, k@) == key_index_from(p, k@, i as int),
            decreases self.pending.len() - i,
        {
            if self.pending[i].0 == *k {
                return Some(i);
            }
            i += 1;
        }
        None
    }

    /// Request `k` now waits for CLI `c`.
    fn pending_put(&mut self, k: String, c: ConnId)
        requires
            old(self)@.ext is Some,
        ensures
            final(self)@ == (RouterView { pending: pending_insert(old(self)@.pending, k@, c), ..old(self)@ }),
    {
        proof {
            use_type_invariant(&*self);
            lemma_insert_unique(self@.pending, k@, c);
        }
        match self.pending_index(&k) {
            Some(i) => {
                let mut p: Vec<(String, ConnId)> = Vec::new();
                std::mem::swap(&mut p, &mut self.pending);
                p.set(i, (k, c));
                assert(pending_view(p@) =~= pending_insert(pending_view(old(self).pending@), k@, c));
                self.pending = p;
            }
            None => {
                let mut p: Vec<(String, ConnId)> = Vec::new();
                std::mem::swap(&mut p, &mut self.pending);
                p.push((k, c));
                assert(pending_view(p@) =~= pending_insert(pending_view(old(self).pending@), k@, c));
                self.pending = p;
            }
        }
    }

    /// Forgets request `k`, returning the CLI that waited for it.
    fn pending_take(&mut self, k: &String) -> (r: Option<ConnId>)
        ensures
            r == pending_get(old(self)@.pending, k@),
            final(self)@ == (RouterView { pending: pending_remove(old(self)@.pending, k@), ..old(self)@ }),
    {
        proof {
            use_type_invariant(&*self);
            lemma_remove_unique(self@.pending, k@);
        }
        match self.pending_index(k) {
            Some(i) => {
                let mut p: Vec<(String, ConnId)> = Vec::new();
                std::mem::swap(&mut p, &mut self.pending);
                let (_, c) = p.remove(i);
                assert(pending_view(p@) =~= pending_remove(pending_view(old(self).pending@), k@));
                self.pending = p;
                Some(c)
            }
            None => None,
        }
    }

    /// A text message `msg` from connection `id`, whose role so far is `role`.
    pub fn on_text(&mut self, id: ConnId, role: &mut Option<Role>, msg: Incoming) -> (r: Result<Vec<Action>, MalformedMessage>)
        ensures
            match text_step(old(self)@, id, *old(role), msg@) {
                Some((next, next_role, acts)) => {
                    &&& r is Ok
                    &&& final(self)@ == next
                    &&& *final(role) == next_role
                    &&& actions_view(r->Ok_0@) == acts
                },
                None => {
                    &&& r is Err
                    &&& final(self)@ == old(self)@
                    &&& *final(role) == *old(role)
                },
            },
            router_inv(final(self)@),
    {
        proof { use_type_invariant(&*self); }
        let mut actions: Vec<Action> = Vec::new();
        if text_is(&msg.ty, "hello") {
            let h = match msg.hello {
                Some(h) => h,
                None => return Err(MalformedMessage),
            };
            if role.is_none() {
                match h.role {
                    Role::Extension => {
                        if let Some(old) = self.ext {
                            if self.conns.contains(&old) {
                                actions.push(Action::Close(old));
                            }
                        }
                        self.ext = Some(id);
                        actions.push(Action::Notice(Notice::ExtensionConnected));
                    }
                    Role::Cli => {
                        let mut clis: HashSet<ConnId> = HashSet::new();
                        std::mem::swap(&mut clis, &mut self.clis);
                        clis.insert(id);
                        self.clis = clis;
                        actions.push(Action::Notice(Notice::CliConnected(id)));
                    }
                }
                *role = Some(h.role);
            }
            assert(actions_view(actions@) =~= hello_step(old(self)@, id, *old(role), h@).2);
            proof { use_type_invariant(&*self); }
            return Ok(actions);
        }
        let is_cli = match role {
            Some(Role::Cli) => true,
            _ => false,
        };
        let is_ext = match role {
            Some(Role::Extension) => true,
            _ => false,
        };
        if is_cli && text_is(&msg.ty, "ask") {
            let ask = match msg.ask {
                Some(a) => a,
                None => return Err(MalformedMessage),
            };
            match self.ext {
                None => {
                    let r = AskResult::error(
                        ask.id.as_str(),
                        ERR_NO_EXTENSION,
                        "extension not connected \u{2014} open Chrome and check the WebAI Bridge icon is ON",
                    );
                    push_reply(&self.conns, &mut actions, id, r);
                }
                Some(ext_id) => {
                    if self.conns.contains(&ext_id) {
                        self.pending_put(ask.id.clone(), id);
                        actions.push(Action::Send(ext_id, Outgoing::Forward(ask)));
                    } else {
                        self.pending_take(&ask.id);
                        let r = AskResult::error(ask.id.as_str(), ERR_NO_EXTENSION, "extension went away while routing");
                        push_reply(&self.conns, &mut actions, id, r);
                    }
                }
            }
            assert(actions_view(actions@) =~= ask_step(old(self)@, id, ask@).1);
            proof { use_type_invariant(&*self); }
            return Ok(actions);
        }
        if is_ext && text_is(&msg.ty, "ask_result") {
            let res = match msg.ask_result {
                Some(r) => r,
                None => return Err(MalformedMessage),
            };
            let ghost res_v = res@;
            if let Some(cli_id) = self.pending_take(&res.id) {
                push_reply(&self.conns, &mut actions, cli_id, res);
            }
            assert(actions_view(actions@) =~= result_step(old(self)@, res_v).1);
            proof { use_type_invariant(&*self); }
            return Ok(actions);
        }
        assert(actions_view(actions@) =~= Seq::empty());
        proof { use_type_invariant(&*self); }
        Ok(actions)
    }

    /// Connection `id`, whose role was `role`, goes away.
    pub fn disconnect(&mut self, id: ConnId, role: Option<Role>) -> (actions: Vec<Action>)
        ensures
            (final(self)@, actions_view(actions@)) == disconnect_step(old(self)@, id, role),
            router_inv(final(self)@),
    {
        proof { use_type_invariant(&*self); }
        let mut actions: Vec<Action> = Vec::new();
        let mut conns: HashSet<ConnId> = HashSet::new();
        std::mem::swap(&mut conns, &mut self.conns);
        conns.remove(&id);
        self.conns = conns;
        let is_ext = match role {
            Some(Role::Extension) => true,
            _ => false,
        };
        let is_cli = match role {
            Some(Role::Cli) => true,
            _ => false,
        };
        if is_ext && self.ext == Some(id) {
            let mut waiting: Vec<(String, ConnId)> = Vec::new();
            std::mem::swap(&mut waiting, &mut self.pending);
            self.ext = None;
            actions.push(Action::Notice(Notice::ExtensionDisconnected));
            let ghost p = pending_view(waiting@);
            let mut i: usize = 0;
            while i < waiting.len()
                invariant
                    i <= waiting@.len(),
                    p == pending_view(waiting@),
                    actions_view(actions@) == seq![ActionView::Notice(Notice::ExtensionDisconnected)]
                        + fail_pending(p.take(i as int), self.conns@),
                decreases waiting.len() - i,
            {
                let r = AskResult::error(
                    waiting[i].0.as_str(),
                    ERR_NO_EXTENSION,
                    "extension disconnected while waiting",
                );
                push_reply(&self.conns, &mut actions, waiting[i].1, r);
                assert(p.take(i + 1).drop_last() =~= p.take(i as int));
                i += 1;
            }
            assert(p.take(p.len() as int) =~= p);
            assert(pending_view(self.pending@) =~= Seq::empty());
        } else if is_cli {
            let mut clis: HashSet<ConnId> = HashSet::new();
            std::mem::swap(&mut clis, &mut self.clis);
            clis.remove(&id);
            self.clis = clis;
        }
        proof { use_type_invariant(&*self); }
        actions
    }
}


/// The routing invariant: no request id waits twice, and nothing waits while
/// no extension is connected.
pub open spec fn router_inv(r: RouterView) -> bool {
    &&& pending_unique(r.pending)
    &&& (r.ext is None ==> r.pending.len() == 0)
}

proof fn lemma_key_index_from(p: Seq<(Seq<char>, ConnId)>, k: Seq<char>, i: int)
    requires
        0 <= i,
    ensures
        match key_index_from(p, k, i) {
            Some(j) => i <= j < p.len() && p[j].0 == k && forall|m: int| i <= m < j ==> p[m].0 != k,
            None => forall|m: int| i <= m < p.len() ==> p[m].0 != k,
        },
    decreases p.len() - i,
{
    if i < p.len() && p[i].0 != k {
        lemma_key_index_from(p, k, i + 1);
    }
}

proof fn lemma_insert_unique(p: Seq<(Seq<char>, ConnId)>, k: Seq<char>, c: ConnId)
    requires
        pending_unique(p),
    ensures
        pending_unique(pending_insert(p, k, c)),
        pending_get(pending_insert(p, k, c), k) == Some(c),
{
    lemma_key_index_from(p, k, 0);
    let q = pending_insert(p, k, c);
    lemma_key_index_from(q, k, 0);
    match key_index(p, k) {
        Some(i) => {
            assert forall|a: int, b: int| 0 <= a < b < q.len() implies q[a].0 != q[b].0 by {
                if a == i {
                    assert(p[b].0 != p[i].0);
                } else if b == i {
                    assert(p[a].0 != p[i].0);
                }
            }
            assert(q[i].0 == k);
            assert(forall|m: int| 0 <= m < i ==> q[m] == p[m]);
            assert(key_index(q, k) == Some(i));
        },
        None => {
            assert forall|a: int, b: int| 0 <= a < b < q.len() implies q[a].0 != q[b].0 by {
                if b == p.len() {
                    assert(p[a].0 != k);
                }
            }
            assert(q[p.len() as int].0 == k);
            assert(forall|m: int| 0 <= m < p.len() ==> q[m] == p[m]);
            assert(key_index(q, k) == Some(p.len() as int));
        },
    }
}

proof fn lemma_remove_unique(p: Seq<(Seq<char>, ConnId)>, k: Seq<char>)
    requires
        pending_unique(p),
    ensures
        pending_unique(pending_remove(p, k)),
        pending_get(pending_remove(p, k), k) is None,
{
    lemma_key_index_from(p, k, 0);
    let q = pending_remove(p, k);
    lemma_key_index_from(q, k, 0);
    if let Some(i) = key_index(p, k) {
        assert forall|a: int, b: int| 0 <= a < b < q.len() implies q[a].0 != q[b].0 by {
            let pa = if a < i { a } else { a + 1 };
            let pb = if b < i { b } else { b + 1 };
            assert(q[a] == p[pa] && q[b] == p[pb]);
        }
        assert forall|m: int| 0 <= m < q.len() implies q[m].0 != k by {
            let pm = if m < i { m } else { m + 1 };
            assert(q[m] == p[pm]);
            if pm != i {
                assert(p[pm].0 != p[i].0);
            }
        }
    }
}

/// Every routing step keeps the routing invariant.
pub proof fn law_steps_keep_invariant(r: RouterView, id: ConnId, role: Option<Role>, m: IncomingView)
    requires
        router_inv(r),
    ensures
        router_inv(connect_step(r, id)),
        router_inv(disconnect_step(r, id, role).0),
        text_step(r, id, role, m) matches Some((next, _, _)) ==> router_inv(next),
{
    if role == Some(Role::Cli) && m.ty == "ask"@ && m.ask is Some && m.ty != "hello"@ {
        let a = m.ask->0;
        lemma_insert_unique(r.pending, a.id, id);
        lemma_remove_unique(r.pending, a.id);
    }
    if role == Some(Role::Extension) && m.ty == "ask_result"@ && m.ask_result is Some {
        lemma_remove_unique(r.pending, m.ask_result->0.id);
    }
}

/// An answer goes back to the CLI that asked: when a connected CLI asks while
/// the extension is connected, the request is passed to the extension, and
/// the extension's answer with the same id is then sent to that CLI alone;
/// after it nothing waits under that id.
pub proof fn law_answer_returns_to_asker(
    r: RouterView,
    cli: ConnId,
    ext: ConnId,
    ask: IncomingView,
    answer: IncomingView,
)
    requires
        router_inv(r),
        r.ext == Some(ext),
        r.conns.contains(ext),
        r.conns.contains(cli),
        ask.ty == "ask"@,
        ask.ask is Some,
        answer.ty == "ask_result"@,
        answer.ask_result is Some,
        answer.ask_result->0.id == ask.ask->0.id,
    ensures
        ({
            let (r1, role1, acts1) = text_step(r, cli, Some(Role::Cli), ask)->0;
            let (r2, role2, acts2) = text_step(r1, ext, Some(Role::Extension), answer)->0;
            &&& acts1 == seq![ActionView::Send(ext, OutgoingView::Forward(ask.ask->0))]
            &&& acts2 == seq![ActionView::Send(cli, OutgoingView::Result(answer.ask_result->0))]
            &&& pending_get(r2.pending, ask.ask->0.id) is None
            &&& router_inv(r2)
        }),
{
    reveal_strlit("ask");
    reveal_strlit("hello");
    reveal_strlit("ask_result");
    let a = ask.ask->0;
    assert("ask"@.len() == 3);
    assert("hello"@.len() == 5);
    assert("ask_result"@.len() == 10);
    assert(ask.ty != "hello"@);
    assert(answer.ty != "hello"@);
    lemma_insert_unique(r.pending, a.id, cli);
    let r1 = ask_step(r, cli, a).0;
    assert(text_step(r, cli, Some(Role::Cli), ask) == Some((r1, Some(Role::Cli), ask_step(r, cli, a).1)));
    assert(r1.pending == pending_insert(r.pending, a.id, cli));
    assert(pending_get(r1.pending, a.id) == Some(cli));
    assert(r1.conns.contains(cli));
    lemma_remove_unique(r1.pending, a.id);
    let res = answer.ask_result->0;
    assert(text_step(r1, ext, Some(Role::Extension), answer) == Some((result_step(r1, res).0, Some(Role::Extension), result_step(r1, res).1)));
    law_steps_keep_invariant(r, cli, Some(Role::Cli), ask);
    law_steps_keep_invariant(r1, ext, Some(Role::Extension), answer);
}

/// A request made while no extension is connected is refused at once with
/// `NO_EXTENSION`, sent back to the asking CLI, and nothing is left waiting.
pub proof fn law_refused_without_extension(r: RouterView, cli: ConnId, ask: IncomingView)
    requires
        r.ext is None,
        r.conns.contains(cli),
        ask.ty == "ask"@,
        ask.ask is Some,
    ensures
        ({
            let (next, role, acts) = text_step(r, cli, Some(Role::Cli), ask)->0;
            &&& next == r
            &&& acts == seq![
                ActionView::Send(
                    cli,
                    OutgoingView::Result(no_extension(ask.ask->0.id, no_extension_text())),
                ),
            ]
        }),
{
    reveal_strlit("ask");
    reveal_strlit("hello");
    assert("ask"@.len() == 3);
    assert("hello"@.len() == 5);
}

proof fn lemma_fail_pending_has(p: Seq<(Seq<char>, ConnId)>, conns: Set<ConnId>, i: int)
    requires
        0 <= i < p.len(),
        conns.contains(p[i].1),
    ensures
        fail_pending(p, conns).contains(
            ActionView::Send(p[i].1, OutgoingView::Result(no_extension(p[i].0, disconnected_text()))),
        ),
    decreases p.len(),
{
    let x = ActionView::Send(p[i].1, OutgoingView::Result(no_extension(p[i].0, disconnected_text())));
    let pre = fail_pending(p.drop_last(), conns);
    let tail = reply_if_live(conns, p.last().1, no_extension(p.last().0, disconnected_text()));
    if i == p.len() - 1 {
        assert((pre + tail)[pre.len() as int] == x);
    } else {
        lemma_fail_pending_has(p.drop_last(), conns, i);
        let j = choose|j: int| 0 <= j < pre.len() && pre[j] == x;
        assert((pre + tail)[j] == x);
    }
}

/// When the extension goes away, nothing is left waiting, and every CLI that
/// was waiting and is still connected is told `NO_EXTENSION` for its request.
pub proof fn law_extension_loss_answers_everyone(r: RouterView, ext: ConnId, i: int)
    requires
        r.ext == Some(ext),
        0 <= i < r.pending.len(),
        r.conns.remove(ext).contains(r.pending[i].1),
    ensures
        ({
            let (next, acts) = disconnect_step(r, ext, Some(Role::Extension));
            &&& next.pending.len() == 0
            &&& next.ext is None
            &&& acts.contains(
                ActionView::Send(
                    r.pending[i].1,
                    OutgoingView::Result(no_extension(r.pending[i].0, disconnected_text())),
                ),
            )
        }),
{
    let conns = r.conns.remove(ext);
    lemma_fail_pending_has(r.pending, conns, i);
    let head = seq![ActionView::Notice(Notice::ExtensionDisconnected)];
    let rest = fail_pending(r.pending, conns);
    let x = ActionView::Send(r.pending[i].1, OutgoingView::Result(no_extension(r.pending[i].0, disconnected_text())));
    let j = choose|j: int| 0 <= j < rest.len() && rest[j] == x;
    assert((head + rest)[j + 1] == x);
}

/// A connection going away that is not the current extension only forgets
/// that connection: the extension and the waiting requests stay as they
/// were, nothing is sent, and a CLI leaves the CLI set and nothing else does.
/// A later request from another CLI is then still forwarded to the extension.
pub proof fn law_disconnect_forgets_only_that_connection(
    r: RouterView,
    id: ConnId,
    role: Option<Role>,
    cli: ConnId,
    ask: IncomingView,
)
    requires
        role != Some(Role::Extension) || r.ext != Some(id),
    ensures
        ({
            let (next, acts) = disconnect_step(r, id, role);
            &&& next.ext == r.ext
            &&& next.pending == r.pending
            &&& next.conns == r.conns.remove(id)
            &&& next.clis == (if role == Some(Role::Cli) { r.clis.remove(id) } else { r.clis })
            &&& acts.len() == 0
        }),
        ({
            let next = disconnect_step(r, id, role).0;
            let (after, cli_role, acts) = text_step(next, cli, Some(Role::Cli), ask)->0;
            (r.ext matches Some(e) && e != id && r.conns.contains(e) && cli != id && ask.ty == "ask"@
                && ask.ask is Some) ==> acts == seq![ActionView::Send(r.ext->0, OutgoingView::Forward(ask.ask->0))]
        }),
{
    reveal_strlit("ask");
    reveal_strlit("hello");
    assert("ask"@.len() == 3);
    assert("hello"@.len() == 5);
}

/// A hello fixes a connection's role once. An extension's hello makes it the
/// current extension, closes the previous extension where that one is still
/// connected, and keeps the waiting requests; a CLI's hello adds it to the
/// CLIs. A hello from a connection whose role is already fixed changes
/// nothing and sends nothing.
pub proof fn law_hello_fixes_role(r: RouterView, id: ConnId, role: Option<Role>, h: HelloView)
    ensures
        role is Some ==> hello_step(r, id, role, h) == (r, role, Seq::<ActionView>::empty()),
        (role is None && h.role == Role::Extension) ==> ({
            let (next, new_role, acts) = hello_step(r, id, role, h);
            &&& next.ext == Some(id)
            &&& next.pending == r.pending
            &&& next.conns == r.conns
            &&& next.clis == r.clis
            &&& new_role == Some(Role::Extension)
            &&& acts.last() == ActionView::Notice(Notice::ExtensionConnected)
            &&& (r.ext is Some && r.conns.contains(r.ext->0))
                ==> acts == seq![ActionView::Close(r.ext->0), ActionView::Notice(Notice::ExtensionConnected)]
            &&& !(r.ext is Some && r.conns.contains(r.ext->0))
                ==> acts == seq![ActionView::Notice(Notice::ExtensionConnected)]
        }),
        (role is None && h.role == Role::Cli) ==> ({
            let (next, new_role, acts) = hello_step(r, id, role, h);
            &&& next.clis == r.clis.insert(id)
            &&& next.ext == r.ext
            &&& next.pending == r.pending
            &&& next.conns == r.conns
            &&& new_role == Some(Role::Cli)
            &&& acts == seq![ActionView::Notice(Notice::CliConnected(id))]
        }),
{
    if role is None && h.role == Role::Extension {
        let acts = hello_step(r, id, role, h).2;
        assert(acts =~= hello_step(r, id, role, h).2);
    }
}

} // verus!
