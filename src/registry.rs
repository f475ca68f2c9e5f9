//! The registry of live connections, keyed by small integer tokens that are
//! handed out in increasing order and never reused.
use vstd::prelude::*;
use crate::connection::{
    read_event_outcome, request_outcome, ReadAction, ReadEvent, headers_complete_outcome, headers_view, step_outcome, ClientConnection, Phase, Step,
};

verus! {

/// The token of the listening socket; no client ever gets it.
pub const SERVER_TOKEN: usize = 0;

/// Live tokens in order of acceptance, and the next token to hand out.
pub type RegistryModel = (Seq<usize>, nat);

/// The tokens are distinct, none is the listening token, and each lies
/// below the next token to hand out.
pub open spec fn model_wf(m: RegistryModel) -> bool {
    &&& m.1 >= 1
    &&& forall|i: int| 0 <= i < m.0.len() ==> SERVER_TOKEN < #[trigger] m.0[i] < m.1
    &&& forall|i: int, j: int| 0 <= i < j < m.0.len() ==> m.0[i] != m.0[j]
}

/// The registry of a server that has accepted nobody yet.
pub open spec fn empty_model() -> RegistryModel {
    (Seq::empty(), 1)
}

/// Accepting a connection: it gets the next token, unless the tokens are
/// exhausted, in which case nothing changes.
pub open spec fn accept_model(m: RegistryModel) -> RegistryModel {
    if m.1 >= usize::MAX {
        m
    } else {
        (m.0.push(m.1 as usize), m.1 + 1)
    }
}

/// `n` accepts in a row.
pub open spec fn accept_n(m: RegistryModel, n: nat) -> RegistryModel
    decreases n,
{
    if n == 0 {
        m
    } else {
        accept_model(accept_n(m, (n - 1) as nat))
    }
}

/// Removing token `t`: its entry leaves; the next token stays.
pub open spec fn remove_model(m: RegistryModel, t: usize) -> RegistryModel {
    if m.0.contains(t) {
        (m.0.remove(m.0.index_of(t)), m.1)
    } else {
        m
    }
}

/// Accepting keeps the registry well formed and never lowers the next token.
pub proof fn lemma_accept_wf(m: RegistryModel)
    requires
        model_wf(m),
    ensures
        model_wf(accept_model(m)),
        accept_model(m).1 >= m.1,
{
}

/// After `n` accepts on a fresh registry (with tokens to spare) it holds
/// exactly `n` distinct tokens, none of them the listening token.
pub proof fn lemma_accepts_distinct(n: nat)
    requires
        n < usize::MAX,
    ensures
        model_wf(accept_n(empty_model(), n)),
        accept_n(empty_model(), n).0.len() == n,
        accept_n(empty_model(), n).1 == n + 1,
    decreases n,
{
    if n > 0 {
        lemma_accepts_distinct((n - 1) as nat);
        lemma_accept_wf(accept_n(empty_model(), (n - 1) as nat));
    }
}

/// Removing a live token shrinks the registry by exactly one, and that token
/// is never handed out again, however many accepts follow.
pub proof fn lemma_removed_token_not_reassigned(m: RegistryModel, t: usize, n: nat)
    requires
        model_wf(m),
        m.0.contains(t),
    ensures
        remove_model(m, t).0.len() == m.0.len() - 1,
        !remove_model(m, t).0.contains(t),
        !accept_n(remove_model(m, t), n).0.contains(t),
        model_wf(accept_n(remove_model(m, t), n)),
    decreases n,
{
    let r = remove_model(m, t);
    let i = m.0.index_of(t);
    assert(r.0 =~= m.0.subrange(0, i) + m.0.subrange(i + 1, m.0.len() as int));
    assert(t < m.1);
    if n > 0 {
        lemma_removed_token_not_reassigned(m, t, (n - 1) as nat);
        let p = accept_n(r, (n - 1) as nat);
        lemma_accept_wf(p);
        assert(forall|k: int| 0 <= k < p.0.len() ==> p.0[k] < p.1);
        lemma_accept_n_next(r, (n - 1) as nat);
    }
}

/// Accepts never lower the next token.
pub proof fn lemma_accept_n_next(m: RegistryModel, n: nat)
    ensures
        accept_n(m, n).1 >= m.1,
    decreases n,
{
    if n > 0 {
        lemma_accept_n_next(m, (n - 1) as nat);
    }
}

/// Every connection the server holds, with its token.
pub struct ConnectionRegistry {
    pub entries: Vec<(usize, ClientConnection)>,
    pub next_token: usize,
}

impl ConnectionRegistry {
    /// The live tokens, in order of acceptance.
    pub open spec fn tokens(&self) -> Seq<usize> {
        self.entries@.map_values(|e: (usize, ClientConnection)| e.0)
    }

    pub open spec fn model(&self) -> RegistryModel {
        (self.tokens(), self.next_token as nat)
    }

    pub open spec fn wf(&self) -> bool {
        model_wf(self.model())
    }

    /// `other` differs from `self` at most in the connection of `token`,
    /// and that one as `rel` allows.
    pub open spec fn changed_only_at(
        &self,
        other: Self,
        token: usize,
        rel: spec_fn(ClientConnection, ClientConnection) -> bool,
    ) -> bool {
        &&& other.next_token == self.next_token
        &&& other.entries@.len() == self.entries@.len()
        &&& forall|i: int|
            0 <= i < self.entries@.len() ==> {
                &&& (#[trigger] other.entries@[i]).0 == self.entries@[i].0
                &&& if self.entries@[i].0 == token {
                    rel(self.entries@[i].1, other.entries@[i].1)
                } else {
                    other.entries@[i] == self.entries@[i]
                }
            }
    }

    /// `other` has the same tokens as `self`, and the same connection under
    /// each but `token`.
    pub open spec fn others_unchanged(&self, other: Self, token: usize) -> bool {
        &&& other.next_token == self.next_token
        &&& other.entries@.len() == self.entries@.len()
        &&& forall|i: int|
            0 <= i < self.entries@.len() ==> {
                &&& (#[trigger] other.entries@[i]).0 == self.entries@[i].0
                &&& self.entries@[i].0 != token ==> other.entries@[i] == self.entries@[i]
            }
    }

    /// An empty registry.
    pub fn new() -> (r: ConnectionRegistry)
        ensures
            r.wf(),
            r.model() == empty_model(),
    {
        let r = ConnectionRegistry { entries: Vec::new(), next_token: 1 };
        assert(r.tokens() =~= Seq::<usize>::empty());
        r
    }

    /// Number of live client connections.
    pub fn len(&self) -> (r: usize)
        ensures
            r == self.tokens().len(),
    {
        self.entries.len()
    }

    /// Where `token`'s entry stands, if it is live.
    fn position(&self, token: usize) -> (r: Option<usize>)
        ensures
            match r {
                Some(i) => i < self.entries@.len() && self.entries@[i as int].0 == token,
                None => !self.tokens().contains(token),
            },
    {
        let mut i: usize = 0;
        while i < self.entries.len()
            invariant
                i <= self.entries@.len(),
                forall|j: int| 0 <= j < i ==> self.entries@[j].0 != token,
            decreases self.entries@.len() - i,
        {
            if self.entries[i].0 == token {
                return Some(i);
            }
            i = i + 1;
        }
        proof {
            if self.tokens().contains(token) {
                let j = choose|j: int| 0 <= j < self.tokens().len() && self.tokens()[j] == token;
                assert(self.entries@[j].0 == token);
            }
        }
        None
    }

    /// Whether `token` names a live connection.
    pub fn contains(&self, token: usize) -> (r: bool)
        ensures
            r == self.tokens().contains(token),
    {
        match self.position(token) {
            Some(i) => {
                assert(self.tokens()[i as int] == token);
                true
            },
            None => false,
        }
    }

    /// Registers a freshly accepted connection under the next token and
    /// returns that token; `None` once the tokens are exhausted.
    pub fn accept(&mut self) -> (r: Option<usize>)
        requires
            old(self).wf(),
        ensures
            final(self).wf(),
            final(self).model() == accept_model(old(self).model()),
            match r {
                Some(t) => t == old(self).next_token && final(self).entries@.last().1.is_fresh(),
                None => old(self).next_token == usize::MAX,
            },
            final(self).entries@.subrange(0, old(self).entries@.len() as int)
                == old(self).entries@,
    {
        if self.next_token == usize::MAX {
            return None;
        }
        let t = self.next_token;
        let ghost before = self.entries@;
        self.entries.push((t, ClientConnection::new()));
        self.next_token = t + 1;
        proof {
            assert(self.tokens() =~= old(self).tokens().push(t));
            assert(self.entries@.subrange(0, before.len() as int) =~= before);
            lemma_accept_wf(old(self).model());
        }
        Some(t)
    }

    /// Drops `token`'s connection and returns it; `None` if it is not live.
    pub fn remove(&mut self, token: usize) -> (r: Option<ClientConnection>)
        requires
            old(self).wf(),
        ensures
            final(self).wf(),
            final(self).model() == remove_model(old(self).model(), token),
            r is Some == old(self).tokens().contains(token),
            match r {
                Some(c) => old(self).entries@[old(self).tokens().index_of(token)].1 == c,
                None => true,
            },
    {
        match self.position(token) {
            None => None,
            Some(i) => {
                let ghost ts = self.tokens();
                proof {
                    assert(ts[i as int] == token);
                    assert(ts.contains(token));
                    let k = ts.index_of(token);
                    assert(0 <= k < ts.len() && ts[k] == token);
                    assert(model_wf(self.model()));
                    assert(ts == self.model().0);
                    assert(k == i as int);
                }
                let e = self.entries.remove(i);
                proof {
                    let rs = ts.remove(i as int);
                    assert(self.tokens() =~= rs);
                    assert forall|a: int, b: int| 0 <= a < b < rs.len() implies rs[a] != rs[b] by {
                        let a0 = if a < i { a } else { a + 1 };
                        let b0 = if b < i { b } else { b + 1 };
                        assert(rs[a] == ts[a0] && rs[b] == ts[b0]);
                    }
                    assert forall|a: int| 0 <= a < rs.len() implies SERVER_TOKEN < #[trigger] rs[a]
                        < self.next_token by {
                        let a0 = if a < i { a } else { a + 1 };
                        assert(rs[a] == ts[a0]);
                    }
                }
                Some(e.1)
            },
        }
    }

    /// Replacing the connection at `i` keeps the tokens, and changes no
    /// other token's connection.
    proof fn lemma_replace_at(&self, other: Self, i: int)
        requires
            self.wf(),
            0 <= i < self.entries@.len(),
            other.next_token == self.next_token,
            other.entries@ == self.entries@.update(i, (self.entries@[i].0, other.entries@[i].1)),
        ensures
            other.wf(),
            other.tokens() == self.tokens(),
            forall|j: int|
                0 <= j < self.entries@.len() && j != i ==> self.entries@[j].0 != self.entries@[i].0,
    {
        assert(other.tokens() =~= self.tokens());
        assert forall|j: int| 0 <= j < self.entries@.len() && j != i implies self.entries@[j].0
            != self.entries@[i].0 by {
            let m = self.model();
            assert(model_wf(m));
            assert(m.0[j] == self.entries@[j].0);
            assert(m.0[i] == self.entries@[i].0);
            if j < i {
                assert(m.0[j] != m.0[i]);
            } else {
                assert(m.0[i] != m.0[j]);
            }
        }
    }

    /// A token that is not live stands in no entry.
    proof fn lemma_absent(&self, token: usize)
        requires
            !self.tokens().contains(token),
        ensures
            forall|i: int| 0 <= i < self.entries@.len() ==> self.entries@[i].0 != token,
    {
        assert forall|i: int| 0 <= i < self.entries@.len() implies self.entries@[i].0 != token by {
            assert(self.tokens()[i] == self.entries@[i].0);
        }
    }

    /// The phase of `token`'s connection, if it is live.
    pub fn phase(&self, token: usize) -> (r: Option<Phase>)
        ensures
            match r {
                Some(p) => exists|i: int|
                    0 <= i < self.entries@.len() && self.entries@[i].0 == token
                        && self.entries@[i].1.phase == p,
                None => !self.tokens().contains(token),
            },
    {
        match self.position(token) {
            Some(i) => Some(self.entries[i].1.phase),
            None => None,
        }
    }

    /// Hands bytes read from `token`'s socket to its connection; false if
    /// the token is not live.
    pub fn feed(&mut self, token: usize, chunk: &[u8]) -> (found: bool)
        requires
            old(self).wf(),
        ensures
            final(self).wf(),
            found == old(self).tokens().contains(token),
            old(self).changed_only_at(
                *final(self),
                token,
                |a: ClientConnection, b: ClientConnection|
                    b.pending@ == a.pending@ + chunk@ && b.phase == a.phase && b.headers
                        == a.headers,
            ),
    {
        match self.position(token) {
            None => {
                proof {
                    self.lemma_absent(token);
                }
                false
            },
            Some(i) => {
                let (t, mut c) = self.entries.remove(i);
                c.feed(chunk);
                self.entries.insert(i, (t, c));
                proof {
                    assert(self.entries@ =~= old(self).entries@.update(i as int, (t, c)));
                    old(self).lemma_replace_at(*self, i as int);
                    assert(old(self).tokens()[i as int] == token);
                }
                true
            },
        }
    }

    /// Marks `token`'s connection as closing (a read error or end of input);
    /// false if the token is not live.
    pub fn close(&mut self, token: usize) -> (found: bool)
        requires
            old(self).wf(),
        ensures
            final(self).wf(),
            found == old(self).tokens().contains(token),
            old(self).changed_only_at(
                *final(self),
                token,
                |a: ClientConnection, b: ClientConnection|
                    b.phase == Phase::Closing && b.pending == a.pending && b.headers == a.headers,
            ),
    {
        match self.position(token) {
            None => {
                proof {
                    self.lemma_absent(token);
                }
                false
            },
            Some(i) => {
                let (t, mut c) = self.entries.remove(i);
                c.close();
                self.entries.insert(i, (t, c));
                proof {
                    assert(self.entries@ =~= old(self).entries@.update(i as int, (t, c)));
                    old(self).lemma_replace_at(*self, i as int);
                    assert(old(self).tokens()[i as int] == token);
                }
                true
            },
        }
    }

    /// Records a header name read on `token`'s connection.
    pub fn on_header_field(&mut self, token: usize, s: &[u8]) -> (found: bool)
        requires
            old(self).wf(),
        ensures
            final(self).wf(),
            found == old(self).tokens().contains(token),
            old(self).changed_only_at(
                *final(self),
                token,
                |a: ClientConnection, b: ClientConnection|
                    (b.current_field matches Some(k) && k@ == s@) && b.phase == a.phase
                        && b.headers == a.headers && b.pending == a.pending,
            ),
    {
        match self.position(token) {
            None => {
                proof {
                    self.lemma_absent(token);
                }
                false
            },
            Some(i) => {
                let (t, mut c) = self.entries.remove(i);
                c.on_header_field(s);
                self.entries.insert(i, (t, c));
                proof {
                    assert(self.entries@ =~= old(self).entries@.update(i as int, (t, c)));
                    old(self).lemma_replace_at(*self, i as int);
                    assert(old(self).tokens()[i as int] == token);
                }
                true
            },
        }
    }

    /// Records a header value read on `token`'s connection, under the name
    /// read last.
    pub fn on_header_value(&mut self, token: usize, s: &[u8]) -> (found: bool)
        requires
            old(self).wf(),
        ensures
            final(self).wf(),
            found == old(self).tokens().contains(token),
            old(self).changed_only_at(
                *final(self),
                token,
                |a: ClientConnection, b: ClientConnection|
                    (match a.current_field {
                        Some(k) => headers_view(b.headers@) == headers_view(a.headers@).push(
                            (k@, s@),
                        ),
                        None => b.headers == a.headers,
                    }) && b.current_field == a.current_field && b.phase == a.phase && b.pending
                        == a.pending,
            ),
    {
        match self.position(token) {
            None => {
                proof {
                    self.lemma_absent(token);
                }
                false
            },
            Some(i) => {
                let (t, mut c) = self.entries.remove(i);
                c.on_header_value(s);
                self.entries.insert(i, (t, c));
                proof {
                    assert(self.entries@ =~= old(self).entries@.update(i as int, (t, c)));
                    old(self).lemma_replace_at(*self, i as int);
                    assert(old(self).tokens()[i as int] == token);
                }
                true
            },
        }
    }

    /// The end of the request head on `token`'s connection. `None` when the
    /// token is not live or its connection is not handshaking; otherwise what
    /// the connection answers (the upgrade response, if any).
    pub fn on_headers_complete(&mut self, token: usize, is_upgrade: bool) -> (r: Option<
        Option<Vec<u8>>,
    >)
        requires
            old(self).wf(),
        ensures
            final(self).wf(),
            match r {
                Some(out) => {
                    &&& old(self).others_unchanged(*final(self), token)
                    &&& old(self).tokens().contains(token)
                    &&& forall|i: int|
                        0 <= i < old(self).entries@.len() && old(self).entries@[i].0 == token
                            ==> old(self).entries@[i].1.phase == Phase::Handshaking
                            && headers_complete_outcome(
                            old(self).entries@[i].1,
                            final(self).entries@[i].1,
                            is_upgrade,
                            out,
                        )
                },
                None => *final(self) == *old(self) && forall|i: int|
                    0 <= i < old(self).entries@.len() && old(self).entries@[i].0 == token
                        ==> old(self).entries@[i].1.phase != Phase::Handshaking,
            },
    {
        match self.position(token) {
            None => {
                proof {
                    self.lemma_absent(token);
                }
                None
            },
            Some(i) => {
                if !matches!(self.entries[i].1.phase, Phase::Handshaking) {
                    proof {
                        assert forall|j: int|
                            0 <= j < old(self).entries@.len() && old(self).entries@[j].0
                                == token implies old(self).entries@[j].1.phase
                            != Phase::Handshaking by {
                            assert(old(self).entries@ =~= old(self).entries@.update(
                                i as int,
                                old(self).entries@[i as int],
                            ));
                            old(self).lemma_replace_at(*old(self), i as int);
                        }
                    }
                    return None;
                }
                let ghost before = self.entries@[i as int].1;
                let (t, mut c) = self.entries.remove(i);
                let out = c.on_headers_complete(is_upgrade);
                self.entries.insert(i, (t, c));
                proof {
                    assert(before.phase == Phase::Handshaking);
                    assert(headers_complete_outcome(before, c, is_upgrade, out));
                    assert(self.entries@ =~= old(self).entries@.update(i as int, (t, c)));
                    old(self).lemma_replace_at(*self, i as int);
                    assert(old(self).tokens()[i as int] == token);
                }
                Some(out)
            },
        }
    }

    /// One decoding step on `token`'s connection. `None` when the token is
    /// not live or its connection is not in the framed phase.
    pub fn step(&mut self, token: usize) -> (r: Option<Step>)
        requires
            old(self).wf(),
        ensures
            final(self).wf(),
            match r {
                Some(st) => {
                    &&& old(self).others_unchanged(*final(self), token)
                    &&& old(self).tokens().contains(token)
                    &&& forall|i: int|
                        0 <= i < old(self).entries@.len() && old(self).entries@[i].0 == token
                            ==> old(self).entries@[i].1.phase == Phase::Framed && step_outcome(
                            old(self).entries@[i].1,
                            final(self).entries@[i].1,
                            st,
                        )
                },
                None => *final(self) == *old(self) && forall|i: int|
                    0 <= i < old(self).entries@.len() && old(self).entries@[i].0 == token
                        ==> old(self).entries@[i].1.phase != Phase::Framed,
            },
    {
        match self.position(token) {
            None => {
                proof {
                    self.lemma_absent(token);
                }
                None
            },
            Some(i) => {
                if !matches!(self.entries[i].1.phase, Phase::Framed) {
                    proof {
                        assert forall|j: int|
                            0 <= j < old(self).entries@.len() && old(self).entries@[j].0
                                == token implies old(self).entries@[j].1.phase
                            != Phase::Framed by {
                            assert(old(self).entries@ =~= old(self).entries@.update(
                                i as int,
                                old(self).entries@[i as int],
                            ));
                            old(self).lemma_replace_at(*old(self), i as int);
                        }
                    }
                    return None;
                }
                let ghost before = self.entries@[i as int].1;
                let (t, mut c) = self.entries.remove(i);
                let st = c.step();
                self.entries.insert(i, (t, c));
                proof {
                    assert(before.phase == Phase::Framed);
                    assert(step_outcome(before, c, st));
                    assert(self.entries@ =~= old(self).entries@.update(i as int, (t, c)));
                    old(self).lemma_replace_at(*self, i as int);
                    assert(old(self).tokens()[i as int] == token);
                }
                Some(st)
            },
        }
    }

    /// Decides what follows one read from `token`'s socket; `None` if the
    /// token is not live.
    pub fn on_read(&mut self, token: usize, ev: ReadEvent) -> (r: Option<ReadAction>)
        requires
            old(self).wf(),
        ensures
            final(self).wf(),
            match r {
                Some(act) => {
                    &&& old(self).others_unchanged(*final(self), token)
                    &&& old(self).tokens().contains(token)
                    &&& forall|i: int|
                        0 <= i < old(self).entries@.len() && old(self).entries@[i].0 == token
                            ==> read_event_outcome(
                            old(self).entries@[i].1,
                            final(self).entries@[i].1,
                            ev,
                            act,
                        )
                },
                None => *final(self) == *old(self) && !old(self).tokens().contains(token),
            },
    {
        match self.position(token) {
            None => None,
            Some(i) => {
                let ghost before = self.entries@[i as int].1;
                let (t, mut c) = self.entries.remove(i);
                let act = c.on_read(ev);
                self.entries.insert(i, (t, c));
                proof {
                    assert(read_event_outcome(before, c, ev, act));
                    assert(self.entries@ =~= old(self).entries@.update(i as int, (t, c)));
                    old(self).lemma_replace_at(*self, i as int);
                    assert(old(self).tokens()[i as int] == token);
                }
                Some(act)
            },
        }
    }

    /// Hands the HTTP parser's report on a chunk of the request to `token`'s
    /// connection. `None` when the token is not live or its connection is
    /// not handshaking; otherwise what the connection answers.
    pub fn on_request_bytes(
        &mut self,
        token: usize,
        parse_error: bool,
        complete: bool,
        is_upgrade: bool,
        rest: &[u8],
    ) -> (r: Option<Option<Vec<u8>>>)
        requires
            old(self).wf(),
        ensures
            final(self).wf(),
            match r {
                Some(out) => {
                    &&& old(self).others_unchanged(*final(self), token)
                    &&& old(self).tokens().contains(token)
                    &&& forall|i: int|
                        0 <= i < old(self).entries@.len() && old(self).entries@[i].0 == token
                            ==> old(self).entries@[i].1.phase == Phase::Handshaking
                            && request_outcome(
                            old(self).entries@[i].1,
                            final(self).entries@[i].1,
                            parse_error,
                            complete,
                            is_upgrade,
                            rest@,
                            out,
                        )
                },
                None => *final(self) == *old(self) && forall|i: int|
                    0 <= i < old(self).entries@.len() && old(self).entries@[i].0 == token
                        ==> old(self).entries@[i].1.phase != Phase::Handshaking,
            },
    {
        match self.position(token) {
            None => {
                proof {
                    self.lemma_absent(token);
                }
                None
            },
            Some(i) => {
                if !matches!(self.entries[i].1.phase, Phase::Handshaking) {
                    proof {
                        assert forall|j: int|
                            0 <= j < old(self).entries@.len() && old(self).entries@[j].0
                                == token implies old(self).entries@[j].1.phase
                            != Phase::Handshaking by {
                            assert(old(self).entries@ =~= old(self).entries@.update(
                                i as int,
                                old(self).entries@[i as int],
                            ));
                            old(self).lemma_replace_at(*old(self), i as int);
                        }
                    }
                    return None;
                }
                let ghost before = self.entries@[i as int].1;
                let (t, mut c) = self.entries.remove(i);
                let out = c.on_request_bytes(parse_error, complete, is_upgrade, rest);
                self.entries.insert(i, (t, c));
                proof {
                    assert(before.phase == Phase::Handshaking);
                    assert(request_outcome(before, c, parse_error, complete, is_upgrade, rest@, out));
                    assert(self.entries@ =~= old(self).entries@.update(i as int, (t, c)));
                    old(self).lemma_replace_at(*self, i as int);
                    assert(old(self).tokens()[i as int] == token);
                }
                Some(out)
            },
        }
    }
}

} // verus!
