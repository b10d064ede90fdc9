//! Sessions: a user's token-bound context owning zero or more live
//! connections.
//!
//! A session starts offline with a grace deadline. Connections bring it
//! online; when the last one detaches it falls back offline and the grace
//! clock restarts. A heartbeat past the deadline closes it. The timers
//! themselves run outside; every transition here takes the current time in
//! epoch milliseconds and says what to schedule.

use vstd::prelude::*;

use crate::user::Login;

verus! {

/// What `Ulid::from_str` followed by `Ulid::to_string` gives back for an
/// accepted token string: its canonical 26-character form.
pub uninterp spec fn ulid_canon(s: Seq<char>) -> Option<Seq<char>>;

/// Relies on rusty_ulid's Ulid::from_str and Ulid::to_string: an accepted
/// string parses to a value whose canonical form depends on the input
/// alone and is 26 characters long.
#[verifier::external_body]
fn ulid_normalize(s: &str) -> (r: Result<String, ()>)
    ensures
        match r {
            Ok(c) => ulid_canon(s@) == Some(c@) && c@.len() == 26,
            Err(()) => ulid_canon(s@) is None,
        },
{
    match <rusty_ulid::Ulid as core::str::FromStr>::from_str(s) {
        Ok(u) => Ok(u.to_string()),
        Err(_) => Err(()),
    }
}

/// Relies on rusty_ulid's Ulid::generate and Ulid::to_string: a fresh
/// random token in its canonical 26-character form. Nothing more is
/// promised of the value. Generation panics only past the year 10889.
#[verifier::external_body]
fn ulid_generate() -> (r: String)
    ensures
        r@.len() == 26,
{
    rusty_ulid::Ulid::generate().to_string()
}

/// A session token, kept in its canonical string form.
#[derive(Debug)]
pub struct Token {
    val: String,
}

impl View for Token {
    type V = Seq<char>;

    closed spec fn view(&self) -> Seq<char> {
        self.val@
    }
}

impl Clone for Token {
    fn clone(&self) -> (r: Self)
        ensures
            r == *self,
    {
        Token { val: self.val.clone() }
    }
}

impl PartialEq for Token {
    fn eq(&self, other: &Self) -> (r: bool) {
        self.val == other.val
    }
}

impl vstd::std_specs::cmp::PartialEqSpecImpl for Token {
    open spec fn obeys_eq_spec() -> bool {
        true
    }

    open spec fn eq_spec(&self, other: &Self) -> bool {
        self@ == other@
    }
}

impl Token {
    /// Mint a fresh random token.
    pub fn new() -> (r: Self)
        ensures
            r@.len() == 26,
    {
        Token { val: ulid_generate() }
    }

    /// Accept a client-presented token string, normalized to its canonical
    /// form; reject what does not parse.
    pub fn from_str(s: &str) -> (r: Result<Self, ()>)
        ensures
            match r {
                Ok(t) => ulid_canon(s@) == Some(t@),
                Err(()) => ulid_canon(s@) is None,
            },
    {
        match ulid_normalize(s) {
            Ok(c) => Ok(Token { val: c }),
            Err(()) => Err(()),
        }
    }

    pub fn to_string(&self) -> (r: String)
        ensures
            r@ == self@,
    {
        self.val.clone()
    }

    /// Rebuild a token from a stored canonical name.
    pub fn from_name(s: &String) -> (r: Self)
        ensures
            r@ == s@,
    {
        Token { val: s.clone() }
    }

    pub fn as_name(&self) -> (r: &String)
        ensures
            r@ == self@,
    {
        &self.val
    }
}

/// Where a session stands: closed, offline since an instant, or online
/// with the ids of its live connections.
pub enum SessState {
    Closed,
    Offline(i64),
    Online(Vec<u64>),
}

/// A session is past its grace window: it has sat offline since `since`
/// for at least `dur` milliseconds at time `now`.
pub open spec fn spec_expired(state: SessState, dur: u64, now: i64) -> bool {
    match state {
        SessState::Offline(since) => now - since >= dur,
        _ => false,
    }
}

/// Session expiry: a session offline since `since`, with no activity, is
/// past its grace window at every instant from `since + dur` on.
pub proof fn lemma_session_expiry(since: i64, dur: u64, now: i64)
    requires
        now - since >= dur,
    ensures
        spec_expired(SessState::Offline(since), dur, now),
{
}

/// Session refresh: one check before expiry moves the deadline to a full
/// grace window past the check instant — the refreshed session is not
/// expired at any instant short of `t_check + dur`.
pub proof fn lemma_session_refresh_extends(t_check: i64, dur: u64, now: i64)
    requires
        now - t_check < dur,
    ensures
        !spec_expired(SessState::Offline(t_check), dur, now),
{
}

/// The grace time a still-live offline session has left: a full window
/// when the clock reads at or before `since`, the remainder otherwise.
pub open spec fn spec_remaining(since: i64, dur: u64, now: i64) -> u64 {
    if now - since <= 0 {
        dur
    } else {
        (dur - (now - since)) as u64
    }
}

/// A connection-id list is strictly increasing and bounded by the seed.
pub open spec fn ids_wf(c: Seq<u64>, seed: u64) -> bool {
    &&& forall|i: int, j: int| 0 <= i < j < c.len() ==> c[i] < c[j]
    &&& forall|i: int| 0 <= i < c.len() ==> (#[trigger] c[i]) <= seed
}

/// One user session.
pub struct Session {
    idx_conn: u64,
    token: Token,
    login: Login,
    is_reminded: bool,
    dur: u64,
    state: SessState,
}

impl Session {
    pub closed spec fn state(&self) -> SessState {
        self.state
    }

    pub closed spec fn dur_ms(&self) -> u64 {
        self.dur
    }

    pub closed spec fn reminded(&self) -> bool {
        self.is_reminded
    }

    pub open spec fn is_online_v(&self) -> bool {
        self.state() is Online
    }

    /// The connection-id counter: ids are minted by counting up from it.
    pub closed spec fn conn_seed(&self) -> u64 {
        self.idx_conn
    }

    /// Connection ids are strictly increasing and never exceed the
    /// counter, so every id is unique within the session.
    pub open spec fn conns_wf(&self) -> bool {
        ids_wf(self.conns(), self.conn_seed())
    }

    /// The ids of the live connections, none when not online.
    pub open spec fn conns(&self) -> Seq<u64> {
        match self.state() {
            SessState::Online(v) => v@,
            _ => Seq::empty(),
        }
    }

    /// A new session starts offline at `now`, with one wakeup scheduled:
    /// the caller arms a heartbeat in `dur` milliseconds.
    pub fn new(login: Login, token: Token, dur: u64, now: i64) -> (r: Self)
        ensures
            r.state() == SessState::Offline(now),
            r.dur_ms() == dur,
            r.reminded(),
            r.conns_wf(),
            r.conn_seed() == 0,
    {
        Session { token, login, dur, idx_conn: 0, is_reminded: true, state: SessState::Offline(
            now,
        ) }
    }

    /// The timer fired. An expired offline session closes (`Err`); one
    /// still in grace asks for a new wakeup after the remaining time; an
    /// online session needs none.
    pub fn heartbeat(&mut self, now: i64) -> (r: Result<Option<u64>, ()>)
        ensures
            final(self).dur_ms() == old(self).dur_ms(),
            final(self).conn_seed() == old(self).conn_seed(),
            old(self).conns_wf() ==> final(self).conns_wf(),
            r is Err <==> spec_expired(old(self).state(), old(self).dur_ms(), now),
            r is Err ==> final(self).state() == SessState::Closed,
            r is Ok ==> final(self).state() == old(self).state(),
            match (old(self).state(), r) {
                (SessState::Offline(since), Ok(opt)) => opt == Some(
                    spec_remaining(since, old(self).dur_ms(), now),
                ) && final(self).reminded(),
                (_, Ok(opt)) => opt is None && !final(self).reminded(),
                (_, Err(())) => true,
            },
    {
        self.is_reminded = false;
        let expired: bool;
        let remaining: u64;
        match &self.state {
            SessState::Offline(since) => {
                let elapsed: i128 = now as i128 - *since as i128;
                if elapsed >= self.dur as i128 {
                    expired = true;
                    remaining = 0;
                } else {
                    expired = false;
                    remaining = (self.dur as i128 - if elapsed > 0 {
                        elapsed
                    } else {
                        0
                    }) as u64;
                    proof {
                        assert(remaining == spec_remaining(*since, self.dur, now));
                    }
                }
            },
            _ => {
                return Ok(None);
            },
        }
        if expired {
            self.state = SessState::Closed;
            proof {
                assert(self.conns() =~= Seq::<u64>::empty());
            }
            Err(())
        } else {
            self.is_reminded = true;
            Ok(Some(remaining))
        }
    }

    /// An authorized check while offline restarts the grace window at
    /// `now`.
    pub fn refresh(&mut self, now: i64)
        ensures
            old(self).state() is Offline ==> final(self).state() == SessState::Offline(now),
            !(old(self).state() is Offline) ==> final(self).state() == old(self).state(),
            final(self).dur_ms() == old(self).dur_ms(),
            final(self).reminded() == old(self).reminded(),
            final(self).conn_seed() == old(self).conn_seed(),
            old(self).conns_wf() ==> final(self).conns_wf(),
    {
        if let SessState::Offline(_) = &self.state {
            self.state = SessState::Offline(now);
        }
    }

    pub fn is_online(&self) -> (b: bool)
        ensures
            b == self.is_online_v(),
    {
        match &self.state {
            SessState::Online(_) => true,
            _ => false,
        }
    }

    /// Attach a connection: the session comes online and the new
    /// connection gets the next id, unique within the session. Refused
    /// exactly when the id space is exhausted.
    pub fn conn_add(&mut self) -> (r: Option<u64>)
        requires
            old(self).conns_wf(),
        ensures
            final(self).conns_wf(),
            r is Some <==> old(self).conn_seed() < u64::MAX,
            match r {
                Some(id) => final(self).conns() == old(self).conns().push(id) && final(self).is_online_v() && id == old(self).conn_seed() + 1 && !old(self).conns().contains(
                    id,
                ) && final(self).conn_seed() == id,
                None => *final(self) == *old(self),
            },
            final(self).dur_ms() == old(self).dur_ms(),
            final(self).reminded() == old(self).reminded(),
    {
        if self.idx_conn == u64::MAX {
            return None;
        }
        self.idx_conn = self.idx_conn + 1;
        let id = self.idx_conn;
        proof {
            if old(self).conns().contains(id) {
                let w = choose|w: int|
                    0 <= w < old(self).conns().len() && (#[trigger] old(self).conns()[w]) == id;
            }
        }
        let mut prev = SessState::Closed;
        core::mem::swap(&mut prev, &mut self.state);
        match prev {
            SessState::Online(mut v) => {
                v.push(id);
                self.state = SessState::Online(v);
            },
            _ => {
                let mut v: Vec<u64> = Vec::new();
                v.push(id);
                self.state = SessState::Online(v);
                proof {
                    assert(old(self).conns().push(id) =~= v@);
                }
            },
        }
        proof {
            assert(self.conns() == old(self).conns().push(id));
            assert forall|i: int, j: int| 0 <= i < j < self.conns().len() implies self.conns()[i]
                < self.conns()[j] by {
                if j == self.conns().len() - 1 {
                    assert(self.conns()[i] == old(self).conns()[i]);
                }
            };
            assert forall|i: int| 0 <= i < self.conns().len() implies (#[trigger] self.conns()[i])
                <= self.conn_seed() by {
                if i < self.conns().len() - 1 {
                    assert(self.conns()[i] == old(self).conns()[i]);
                }
            };
            assert(ids_wf(self.conns(), self.conn_seed()));
        }
        Some(id)
    }

    /// Detach a connection. When the last one goes, the session falls
    /// offline at `now` — online always means at least one connection —
    /// and if no wakeup is in flight the caller arms one a grace window
    /// ahead (the returned delay).
    pub fn conn_close(&mut self, id: u64, now: i64) -> (r: Option<u64>)
        requires
            old(self).conns_wf(),
        ensures
            final(self).dur_ms() == old(self).dur_ms(),
            final(self).conn_seed() == old(self).conn_seed(),
            final(self).conns_wf(),
            old(self).is_online_v() ==> forall|x: u64| #[trigger] final(self).conns().contains(
                x,
            ) <==> old(self).conns().contains(x) && x != id,
            !(old(self).is_online_v()) ==> final(self).state() == old(self).state(),
            old(self).is_online_v() ==> (final(self).state() is Online <==> exists|x: u64|
                old(self).conns().contains(x) && x != id),
            old(self).is_online_v() && !(exists|x: u64| old(self).conns().contains(x) && x != id)
                ==> final(self).state() == SessState::Offline(now) && final(self).reminded(),
            r is Some <==> old(self).is_online_v() && !(exists|x: u64|
                old(self).conns().contains(x) && x != id) && !old(self).reminded(),
            match r {
                Some(d) => d == old(self).dur_ms(),
                None => true,
            },
    {
        let mut prev = SessState::Closed;
        core::mem::swap(&mut prev, &mut self.state);
        match prev {
            SessState::Online(v) => {
                proof {
                    assert(old(self).conns() == v@);
                }
                let mut kept: Vec<u64> = Vec::new();
                let n = v.len();
                for i in 0..n
                    invariant
                        n == v@.len(),
                        v@ == old(self).conns(),
                        forall|a: int, b: int| 0 <= a < b < v@.len() ==> v@[a] < v@[b],
                        forall|a: int| 0 <= a < v@.len() ==> (#[trigger] v@[a]) <= self.idx_conn,
                        forall|x: u64| #[trigger] kept@.contains(x) <==> v@.take(
                            i as int,
                        ).contains(x) && x != id,
                        forall|a: int, b: int| 0 <= a < b < kept@.len() ==> kept@[a] < kept@[b],
                        forall|a: int| 0 <= a < kept@.len() ==> (#[trigger] kept@[a])
                            <= self.idx_conn,
                {
                    let ghost kept0 = kept@;
                    if v[i] != id {
                        kept.push(v[i]);
                        proof {
                            assert forall|a: int, b: int| 0 <= a < b < kept@.len()
                                implies kept@[a] < kept@[b] by {
                                if b == kept@.len() - 1 {
                                    assert(kept@[a] == kept0[a]);
                                    assert(kept0.contains(kept0[a]));
                                    assert(v@.take(i as int).contains(kept0[a]));
                                    let w = choose|w: int|
                                        0 <= w < v@.take(i as int).len() && (#[trigger] v@.take(
                                            i as int,
                                        )[w]) == kept0[a];
                                    assert(v@[w] == kept0[a]);
                                    assert(v@[w] < v@[i as int]);
                                }
                            };
                            assert forall|a: int| 0 <= a < kept@.len() implies (
                            #[trigger] kept@[a]) <= self.idx_conn by {
                                if a < kept@.len() - 1 {
                                    assert(kept@[a] == kept0[a]);
                                }
                            };
                        }
                    }
                    proof {
                        assert(v@.take(i as int + 1).drop_last() =~= v@.take(i as int));
                        assert(v@.take(i as int + 1).last() == v@[i as int]);
                        assert forall|x: u64|
                            #[trigger] kept@.contains(x) <==> v@.take(i as int + 1).contains(x)
                                && x != id by {
                            if kept@.contains(x) {
                                if kept0.contains(x) {
                                    assert(x != id);
                                    assert(v@.take(i as int).contains(x));
                                    let w = choose|w: int|
                                        0 <= w < v@.take(i as int).len() && (#[trigger] v@.take(
                                            i as int,
                                        )[w]) == x;
                                    assert(v@.take(i as int + 1)[w] == x);
                                    assert(v@.take(i as int + 1).contains(x));
                                } else {
                                    assert(kept@ == kept0.push(v@[i as int]));
                                    let w = choose|w: int|
                                        0 <= w < kept@.len() && (#[trigger] kept@[w]) == x;
                                    if w < kept@.len() - 1 {
                                        assert(kept0[w] == x);
                                        assert(kept0.contains(x));
                                    }
                                    assert(x == v@[i as int]);
                                    assert(x != id);
                                    assert(v@.take(i as int + 1)[i as int] == x);
                                    assert(v@.take(i as int + 1).contains(x));
                                }
                            }
                            if v@.take(i as int + 1).contains(x) && x != id {
                                let w = choose|w: int|
                                    0 <= w < v@.take(i as int + 1).len() && (#[trigger] v@.take(
                                        i as int + 1,
                                    )[w]) == x;
                                if w < i {
                                    assert(v@.take(i as int)[w] == x);
                                    assert(v@.take(i as int).contains(x));
                                    assert(kept0.contains(x));
                                    let w2 = choose|w2: int|
                                        0 <= w2 < kept0.len() && (#[trigger] kept0[w2]) == x;
                                    assert(kept@[w2] == x);
                                    assert(kept@.contains(x));
                                } else {
                                    assert(x == v@[i as int]);
                                    assert(v@[i as int] != id);
                                    assert(kept@ == kept0.push(v@[i as int]));
                                    assert(kept@[kept@.len() - 1] == x);
                                    assert(kept@.contains(x));
                                }
                            }
                        };
                    }
                }
                proof {
                    assert(v@.take(n as int) =~= v@);
                    assert(forall|x: u64| #[trigger] kept@.contains(x) <==> v@.contains(x) && x
                        != id);
                }
                if kept.len() == 0 {
                    self.state = SessState::Offline(now);
                    proof {
                        assert(self.conns() =~= Seq::<u64>::empty());
                        assert forall|x: u64|
                            #[trigger] self.conns().contains(x) <==> old(self).conns().contains(x)
                                && x != id by {
                            assert(!kept@.contains(x));
                            if self.conns().contains(x) {
                                let w = choose|w: int|
                                    0 <= w < self.conns().len() && (#[trigger] self.conns()[w])
                                        == x;
                            }
                        };
                        assert forall|x: u64|
                            !(old(self).conns().contains(x) && x != id) by {
                            assert(!kept@.contains(x));
                        };
                    }
                    if !self.is_reminded {
                        self.is_reminded = true;
                        Some(self.dur)
                    } else {
                        None
                    }
                } else {
                    proof {
                        assert(kept@.contains(kept@[0]));
                        assert(old(self).conns().contains(kept@[0]) && kept@[0] != id);
                    }
                    self.state = SessState::Online(kept);
                    proof {
                        assert forall|x: u64|
                            #[trigger] self.conns().contains(x) <==> old(self).conns().contains(x)
                                && x != id by {
                            assert(self.conns() == kept@);
                        };
                    }
                    None
                }
            },
            other => {
                self.state = other;
                None
            },
        }
    }

    /// The live connection ids, for fan-out.
    pub fn conn_ids(&self) -> (r: Vec<u64>)
        ensures
            r@ == self.conns(),
    {
        match &self.state {
            SessState::Online(v) => {
                let mut out: Vec<u64> = Vec::new();
                let n = v.len();
                for i in 0..n
                    invariant
                        n == v@.len(),
                        out@ =~= v@.take(i as int),
                {
                    out.push(v[i]);
                    proof {
                        assert(v@.take(i as int + 1).drop_last() =~= v@.take(i as int));
                    }
                }
                proof {
                    assert(v@.take(n as int) =~= v@);
                }
                out
            },
            _ => Vec::new(),
        }
    }
}

} // verus!
