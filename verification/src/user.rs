//! Users: a login bound to one workspace, owning token-keyed sessions.

use vstd::prelude::*;

use crate::session::{SessState, Session, Token};
use crate::smap::StrMap;
use crate::wplace::Name as NameWplace;

verus! {

/// A user's login name.
#[derive(Debug)]
pub struct Login {
    val: String,
}

impl View for Login {
    type V = Seq<char>;

    closed spec fn view(&self) -> Seq<char> {
        self.val@
    }
}

impl Clone for Login {
    fn clone(&self) -> (r: Self)
        ensures
            r == *self,
    {
        Login { val: self.val.clone() }
    }
}

impl PartialEq for Login {
    fn eq(&self, other: &Self) -> (r: bool) {
        self.val == other.val
    }
}

impl vstd::std_specs::cmp::PartialEqSpecImpl for Login {
    open spec fn obeys_eq_spec() -> bool {
        true
    }

    open spec fn eq_spec(&self, other: &Self) -> bool {
        self@ == other@
    }
}

impl Login {
    pub fn new(val: String) -> (r: Self)
        ensures
            r@ == val@,
    {
        Login { val }
    }

    pub fn as_str(&self) -> (r: &str)
        ensures
            r@ == self@,
    {
        self.val.as_str()
    }

    pub fn as_name(&self) -> (r: &String)
        ensures
            r@ == self@,
    {
        &self.val
    }

    pub fn into_string(self) -> (r: String)
        ensures
            r@ == self@,
    {
        self.val
    }
}

/// One user: its login, its workspace, and its sessions keyed by token.
pub struct User {
    dur_sess: u64,
    login: Login,
    name_wplace: NameWplace,
    map: StrMap<Session>,
}

impl User {
    pub closed spec fn sessions(&self) -> Map<Seq<char>, Session> {
        self.map.m()
    }

    pub closed spec fn sessions_kv(&self) -> Seq<(String, Session)> {
        self.map.kv()
    }

    pub closed spec fn login_v(&self) -> Seq<char> {
        self.login@
    }

    pub closed spec fn wplace_v(&self) -> Seq<char> {
        self.name_wplace@
    }

    pub closed spec fn dur_v(&self) -> u64 {
        self.dur_sess
    }

    pub closed spec fn wf(&self) -> bool {
        &&& self.map.wf()
        &&& forall|t: Seq<char>| self.sessions().contains_key(t) ==> (
        #[trigger] self.sessions()[t]).conns_wf()
    }

    pub fn new(login: Login, name_wplace: NameWplace, dur_sess: u64) -> (r: Self)
        ensures
            r.wf(),
            r.login_v() == login@,
            r.wplace_v() == name_wplace@,
            r.dur_v() == dur_sess,
            r.sessions() =~= Map::<Seq<char>, Session>::empty(),
            r.sessions_kv().len() == 0,
    {
        User { login, name_wplace, dur_sess, map: StrMap::new() }
    }

    /// The timer of one session fired: run its heartbeat; a session past
    /// its grace window is dropped. `Err` says the user's last session is
    /// gone and the user itself should be removed; `Ok(Some(d))` asks for
    /// a wakeup for this session in `d` milliseconds.
    pub fn sess_heartbeat(&mut self, token: &Token, now: i64) -> (r: Result<Option<u64>, ()>)
        requires
            old(self).wf(),
        ensures
            final(self).wf(),
            final(self).login_v() == old(self).login_v(),
            final(self).wplace_v() == old(self).wplace_v(),
            final(self).dur_v() == old(self).dur_v(),
            r is Err <==> final(self).sessions_kv().len() == 0,
            r is Err <==> (forall|t: Seq<char>| !final(self).sessions().contains_key(t)),
            old(self).sessions().contains_key(token@) && crate::session::spec_expired(
                old(self).sessions()[token@].state(),
                old(self).sessions()[token@].dur_ms(),
                now,
            ) ==> !final(self).sessions().contains_key(token@),
            forall|t: Seq<char>| t != token@ ==> (final(self).sessions().contains_key(t) <==> old(self).sessions().contains_key(t)),
            forall|t: Seq<char>| t != token@ && old(self).sessions().contains_key(t) ==> final(self).sessions()[t] == old(self).sessions()[t],
            match r {
                Ok(Some(d)) => old(self).sessions().contains_key(token@) && (match old(self).sessions()[token@].state() {
                    SessState::Offline(since) => !crate::session::spec_expired(
                        old(self).sessions()[token@].state(),
                        old(self).sessions()[token@].dur_ms(),
                        now,
                    ) && d == crate::session::spec_remaining(
                        since,
                        old(self).sessions()[token@].dur_ms(),
                        now,
                    ),
                    _ => false,
                }),
                _ => true,
            },
            (old(self).sessions().contains_key(token@) && old(self).sessions()[token@].state() is Offline && !crate::session::spec_expired(
                old(self).sessions()[token@].state(),
                old(self).sessions()[token@].dur_ms(),
                now,
            )) ==> r matches Ok(Some(_)),
    {
        match self.map.index_of(token.as_name()) {
            Some(i) => {
                proof {
                    assert(old(self).sessions()[token@].conns_wf());
                }
                let outcome = {
                    let sess = self.map.val_mut(i);
                    sess.heartbeat(now)
                };
                proof {
                    crate::smap::lemma_entries_map_update(
                        old(self).map.kv(),
                        i as int,
                        self.map.kv()[i as int].1,
                    );
                    assert forall|t: Seq<char>| self.sessions().contains_key(t) implies (
                    #[trigger] self.sessions()[t]).conns_wf() by {
                        if t != token@ {
                            assert(self.sessions()[t] == old(self).sessions()[t]);
                        }
                    };
                }
                match outcome {
                    Ok(rearm) => self.sess_scan_done(rearm),
                    Err(()) => {
                        let ghost mid = *self;
                        let _ = self.map.remove_at(i);
                        proof {
                            assert(self.map.m() =~= old(self).map.m().remove(token@));
                            assert forall|t: Seq<char>| self.sessions().contains_key(t) implies (
                            #[trigger] self.sessions()[t]).conns_wf() by {
                                assert(mid.sessions().contains_key(t));
                                assert(self.sessions()[t] == mid.sessions()[t]);
                            };
                        }
                        self.sess_scan_done(None)
                    },
                }
            },
            None => self.sess_scan_done(None),
        }
    }

    /// `Err` exactly when no session remains after a heartbeat.
    fn sess_scan_done(&self, rearm: Option<u64>) -> (r: Result<Option<u64>, ()>)
        requires
            self.wf(),
        ensures
            r is Err <==> self.sessions_kv().len() == 0,
            r is Err <==> (forall|t: Seq<char>| !self.sessions().contains_key(t)),
            r matches Ok(x) ==> x == rearm,
    {
        if self.map.len() == 0 {
            proof {
                assert forall|t: Seq<char>| !self.sessions().contains_key(t) by {
                    crate::smap::lemma_entries_map_domain(self.map.kv(), t);
                };
            }
            Err(())
        } else {
            proof {
                self.map.lemma_kv_index(0);
                assert(self.sessions().contains_key(self.map.kv()[0].0@));
            }
            Ok(rearm)
        }
    }

    /// Mint a session under a fresh token. The caller arms the session's
    /// first heartbeat a full grace window ahead. Refused only when no
    /// fresh random token was found after many draws.
    pub fn sess_make(&mut self, now: i64) -> (r: Result<Token, ()>)
        requires
            old(self).wf(),
        ensures
            final(self).wf(),
            final(self).login_v() == old(self).login_v(),
            final(self).wplace_v() == old(self).wplace_v(),
            final(self).dur_v() == old(self).dur_v(),
            r is Err ==> *final(self) == *old(self),
            old(self).sessions_kv().len() == 0 ==> r is Ok,
            match r {
                Ok(token) => !old(self).sessions().contains_key(token@) && final(self).sessions().contains_key(token@) && final(self).sessions()[token@].state() == SessState::Offline(now) && final(self).sessions()[token@].dur_ms() == old(self).dur_v() && (forall|t: Seq<char>|
                    t != token@ ==> (final(self).sessions().contains_key(t) <==> old(self).sessions().contains_key(t))) && (forall|t: Seq<char>|
                    t != token@ && old(self).sessions().contains_key(t) ==> final(self).sessions()[t] == old(self).sessions()[t]),
                Err(()) => true,
            },
    {
        let mut token = Token::new();
        let mut tries: u64 = 0;
        while self.map.contains_key(token.as_name())
            invariant
                self.wf(),
                *self == *old(self),
                tries <= 64,
            decreases 64 - tries,
        {
            if tries == 64 {
                proof {
                    self.map.lemma_contains_index(token@);
                }
                return Err(());
            }
            tries = tries + 1;
            token = Token::new();
        }
        let session = Session::new(self.login.clone(), token.clone(), self.dur_sess, now);
        self.map.insert(token.to_string(), session);
        proof {
            assert(self.sessions()[token@] == session);
            assert forall|t: Seq<char>| self.sessions().contains_key(t) implies (
            #[trigger] self.sessions()[t]).conns_wf() by {
                if t != token@ {
                    assert(old(self).sessions().contains_key(t));
                    assert(self.sessions()[t] == old(self).sessions()[t]);
                }
            };
        }
        Ok(token)
    }

    /// An authorized check: true iff the token names a session, whose
    /// grace window then restarts at `now`.
    pub fn sess_check(&mut self, token: &Token, now: i64) -> (b: bool)
        requires
            old(self).wf(),
        ensures
            final(self).wf(),
            final(self).login_v() == old(self).login_v(),
            final(self).wplace_v() == old(self).wplace_v(),
            final(self).dur_v() == old(self).dur_v(),
            b == old(self).sessions().contains_key(token@),
            forall|t: Seq<char>| final(self).sessions().contains_key(t) <==> old(self).sessions().contains_key(t),
            b && old(self).sessions()[token@].state() is Offline ==> final(self).sessions().contains_key(token@) && final(self).sessions()[token@].state()
                == SessState::Offline(now),
            !b ==> *final(self) == *old(self),
    {
        match self.map.index_of(token.as_name()) {
            Some(i) => {
                proof {
                    assert(old(self).sessions()[token@].conns_wf());
                }
                {
                    let sess = self.map.val_mut(i);
                    sess.refresh(now);
                }
                proof {
                    crate::smap::lemma_entries_map_update(
                        old(self).map.kv(),
                        i as int,
                        self.map.kv()[i as int].1,
                    );
                    assert forall|t: Seq<char>|
                        self.sessions().contains_key(t) <==> old(self).sessions().contains_key(
                            t,
                        ) by {};
                    assert forall|t: Seq<char>| self.sessions().contains_key(t) implies (
                    #[trigger] self.sessions()[t]).conns_wf() by {
                        if t != token@ {
                            assert(self.sessions()[t] == old(self).sessions()[t]);
                        }
                    };
                }
                true
            },
            None => false,
        }
    }

    /// Attach a connection to the session under `token`; it comes online
    /// and the new connection id — fresh within the session — is handed
    /// back. Refused exactly when the token names no session or its id
    /// space is exhausted.
    pub fn conn_add(&mut self, token: &Token) -> (r: Result<u64, ()>)
        requires
            old(self).wf(),
        ensures
            final(self).wf(),
            final(self).login_v() == old(self).login_v(),
            final(self).wplace_v() == old(self).wplace_v(),
            final(self).dur_v() == old(self).dur_v(),
            !old(self).sessions().contains_key(token@) ==> r is Err && *final(self) == *old(self),
            r is Ok <==> old(self).sessions().contains_key(token@) && old(self).sessions()[token@].conn_seed() < u64::MAX,
            r matches Ok(id) ==> final(self).sessions().contains_key(token@) && final(self).sessions()[token@].is_online_v() && final(self).sessions()[token@].conns() == old(self).sessions()[token@].conns().push(id) && !old(self).sessions()[token@].conns().contains(id),
            forall|t: Seq<char>| t != token@ ==> (final(self).sessions().contains_key(t) <==> old(self).sessions().contains_key(t)),
            forall|t: Seq<char>| t != token@ && old(self).sessions().contains_key(t) ==> final(self).sessions()[t] == old(self).sessions()[t],
    {
        match self.map.index_of(token.as_name()) {
            Some(i) => {
                proof {
                    assert(old(self).sessions()[token@].conns_wf());
                }
                let added = {
                    let sess = self.map.val_mut(i);
                    sess.conn_add()
                };
                proof {
                    crate::smap::lemma_entries_map_update(
                        old(self).map.kv(),
                        i as int,
                        self.map.kv()[i as int].1,
                    );
                    assert forall|t: Seq<char>| self.sessions().contains_key(t) implies (
                    #[trigger] self.sessions()[t]).conns_wf() by {
                        if t != token@ {
                            assert(self.sessions()[t] == old(self).sessions()[t]);
                        }
                    };
                }
                match added {
                    Some(id) => Ok(id),
                    None => Err(()),
                }
            },
            None => Err(()),
        }
    }

    /// Detach a connection from the session under `token`: the session
    /// falls offline when its last connection goes. A returned delay asks
    /// the caller to arm that session's heartbeat.
    pub fn conn_close(&mut self, token: &Token, id: u64, now: i64) -> (r: Option<u64>)
        requires
            old(self).wf(),
        ensures
            final(self).wf(),
            final(self).login_v() == old(self).login_v(),
            final(self).wplace_v() == old(self).wplace_v(),
            final(self).dur_v() == old(self).dur_v(),
            !old(self).sessions().contains_key(token@) ==> r is None && *final(self) == *old(self),
            old(self).sessions().contains_key(token@) && old(self).sessions()[token@].is_online_v() ==> final(self).sessions().contains_key(token@)
                && (forall|x: u64| #[trigger] final(self).sessions()[token@].conns().contains(x)
                <==> old(self).sessions()[token@].conns().contains(x) && x != id)
                && (final(self).sessions()[token@].state() is Online <==> exists|x: u64|
                    old(self).sessions()[token@].conns().contains(x) && x != id)
                && (!(exists|x: u64| old(self).sessions()[token@].conns().contains(x) && x != id)
                    ==> final(self).sessions()[token@].state() == SessState::Offline(now)),
            r is Some <==> old(self).sessions().contains_key(token@)
                && old(self).sessions()[token@].is_online_v() && !(exists|x: u64|
                old(self).sessions()[token@].conns().contains(x) && x != id) && !old(self).sessions()[token@].reminded(),
            r matches Some(d) ==> d == old(self).sessions()[token@].dur_ms(),
            forall|t: Seq<char>| t != token@ ==> (final(self).sessions().contains_key(t) <==> old(self).sessions().contains_key(t)),
            forall|t: Seq<char>| t != token@ && old(self).sessions().contains_key(t) ==> final(self).sessions()[t] == old(self).sessions()[t],
    {
        match self.map.index_of(token.as_name()) {
            Some(i) => {
                proof {
                    assert(old(self).sessions()[token@].conns_wf());
                }
                let rearm = {
                    let sess = self.map.val_mut(i);
                    sess.conn_close(id, now)
                };
                proof {
                    crate::smap::lemma_entries_map_update(
                        old(self).map.kv(),
                        i as int,
                        self.map.kv()[i as int].1,
                    );
                    assert forall|t: Seq<char>| self.sessions().contains_key(t) implies (
                    #[trigger] self.sessions()[t]).conns_wf() by {
                        if t != token@ {
                            assert(self.sessions()[t] == old(self).sessions()[t]);
                        }
                    };
                }
                rearm
            },
            None => None,
        }
    }

    /// Every live connection of every online session, as `(token, id)`
    /// pairs: the addresses one record fan-out writes to — all of them,
    /// nothing else, and no pair twice.
    #[verifier::rlimit(60)]
    pub fn online_conns(&self) -> (r: Vec<(Token, u64)>)
        requires
            self.wf(),
        ensures
            forall|i: int| 0 <= i < r@.len() ==> self.sessions().contains_key(
                (#[trigger] r@[i]).0@,
            ) && self.sessions()[r@[i].0@].is_online_v() && self.sessions()[r@[i].0@].conns(
            ).contains(r@[i].1),
            forall|t: Seq<char>, c: u64|
                self.sessions().contains_key(t) && #[trigger] self.sessions()[t].conns().contains(
                    c,
                ) ==> exists|i: int|
                    0 <= i < r@.len() && (#[trigger] r@[i]).0@ == t && r@[i].1 == c,
            forall|a: int, b: int| 0 <= a < b < r@.len() ==> ((#[trigger] r@[a]).0@, r@[a].1) != (
                (#[trigger] r@[b]).0@,
                r@[b].1,
            ),
    {
        let mut out: Vec<(Token, u64)> = Vec::new();
        let ghost mut owner: Seq<int> = Seq::empty();
        let n = self.map.len();
        let mut i: usize = 0;
        while i < n
            invariant
                0 <= i <= n,
                n == self.sessions_kv().len(),
                self.wf(),
                forall|a: int| 0 <= a < out@.len() ==> self.sessions().contains_key(
                    (#[trigger] out@[a]).0@,
                ) && self.sessions()[out@[a].0@].is_online_v() && self.sessions()[out@[a].0@].conns(
                ).contains(out@[a].1),
                forall|ii: int, c: u64|
                    0 <= ii < i && #[trigger] self.sessions_kv()[ii].1.conns().contains(c)
                        ==> exists|a: int|
                        0 <= a < out@.len() && (#[trigger] out@[a]).0@ == self.sessions_kv()[
                            ii].0@ && out@[a].1 == c,
                owner.len() == out@.len(),
                forall|a: int|
                    #![trigger owner[a]]
                    #![trigger out@[a]]
                    0 <= a < out@.len() ==> 0 <= owner[a] < i && out@[a].0@
                        == self.sessions_kv()[owner[a]].0@,
                forall|a: int, b: int| 0 <= a < b < out@.len() ==> ((#[trigger] out@[a]).0@,
                out@[a].1) != ((#[trigger] out@[b]).0@, out@[b].1),
            decreases n - i,
        {
            let ghost out_before = out@;
            let sess = self.map.val_at(i);
            proof {
                self.map.lemma_kv_index(i as int);
            }
            if sess.is_online() {
                let token = Token::from_name(self.map.key_at(i));
                let ids = sess.conn_ids();
                let m = ids.len();
                let mut sess_out: Vec<(Token, u64)> = Vec::new();
                for j in 0..m
                    invariant
                        m == ids@.len(),
                        sess_out@.len() == j,
                        forall|jj: int| 0 <= jj < j ==> (#[trigger] sess_out@[jj]) == (
                            token,
                            ids@[jj],
                        ),
                {
                    sess_out.push((token.clone(), ids[j]));
                }
                out.append(&mut sess_out);
                proof {
                    assert(out@.len() == out_before.len() + m);
                    assert(forall|a: int| 0 <= a < out_before.len() ==> (#[trigger] out@[a])
                        == out_before[a]);
                    assert(forall|jj: int| 0 <= jj < m ==> (#[trigger] out@[
                        out_before.len() + jj]) == (token, ids@[jj]));
                    assert(token@ == self.sessions_kv()[i as int].0@);
                    assert(ids@ == self.sessions_kv()[i as int].1.conns());
                    let ghost owner0 = owner;
                    owner = owner + Seq::new(m as nat, |q: int| i as int);
                    assert(owner.len() == owner0.len() + m);
                    assert(forall|a: int| 0 <= a < owner0.len() ==> #[trigger] owner[a]
                        == owner0[a]);
                    assert(forall|a: int| owner0.len() <= a < owner.len() ==> #[trigger] owner[a]
                        == i as int);
                    assert forall|a: int| 0 <= a < out@.len() implies 0 <= owner[a] < i + 1 && (
                    #[trigger] out@[a]).0@ == self.sessions_kv()[owner[a]].0@ by {
                        if a < out_before.len() {
                            assert(out@[a] == out_before[a]);
                            assert(owner[a] == owner0[a]);
                            assert(0 <= owner0[a] < i);
                            assert(out_before[a].0@ == self.sessions_kv()[owner0[a]].0@);
                        } else {
                            assert(owner[a] == i as int);
                            assert(out@[a].0@ == self.sessions_kv()[i as int].0@);
                        }
                    };
                    assert(owner0.len() == out_before.len());
                    assert(owner.len() == out@.len());
                    assert forall|a: int, b: int| 0 <= a < b < out@.len() implies ((
                    #[trigger] out@[a]).0@, out@[a].1) != ((#[trigger] out@[b]).0@, out@[b].1)
                        by {
                        if b >= out_before.len() {
                            let jb = b - out_before.len();
                            assert(out@[b] == (token, ids@[jb]));
                            if a >= out_before.len() {
                                let ja = a - out_before.len();
                                assert(out@[a] == (token, ids@[ja]));
                                assert(self.sessions()[token@].conns_wf());
                                assert(self.sessions()[token@].conns()[ja] < self.sessions()[
                                    token@].conns()[jb]);
                                assert(ids@[ja] < ids@[jb]);
                            } else {
                                assert(out@[a] == out_before[a]);
                                assert(owner[a] == owner0[a]);
                                assert(out@[a].0@ == self.sessions_kv()[owner0[a]].0@);
                                assert(owner0[a] < i);
                                assert(self.sessions_kv()[owner0[a]].0@ != self.sessions_kv()[
                                    i as int].0@);
                            }
                        }
                    };
                    assert forall|a: int| 0 <= a < out@.len() implies self.sessions().contains_key(
                        (#[trigger] out@[a]).0@,
                    ) && self.sessions()[out@[a].0@].is_online_v() && self.sessions()[
                        out@[a].0@].conns().contains(out@[a].1) by {
                        if a >= out_before.len() {
                            let jj = a - out_before.len();
                            assert(out@[a] == (token, ids@[jj]));
                            assert(self.sessions()[token@].conns()[jj] == ids@[jj]);
                        }
                    };
                    assert forall|ii: int, c: u64|
                        0 <= ii < i + 1 && #[trigger] self.sessions_kv()[ii].1.conns().contains(c)
                            implies exists|a: int|
                            0 <= a < out@.len() && (#[trigger] out@[a]).0@ == self.sessions_kv()[
                                ii].0@ && out@[a].1 == c by {
                        if ii == i {
                            let jj = choose|jj: int|
                                0 <= jj < ids@.len() && (#[trigger] ids@[jj]) == c;
                            assert(out@[out_before.len() + jj] == (token, ids@[jj]));
                            assert((#[trigger] out@[out_before.len() + jj]).0@
                                == self.sessions_kv()[ii].0@ && out@[out_before.len() + jj].1
                                == c);
                        } else {
                            let a = choose|a: int|
                                0 <= a < out_before.len() && (#[trigger] out_before[a]).0@
                                    == self.sessions_kv()[ii].0@ && out_before[a].1 == c;
                            assert(out@[a] == out_before[a]);
                        }
                    };
                }
            } else {
                proof {
                    assert(self.sessions_kv()[i as int].1.conns() =~= Seq::<u64>::empty());
                    assert forall|ii: int, c: u64|
                        0 <= ii < i + 1 && #[trigger] self.sessions_kv()[ii].1.conns().contains(c)
                            implies exists|a: int|
                            0 <= a < out@.len() && (#[trigger] out@[a]).0@ == self.sessions_kv()[
                                ii].0@ && out@[a].1 == c by {
                        if ii == i {
                            assert(false);
                        }
                    };
                    assert(owner.len() == out@.len());
                    assert forall|a: int| 0 <= a < out@.len() implies 0 <= owner[a] < i as int + 1
                        && (#[trigger] out@[a]).0@ == self.sessions_kv()[owner[a]].0@ by {
                        assert(0 <= owner[a] < i);
                        assert(out@[a].0@ == self.sessions_kv()[owner[a]].0@);
                    };
                }
            }
            i = i + 1;
        }
        proof {
            assert forall|t: Seq<char>, c: u64|
                self.sessions().contains_key(t) && #[trigger] self.sessions()[t].conns().contains(
                    c,
                ) implies exists|i: int|
                    0 <= i < out@.len() && (#[trigger] out@[i]).0@ == t && out@[i].1 == c by {
                self.map.lemma_contains_index(t);
                let ii = choose|ii: int|
                    0 <= ii < self.sessions_kv().len() && (#[trigger] self.sessions_kv()[ii]).0@
                        == t;
                self.map.lemma_kv_index(ii);
                assert(self.sessions_kv()[ii].1 == self.sessions()[t]);
                assert(self.sessions_kv()[ii].1.conns().contains(c));
            };
        }
        out
    }

    pub fn get_name_wplace(&self) -> (r: &NameWplace)
        ensures
            r@ == self.wplace_v(),
    {
        &self.name_wplace
    }

    pub fn login_ref(&self) -> (r: &Login)
        ensures
            r@ == self.login_v(),
    {
        &self.login
    }
}

} // verus!
