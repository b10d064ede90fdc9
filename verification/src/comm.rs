//! The routing actor: it owns the user, session and workspace topology,
//! fans every ingested record out to the connections of every authorized
//! user, and answers the control-plane requests.
//!
//! The actor loop and its channels live outside; each inbound signal is a
//! method here, taking the current time where a decision needs it and
//! handing back what to send or schedule. The well-formedness invariant
//! carries the authorization property: the reverse fan-out index only ever
//! points a `(group, unit)` pair at workspaces whose members may observe
//! it, so no delivery can reach a client outside its workspace.

use vstd::prelude::*;

use crate::dataflow::{Data, DataView, Group, Record, Unit, Update};
use crate::session::{SessState, Token};
use crate::smap::{StrMap, StrSet};
use crate::user::{Login, User};
use crate::wplace::Wplace;

verus! {

/// Live updates arriving from the store actor.
pub enum FromDb {
    Datapack(Vec<Data<Record<Update>>>),
    Data(Data<Record<Update>>),
    Closed,
}

/// A connection actor detached.
pub enum FromConn {
    Closed,
}

/// A session timer fired.
pub enum FromSession {
    SessionHeartbeat,
}

/// An authorization answer, as plain values.
pub enum FromAuth {
    Success { token: String, pubs: Vec<(String, Vec<String>)> },
    Failure { token: String },
}

/// One fan-out write: which connection of which session gets which data.
pub struct Delivery {
    pub login: Login,
    pub token: Token,
    pub conn_id: u64,
    pub data: Data<Record<Update>>,
}

/// The routing state.
pub struct Comm {
    map_group: StrMap<StrMap<StrSet>>,
    map_wplace: StrMap<Wplace>,
    map_user: StrMap<User>,
    dur_sess: u64,
}

impl Comm {
    /// The reverse index: group name to unit name to workspace names.
    pub closed spec fn groups_m(&self) -> Map<Seq<char>, StrMap<StrSet>> {
        self.map_group.m()
    }

    pub closed spec fn wplaces(&self) -> Map<Seq<char>, Wplace> {
        self.map_wplace.m()
    }

    pub closed spec fn users(&self) -> Map<Seq<char>, User> {
        self.map_user.m()
    }

    pub closed spec fn dur_v(&self) -> u64 {
        self.dur_sess
    }

    /// The reverse index points `(g, u)` at workspace `w`.
    pub open spec fn reverse_has(&self, g: Seq<char>, u: Seq<char>, w: Seq<char>) -> bool {
        &&& self.groups_m().contains_key(g)
        &&& self.groups_m()[g].m().contains_key(u)
        &&& self.groups_m()[g].m()[u].has(w)
    }

    /// The reverse index is structurally sound: unique keys throughout.
    pub closed spec fn groups_wf(&self) -> bool {
        &&& self.map_group.wf()
        &&& forall|g: Seq<char>| self.groups_m().contains_key(g) ==> (
        #[trigger] self.groups_m()[g]).wf()
        &&& forall|g: Seq<char>, u: Seq<char>|
            self.groups_m().contains_key(g) && self.groups_m()[g].m().contains_key(u) ==> (
            #[trigger] self.groups_m()[g].m()[u]).wf()
    }

    pub closed spec fn wf(&self) -> bool {
        &&& self.groups_wf()
        &&& self.map_wplace.wf()
        &&& forall|w: Seq<char>| self.wplaces().contains_key(w) ==> (
        #[trigger] self.wplaces()[w]).wf() && self.wplaces()[w].name_v() == w
        &&& self.map_user.wf()
        &&& forall|l: Seq<char>| self.users().contains_key(l) ==> (#[trigger] self.users()[l]).wf()
            && self.users()[l].login_v() == l
        &&& forall|g: Seq<char>, u: Seq<char>, w: Seq<char>| #[trigger] self.reverse_has(g, u, w)
            ==> self.wplaces().contains_key(w) && self.wplaces()[w].authorizes(g, u)
        &&& forall|w: Seq<char>, l: Seq<char>|
            self.wplaces().contains_key(w) && #[trigger] self.wplaces()[w].has_login(l)
                ==> self.users().contains_key(l) && self.users()[l].wplace_v() == w
    }

    /// `l` may observe `(g, u)`: its user's workspace lists that unit.
    pub open spec fn authorized(&self, l: Seq<char>, g: Seq<char>, u: Seq<char>) -> bool {
        &&& self.users().contains_key(l)
        &&& self.wplaces().contains_key(self.users()[l].wplace_v())
        &&& self.wplaces()[self.users()[l].wplace_v()].authorizes(g, u)
    }

    /// Full well-formedness follows again after the user map changed, as
    /// long as no user appeared or vanished and each user kept its login
    /// and workspace.
    proof fn lemma_wf_after_user_update(pre: Comm, post: Comm)
        requires
            pre.wf(),
            post.map_group == pre.map_group,
            post.map_wplace == pre.map_wplace,
            post.map_user.wf(),
            forall|l: Seq<char>| post.users().contains_key(l) <==> pre.users().contains_key(l),
            forall|l: Seq<char>| pre.users().contains_key(l) ==> (#[trigger] post.users()[l]).wf()
                && post.users()[l].login_v() == pre.users()[l].login_v()
                && post.users()[l].wplace_v() == pre.users()[l].wplace_v(),
        ensures
            post.wf(),
    {
        assert(post.groups_m() == pre.groups_m());
        assert(post.wplaces() == pre.wplaces());
        assert forall|l: Seq<char>| post.users().contains_key(l) implies (
        #[trigger] post.users()[l]).wf() && post.users()[l].login_v() == l by {
            assert(pre.users().contains_key(l));
            assert(pre.users()[l].login_v() == l);
        };
        assert forall|g: Seq<char>, u: Seq<char>, w: Seq<char>| #[trigger] post.reverse_has(
            g,
            u,
            w,
        ) implies post.wplaces().contains_key(w) && post.wplaces()[w].authorizes(g, u) by {
            assert(pre.reverse_has(g, u, w));
        };
        assert forall|w: Seq<char>, l: Seq<char>|
            post.wplaces().contains_key(w) && #[trigger] post.wplaces()[w].has_login(l)
                implies post.users().contains_key(l) && post.users()[l].wplace_v() == w by {
            assert(pre.wplaces()[w].has_login(l));
            assert(pre.users().contains_key(l));
            assert(pre.users()[l].wplace_v() == w);
        };
    }

    /// The reverse index's structural soundness carries over unchanged.
    proof fn lemma_groups_wf_same(pre: Comm, post: Comm)
        requires
            pre.groups_wf(),
            post.map_group == pre.map_group,
        ensures
            post.groups_wf(),
    {
        assert(post.groups_m() == pre.groups_m());
        assert forall|g: Seq<char>| post.groups_m().contains_key(g) implies (
        #[trigger] post.groups_m()[g]).wf() by {
            assert(pre.groups_m()[g].wf());
        };
        assert forall|g: Seq<char>, u: Seq<char>|
            post.groups_m().contains_key(g) && post.groups_m()[g].m().contains_key(u) implies (
        #[trigger] post.groups_m()[g].m()[u]).wf() by {
            assert(pre.groups_m()[g].m()[u].wf());
        };
    }

    pub fn new(dur_sess: u64) -> (r: Self)
        ensures
            r.wf(),
            r.users() =~= Map::<Seq<char>, User>::empty(),
            r.wplaces() =~= Map::<Seq<char>, Wplace>::empty(),
            r.dur_v() == dur_sess,
    {
        Comm {
            map_group: StrMap::new(),
            map_wplace: StrMap::new(),
            map_user: StrMap::new(),
            dur_sess,
        }
    }

    /// Drop every reverse-index reference to workspace `name`, pruning
    /// entries that become empty. No reference appears that was not there,
    /// and nothing but the reverse index is touched.
    fn clear_wplace_refs(&mut self, name: &String)
        requires
            old(self).groups_wf(),
        ensures
            final(self).groups_wf(),
            final(self).map_wplace == old(self).map_wplace,
            final(self).map_user == old(self).map_user,
            final(self).dur_v() == old(self).dur_v(),
            forall|g: Seq<char>, u: Seq<char>| !final(self).reverse_has(g, u, name@),
            forall|g: Seq<char>, u: Seq<char>, w: Seq<char>|
                final(self).reverse_has(g, u, w) ==> #[trigger] old(self).reverse_has(g, u, w),
            forall|g: Seq<char>| #[trigger] final(self).groups_m().contains_key(g) ==> final(self).groups_m()[g].kv().len() > 0,
            forall|g: Seq<char>, u: Seq<char>|
                final(self).groups_m().contains_key(g) && #[trigger] final(self).groups_m()[
                    g].m().contains_key(u) ==> final(self).groups_m()[g].m()[u].seq().len() > 0,
    {
        let mut new_outer: StrMap<StrMap<StrSet>> = StrMap::new();
        let n = self.map_group.len();
        for gi in 0..n
            invariant
                n == self.map_group.kv().len(),
                self.groups_wf(),
                *self == *old(self),
                new_outer.wf(),
                forall|g: Seq<char>| new_outer.m().contains_key(g) ==> (
                #[trigger] new_outer.m()[g]).wf(),
                forall|g: Seq<char>, u: Seq<char>|
                    new_outer.m().contains_key(g) && new_outer.m()[g].m().contains_key(u) ==> (
                    #[trigger] new_outer.m()[g].m()[u]).wf(),
                forall|g: Seq<char>, u: Seq<char>| !(new_outer.m().contains_key(g)
                    && new_outer.m()[g].m().contains_key(u) && (
                #[trigger] new_outer.m()[g].m()[u]).has(name@)),
                forall|g: Seq<char>| #[trigger] new_outer.m().contains_key(g)
                    ==> new_outer.m()[g].kv().len() > 0,
                forall|g: Seq<char>, u: Seq<char>|
                    new_outer.m().contains_key(g) && #[trigger] new_outer.m()[g].m().contains_key(
                        u,
                    ) ==> new_outer.m()[g].m()[u].seq().len() > 0,
                forall|g: Seq<char>, u: Seq<char>, w: Seq<char>|
                    new_outer.m().contains_key(g) && new_outer.m()[g].m().contains_key(u)
                        && #[trigger] new_outer.m()[g].m()[u].has(w) ==> self.reverse_has(g, u, w),
        {
            let gkey = self.map_group.key_at(gi).clone();
            proof {
                self.map_group.lemma_kv_index(gi as int);
            }
            let inner = self.map_group.val_at(gi);
            let mut new_inner: StrMap<StrSet> = StrMap::new();
            let m = inner.len();
            for ui in 0..m
                invariant
                    n == self.map_group.kv().len(),
                    gi < n,
                    m == inner.kv().len(),
                    self.groups_wf(),
                    *self == *old(self),
                    *inner == self.map_group.kv()[gi as int].1,
                    gkey@ == self.map_group.kv()[gi as int].0@,
                    self.groups_m().contains_key(gkey@),
                    self.groups_m()[gkey@] == *inner,
                    new_inner.wf(),
                    forall|u: Seq<char>| new_inner.m().contains_key(u) ==> (
                    #[trigger] new_inner.m()[u]).wf(),
                    forall|u: Seq<char>| new_inner.m().contains_key(u) ==> !(
                    #[trigger] new_inner.m()[u]).has(name@),
                    forall|u: Seq<char>| #[trigger] new_inner.m().contains_key(u)
                        ==> new_inner.m()[u].seq().len() > 0,
                    forall|u: Seq<char>, w: Seq<char>|
                        new_inner.m().contains_key(u) && #[trigger] new_inner.m()[u].has(w)
                            ==> inner.m().contains_key(u) && inner.m()[u].has(w),
            {
                let ukey = inner.key_at(ui).clone();
                proof {
                    inner.lemma_kv_index(ui as int);
                }
                let set = inner.val_at(ui);
                let mut ns = StrSet::new();
                let sn = set.len();
                for k in 0..sn
                    invariant
                        sn == set.seq().len(),
                        ui < m,
                        m == inner.kv().len(),
                        *set == inner.kv()[ui as int].1,
                        set.wf(),
                        ns.wf(),
                        forall|x: Seq<char>| #[trigger] ns.has(x) ==> set.has(x) && x != name@,
                {
                    let item = set.at(k);
                    if !(*item == *name) {
                        ns.insert(item.clone());
                    }
                }
                if ns.len() > 0 {
                    let ghost ni0 = new_inner.m();
                    new_inner.insert(ukey, ns);
                    proof {
                        assert forall|u: Seq<char>, w: Seq<char>|
                            new_inner.m().contains_key(u) && #[trigger] new_inner.m()[u].has(w)
                                implies inner.m().contains_key(u) && inner.m()[u].has(w) by {
                            if u == ukey@ {
                                assert(new_inner.m()[u] == ns);
                                assert(inner.m()[ukey@] == inner.kv()[ui as int].1);
                            } else {
                                assert(ni0.contains_key(u) && ni0[u].has(w));
                            }
                        };
                    }
                }
            }
            if new_inner.len() > 0 {
                let ghost no0 = new_outer.m();
                new_outer.insert(gkey, new_inner);
                proof {
                    assert forall|g: Seq<char>, u: Seq<char>, w: Seq<char>|
                        new_outer.m().contains_key(g) && new_outer.m()[g].m().contains_key(u)
                            && #[trigger] new_outer.m()[g].m()[u].has(w) implies self.reverse_has(
                        g,
                        u,
                        w,
                    ) by {
                        if g == gkey@ {
                            assert(new_outer.m()[g] == new_inner);
                            assert(self.groups_m()[gkey@].m().contains_key(u));
                            assert(self.groups_m()[gkey@].m()[u].has(w));
                        } else {
                            assert(no0.contains_key(g) && no0[g].m().contains_key(u)
                                && no0[g].m()[u].has(w));
                        }
                    };
                    assert forall|g: Seq<char>, u: Seq<char>|
                        !(new_outer.m().contains_key(g) && new_outer.m()[g].m().contains_key(u)
                            && (#[trigger] new_outer.m()[g].m()[u]).has(name@)) by {
                        if g == gkey@ {
                            assert(new_outer.m()[g] == new_inner);
                        }
                    };
                }
            }
        }
        self.map_group = new_outer;
        proof {
            assert(self.groups_m() == new_outer.m());
            assert forall|g: Seq<char>, u: Seq<char>| !self.reverse_has(g, u, name@) by {};
            assert forall|g: Seq<char>, u: Seq<char>, w: Seq<char>| self.reverse_has(g, u, w)
                implies #[trigger] old(self).reverse_has(g, u, w) by {};
        }
    }

    /// Remove a user: its login leaves its workspace, and a workspace left
    /// without members is dropped along with its fan-out references.
    fn remove_user(&mut self, login: &Login)
        requires
            old(self).wf(),
        ensures
            final(self).wf(),
            !final(self).users().contains_key(login@),
            final(self).dur_v() == old(self).dur_v(),
            old(self).users().contains_key(login@) && old(self).wplaces().contains_key(
                old(self).users()[login@].wplace_v(),
            ) ==> {
                let wv = old(self).users()[login@].wplace_v();
                &&& (final(self).wplaces().contains_key(wv) ==> !final(self).wplaces()[
                    wv].has_login(login@))
                &&& (final(self).wplaces().contains_key(wv) <==> exists|l: Seq<char>|
                    old(self).wplaces()[wv].has_login(l) && l != login@)
            },
    {
        let user = match self.map_user.remove(login.as_name()) {
            Some(user) => user,
            None => {
                proof {
                    assert(self.users() =~= old(self).users());
                    assert(self.map_group == old(self).map_group);
                    assert(self.map_wplace == old(self).map_wplace);
                    assert(self.wplaces() == old(self).wplaces());
                    assert(self.groups_m() == old(self).groups_m());
                    assert forall|w: Seq<char>| self.wplaces().contains_key(w) implies (
                    #[trigger] self.wplaces()[w]).wf() && self.wplaces()[w].name_v() == w by {
                        assert(old(self).wplaces().contains_key(w));
                    };
                    assert forall|l: Seq<char>| self.users().contains_key(l) implies (
                    #[trigger] self.users()[l]).wf() && self.users()[l].login_v() == l by {
                        assert(old(self).users().contains_key(l));
                    };
                    assert forall|g: Seq<char>, u: Seq<char>, w: Seq<char>|
                        #[trigger] self.reverse_has(g, u, w) implies self.wplaces().contains_key(w)
                        && self.wplaces()[w].authorizes(g, u) by {
                        assert(old(self).reverse_has(g, u, w));
                    };
                    assert forall|w: Seq<char>, l: Seq<char>|
                        self.wplaces().contains_key(w) && #[trigger] self.wplaces()[w].has_login(
                        l,
                    ) implies self.users().contains_key(l) && self.users()[l].wplace_v() == w by {
                        assert(old(self).wplaces()[w].has_login(l));
                        assert(old(self).users().contains_key(l));
                    };
                }
                return ;
            },
        };
        let ghost mid0 = *self;
        proof {
            assert(self.map_wplace == old(self).map_wplace);
            assert(self.map_group == old(self).map_group);
            assert(self.wplaces() == old(self).wplaces());
            assert(self.groups_m() == old(self).groups_m());
        }
        let wname = user.get_name_wplace();
        match self.map_wplace.index_of(wname.as_name()) {
            Some(wi) => {
                let ghost wkey = self.map_wplace.kv()[wi as int].0@;
                {
                    let wp = self.map_wplace.val_mut(wi);
                    wp.remove_login(login);
                }
                proof {
                    crate::smap::lemma_entries_map_update(
                        mid0.map_wplace.kv(),
                        wi as int,
                        self.map_wplace.kv()[wi as int].1,
                    );
                    assert(self.map_group == old(self).map_group);
                    assert(self.users() == mid0.users());
                }
                let empty = self.map_wplace.val_at(wi).is_empty();
                proof {
                    let wp2 = self.map_wplace.kv()[wi as int].1;
                    wp2.lemma_members_empty();
                    assert(self.wplaces()[wkey] == wp2);
                    assert(empty <==> !(exists|l: Seq<char>| wp2.has_login(l)));
                    assert forall|l: Seq<char>| #[trigger] wp2.has_login(l) implies old(self).wplaces()[wkey].has_login(l) && l != login@ by {};
                    assert forall|l: Seq<char>|
                        old(self).wplaces()[wkey].has_login(l) && l != login@
                            implies #[trigger] wp2.has_login(l) by {};
                }
                if !empty {
                    proof {
                        assert(self.map_wplace.wf());
                        assert forall|w: Seq<char>| self.wplaces().contains_key(w) implies (
                        #[trigger] self.wplaces()[w]).wf() && self.wplaces()[w].name_v() == w by {
                            assert(old(self).wplaces().contains_key(w));
                            if w != wkey {
                                assert(self.wplaces()[w] == old(self).wplaces()[w]);
                            }
                        };
                        assert forall|l: Seq<char>| self.users().contains_key(l) implies (
                        #[trigger] self.users()[l]).wf() && self.users()[l].login_v() == l by {
                            assert(old(self).users().contains_key(l));
                        };
                        assert forall|g: Seq<char>, u: Seq<char>, w: Seq<char>|
                            #[trigger] self.reverse_has(g, u, w)
                            implies self.wplaces().contains_key(w) && self.wplaces()[w].authorizes(
                            g,
                            u,
                        ) by {
                            assert(old(self).reverse_has(g, u, w));
                            if w != wkey {
                                assert(self.wplaces()[w] == old(self).wplaces()[w]);
                            } else {
                                assert(self.wplaces()[w].pubtop_m() == old(self).wplaces()[w].pubtop_m());
                            }
                        };
                        assert forall|w: Seq<char>, l: Seq<char>|
                            self.wplaces().contains_key(w) && #[trigger] self.wplaces()[
                            w].has_login(l) implies self.users().contains_key(l)
                            && self.users()[l].wplace_v() == w by {
                            if w != wkey {
                                assert(self.wplaces()[w] == old(self).wplaces()[w]);
                            }
                            assert(old(self).wplaces()[w].has_login(l));
                            assert(l != login@);
                            assert(old(self).users().contains_key(l));
                        };
                    }
                } else {
                    let (_, removed) = self.map_wplace.remove_at(wi);
                    let ghost mid1 = *self;
                    proof {
                        assert(self.map_group == old(self).map_group);
                        assert(self.groups_m() == old(self).groups_m());
                        assert(removed.name_v() == wkey);
                    }
                    self.clear_wplace_refs(removed.get_name().as_name());
                    proof {
                        assert(self.wplaces() == mid1.wplaces());
                        assert(self.users() == mid1.users());
                        assert forall|w: Seq<char>| self.wplaces().contains_key(w) implies (
                        #[trigger] self.wplaces()[w]).wf() && self.wplaces()[w].name_v() == w by {
                            assert(w != wkey);
                            assert(old(self).wplaces().contains_key(w));
                            assert(self.wplaces()[w] == old(self).wplaces()[w]);
                        };
                        assert forall|l: Seq<char>| self.users().contains_key(l) implies (
                        #[trigger] self.users()[l]).wf() && self.users()[l].login_v() == l by {
                            assert(old(self).users().contains_key(l));
                        };
                        assert forall|g: Seq<char>, u: Seq<char>, w: Seq<char>|
                            #[trigger] self.reverse_has(g, u, w)
                            implies self.wplaces().contains_key(w) && self.wplaces()[w].authorizes(
                            g,
                            u,
                        ) by {
                            assert(mid1.reverse_has(g, u, w));
                            assert(old(self).reverse_has(g, u, w));
                            assert(w != removed.name_v());
                            assert(self.wplaces().contains_key(w));
                            assert(self.wplaces()[w] == old(self).wplaces()[w]);
                        };
                        assert forall|w: Seq<char>, l: Seq<char>|
                            self.wplaces().contains_key(w) && #[trigger] self.wplaces()[
                            w].has_login(l) implies self.users().contains_key(l)
                            && self.users()[l].wplace_v() == w by {
                            assert(w != wkey);
                            assert(self.wplaces()[w] == old(self).wplaces()[w]);
                            assert(old(self).wplaces()[w].has_login(l));
                            assert(l != login@);
                            assert(old(self).users().contains_key(l));
                        };
                    }
                }
            },
            None => {
                proof {
                    assert forall|l: Seq<char>| self.users().contains_key(l) implies (
                    #[trigger] self.users()[l]).wf() && self.users()[l].login_v() == l by {
                        assert(old(self).users().contains_key(l));
                    };
                    assert forall|g: Seq<char>, u: Seq<char>, w: Seq<char>|
                        #[trigger] self.reverse_has(g, u, w) implies self.wplaces().contains_key(w)
                        && self.wplaces()[w].authorizes(g, u) by {
                        assert(old(self).reverse_has(g, u, w));
                    };
                    assert forall|w: Seq<char>, l: Seq<char>|
                        self.wplaces().contains_key(w) && #[trigger] self.wplaces()[w].has_login(
                        l,
                    ) implies self.users().contains_key(l) && self.users()[l].wplace_v() == w by {
                        assert(old(self).wplaces()[w].has_login(l));
                        assert(old(self).users().contains_key(l));
                        assert(l != login@);
                    };
                }
            },
        }
    }

    /// A session timer fired: run the heartbeat of that session; a user
    /// whose last session closed is removed. The returned delay asks the
    /// caller to re-arm the session's timer.
    pub fn serve_sess_heartbeat(&mut self, login: &Login, token: &Token, now: i64) -> (r: Option<
        u64,
    >)
        requires
            old(self).wf(),
        ensures
            final(self).wf(),
            final(self).dur_v() == old(self).dur_v(),
            old(self).users().contains_key(login@) && old(self).users()[login@].sessions(
            ).contains_key(token@) && crate::session::spec_expired(
                old(self).users()[login@].sessions()[token@].state(),
                old(self).users()[login@].sessions()[token@].dur_ms(),
                now,
            ) ==> !final(self).users().contains_key(login@) || !final(self).users()[
                login@].sessions().contains_key(token@),
            r is Some <==> old(self).users().contains_key(login@) && old(self).users()[
                login@].sessions().contains_key(token@) && old(self).users()[login@].sessions()[
                token@].state() is Offline && !crate::session::spec_expired(
                old(self).users()[login@].sessions()[token@].state(),
                old(self).users()[login@].sessions()[token@].dur_ms(),
                now,
            ),
            match r {
                Some(d) => match old(self).users()[login@].sessions()[token@].state() {
                    SessState::Offline(since) => d == crate::session::spec_remaining(
                        since,
                        old(self).users()[login@].sessions()[token@].dur_ms(),
                        now,
                    ),
                    _ => false,
                },
                None => true,
            },
    {
        match self.map_user.index_of(login.as_name()) {
            Some(ui) => {
                proof {
                    assert(old(self).users().contains_key(login@));
                    assert(old(self).users()[login@].wf());
                }
                let outcome = {
                    let user = self.map_user.val_mut(ui);
                    user.sess_heartbeat(token, now)
                };
                proof {
                    crate::smap::lemma_entries_map_update(
                        old(self).map_user.kv(),
                        ui as int,
                        self.map_user.kv()[ui as int].1,
                    );
                    assert forall|l: Seq<char>|
                        self.users().contains_key(l) <==> old(self).users().contains_key(l) by {};
                    assert forall|l: Seq<char>| old(self).users().contains_key(l) implies (
                    #[trigger] self.users()[l]).wf() && self.users()[l].login_v() == old(self).users()[l].login_v() && self.users()[l].wplace_v() == old(self).users()[l].wplace_v() by {};
                    Comm::lemma_wf_after_user_update(*old(self), *self);
                }
                match outcome {
                    Ok(rearm) => rearm,
                    Err(()) => {
                        self.remove_user(login);
                        None
                    },
                }
            },
            None => None,
        }
    }

    /// An authorized control-plane check: `Ok` iff the login names a user
    /// with a session under this token; the session's grace window then
    /// restarts at `now`.
    pub fn serve_http_sess_check(&mut self, login: &Login, token: &Token, now: i64) -> (r: Result<
        (),
        (),
    >)
        requires
            old(self).wf(),
        ensures
            final(self).wf(),
            final(self).dur_v() == old(self).dur_v(),
            r is Ok <==> old(self).users().contains_key(login@) && old(self).users()[
                login@].sessions().contains_key(token@),
            r is Ok && old(self).users()[login@].sessions()[token@].state() is Offline ==> final(self).users().contains_key(login@) && final(self).users()[login@].sessions().contains_key(
                token@,
            ) && final(self).users()[login@].sessions()[token@].state() == SessState::Offline(now),
            final(self).wplaces() == old(self).wplaces(),
            final(self).groups_m() == old(self).groups_m(),
            forall|l: Seq<char>| final(self).users().contains_key(l) <==> old(self).users().contains_key(l),
            forall|l: Seq<char>| old(self).users().contains_key(l) ==> (
            #[trigger] final(self).users()[l]).wplace_v() == old(self).users()[l].wplace_v(),
    {
        match self.map_user.index_of(login.as_name()) {
            Some(ui) => {
                proof {
                    assert(old(self).users().contains_key(login@));
                    assert(old(self).users()[login@].wf());
                }
                let ok = {
                    let user = self.map_user.val_mut(ui);
                    user.sess_check(token, now)
                };
                proof {
                    crate::smap::lemma_entries_map_update(
                        old(self).map_user.kv(),
                        ui as int,
                        self.map_user.kv()[ui as int].1,
                    );
                    assert forall|l: Seq<char>|
                        self.users().contains_key(l) <==> old(self).users().contains_key(l) by {};
                    assert forall|l: Seq<char>| old(self).users().contains_key(l) implies (
                    #[trigger] self.users()[l]).wf() && self.users()[l].login_v() == old(self).users()[l].login_v() && self.users()[l].wplace_v() == old(self).users()[l].wplace_v() by {};
                    Comm::lemma_wf_after_user_update(*old(self), *self);
                }
                if ok {
                    Ok(())
                } else {
                    Err(())
                }
            },
            None => Err(()),
        }
    }

    /// A connection detached: drop it from its session; the session falls
    /// offline when it was the last. The returned delay asks the caller to
    /// arm the session's timer.
    pub fn serve_conn_closed(&mut self, login: &Login, token: &Token, id: u64, now: i64) -> (r:
        Option<u64>)
        requires
            old(self).wf(),
        ensures
            final(self).wf(),
            final(self).dur_v() == old(self).dur_v(),
            r is Some <==> old(self).users().contains_key(login@) && old(self).users()[
                login@].sessions().contains_key(token@) && old(self).users()[login@].sessions()[
                token@].is_online_v() && !(exists|x: u64|
                old(self).users()[login@].sessions()[token@].conns().contains(x) && x != id)
                && !old(self).users()[login@].sessions()[token@].reminded(),
            r matches Some(d) ==> d == old(self).users()[login@].sessions()[token@].dur_ms(),
            old(self).users().contains_key(login@) && old(self).users()[login@].sessions(
            ).contains_key(token@) && old(self).users()[login@].sessions()[token@].is_online_v()
                && !(exists|x: u64|
                old(self).users()[login@].sessions()[token@].conns().contains(x) && x != id)
                ==> final(self).users().contains_key(login@) && final(self).users()[
                login@].sessions().contains_key(token@) && final(self).users()[login@].sessions()[
                token@].state() == SessState::Offline(now),
    {
        match self.map_user.index_of(login.as_name()) {
            Some(ui) => {
                proof {
                    assert(old(self).users().contains_key(login@));
                    assert(old(self).users()[login@].wf());
                }
                let rearm = {
                    let user = self.map_user.val_mut(ui);
                    user.conn_close(token, id, now)
                };
                proof {
                    crate::smap::lemma_entries_map_update(
                        old(self).map_user.kv(),
                        ui as int,
                        self.map_user.kv()[ui as int].1,
                    );
                    assert forall|l: Seq<char>|
                        self.users().contains_key(l) <==> old(self).users().contains_key(l) by {};
                    assert forall|l: Seq<char>| old(self).users().contains_key(l) implies (
                    #[trigger] self.users()[l]).wf() && self.users()[l].login_v() == old(self).users()[l].login_v() && self.users()[l].wplace_v() == old(self).users()[l].wplace_v() by {};
                    Comm::lemma_wf_after_user_update(*old(self), *self);
                }
                rearm
            },
            None => None,
        }
    }

    pub fn session_duration(&self) -> (r: u64)
        ensures
            r == self.dur_v(),
    {
        self.dur_sess
    }

    /// Point the reverse index's `(g, u)` entry at workspace `wname`,
    /// creating the entry where absent. Exactly that one reference is
    /// added.
    fn register_ref(&mut self, g: &Group, u: &Unit, wname: &String)
        requires
            old(self).groups_wf(),
        ensures
            final(self).groups_wf(),
            final(self).map_wplace == old(self).map_wplace,
            final(self).map_user == old(self).map_user,
            final(self).dur_v() == old(self).dur_v(),
            forall|g2: Seq<char>, u2: Seq<char>, w2: Seq<char>|
                #[trigger] final(self).reverse_has(g2, u2, w2) <==> old(self).reverse_has(
                    g2,
                    u2,
                    w2,
                ) || (g2 == g@ && u2 == u@ && w2 == wname@),
    {
        if self.map_group.index_of(g.as_name()).is_none() {
            let ghost pre = *self;
            self.map_group.insert(g.as_name().clone(), StrMap::new());
            proof {
                assert forall|g2: Seq<char>, u2: Seq<char>, w2: Seq<char>|
                    #[trigger] self.reverse_has(g2, u2, w2) <==> pre.reverse_has(g2, u2, w2) by {
                    if g2 == g@ {
                        assert(self.groups_m()[g2].m() =~= Map::<Seq<char>, StrSet>::empty());
                    }
                };
            }
        }
        let ghost mid = *self;
        let gi = match self.map_group.index_of(g.as_name()) {
            Some(gi) => gi,
            None => {
                assert(false);
                return ;
            },
        };
        proof {
            self.map_group.lemma_kv_index(gi as int);
            assert(self.groups_m()[g@].wf());
        }
        let ghost inner0 = self.map_group.kv()[gi as int].1;
        {
            let inner = self.map_group.val_mut(gi);
            if inner.index_of(u.as_name()).is_none() {
                inner.insert(u.as_name().clone(), StrSet::new());
                proof {
                    assert forall|u2: Seq<char>| inner.m().contains_key(u2) implies (
                    #[trigger] inner.m()[u2]).wf() by {
                        if u2 != u@ {
                            assert(inner0.m().contains_key(u2));
                            assert(inner.m()[u2] == inner0.m()[u2]);
                            assert(mid.groups_m()[g@].m()[u2].wf());
                        }
                    };
                }
            }
            let ui = match inner.index_of(u.as_name()) {
                Some(ui) => ui,
                None => {
                    assert(false);
                    return ;
                },
            };
            proof {
                inner.lemma_kv_index(ui as int);
                assert(inner.m()[u@].wf());
            }
            let ghost inner1 = *inner;
            {
                let set = inner.val_mut(ui);
                set.insert(wname.clone());
            }
            proof {
                crate::smap::lemma_entries_map_update(
                    inner1.kv(),
                    ui as int,
                    inner.kv()[ui as int].1,
                );
            }
        }
        proof {
            crate::smap::lemma_entries_map_update(
                mid.map_group.kv(),
                gi as int,
                self.map_group.kv()[gi as int].1,
            );
            let gk = mid.map_group.kv()[gi as int].0@;
            assert(gk == g@);
            assert(self.groups_m() =~= mid.groups_m().insert(
                g@,
                self.map_group.kv()[gi as int].1,
            ));
            assert forall|g2: Seq<char>, u2: Seq<char>, w2: Seq<char>|
                #[trigger] self.reverse_has(g2, u2, w2) <==> mid.reverse_has(g2, u2, w2) || (g2
                    == g@ && u2 == u@ && w2 == wname@) by {
                if g2 == g@ {
                    let ninner = self.map_group.kv()[gi as int].1;
                    assert(self.groups_m()[g2] == ninner);
                    if u2 == u@ {
                        assert(ninner.m().contains_key(u2));
                        assert(forall|x: Seq<char>| ninner.m()[u2].has(x) <==> (
                            mid.groups_m()[g@].m().contains_key(u@) && mid.groups_m()[
                                g@].m()[u@].has(x)) || x == wname@);
                    } else {
                        assert(ninner.m().contains_key(u2) ==> ninner.m()[u2]
                            == mid.groups_m()[g@].m()[u2]);
                        assert(ninner.m().contains_key(u2) <==> mid.groups_m()[
                            g@].m().contains_key(u2));
                    }
                }
            };
            assert forall|g2: Seq<char>| self.groups_m().contains_key(g2) implies (
            #[trigger] self.groups_m()[g2]).wf() by {
                if g2 != g@ {
                    assert(mid.groups_m()[g2].wf());
                }
            };
            assert forall|g2: Seq<char>, u2: Seq<char>|
                self.groups_m().contains_key(g2) && self.groups_m()[g2].m().contains_key(u2)
                    implies (#[trigger] self.groups_m()[g2].m()[u2]).wf() by {
                if g2 != g@ {
                    assert(mid.groups_m()[g2].m()[u2].wf());
                } else {
                    if u2 != u@ {
                        assert(self.groups_m()[g2].m()[u2] == mid.groups_m()[g@].m()[u2]);
                    }
                }
            };
        }
    }

    /// Make a session. A known login gets a fresh token on its user. An
    /// unknown login with a workspace becomes a new user: the workspace is
    /// stored if new, the login joins it, and every unit it lists is
    /// registered in the fan-out index. An unknown login without a
    /// workspace is sent back as-is, to signal that one is required.
    pub fn serve_http_sess_make(&mut self, login: Login, wplace_opt: Option<Wplace>, now: i64)
        -> (r: Result<(Login, Token), Login>)
        requires
            old(self).wf(),
            match wplace_opt {
                Some(w) => w.wf() && forall|l: Seq<char>| !w.has_login(l),
                None => true,
            },
        ensures
            final(self).wf(),
            final(self).dur_v() == old(self).dur_v(),
            !old(self).users().contains_key(login@) && wplace_opt is None ==> r is Err,
            !old(self).users().contains_key(login@) && wplace_opt is Some ==> r is Ok,
            !old(self).users().contains_key(login@) && r is Ok ==> final(self).users().contains_key(login@) && final(self).wplaces().contains_key(
                final(self).users()[login@].wplace_v(),
            ) && final(self).wplaces()[final(self).users()[login@].wplace_v()].has_login(login@),
            match r {
                Ok(p) => p.0@ == login@ && final(self).users().contains_key(login@) && final(self).users()[login@].sessions().contains_key(p.1@) && final(self).users()[login@].sessions()[p.1@].state() == SessState::Offline(now) && final(self).users()[login@].sessions()[p.1@].dur_ms() == final(self).users()[login@].dur_v(),
                Err(l) => l@ == login@,
            },
            r matches Ok(p) ==> (old(self).users().contains_key(login@) ==> !old(self).users()[
                login@].sessions().contains_key(p.1@)),
            r is Err ==> final(self).users() == old(self).users() && final(self).wplaces() == old(self).wplaces() && final(self).groups_m() == old(self).groups_m(),
            !old(self).users().contains_key(login@) && r is Ok ==> forall|
                g: Seq<char>,
                u: Seq<char>,
            |
                #![trigger final(self).wplaces()[final(self).users()[login@].wplace_v()].authorizes(g, u)]
                final(self).wplaces().contains_key(final(self).users()[login@].wplace_v())
                    && final(self).wplaces()[final(self).users()[login@].wplace_v()].authorizes(
                    g,
                    u,
                ) ==> final(self).reverse_has(g, u, final(self).users()[login@].wplace_v()),
    {
        match self.map_user.index_of(login.as_name()) {
            Some(ui) => {
                proof {
                    assert(old(self).users().contains_key(login@));
                    assert(old(self).users()[login@].wf());
                }
                let minted = {
                    let user = self.map_user.val_mut(ui);
                    user.sess_make(now)
                };
                proof {
                    crate::smap::lemma_entries_map_update(
                        old(self).map_user.kv(),
                        ui as int,
                        self.map_user.kv()[ui as int].1,
                    );
                    assert forall|l: Seq<char>|
                        self.users().contains_key(l) <==> old(self).users().contains_key(l) by {};
                    assert forall|l: Seq<char>| old(self).users().contains_key(l) implies (
                    #[trigger] self.users()[l]).wf() && self.users()[l].login_v() == old(self).users()[l].login_v() && self.users()[l].wplace_v() == old(self).users()[l].wplace_v() by {};
                    Comm::lemma_wf_after_user_update(*old(self), *self);
                }
                match minted {
                    Ok(token) => Ok((login, token)),
                    Err(()) => {
                        proof {
                            assert(self.map_user.kv() =~= old(self).map_user.kv());
                            assert(self.users() == old(self).users());
                        }
                        Err(login)
                    },
                }
            },
            None => {
                let wplace_new = match wplace_opt {
                    Some(w) => w,
                    None => {
                        return Err(login);
                    },
                };
                let name = wplace_new.get_name().clone();
                let mut user = User::new(login.clone(), name.clone(), self.dur_sess);
                let token = match user.sess_make(now) {
                    Ok(token) => token,
                    Err(()) => {
                        // A fresh user has no sessions, so the first token
                        // draw cannot collide.
                        assert(false);
                        return Err(login);
                    },
                };
                let ghost wnew = wplace_new;
                // Store the workspace when its name is new; the stored one
                // (fresh or already present) takes the login as a member.
                let existed = self.map_wplace.index_of(name.as_name()).is_some();
                if !existed {
                    let ghost pre = *self;
                    self.map_wplace.insert(name.as_name().clone(), wplace_new);
                    proof {
                        assert(self.users() == pre.users());
                        assert(self.groups_m() == pre.groups_m());
                    }
                }
                let wi = match self.map_wplace.index_of(name.as_name()) {
                    Some(wi) => wi,
                    None => {
                        assert(false);
                        return Err(login);
                    },
                };
                let ghost mid1 = *self;
                proof {
                    self.map_wplace.lemma_kv_index(wi as int);
                    if existed {
                        assert(mid1.wplaces()[name@] == old(self).wplaces()[name@]);
                        assert(old(self).wplaces()[name@].wf());
                    } else {
                        assert(mid1.wplaces()[name@] == wnew);
                    }
                    assert(self.map_wplace.kv()[wi as int].1.wf());
                }
                {
                    let wp = self.map_wplace.val_mut(wi);
                    wp.add_login(login.clone());
                }
                proof {
                    crate::smap::lemma_entries_map_update(
                        mid1.map_wplace.kv(),
                        wi as int,
                        self.map_wplace.kv()[wi as int].1,
                    );
                    Comm::lemma_groups_wf_same(*old(self), *self);
                }
                let ghost mid2 = *self;
                let ghost stored = self.map_wplace.kv()[wi as int].1;
                proof {
                    assert(stored.wf());
                    assert(stored.name_v() == if existed {
                        old(self).wplaces()[name@].name_v()
                    } else {
                        wnew.name_v()
                    });
                    assert(stored.name_v() == name@);
                    self.map_wplace.lemma_kv_index(wi as int);
                    assert(mid2.wplaces()[name@] == stored);
                }
                // Register every unit the workspace lists.
                let pubs = self.map_wplace.val_at(wi).iter_pubtop();
                let np = pubs.len();
                for i in 0..np
                    invariant
                        np == pubs@.len(),
                        self.groups_wf(),
                        self.map_wplace == mid2.map_wplace,
                        self.map_user == mid2.map_user,
                        self.dur_v() == mid2.dur_v(),
                        wi < self.map_wplace.kv().len(),
                        stored == self.map_wplace.kv()[wi as int].1,
                        stored.wf(),
                        forall|a: int, b: int|
                            0 <= a < np && 0 <= b < (#[trigger] pubs@[a]).1@.len()
                                ==> stored.authorizes(pubs@[a].0@, (#[trigger] pubs@[a].1@[b])@),
                        forall|g2: Seq<char>, u2: Seq<char>, w2: Seq<char>|
                            #[trigger] self.reverse_has(g2, u2, w2) ==> mid2.reverse_has(g2, u2, w2) || (w2 == name@ && stored.authorizes(g2, u2)),
                        forall|a: int, b: int|
                            #![trigger pubs@[a].1@[b]]
                            0 <= a < i && 0 <= b < pubs@[a].1@.len() ==> self.reverse_has(
                                pubs@[a].0@,
                                pubs@[a].1@[b]@,
                                name@,
                            ),
                {
                    let g = &pubs[i].0;
                    let units = &pubs[i].1;
                    let m = units.len();
                    for j in 0..m
                        invariant
                            np == pubs@.len(),
                            i < np,
                            m == units@.len(),
                            *g == pubs@[i as int].0,
                            *units == pubs@[i as int].1,
                            self.groups_wf(),
                            self.map_wplace == mid2.map_wplace,
                            self.map_user == mid2.map_user,
                            self.dur_v() == mid2.dur_v(),
                            wi < self.map_wplace.kv().len(),
                            stored == self.map_wplace.kv()[wi as int].1,
                            stored.wf(),
                            forall|a: int, b: int|
                                0 <= a < np && 0 <= b < (#[trigger] pubs@[a]).1@.len()
                                    ==> stored.authorizes(
                                    pubs@[a].0@,
                                    (#[trigger] pubs@[a].1@[b])@,
                                ),
                            forall|g2: Seq<char>, u2: Seq<char>, w2: Seq<char>|
                                #[trigger] self.reverse_has(g2, u2, w2) ==> mid2.reverse_has(g2, u2, w2) || (w2 == name@ && stored.authorizes(g2, u2)),
                            forall|a: int, b: int|
                                #![trigger pubs@[a].1@[b]]
                                0 <= a < i && 0 <= b < pubs@[a].1@.len() ==> self.reverse_has(
                                    pubs@[a].0@,
                                    pubs@[a].1@[b]@,
                                    name@,
                                ),
                            forall|b: int| 0 <= b < j ==> self.reverse_has(
                                pubs@[i as int].0@,
                                (#[trigger] pubs@[i as int].1@[b])@,
                                name@,
                            ),
                    {
                        proof {
                            assert(stored.authorizes(pubs@[i as int].0@, units@[j as int]@));
                        }
                        self.register_ref(g, &units[j], name.as_name());
                        proof {
                            assert(self.reverse_has(pubs@[i as int].0@, units@[j as int]@, name@));
                        }
                    }
                }
                // The user itself enters last.
                let ghost mid3 = *self;
                self.map_user.insert(login.as_name().clone(), user);
                proof {
                    assert(self.users() =~= mid3.users().insert(login@, user));
                    assert(self.users()[login@] == user);
                    assert(self.wplaces() == mid2.wplaces());
                    assert(self.groups_m() == mid3.groups_m());
                    assert forall|w: Seq<char>| self.wplaces().contains_key(w) implies (
                    #[trigger] self.wplaces()[w]).wf() && self.wplaces()[w].name_v() == w by {
                        if w != name@ {
                            assert(mid1.wplaces().contains_key(w));
                            assert(mid1.wplaces()[w] == old(self).wplaces()[w]);
                            assert(old(self).wplaces().contains_key(w));
                            assert(self.wplaces()[w] == old(self).wplaces()[w]);
                        } else {
                            assert(self.wplaces()[w] == stored);
                        }
                    };
                    assert forall|l: Seq<char>| self.users().contains_key(l) implies (
                    #[trigger] self.users()[l]).wf() && self.users()[l].login_v() == l by {
                        if l != login@ {
                            assert(old(self).users().contains_key(l));
                            assert(self.users()[l] == old(self).users()[l]);
                        }
                    };
                    assert forall|g2: Seq<char>, u2: Seq<char>, w2: Seq<char>|
                        #[trigger] self.reverse_has(g2, u2, w2) implies self.wplaces(
                    ).contains_key(w2) && self.wplaces()[w2].authorizes(g2, u2) by {
                        assert(mid3.reverse_has(g2, u2, w2));
                        if mid2.reverse_has(g2, u2, w2) {
                            assert(old(self).reverse_has(g2, u2, w2));
                            assert(old(self).wplaces().contains_key(w2));
                            assert(old(self).wplaces()[w2].authorizes(g2, u2));
                            if w2 != name@ {
                                assert(self.wplaces()[w2] == old(self).wplaces()[w2]);
                            } else {
                                assert(stored.pubtop_m() == old(self).wplaces()[w2].pubtop_m());
                            }
                        } else {
                            assert(w2 == name@ && stored.authorizes(g2, u2));
                            assert(self.wplaces()[name@] == stored);
                        }
                    };
                    assert forall|w2: Seq<char>, l: Seq<char>|
                        self.wplaces().contains_key(w2) && #[trigger] self.wplaces()[
                        w2].has_login(l) implies self.users().contains_key(l)
                        && self.users()[l].wplace_v() == w2 by {
                        if w2 == name@ {
                            if l != login@ {
                                assert(self.wplaces()[name@] == stored);
                                assert(mid1.wplaces().contains_key(name@));
                                assert(mid1.wplaces()[name@].has_login(l));
                                if old(self).wplaces().contains_key(name@) {
                                    assert(mid1.wplaces()[name@] == old(self).wplaces()[name@]);
                                    assert(old(self).wplaces()[name@].has_login(l));
                                    assert(old(self).users().contains_key(l));
                                    assert(self.users()[l] == old(self).users()[l]);
                                } else {
                                    assert(mid1.wplaces()[name@] == wnew);
                                    assert(!wnew.has_login(l));
                                }
                            }
                        } else {
                            assert(self.wplaces()[w2] == old(self).wplaces()[w2]);
                            assert(old(self).wplaces()[w2].has_login(l));
                            assert(old(self).users().contains_key(l));
                            assert(l != login@);
                            assert(self.users()[l] == old(self).users()[l]);
                        }
                    };
                }
                proof {
                    assert forall|g: Seq<char>, u: Seq<char>|
                        #![trigger self.wplaces()[self.users()[login@].wplace_v()].authorizes(g, u)]
                        self.wplaces().contains_key(self.users()[login@].wplace_v())
                            && self.wplaces()[self.users()[login@].wplace_v()].authorizes(g, u)
                            implies self.reverse_has(g, u, self.users()[login@].wplace_v()) by {
                        assert(self.users()[login@].wplace_v() == name@);
                        assert(self.wplaces()[name@] == stored);
                        assert(stored.authorizes(g, u));
                        stored.lemma_pubtop_index(g);
                        let a = choose|a: int|
                            0 <= a < stored.pubtop_kv().len() && (
                            #[trigger] stored.pubtop_kv()[a]).0@ == g && stored.pubtop_kv()[a].1
                                == stored.pubtop_m()[g];
                        assert(pubs@[a].0@ == g);
                        assert(stored.pubtop_m()[g].has(u));
                        let jj = choose|jj: int|
                            0 <= jj < stored.pubtop_kv()[a].1.seq().len() && (
                            #[trigger] stored.pubtop_kv()[a].1.seq()[jj])@ == u;
                        assert(pubs@[a].1@[jj]@ == u);
                        assert(mid3.reverse_has(g, u, name@));
                    };
                }
                Ok((login, token))
            },
        }
    }

    /// Attach a WebSocket client: the session under `token` takes a new,
    /// fresh connection id and comes online, and the caller gets that id
    /// together with the snapshot request — exactly the units of the
    /// user's workspace, each one authorized for this login. Refused
    /// exactly when the login, its workspace or the session is missing,
    /// or the session's id space is exhausted.
    pub fn serve_http_ws_add(&mut self, login: &Login, token: &Token) -> (r: Result<
        (u64, Vec<(Group, Vec<Unit>)>),
        (),
    >)
        requires
            old(self).wf(),
        ensures
            final(self).wf(),
            final(self).dur_v() == old(self).dur_v(),
            !old(self).users().contains_key(login@) ==> r is Err,
            r is Ok <==> old(self).users().contains_key(login@) && old(self).wplaces().contains_key(old(self).users()[login@].wplace_v()) && old(self).users()[login@].sessions().contains_key(token@) && old(self).users()[login@].sessions()[token@].conn_seed() < u64::MAX,
            match r {
                Ok(p) => final(self).users().contains_key(login@) && final(self).users()[
                    login@].sessions().contains_key(token@) && final(self).users()[
                    login@].sessions()[token@].is_online_v() && final(self).users()[
                    login@].sessions()[token@].conns().contains(p.0) && !old(self).users()[
                    login@].sessions()[token@].conns().contains(p.0) && (forall|i: int, j: int|
                    0 <= i < p.1@.len() && 0 <= j < (#[trigger] p.1@[i]).1@.len() ==> final(self).authorized(login@, p.1@[i].0@, (#[trigger] p.1@[i].1@[j])@)) && {
                    let pk = old(self).wplaces()[old(self).users()[login@].wplace_v()].pubtop_kv();
                    &&& p.1@.len() == pk.len()
                    &&& forall|i: int| 0 <= i < pk.len() ==> (#[trigger] p.1@[i]).0@ == pk[i].0@
                        && p.1@[i].1@.len() == pk[i].1.seq().len() && (forall|j: int|
                        0 <= j < pk[i].1.seq().len() ==> (#[trigger] p.1@[i].1@[j])@ == pk[
                        i].1.seq()[j]@)
                },
                Err(()) => true,
            },
    {
        let ui = match self.map_user.index_of(login.as_name()) {
            Some(ui) => ui,
            None => {
                return Err(());
            },
        };
        let wname = self.map_user.val_at(ui).get_name_wplace().as_name().clone();
        let wi = match self.map_wplace.index_of(&wname) {
            Some(wi) => wi,
            None => {
                return Err(());
            },
        };
        proof {
            assert(old(self).users().contains_key(login@));
            assert(old(self).users()[login@].wf());
            self.map_wplace.lemma_kv_index(wi as int);
            assert(self.wplaces()[wname@].wf());
        }
        let snapshot = self.map_wplace.val_at(wi).iter_pubtop();
        let added = {
            let user = self.map_user.val_mut(ui);
            user.conn_add(token)
        };
        proof {
            crate::smap::lemma_entries_map_update(
                old(self).map_user.kv(),
                ui as int,
                self.map_user.kv()[ui as int].1,
            );
            assert forall|l: Seq<char>|
                self.users().contains_key(l) <==> old(self).users().contains_key(l) by {};
            assert forall|l: Seq<char>| old(self).users().contains_key(l) implies (
            #[trigger] self.users()[l]).wf() && self.users()[l].login_v() == old(self).users()[l].login_v() && self.users()[l].wplace_v() == old(self).users()[l].wplace_v() by {};
            Comm::lemma_wf_after_user_update(*old(self), *self);
        }
        match added {
            Ok(id) => {
                proof {
                    assert(self.users()[login@].wplace_v() == wname@);
                    assert(self.wplaces().contains_key(wname@));
                    assert(self.wplaces()[wname@] == old(self).wplaces()[wname@]);
                    assert forall|i: int, j: int|
                        0 <= i < snapshot@.len() && 0 <= j < (#[trigger] snapshot@[i]).1@.len()
                            implies self.authorized(
                        login@,
                        snapshot@[i].0@,
                        (#[trigger] snapshot@[i].1@[j])@,
                    ) by {
                        assert(old(self).wplaces()[wname@].authorizes(
                            snapshot@[i].0@,
                            snapshot@[i].1@[j]@,
                        ));
                    };
                    assert(self.users()[login@].sessions()[token@].conns().contains(id)) by {
                        let c = self.users()[login@].sessions()[token@].conns();
                        assert(c[c.len() - 1] == id);
                    };
                }
                Ok((id, snapshot))
            },
            Err(()) => Err(()),
        }
    }

    /// The observable units of the caller's workspace: `Ok` iff the login
    /// names a user with a session under this token and the user's
    /// workspace is present; the session's grace window restarts.
    pub fn serve_http_wplace_get(&mut self, login: &Login, token: &Token, now: i64) -> (r: Result<
        Vec<(Group, Vec<Unit>)>,
        (),
    >)
        requires
            old(self).wf(),
        ensures
            final(self).wf(),
            final(self).dur_v() == old(self).dur_v(),
            r is Ok <==> old(self).users().contains_key(login@) && old(self).users()[
                login@].sessions().contains_key(token@) && old(self).wplaces().contains_key(
                old(self).users()[login@].wplace_v(),
            ),
            r is Ok && old(self).users()[login@].sessions()[token@].state() is Offline ==> final(self).users().contains_key(login@) && final(self).users()[login@].sessions().contains_key(
                token@,
            ) && final(self).users()[login@].sessions()[token@].state() == SessState::Offline(now),
            match r {
                Ok(v) => (forall|i: int, j: int|
                    0 <= i < v@.len() && 0 <= j < (#[trigger] v@[i]).1@.len() ==> old(self).authorized(login@, v@[i].0@, (#[trigger] v@[i].1@[j])@)) && {
                    let pk = old(self).wplaces()[old(self).users()[login@].wplace_v()].pubtop_kv();
                    &&& v@.len() == pk.len()
                    &&& forall|i: int| 0 <= i < pk.len() ==> (#[trigger] v@[i]).0@ == pk[i].0@
                        && v@[i].1@.len() == pk[i].1.seq().len() && (forall|j: int|
                        0 <= j < pk[i].1.seq().len() ==> (#[trigger] v@[i].1@[j])@ == pk[
                        i].1.seq()[j]@)
                },
                Err(()) => true,
            },
    {
        match self.serve_http_sess_check(login, token, now) {
            Ok(()) => {},
            Err(()) => {
                return Err(());
            },
        }
        let ghost mid = *self;
        let ui = match self.map_user.index_of(login.as_name()) {
            Some(ui) => ui,
            None => {
                assert(false);
                return Err(());
            },
        };
        let wname = self.map_user.val_at(ui).get_name_wplace().as_name().clone();
        proof {
            assert(self.users()[login@].wplace_v() == old(self).users()[login@].wplace_v());
        }
        match self.map_wplace.index_of(&wname) {
            Some(wi) => {
                proof {
                    self.map_wplace.lemma_kv_index(wi as int);
                    assert(self.wplaces()[wname@].wf());
                    assert(self.wplaces() == old(self).wplaces());
                }
                let snapshot = self.map_wplace.val_at(wi).iter_pubtop();
                proof {
                    assert forall|i: int, j: int|
                        0 <= i < snapshot@.len() && 0 <= j < (#[trigger] snapshot@[i]).1@.len()
                            implies old(self).authorized(
                        login@,
                        snapshot@[i].0@,
                        (#[trigger] snapshot@[i].1@[j])@,
                    ) by {
                        assert(self.wplaces()[wname@].authorizes(
                            snapshot@[i].0@,
                            snapshot@[i].1@[j]@,
                        ));
                    };
                }
                Ok(snapshot)
            },
            None => Err(()),
        }
    }

    /// Check one unit against the caller's workspace: `Ok` iff the login
    /// names a user with a session under this token, the workspace is
    /// present and it lists `(group, unit)`; the grace window restarts.
    pub fn serve_http_unit_check(
        &mut self,
        login: &Login,
        token: &Token,
        group: &Group,
        unit: &Unit,
        now: i64,
    ) -> (r: Result<(), ()>)
        requires
            old(self).wf(),
        ensures
            final(self).wf(),
            final(self).dur_v() == old(self).dur_v(),
            r is Ok <==> old(self).users().contains_key(login@) && old(self).users()[
                login@].sessions().contains_key(token@) && old(self).authorized(
                login@,
                group@,
                unit@,
            ),
            r is Ok && old(self).users()[login@].sessions()[token@].state() is Offline ==> final(self).users().contains_key(login@) && final(self).users()[login@].sessions().contains_key(
                token@,
            ) && final(self).users()[login@].sessions()[token@].state() == SessState::Offline(now),
    {
        match self.serve_http_sess_check(login, token, now) {
            Ok(()) => {},
            Err(()) => {
                return Err(());
            },
        }
        let ui = match self.map_user.index_of(login.as_name()) {
            Some(ui) => ui,
            None => {
                assert(false);
                return Err(());
            },
        };
        let wname = self.map_user.val_at(ui).get_name_wplace().as_name().clone();
        proof {
            assert(self.users()[login@].wplace_v() == old(self).users()[login@].wplace_v());
            assert(self.wplaces() == old(self).wplaces());
        }
        match self.map_wplace.index_of(&wname) {
            Some(wi) => {
                proof {
                    self.map_wplace.lemma_kv_index(wi as int);
                    assert(self.wplaces()[wname@].wf());
                }
                if self.map_wplace.val_at(wi).check_unit(group, unit) {
                    Ok(())
                } else {
                    Err(())
                }
            },
            None => Err(()),
        }
    }

    /// One fan-out write is sound: the receiving login is authorized for
    /// `(g, u)`, the data is exactly that one record, and the write names
    /// a live connection of one of the login's sessions.
    pub open spec fn single_delivery_ok(
        &self,
        d: Delivery,
        g: Seq<char>,
        u: Seq<char>,
        upd: crate::mailbox::RecView,
    ) -> bool {
        &&& self.authorized(d.login@, g, u)
        &&& d.data@ == (DataView::Single { group: g, unit: u, update: upd })
        &&& self.users().contains_key(d.login@)
        &&& self.users()[d.login@].sessions().contains_key(d.token@)
        &&& self.users()[d.login@].sessions()[d.token@].conns().contains(d.conn_id)
    }

    /// Some write in `s` reaches connection `c` of session `t` of login `l`.
    pub open spec fn delivered_to(s: Seq<Delivery>, l: Seq<char>, t: Seq<char>, c: u64) -> bool {
        exists|i: int|
            0 <= i < s.len() && (#[trigger] s[i]).login@ == l && s[i].token@ == t && s[i].conn_id
                == c
    }

    /// A write stays delivered when the list only grows at the end.
    proof fn lemma_delivered_grows(
        s1: Seq<Delivery>,
        s2: Seq<Delivery>,
        l: Seq<char>,
        t: Seq<char>,
        c: u64,
    )
        requires
            Comm::delivered_to(s1, l, t, c),
            s1.len() <= s2.len(),
            forall|a: int| 0 <= a < s1.len() ==> #[trigger] s2[a] == s1[a],
        ensures
            Comm::delivered_to(s2, l, t, c),
    {
        let i = choose|i: int|
            0 <= i < s1.len() && (#[trigger] s1[i]).login@ == l && s1[i].token@ == t && s1[
                i].conn_id == c;
        assert(s2[i] == s1[i]);
    }

    /// No two writes share an address: each `(login, token, connection)`
    /// triple appears at most once, so every connection receives the
    /// fan-out exactly once.
    pub open spec fn deliveries_distinct(s: Seq<Delivery>) -> bool {
        forall|a: int, b: int|
            0 <= a < b < s.len() ==> !((#[trigger] s[a]).login@ == (#[trigger] s[b]).login@
                && s[a].token@ == s[b].token@ && s[a].conn_id == s[b].conn_id)
    }

    /// Distinct addresses survive concatenation when the two parts share
    /// no login.
    proof fn lemma_distinct_append(s1: Seq<Delivery>, s2: Seq<Delivery>)
        requires
            Comm::deliveries_distinct(s1),
            Comm::deliveries_distinct(s2),
            forall|i: int, j: int|
                0 <= i < s1.len() && 0 <= j < s2.len() ==> (#[trigger] s1[i]).login@ != (
                #[trigger] s2[j]).login@,
        ensures
            Comm::deliveries_distinct(s1 + s2),
    {
        let s = s1 + s2;
        assert forall|a: int, b: int| 0 <= a < b < s.len() implies !((#[trigger] s[a]).login@
            == (#[trigger] s[b]).login@ && s[a].token@ == s[b].token@ && s[a].conn_id
            == s[b].conn_id) by {
            if b < s1.len() {
                assert(s[a] == s1[a] && s[b] == s1[b]);
            } else if a < s1.len() {
                assert(s[a] == s1[a] && s[b] == s2[b - s1.len()]);
            } else {
                assert(s[a] == s2[a - s1.len()] && s[b] == s2[b - s1.len()]);
            }
        };
    }

    /// Each connection is addressed at most once per group of a bundled
    /// batch: two writes to the same `(login, token, connection)` address
    /// carry different groups.
    pub open spec fn bundled_once(s: Seq<Delivery>) -> bool {
        forall|a: int, b: int|
            0 <= a < b < s.len() ==> !((#[trigger] s[a]).login@ == (#[trigger] s[b]).login@
                && s[a].token@ == s[b].token@ && s[a].conn_id == s[b].conn_id && s[
            a].data@->Multi_vec[0].0 == s[b].data@->Multi_vec[0].0)
    }

    /// Fan one record out: every live connection of every online session
    /// of every member of every workspace the reverse index lists for
    /// `(group, unit)` gets exactly this record — and nobody else gets
    /// anything. Stale index entries cannot arise: the invariant ties
    /// every index entry to a live workspace and every member login to a
    /// live user, so no repair pass is needed.
    pub fn serve_data_single(&self, group: &Group, unit: &Unit, update: &Record<Update>) -> (r: Vec<Delivery>)
        requires
            self.wf(),
        ensures
            forall|i: int| 0 <= i < r@.len() ==> self.single_delivery_ok(
                #[trigger] r@[i],
                group@,
                unit@,
                update@,
            ),
            forall|w: Seq<char>, l: Seq<char>, t: Seq<char>, c: u64|
                self.reverse_has(group@, unit@, w) && #[trigger] self.wplaces()[w].has_login(l)
                    && self.users()[l].sessions().contains_key(t)
                    && #[trigger] self.users()[l].sessions()[t].conns().contains(c)
                    ==> Comm::delivered_to(r@, l, t, c),
            Comm::deliveries_distinct(r@),
    {
        let mut out: Vec<Delivery> = Vec::new();
        let inner = match self.map_group.get(group.as_name()) {
            Some(inner) => inner,
            None => {
                return out;
            },
        };
        proof {
            assert(self.groups_m().contains_key(group@));
            assert(self.groups_m()[group@].wf());
            assert(inner.wf());
        }
        let set = match inner.get(unit.as_name()) {
            Some(set) => set,
            None => {
                return out;
            },
        };
        let ns = set.len();
        let mut ni: usize = 0;
        while ni < ns
            invariant
                ni <= ns,
                ns == set.seq().len(),
                self.wf(),
                self.groups_m().contains_key(group@),
                self.groups_m()[group@] == *inner,
                inner.m().contains_key(unit@),
                inner.m()[unit@] == *set,
                forall|i: int| 0 <= i < out@.len() ==> self.single_delivery_ok(
                    #[trigger] out@[i],
                    group@,
                    unit@,
                    update@,
                ),
                forall|a: int, l: Seq<char>, t: Seq<char>, c: u64|
                    #![trigger set.seq()[a], self.users()[l].sessions()[t].conns().contains(c)]
                    0 <= a < ni && self.wplaces()[set.seq()[a]@].has_login(l) && self.users()[
                        l].sessions().contains_key(t) && self.users()[l].sessions()[
                        t].conns().contains(c) ==> Comm::delivered_to(out@, l, t, c),
                set.wf(),
                Comm::deliveries_distinct(out@),
                forall|i: int| 0 <= i < out@.len() ==> exists|a: int|
                    0 <= a < ni && self.users()[(#[trigger] out@[i]).login@].wplace_v() == (
                    #[trigger] set.seq()[a])@,
            decreases ns - ni,
        {
            let wname = set.at(ni);
            proof {
                assert(set.has(wname@));
                assert(self.reverse_has(group@, unit@, wname@));
            }
            let wp = match self.map_wplace.get(wname) {
                Some(wp) => wp,
                None => {
                    assert(false);
                    return out;
                },
            };
            let logins = wp.iter_login();
            let nl = logins.len();
            proof {
                assert forall|l: Seq<char>| #[trigger] wp.has_login(l) implies exists|b: int|
                    0 <= b < logins@.len() && (#[trigger] logins@[b])@ == l by {
                    let w = choose|w: int|
                        0 <= w < wp.logins().seq().len() && (#[trigger] wp.logins().seq()[w])@
                            == l;
                    assert(logins@[w]@ == l);
                };
            }
            let ghost out_w0 = out@;
            let mut li: usize = 0;
            while li < nl
                invariant
                    li <= nl,
                    ns == set.seq().len(),
                    ni < ns,
                    nl == logins@.len(),
                    self.wf(),
                    self.groups_m().contains_key(group@),
                    self.groups_m()[group@] == *inner,
                    inner.m().contains_key(unit@),
                    inner.m()[unit@] == *set,
                    wname@ == set.seq()[ni as int]@,
                    self.wplaces().contains_key(wname@),
                    self.wplaces()[wname@] == *wp,
                    wp.authorizes(group@, unit@),
                    forall|a: int| 0 <= a < logins@.len() ==> wp.has_login(
                        (#[trigger] logins@[a])@,
                    ),
                    forall|i: int| 0 <= i < out@.len() ==> self.single_delivery_ok(
                        #[trigger] out@[i],
                        group@,
                        unit@,
                        update@,
                    ),
                    forall|a: int, l: Seq<char>, t: Seq<char>, c: u64|
                        #![trigger set.seq()[a], self.users()[l].sessions()[t].conns().contains(c)]
                        0 <= a < ni && self.wplaces()[set.seq()[a]@].has_login(l) && self.users()[
                            l].sessions().contains_key(t) && self.users()[l].sessions()[
                            t].conns().contains(c) ==> Comm::delivered_to(out@, l, t, c),
                    forall|b: int, t: Seq<char>, c: u64|
                        #![trigger logins@[b], self.users()[logins@[b]@].sessions()[t].conns().contains(c)]
                        0 <= b < li && self.users()[logins@[b]@].sessions().contains_key(t)
                            && self.users()[logins@[b]@].sessions()[t].conns().contains(c)
                            ==> Comm::delivered_to(out@, logins@[b]@, t, c),
                    set.wf(),
                    out_w0.len() <= out@.len(),
                    forall|i: int| 0 <= i < out_w0.len() ==> #[trigger] out@[i] == out_w0[i],
                    forall|i: int| 0 <= i < out_w0.len() ==> exists|a: int|
                        0 <= a < ni && self.users()[(#[trigger] out_w0[i]).login@].wplace_v()
                            == (#[trigger] set.seq()[a])@,
                    Comm::deliveries_distinct(out@),
                    forall|i: int| out_w0.len() <= i < out@.len()
                        ==> self.users()[(#[trigger] out@[i]).login@].wplace_v() == wname@,
                    forall|i: int| out_w0.len() <= i < out@.len() ==> exists|b: int|
                        0 <= b < li && (#[trigger] out@[i]).login@ == (#[trigger] logins@[b])@,
                    forall|a: int, b: int| 0 <= a < b < logins@.len() ==> (
                    #[trigger] logins@[a])@ != (#[trigger] logins@[b])@,
                decreases nl - li,
            {
                let login = &logins[li];
                proof {
                    assert(wp.has_login(login@));
                    assert(self.users().contains_key(login@));
                    assert(self.users()[login@].wplace_v() == wname@);
                }
                let user = match self.map_user.get(login.as_name()) {
                    Some(user) => user,
                    None => {
                        assert(false);
                        return out;
                    },
                };
                let conns = user.online_conns();
                let nc = conns.len();
                let mut part: Vec<Delivery> = Vec::new();
                for ci in 0..nc
                    invariant
                        nc == conns@.len(),
                        li < nl,
                        nl == logins@.len(),
                        *login == logins@[li as int],
                        part@.len() == ci,
                        forall|a: int| 0 <= a < ci ==> (#[trigger] part@[a]).login == *login
                            && part@[a].token == conns@[a].0 && part@[a].conn_id == conns@[a].1
                            && part@[a].data@ == (DataView::Single {
                            group: group@,
                            unit: unit@,
                            update: update@,
                        }),
                {
                    part.push(
                        Delivery {
                            login: login.clone(),
                            token: conns[ci].0.clone(),
                            conn_id: conns[ci].1,
                            data: Data::Single {
                                group: group.clone(),
                                unit: unit.clone(),
                                update: update.clone(),
                            },
                        },
                    );
                }
                let ghost out_before = out@;
                let ghost partv = part@;
                out.append(&mut part);
                proof {
                    assert(out@.len() == out_before.len() + nc);
                    assert(forall|a: int| 0 <= a < out_before.len() ==> (#[trigger] out@[a])
                        == out_before[a]);
                    assert forall|i: int| 0 <= i < out@.len() implies self.single_delivery_ok(
                        #[trigger] out@[i],
                        group@,
                        unit@,
                        update@,
                    ) by {
                        if i >= out_before.len() {
                            let a = i - out_before.len();
                            assert(out@[i].login == *login && out@[i].token == conns@[a].0
                                && out@[i].conn_id == conns@[a].1);
                            assert(user.sessions().contains_key(conns@[a].0@));
                            assert(user.sessions()[conns@[a].0@].conns().contains(conns@[a].1));
                        }
                    };
                    assert forall|a: int, l: Seq<char>, t: Seq<char>, c: u64|
                        #![trigger set.seq()[a], self.users()[l].sessions()[t].conns().contains(c)]
                        0 <= a < ni && self.wplaces()[set.seq()[a]@].has_login(l) && self.users()[
                            l].sessions().contains_key(t) && self.users()[l].sessions()[
                            t].conns().contains(c) implies Comm::delivered_to(out@, l, t, c) by {
                        Comm::lemma_delivered_grows(out_before, out@, l, t, c);
                    };
                    assert forall|b: int, t: Seq<char>, c: u64|
                        #![trigger logins@[b], self.users()[logins@[b]@].sessions()[t].conns().contains(c)]
                        0 <= b < li + 1 && self.users()[logins@[b]@].sessions().contains_key(t)
                            && self.users()[logins@[b]@].sessions()[t].conns().contains(c)
                            implies Comm::delivered_to(out@, logins@[b]@, t, c) by {
                        if b == li {
                            let a = choose|a: int|
                                0 <= a < conns@.len() && (#[trigger] conns@[a]).0@ == t && conns@[
                                    a].1 == c;
                            assert(out@[out_before.len() + a].login@ == login@);
                            assert(out@[out_before.len() + a].token@ == t);
                            assert(out@[out_before.len() + a].conn_id == c);
                        } else {
                            Comm::lemma_delivered_grows(out_before, out@, logins@[b]@, t, c);
                        }
                    };
                    assert(out@ =~= out_before + partv);
                    assert forall|a: int, b: int| 0 <= a < b < partv.len() implies !((
                    #[trigger] partv[a]).login@ == (#[trigger] partv[b]).login@ && partv[a].token@
                        == partv[b].token@ && partv[a].conn_id == partv[b].conn_id) by {
                        assert(((conns@[a].0)@, conns@[a].1) != ((conns@[b].0)@, conns@[b].1));
                        assert(partv[a].token == conns@[a].0 && partv[a].conn_id == conns@[a].1);
                        assert(partv[b].token == conns@[b].0 && partv[b].conn_id == conns@[b].1);
                    };
                    assert forall|i: int, j: int|
                        0 <= i < out_before.len() && 0 <= j < partv.len() implies (
                    #[trigger] out_before[i]).login@ != (#[trigger] partv[j]).login@ by {
                        assert(partv[j].login@ == logins@[li as int]@);
                        if i < out_w0.len() {
                            let aa = choose|a: int|
                                0 <= a < ni && self.users()[out_w0[i].login@].wplace_v() == (
                                #[trigger] set.seq()[a])@;
                            assert(set.seq()[aa]@ != set.seq()[ni as int]@);
                            if out_before[i].login@ == partv[j].login@ {
                                assert(self.users()[out_before[i].login@].wplace_v() == wname@);
                                assert(false);
                            }
                        } else {
                            let bb = choose|b: int|
                                0 <= b < li && out_before[i].login@ == (#[trigger] logins@[b])@;
                            assert(logins@[bb]@ != logins@[li as int]@);
                        }
                    };
                    Comm::lemma_distinct_append(out_before, partv);
                    assert(Comm::deliveries_distinct(out@));
                    assert forall|i: int| out_w0.len() <= i < out@.len() implies self.users()[(
                    #[trigger] out@[i]).login@].wplace_v() == wname@ by {
                        if i >= out_before.len() {
                            assert(out@[i] == partv[i - out_before.len()]);
                            assert(out@[i].login@ == login@);
                        } else {
                            assert(out@[i] == out_before[i]);
                        }
                    };
                    assert forall|i: int| out_w0.len() <= i < out@.len() implies exists|b: int|
                        0 <= b < li + 1 && (#[trigger] out@[i]).login@ == (
                        #[trigger] logins@[b])@ by {
                        if i >= out_before.len() {
                            assert(out@[i].login@ == logins@[li as int]@);
                        } else {
                            let bb = choose|b: int|
                                0 <= b < li && out_before[i].login@ == (#[trigger] logins@[b])@;
                            assert(out@[i].login@ == logins@[bb]@);
                        }
                    };
                }
                li = li + 1;
            }
            proof {
                assert forall|a: int, l: Seq<char>, t: Seq<char>, c: u64|
                    #![trigger set.seq()[a], self.users()[l].sessions()[t].conns().contains(c)]
                    0 <= a < ni + 1 && self.wplaces()[set.seq()[a]@].has_login(l) && self.users()[
                        l].sessions().contains_key(t) && self.users()[l].sessions()[
                        t].conns().contains(c) implies Comm::delivered_to(out@, l, t, c) by {
                    if a == ni {
                        assert(wp.has_login(l));
                        let b = choose|b: int|
                            0 <= b < logins@.len() && (#[trigger] logins@[b])@ == l;
                    }
                };
                assert forall|i: int| 0 <= i < out@.len() implies exists|a: int|
                    0 <= a < ni + 1 && self.users()[(#[trigger] out@[i]).login@].wplace_v()
                        == (#[trigger] set.seq()[a])@ by {
                    if i < out_w0.len() {
                        let aa = choose|a: int|
                            0 <= a < ni && self.users()[out_w0[i].login@].wplace_v() == (
                            #[trigger] set.seq()[a])@;
                        assert(out@[i] == out_w0[i]);
                        assert(self.users()[out@[i].login@].wplace_v() == set.seq()[aa]@);
                    } else {
                        assert(self.users()[out@[i].login@].wplace_v() == set.seq()[
                            ni as int]@);
                    }
                };
            }
            ni = ni + 1;
        }
        proof {
            assert forall|w: Seq<char>, l: Seq<char>, t: Seq<char>, c: u64|
                self.reverse_has(group@, unit@, w) && #[trigger] self.wplaces()[w].has_login(l)
                    && self.users()[l].sessions().contains_key(t)
                    && #[trigger] self.users()[l].sessions()[t].conns().contains(c)
                    implies Comm::delivered_to(out@, l, t, c) by {
                assert(set.has(w));
                let a = choose|a: int|
                    0 <= a < set.seq().len() && (#[trigger] set.seq()[a])@ == w;
            };
        }
        out
    }

    /// One bundled fan-out write is sound: it carries exactly one group,
    /// every record in it is authorized for the receiving login, and the
    /// write names a live connection of one of the login's sessions.
    pub open spec fn multi_delivery_ok(&self, d: Delivery, g: Seq<char>) -> bool {
        match d.data@ {
            DataView::Multi { vec } => {
                &&& vec.len() == 1
                &&& vec[0].0 == g
                &&& forall|j: int| 0 <= j < vec[0].1.len() ==> self.authorized(
                    d.login@,
                    g,
                    (#[trigger] vec[0].1[j]).0,
                )
                &&& self.users().contains_key(d.login@)
                &&& self.users()[d.login@].sessions().contains_key(d.token@)
                &&& self.users()[d.login@].sessions()[d.token@].conns().contains(d.conn_id)
            },
            _ => false,
        }
    }

    /// Fan a grouped batch out: the records of each workspace's units are
    /// bundled into one write per connection, so each mailbox sees at most
    /// one signal per batch. Every bundled record is authorized for its
    /// receiver.
    pub fn serve_data_multi(&self, group: &Group, updates: &Vec<(Unit, Record<Update>)>) -> (r: Vec<Delivery>)
        requires
            self.wf(),
        ensures
            forall|i: int| 0 <= i < r@.len() ==> self.multi_delivery_ok(#[trigger] r@[i], group@),
            forall|q: int, w: Seq<char>, l: Seq<char>, t: Seq<char>, c: u64|
                #![trigger self.reverse_has(group@, updates@[q].0@, w), self.wplaces()[w].has_login(l), self.users()[l].sessions()[t].conns().contains(c)]
                0 <= q < updates@.len() && self.reverse_has(group@, updates@[q].0@, w)
                    && self.wplaces()[w].has_login(l) && self.users()[l].sessions().contains_key(t)
                    && self.users()[l].sessions()[t].conns().contains(c) ==> Comm::delivered_to(
                    r@,
                    l,
                    t,
                    c,
                ),
            Comm::deliveries_distinct(r@),
    {
        let mut out: Vec<Delivery> = Vec::new();
        let inner = match self.map_group.get(group.as_name()) {
            Some(inner) => inner,
            None => {
                return out;
            },
        };
        proof {
            assert(self.groups_m().contains_key(group@));
            assert(self.groups_m()[group@].wf());
            assert(inner.wf());
        }
        // Bundle the records per workspace name, in update order.
        let mut bundles: StrMap<Vec<(Unit, Record<Update>)>> = StrMap::new();
        let nu = updates.len();
        for qi in 0..nu
            invariant
                nu == updates@.len(),
                self.wf(),
                self.groups_m().contains_key(group@),
                self.groups_m()[group@] == *inner,
                bundles.wf(),
                forall|w: Seq<char>| bundles.m().contains_key(w)
                    ==> self.wplaces().contains_key(w),
                forall|w: Seq<char>, j: int|
                    bundles.m().contains_key(w) && 0 <= j < bundles.m()[w]@.len()
                        ==> self.wplaces()[w].authorizes(
                        group@,
                        (#[trigger] bundles.m()[w]@[j]).0@,
                    ),
                forall|q: int, w: Seq<char>|
                    #![trigger self.reverse_has(group@, updates@[q].0@, w)]
                    0 <= q < qi && self.reverse_has(group@, updates@[q].0@, w)
                        ==> bundles.m().contains_key(w),
        {
            let unit = &updates[qi].0;
            let rec = &updates[qi].1;
            let set_opt = inner.get(unit.as_name());
            if let Some(set) = set_opt {
            let ns = set.len();
            for ni in 0..ns
                invariant
                    nu == updates@.len(),
                    qi < nu,
                    ns == set.seq().len(),
                    self.wf(),
                    self.groups_m().contains_key(group@),
                    self.groups_m()[group@] == *inner,
                    *unit == updates@[qi as int].0,
                    *rec == updates@[qi as int].1,
                    inner.m().contains_key(unit@),
                    inner.m()[unit@] == *set,
                    bundles.wf(),
                    forall|w: Seq<char>| bundles.m().contains_key(w)
                        ==> self.wplaces().contains_key(w),
                    forall|w: Seq<char>, j: int|
                        bundles.m().contains_key(w) && 0 <= j < bundles.m()[w]@.len()
                            ==> self.wplaces()[w].authorizes(
                            group@,
                            (#[trigger] bundles.m()[w]@[j]).0@,
                        ),
                    forall|q: int, w: Seq<char>|
                        #![trigger self.reverse_has(group@, updates@[q].0@, w)]
                        0 <= q < qi && self.reverse_has(group@, updates@[q].0@, w)
                            ==> bundles.m().contains_key(w),
                    forall|a: int| 0 <= a < ni ==> bundles.m().contains_key(
                        (#[trigger] set.seq()[a])@,
                    ),
            {
                let name = set.at(ni);
                proof {
                    assert(set.has(name@));
                    assert(self.reverse_has(group@, unit@, name@));
                    assert(self.wplaces().contains_key(name@));
                    assert(self.wplaces()[name@].authorizes(group@, unit@));
                }
                let entry = (
                    unit.clone(),
                    Record {
                        is_saved: rec.is_saved,
                        id: rec.id,
                        time: rec.time,
                        val: rec.val.clone(),
                    },
                );
                match bundles.index_of(name) {
                    Some(bi) => {
                        let ghost b0 = bundles.kv();
                        {
                            let v = bundles.val_mut(bi);
                            v.push(entry);
                        }
                        proof {
                            crate::smap::lemma_entries_map_update(
                                b0,
                                bi as int,
                                bundles.kv()[bi as int].1,
                            );
                        }
                    },
                    None => {
                        let mut v: Vec<(Unit, Record<Update>)> = Vec::new();
                        v.push(entry);
                        bundles.push_new(name.clone(), v);
                    },
                }
            }
            proof {
                assert forall|q: int, w: Seq<char>|
                    #![trigger self.reverse_has(group@, updates@[q].0@, w)]
                    0 <= q < qi + 1 && self.reverse_has(group@, updates@[q].0@, w)
                        implies bundles.m().contains_key(w) by {
                    if q == qi {
                        assert(set.has(w));
                        let a = choose|a: int|
                            0 <= a < set.seq().len() && (#[trigger] set.seq()[a])@ == w;
                    }
                };
            }
            } else {
                proof {
                    assert forall|q: int, w: Seq<char>|
                        #![trigger self.reverse_has(group@, updates@[q].0@, w)]
                        0 <= q < qi + 1 && self.reverse_has(group@, updates@[q].0@, w)
                            implies bundles.m().contains_key(w) by {
                        if q == qi {
                            assert(inner.m().contains_key(unit@));
                            assert(false);
                        }
                    };
                }
            }
        }
        // One write per live connection of each member of each bundled
        // workspace.
        let nb = bundles.len();
        let mut bi: usize = 0;
        while bi < nb
            invariant
                bi <= nb,
                nb == bundles.kv().len(),
                nu == updates@.len(),
                self.wf(),
                bundles.wf(),
                forall|w: Seq<char>| bundles.m().contains_key(w)
                    ==> self.wplaces().contains_key(w),
                forall|w: Seq<char>, j: int|
                    bundles.m().contains_key(w) && 0 <= j < bundles.m()[w]@.len()
                        ==> self.wplaces()[w].authorizes(
                        group@,
                        (#[trigger] bundles.m()[w]@[j]).0@,
                    ),
                forall|q: int, w: Seq<char>|
                    #![trigger self.reverse_has(group@, updates@[q].0@, w)]
                    0 <= q < nu && self.reverse_has(group@, updates@[q].0@, w)
                        ==> bundles.m().contains_key(w),
                forall|i: int| 0 <= i < out@.len() ==> self.multi_delivery_ok(
                    #[trigger] out@[i],
                    group@,
                ),
                forall|b: int, l: Seq<char>, t: Seq<char>, c: u64|
                    #![trigger bundles.kv()[b], self.wplaces()[bundles.kv()[b].0@].has_login(l), self.users()[l].sessions()[t].conns().contains(c)]
                    0 <= b < bi && self.wplaces()[bundles.kv()[b].0@].has_login(l)
                        && self.users()[l].sessions().contains_key(t) && self.users()[
                        l].sessions()[t].conns().contains(c) ==> Comm::delivered_to(out@, l, t, c),
                Comm::deliveries_distinct(out@),
                forall|i: int| 0 <= i < out@.len() ==> exists|a: int|
                    0 <= a < bi && self.users()[(#[trigger] out@[i]).login@].wplace_v() == (
                    #[trigger] bundles.kv()[a]).0@,
            decreases nb - bi,
        {
            let name = bundles.key_at(bi);
            let vecb = bundles.val_at(bi);
            proof {
                bundles.lemma_kv_index(bi as int);
                assert(bundles.m()[name@] == *vecb);
                assert(self.wplaces().contains_key(name@));
            }
            let wp = match self.map_wplace.get(name) {
                Some(wp) => wp,
                None => {
                    assert(false);
                    return out;
                },
            };
            let logins = wp.iter_login();
            let nl = logins.len();
            proof {
                assert forall|l: Seq<char>| #[trigger] wp.has_login(l) implies exists|b: int|
                    0 <= b < logins@.len() && (#[trigger] logins@[b])@ == l by {
                    let w = choose|w: int|
                        0 <= w < wp.logins().seq().len() && (#[trigger] wp.logins().seq()[w])@
                            == l;
                    assert(logins@[w]@ == l);
                };
            }
            let ghost out_w0 = out@;
            let mut li: usize = 0;
            while li < nl
                invariant
                    li <= nl,
                    nb == bundles.kv().len(),
                    bi < nb,
                    nl == logins@.len(),
                    self.wf(),
                    bundles.wf(),
                    name@ == bundles.kv()[bi as int].0@,
                    *vecb == bundles.kv()[bi as int].1,
                    bundles.m().contains_key(name@),
                    bundles.m()[name@] == *vecb,
                    forall|w: Seq<char>, j: int|
                        bundles.m().contains_key(w) && 0 <= j < bundles.m()[w]@.len()
                            ==> self.wplaces()[w].authorizes(
                            group@,
                            (#[trigger] bundles.m()[w]@[j]).0@,
                        ),
                    self.wplaces().contains_key(name@),
                    self.wplaces()[name@] == *wp,
                    forall|a: int| 0 <= a < logins@.len() ==> wp.has_login(
                        (#[trigger] logins@[a])@,
                    ),
                    forall|i: int| 0 <= i < out@.len() ==> self.multi_delivery_ok(
                        #[trigger] out@[i],
                        group@,
                    ),
                    forall|b: int, l: Seq<char>, t: Seq<char>, c: u64|
                        #![trigger bundles.kv()[b], self.wplaces()[bundles.kv()[b].0@].has_login(l), self.users()[l].sessions()[t].conns().contains(c)]
                        0 <= b < bi && self.wplaces()[bundles.kv()[b].0@].has_login(l)
                            && self.users()[l].sessions().contains_key(t) && self.users()[
                            l].sessions()[t].conns().contains(c) ==> Comm::delivered_to(
                            out@,
                            l,
                            t,
                            c,
                        ),
                    forall|b: int, t: Seq<char>, c: u64|
                        #![trigger logins@[b], self.users()[logins@[b]@].sessions()[t].conns().contains(c)]
                        0 <= b < li && self.users()[logins@[b]@].sessions().contains_key(t)
                            && self.users()[logins@[b]@].sessions()[t].conns().contains(c)
                            ==> Comm::delivered_to(out@, logins@[b]@, t, c),
                    out_w0.len() <= out@.len(),
                    forall|i: int| 0 <= i < out_w0.len() ==> #[trigger] out@[i] == out_w0[i],
                    forall|i: int| 0 <= i < out_w0.len() ==> exists|a: int|
                        0 <= a < bi && self.users()[(#[trigger] out_w0[i]).login@].wplace_v()
                            == (#[trigger] bundles.kv()[a]).0@,
                    Comm::deliveries_distinct(out@),
                    forall|i: int| out_w0.len() <= i < out@.len()
                        ==> self.users()[(#[trigger] out@[i]).login@].wplace_v() == name@,
                    forall|i: int| out_w0.len() <= i < out@.len() ==> exists|b: int|
                        0 <= b < li && (#[trigger] out@[i]).login@ == (#[trigger] logins@[b])@,
                    forall|a: int, b: int| 0 <= a < b < logins@.len() ==> (
                    #[trigger] logins@[a])@ != (#[trigger] logins@[b])@,
                decreases nl - li,
            {
                let login = &logins[li];
                proof {
                    assert(wp.has_login(login@));
                    assert(self.users().contains_key(login@));
                    assert(self.users()[login@].wplace_v() == name@);
                }
                let user = match self.map_user.get(login.as_name()) {
                    Some(user) => user,
                    None => {
                        assert(false);
                        return out;
                    },
                };
                let conns = user.online_conns();
                let nc = conns.len();
                let ghost dv = DataView::<crate::mailbox::RecView>::Multi {
                    vec: seq![
                        (group@, vecb@.map_values(|q: (Unit, Record<Update>)| (q.0@, q.1@))),
                    ],
                };
                let mut part: Vec<Delivery> = Vec::new();
                for ci in 0..nc
                    invariant
                        nc == conns@.len(),
                        li < nl,
                        nl == logins@.len(),
                        self.wf(),
                        name@ == bundles.kv()[bi as int].0@,
                        *vecb == bundles.kv()[bi as int].1,
                        bundles.m().contains_key(name@),
                        bundles.m()[name@] == *vecb,
                        self.wplaces().contains_key(name@),
                        *login == logins@[li as int],
                        dv == (DataView::<crate::mailbox::RecView>::Multi {
                            vec: seq![
                                (
                                    group@,
                                    vecb@.map_values(
                                        |q: (Unit, Record<Update>)| (q.0@, q.1@),
                                    ),
                                ),
                            ],
                        }),
                        part@.len() == ci,
                        forall|a: int| 0 <= a < ci ==> (#[trigger] part@[a]).login == *login
                            && part@[a].token == conns@[a].0 && part@[a].conn_id == conns@[a].1
                            && part@[a].data@ == dv,
                {
                    let token = conns[ci].0.clone();
                    let cid = conns[ci].1;
                    let cloned = clone_units(vecb);
                    let mut gvec: Vec<(Group, Vec<(Unit, Record<Update>)>)> = Vec::new();
                    gvec.push((group.clone(), cloned));
                    let d = Delivery {
                        login: login.clone(),
                        token,
                        conn_id: cid,
                        data: Data::Multi { vec: gvec },
                    };
                    proof {
                        let vv = gvec@.map_values(
                            |p: (Group, Vec<(Unit, Record<Update>)>)|
                                (p.0@, p.1@.map_values(|q: (Unit, Record<Update>)| (q.0@, q.1@))),
                        );
                        assert(vv.len() == 1);
                        assert(vv[0].0 == group@);
                        assert(vv[0].1 == cloned@.map_values(
                            |q: (Unit, Record<Update>)| (q.0@, q.1@),
                        ));
                        assert(cloned@.map_values(|q: (Unit, Record<Update>)| (q.0@, q.1@))
                            =~= vecb@.map_values(|q: (Unit, Record<Update>)| (q.0@, q.1@)));
                        assert(vv =~= seq![
                            (
                                group@,
                                vecb@.map_values(|q: (Unit, Record<Update>)| (q.0@, q.1@)),
                            ),
                        ]);
                        assert(d.data@ == dv);
                    }
                    part.push(d);
                }
                let ghost out_before = out@;
                let ghost partv = part@;
                out.append(&mut part);
                proof {
                    assert(out@.len() == out_before.len() + nc);
                    assert(forall|a: int| 0 <= a < out_before.len() ==> (#[trigger] out@[a])
                        == out_before[a]);
                    assert forall|i: int| 0 <= i < out@.len() implies self.multi_delivery_ok(
                        #[trigger] out@[i],
                        group@,
                    ) by {
                        if i >= out_before.len() {
                            let a = i - out_before.len();
                            assert(out@[i].login == *login && out@[i].token == conns@[a].0
                                && out@[i].conn_id == conns@[a].1 && out@[i].data@ == dv);
                            assert(user.sessions().contains_key(conns@[a].0@));
                            assert(user.sessions()[conns@[a].0@].conns().contains(conns@[a].1));
                            let bv = vecb@.map_values(
                                |q: (Unit, Record<Update>)| (q.0@, q.1@),
                            );
                            assert forall|j: int| 0 <= j < bv.len() implies self.authorized(
                                login@,
                                group@,
                                (#[trigger] bv[j]).0,
                            ) by {
                                assert(bv[j].0 == vecb@[j].0@);
                                assert(self.wplaces()[name@].authorizes(group@, vecb@[j].0@));
                            };
                        }
                    };
                    assert forall|b: int, l: Seq<char>, t: Seq<char>, c: u64|
                        #![trigger bundles.kv()[b], self.wplaces()[bundles.kv()[b].0@].has_login(l), self.users()[l].sessions()[t].conns().contains(c)]
                        0 <= b < bi && self.wplaces()[bundles.kv()[b].0@].has_login(l)
                            && self.users()[l].sessions().contains_key(t) && self.users()[
                            l].sessions()[t].conns().contains(c) implies Comm::delivered_to(
                            out@,
                            l,
                            t,
                            c,
                        ) by {
                        Comm::lemma_delivered_grows(out_before, out@, l, t, c);
                    };
                    assert forall|b: int, t: Seq<char>, c: u64|
                        #![trigger logins@[b], self.users()[logins@[b]@].sessions()[t].conns().contains(c)]
                        0 <= b < li + 1 && self.users()[logins@[b]@].sessions().contains_key(t)
                            && self.users()[logins@[b]@].sessions()[t].conns().contains(c)
                            implies Comm::delivered_to(out@, logins@[b]@, t, c) by {
                        if b == li {
                            let a = choose|a: int|
                                0 <= a < conns@.len() && (#[trigger] conns@[a]).0@ == t && conns@[
                                    a].1 == c;
                            assert(out@[out_before.len() + a].login@ == login@);
                            assert(out@[out_before.len() + a].token@ == t);
                            assert(out@[out_before.len() + a].conn_id == c);
                        } else {
                            Comm::lemma_delivered_grows(out_before, out@, logins@[b]@, t, c);
                        }
                    };
                    assert(out@ =~= out_before + partv);
                    assert forall|a: int, b: int| 0 <= a < b < partv.len() implies !((
                    #[trigger] partv[a]).login@ == (#[trigger] partv[b]).login@ && partv[a].token@
                        == partv[b].token@ && partv[a].conn_id == partv[b].conn_id) by {
                        assert(((conns@[a].0)@, conns@[a].1) != ((conns@[b].0)@, conns@[b].1));
                        assert(partv[a].token == conns@[a].0 && partv[a].conn_id == conns@[a].1);
                        assert(partv[b].token == conns@[b].0 && partv[b].conn_id == conns@[b].1);
                    };
                    assert forall|i: int, j: int|
                        0 <= i < out_before.len() && 0 <= j < partv.len() implies (
                    #[trigger] out_before[i]).login@ != (#[trigger] partv[j]).login@ by {
                        assert(partv[j].login@ == logins@[li as int]@);
                        if i < out_w0.len() {
                            let aa = choose|a: int|
                                0 <= a < bi && self.users()[out_w0[i].login@].wplace_v() == (
                                #[trigger] bundles.kv()[a]).0@;
                            assert(bundles.kv()[aa].0@ != bundles.kv()[bi as int].0@);
                            if out_before[i].login@ == partv[j].login@ {
                                assert(self.users()[out_before[i].login@].wplace_v() == name@);
                                assert(false);
                            }
                        } else {
                            let bb = choose|b: int|
                                0 <= b < li && out_before[i].login@ == (#[trigger] logins@[b])@;
                            assert(logins@[bb]@ != logins@[li as int]@);
                        }
                    };
                    Comm::lemma_distinct_append(out_before, partv);
                    assert(Comm::deliveries_distinct(out@));
                    assert forall|i: int| out_w0.len() <= i < out@.len() implies self.users()[(
                    #[trigger] out@[i]).login@].wplace_v() == name@ by {
                        if i >= out_before.len() {
                            assert(out@[i] == partv[i - out_before.len()]);
                            assert(out@[i].login@ == login@);
                        } else {
                            assert(out@[i] == out_before[i]);
                        }
                    };
                    assert forall|i: int| out_w0.len() <= i < out@.len() implies exists|b: int|
                        0 <= b < li + 1 && (#[trigger] out@[i]).login@ == (
                        #[trigger] logins@[b])@ by {
                        if i >= out_before.len() {
                            assert(out@[i].login@ == logins@[li as int]@);
                        } else {
                            let bb = choose|b: int|
                                0 <= b < li && out_before[i].login@ == (#[trigger] logins@[b])@;
                            assert(out@[i].login@ == logins@[bb]@);
                        }
                    };
                }
                li = li + 1;
            }
            proof {
                assert forall|b: int, l: Seq<char>, t: Seq<char>, c: u64|
                    #![trigger bundles.kv()[b], self.wplaces()[bundles.kv()[b].0@].has_login(l), self.users()[l].sessions()[t].conns().contains(c)]
                    0 <= b < bi + 1 && self.wplaces()[bundles.kv()[b].0@].has_login(l)
                        && self.users()[l].sessions().contains_key(t) && self.users()[
                        l].sessions()[t].conns().contains(c) implies Comm::delivered_to(
                        out@,
                        l,
                        t,
                        c,
                    ) by {
                    if b == bi {
                        assert(wp.has_login(l));
                        let lb = choose|lb: int|
                            0 <= lb < logins@.len() && (#[trigger] logins@[lb])@ == l;
                    }
                };
                assert forall|i: int| 0 <= i < out@.len() implies exists|a: int|
                    0 <= a < bi + 1 && self.users()[(#[trigger] out@[i]).login@].wplace_v()
                        == (#[trigger] bundles.kv()[a]).0@ by {
                    if i < out_w0.len() {
                        let aa = choose|a: int|
                            0 <= a < bi && self.users()[out_w0[i].login@].wplace_v() == (
                            #[trigger] bundles.kv()[a]).0@;
                        assert(out@[i] == out_w0[i]);
                        assert(self.users()[out@[i].login@].wplace_v() == bundles.kv()[aa].0@);
                    } else {
                        assert(self.users()[out@[i].login@].wplace_v() == bundles.kv()[
                            bi as int].0@);
                    }
                };
            }
            bi = bi + 1;
        }
        proof {
            assert forall|q: int, w: Seq<char>, l: Seq<char>, t: Seq<char>, c: u64|
                #![trigger self.reverse_has(group@, updates@[q].0@, w), self.wplaces()[w].has_login(l), self.users()[l].sessions()[t].conns().contains(c)]
                0 <= q < updates@.len() && self.reverse_has(group@, updates@[q].0@, w)
                    && self.wplaces()[w].has_login(l) && self.users()[l].sessions().contains_key(
                    t,
                ) && self.users()[l].sessions()[t].conns().contains(c) implies Comm::delivered_to(
                    out@,
                    l,
                    t,
                    c,
                ) by {
                assert(bundles.m().contains_key(w));
                bundles.lemma_contains_index(w);
                let b = choose|b: int|
                    0 <= b < bundles.kv().len() && (#[trigger] bundles.kv()[b]).0@ == w;
            };
        }
        out
    }

    /// Every record a delivery carries is authorized for its receiver.
    pub open spec fn delivery_authorized(&self, d: Delivery) -> bool {
        match d.data@ {
            DataView::Single { group, unit, update } => self.authorized(d.login@, group, unit),
            DataView::Multi { vec } => forall|k: int, j: int|
                0 <= k < vec.len() && 0 <= j < (#[trigger] vec[k]).1.len() ==> self.authorized(
                    d.login@,
                    vec[k].0,
                    (#[trigger] vec[k].1[j]).0,
                ),
        }
    }

    /// Fan one live signal from the store out to every interested
    /// connection. No client receives a record its workspace does not
    /// list.
    pub fn serve_db_data(&self, data: &Data<Record<Update>>) -> (r: Vec<Delivery>)
        requires
            self.wf(),
        ensures
            forall|i: int| 0 <= i < r@.len() ==> self.delivery_authorized(#[trigger] r@[i]),
            match data@ {
                DataView::Single { group, unit, update } => forall|
                    w: Seq<char>,
                    l: Seq<char>,
                    t: Seq<char>,
                    c: u64,
                |
                    self.reverse_has(group, unit, w) && #[trigger] self.wplaces()[w].has_login(l)
                        && self.users()[l].sessions().contains_key(t)
                        && #[trigger] self.users()[l].sessions()[t].conns().contains(c)
                        ==> Comm::delivered_to(r@, l, t, c),
                DataView::Multi { vec } => forall|
                    k: int,
                    q: int,
                    w: Seq<char>,
                    l: Seq<char>,
                    t: Seq<char>,
                    c: u64,
                |
                    #![trigger self.reverse_has(vec[k].0, vec[k].1[q].0, w), self.wplaces()[w].has_login(l), self.users()[l].sessions()[t].conns().contains(c)]
                    0 <= k < vec.len() && 0 <= q < vec[k].1.len() && self.reverse_has(
                        vec[k].0,
                        vec[k].1[q].0,
                        w,
                    ) && self.wplaces()[w].has_login(l) && self.users()[l].sessions().contains_key(
                        t,
                    ) && self.users()[l].sessions()[t].conns().contains(c) ==> Comm::delivered_to(
                        r@,
                        l,
                        t,
                        c,
                    ),
            },
            data@ is Single ==> Comm::deliveries_distinct(r@),
            (data@ matches DataView::Multi { vec } && (forall|k1: int, k2: int|
                0 <= k1 < k2 < vec.len() ==> (#[trigger] vec[k1]).0 != (#[trigger] vec[k2]).0))
                ==> Comm::bundled_once(r@),
    {
        match data {
            Data::Single { group, unit, update } => {
                let out = self.serve_data_single(group, unit, update);
                proof {
                    assert forall|i: int| 0 <= i < out@.len() implies self.delivery_authorized(
                        #[trigger] out@[i],
                    ) by {
                        assert(self.single_delivery_ok(out@[i], group@, unit@, update@));
                    };
                }
                out
            },
            Data::Multi { vec } => {
                let ghost dvec = data@->Multi_vec;
                let mut out: Vec<Delivery> = Vec::new();
                let n = vec.len();
                for i in 0..n
                    invariant
                        n == vec@.len(),
                        self.wf(),
                        dvec == data@->Multi_vec,
                        dvec.len() == n,
                        forall|k: int| 0 <= k < n ==> (#[trigger] dvec[k]).0 == vec@[k].0@
                            && dvec[k].1 == vec@[k].1@.map_values(
                            |q: (Unit, Record<Update>)| (q.0@, q.1@),
                        ),
                        forall|a: int| 0 <= a < out@.len() ==> self.delivery_authorized(
                            #[trigger] out@[a],
                        ),
                        forall|a: int| 0 <= a < out@.len() ==> ((#[trigger] out@[a]).data@
                            is Multi) && exists|k: int|
                            0 <= k < i && out@[a].data@->Multi_vec[0].0 == (#[trigger] dvec[k]).0,
                        (forall|k1: int, k2: int|
                            0 <= k1 < k2 < dvec.len() ==> (#[trigger] dvec[k1]).0 != (
                            #[trigger] dvec[k2]).0) ==> Comm::bundled_once(out@),
                        forall|k: int, q: int, w: Seq<char>, l: Seq<char>, t: Seq<char>, c: u64|
                            #![trigger self.reverse_has(dvec[k].0, dvec[k].1[q].0, w), self.wplaces()[w].has_login(l), self.users()[l].sessions()[t].conns().contains(c)]
                            0 <= k < i && 0 <= q < dvec[k].1.len() && self.reverse_has(
                                dvec[k].0,
                                dvec[k].1[q].0,
                                w,
                            ) && self.wplaces()[w].has_login(l) && self.users()[
                                l].sessions().contains_key(t) && self.users()[l].sessions()[
                                t].conns().contains(c) ==> Comm::delivered_to(out@, l, t, c),
                {
                    let group = &vec[i].0;
                    let updates = &vec[i].1;
                    let mut part = self.serve_data_multi(group, updates);
                    let ghost part0 = part@;
                    let ghost out0 = out@;
                    out.append(&mut part);
                    proof {
                        assert(out@ == out0 + part0);
                        assert forall|a: int| 0 <= a < out@.len() implies self.delivery_authorized(
                            #[trigger] out@[a],
                        ) by {
                            if a < out0.len() {
                                assert(out@[a] == out0[a]);
                            } else {
                                assert(out@[a] == part0[a - out0.len()]);
                                assert(self.multi_delivery_ok(
                                    part0[a - out0.len()],
                                    vec@[i as int].0@,
                                ));
                            }
                        };
                        assert forall|
                            k: int,
                            q: int,
                            w: Seq<char>,
                            l: Seq<char>,
                            t: Seq<char>,
                            c: u64,
                        |
                            #![trigger self.reverse_has(dvec[k].0, dvec[k].1[q].0, w), self.wplaces()[w].has_login(l), self.users()[l].sessions()[t].conns().contains(c)]
                            0 <= k < i + 1 && 0 <= q < dvec[k].1.len() && self.reverse_has(
                                dvec[k].0,
                                dvec[k].1[q].0,
                                w,
                            ) && self.wplaces()[w].has_login(l) && self.users()[
                                l].sessions().contains_key(t) && self.users()[l].sessions()[
                                t].conns().contains(c) implies Comm::delivered_to(
                                out@,
                                l,
                                t,
                                c,
                            ) by {
                            if k == i {
                                assert(dvec[k].0 == group@);
                                assert(dvec[k].1[q].0 == updates@[q].0@);
                                assert(self.reverse_has(group@, updates@[q].0@, w));
                                assert(Comm::delivered_to(part0, l, t, c));
                                let j = choose|j: int|
                                    0 <= j < part0.len() && (#[trigger] part0[j]).login@ == l
                                        && part0[j].token@ == t && part0[j].conn_id == c;
                                assert(out@[out0.len() + j] == part0[j]);
                            } else {
                                Comm::lemma_delivered_grows(out0, out@, l, t, c);
                            }
                        };
                        assert forall|a: int| 0 <= a < out@.len() implies ((
                        #[trigger] out@[a]).data@ is Multi) && exists|k: int|
                            0 <= k < i + 1 && out@[a].data@->Multi_vec[0].0 == (
                            #[trigger] dvec[k]).0 by {
                            if a < out0.len() {
                                assert(out@[a] == out0[a]);
                                let kk = choose|k: int|
                                    0 <= k < i && out0[a].data@->Multi_vec[0].0 == (
                                    #[trigger] dvec[k]).0;
                                assert(out@[a].data@->Multi_vec[0].0 == dvec[kk].0);
                            } else {
                                assert(out@[a] == part0[a - out0.len()]);
                                assert(self.multi_delivery_ok(
                                    part0[a - out0.len()],
                                    vec@[i as int].0@,
                                ));
                                assert(out@[a].data@->Multi_vec[0].0 == dvec[i as int].0);
                            }
                        };
                        if forall|k1: int, k2: int|
                            0 <= k1 < k2 < dvec.len() ==> (#[trigger] dvec[k1]).0 != (
                            #[trigger] dvec[k2]).0 {
                            assert forall|a: int, b: int| 0 <= a < b < out@.len() implies !((
                            #[trigger] out@[a]).login@ == (#[trigger] out@[b]).login@
                                && out@[a].token@ == out@[b].token@ && out@[a].conn_id
                                == out@[b].conn_id && out@[a].data@->Multi_vec[0].0
                                == out@[b].data@->Multi_vec[0].0) by {
                                if b < out0.len() {
                                    assert(out@[a] == out0[a] && out@[b] == out0[b]);
                                } else if a < out0.len() {
                                    assert(out@[a] == out0[a]);
                                    assert(out@[b] == part0[b - out0.len()]);
                                    let kk = choose|k: int|
                                        0 <= k < i && out0[a].data@->Multi_vec[0].0 == (
                                        #[trigger] dvec[k]).0;
                                    assert(self.multi_delivery_ok(
                                        part0[b - out0.len()],
                                        vec@[i as int].0@,
                                    ));
                                    assert(out@[b].data@->Multi_vec[0].0 == dvec[i as int].0);
                                    assert(dvec[kk].0 != dvec[i as int].0);
                                } else {
                                    assert(out@[a] == part0[a - out0.len()] && out@[b] == part0[
                                        b - out0.len()]);
                                    assert(Comm::deliveries_distinct(part0));
                                }
                            };
                        }
                    }
                }
                out
            },
        }
    }
}

/// Copy a unit-record list: names exact, records by view.
fn clone_units(v: &Vec<(Unit, Record<Update>)>) -> (r: Vec<(Unit, Record<Update>)>)
    ensures
        r@.len() == v@.len(),
        forall|i: int| 0 <= i < v@.len() ==> (#[trigger] r@[i]).0@ == v@[i].0@ && r@[i].1@
            == v@[i].1@,
{
    let mut out: Vec<(Unit, Record<Update>)> = Vec::new();
    let n = v.len();
    for i in 0..n
        invariant
            n == v@.len(),
            out@.len() == i,
            forall|a: int| 0 <= a < i ==> (#[trigger] out@[a]).0@ == v@[a].0@ && out@[a].1@
                == v@[a].1@,
    {
        let u = v[i].0.clone();
        let rec = v[i].1.clone();
        out.push((u, rec));
    }
    out
}

} // verus!
