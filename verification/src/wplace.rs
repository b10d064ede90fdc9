//! Workspaces: the authorization objects mapping groups to the units a set
//! of users may observe.

use vstd::prelude::*;

use crate::dataflow::{Group, Unit};
use crate::smap::{StrMap, StrSet};
use crate::user::Login;

verus! {

/// A workspace's name.
#[derive(Debug)]
pub struct Name {
    val: String,
}

impl View for Name {
    type V = Seq<char>;

    closed spec fn view(&self) -> Seq<char> {
        self.val@
    }
}

impl Clone for Name {
    fn clone(&self) -> (r: Self)
        ensures
            r == *self,
    {
        Name { val: self.val.clone() }
    }
}

impl Name {
    pub fn new(val: String) -> (r: Self)
        ensures
            r@ == val@,
    {
        Name { val }
    }

    pub fn into_string(self) -> (r: String)
        ensures
            r@ == self@,
    {
        self.val
    }

    pub fn as_name(&self) -> (r: &String)
        ensures
            r@ == self@,
    {
        &self.val
    }
}

/// A workspace: its name, the logins of its members, and the units of each
/// group its members may observe.
pub struct Wplace {
    name: Name,
    set_login: StrSet,
    pubtop: StrMap<StrSet>,
}

impl Wplace {
    pub closed spec fn name_v(&self) -> Seq<char> {
        self.name@
    }

    pub closed spec fn logins(&self) -> StrSet {
        self.set_login
    }

    pub open spec fn has_login(&self, l: Seq<char>) -> bool {
        self.logins().has(l)
    }

    pub closed spec fn pubtop_m(&self) -> Map<Seq<char>, StrSet> {
        self.pubtop.m()
    }

    pub closed spec fn pubtop_kv(&self) -> Seq<(String, StrSet)> {
        self.pubtop.kv()
    }

    /// The workspace lets its members observe `(g, u)`.
    pub open spec fn authorizes(&self, g: Seq<char>, u: Seq<char>) -> bool {
        self.pubtop_m().contains_key(g) && self.pubtop_m()[g].has(u)
    }

    pub closed spec fn wf(&self) -> bool {
        &&& self.set_login.wf()
        &&& self.pubtop.wf()
        &&& forall|g: Seq<char>| self.pubtop.m().contains_key(g) ==> (
        #[trigger] self.pubtop.m()[g]).wf()
    }

    pub fn new(name: Name, pubtop: StrMap<StrSet>) -> (r: Self)
        requires
            pubtop.wf(),
            forall|g: Seq<char>| pubtop.m().contains_key(g) ==> (#[trigger] pubtop.m()[g]).wf(),
        ensures
            r.wf(),
            r.name_v() == name@,
            r.pubtop_m() == pubtop.m(),
            r.pubtop_kv() == pubtop.kv(),
            forall|l: Seq<char>| !r.has_login(l),
            r.logins().seq().len() == 0,
    {
        Wplace { name, pubtop, set_login: StrSet::new() }
    }

    pub fn remove_login(&mut self, login: &Login)
        requires
            old(self).wf(),
        ensures
            final(self).wf(),
            forall|x: Seq<char>| final(self).has_login(x) <==> old(self).has_login(x) && x
                != login@,
            old(self).has_login(login@) ==> final(self).logins().seq().len() == old(
                self,
            ).logins().seq().len() - 1,
            !old(self).has_login(login@) ==> final(self).logins().seq() == old(
                self,
            ).logins().seq(),
            final(self).name_v() == old(self).name_v(),
            final(self).pubtop_m() == old(self).pubtop_m(),
            final(self).pubtop_kv() == old(self).pubtop_kv(),
    {
        self.set_login.remove(login.as_name());
    }

    pub fn add_login(&mut self, login: Login)
        requires
            old(self).wf(),
        ensures
            final(self).wf(),
            forall|x: Seq<char>| final(self).has_login(x) <==> old(self).has_login(x) || x
                == login@,
            old(self).has_login(login@) ==> final(self).logins().seq() == old(
                self,
            ).logins().seq(),
            !old(self).has_login(login@) ==> final(self).logins().seq().len() == old(
                self,
            ).logins().seq().len() + 1,
            final(self).name_v() == old(self).name_v(),
            final(self).pubtop_m() == old(self).pubtop_m(),
            final(self).pubtop_kv() == old(self).pubtop_kv(),
    {
        self.set_login.insert(login.into_string());
    }

    /// The observable topology, group by group: what the original handed
    /// out entry by entry.
    pub fn iter_pubtop(&self) -> (r: Vec<(Group, Vec<Unit>)>)
        requires
            self.wf(),
        ensures
            r@.len() == self.pubtop_kv().len(),
            forall|i: int| 0 <= i < r@.len() ==> (#[trigger] r@[i]).0@ == self.pubtop_kv()[i].0@
                && r@[i].1@.len() == self.pubtop_kv()[i].1.seq().len() && (forall|j: int|
                0 <= j < r@[i].1@.len() ==> (#[trigger] r@[i].1@[j])@ == self.pubtop_kv()[i].1.seq()[j]@),
            forall|i: int, j: int| 0 <= i < r@.len() && 0 <= j < (#[trigger] r@[i]).1@.len()
                ==> self.authorizes(r@[i].0@, (#[trigger] r@[i].1@[j])@),
    {
        let mut out: Vec<(Group, Vec<Unit>)> = Vec::new();
        let n = self.pubtop.len();
        for i in 0..n
            invariant
                n == self.pubtop_kv().len(),
                self.wf(),
                out@.len() == i,
                forall|a: int| 0 <= a < i ==> (#[trigger] out@[a]).0@ == self.pubtop_kv()[a].0@
                    && out@[a].1@.len() == self.pubtop_kv()[a].1.seq().len() && (forall|j: int|
                    0 <= j < out@[a].1@.len() ==> (#[trigger] out@[a].1@[j])@
                        == self.pubtop_kv()[a].1.seq()[j]@),
        {
            let g = self.pubtop.key_at(i);
            let set = self.pubtop.val_at(i);
            let m = set.len();
            let mut units: Vec<Unit> = Vec::new();
            for j in 0..m
                invariant
                    m == set.seq().len(),
                    i < n,
                    n == self.pubtop_kv().len(),
                    *set == self.pubtop_kv()[i as int].1,
                    units@.len() == j,
                    forall|a: int| 0 <= a < j ==> (#[trigger] units@[a])@ == set.seq()[a]@,
            {
                units.push(Unit::new(set.at(j).clone()));
            }
            out.push((Group::new(g.clone()), units));
        }
        proof {
            assert forall|i: int, j: int|
                0 <= i < out@.len() && 0 <= j < (#[trigger] out@[i]).1@.len() implies self.authorizes(
                out@[i].0@,
                (#[trigger] out@[i].1@[j])@,
            ) by {
                self.pubtop.lemma_kv_index(i);
                assert(self.pubtop_m()[out@[i].0@] == self.pubtop_kv()[i].1);
                assert(self.pubtop_kv()[i].1.seq()[j]@ == out@[i].1@[j]@);
            };
        }
        out
    }

    pub fn check_unit(&self, group: &Group, unit: &Unit) -> (b: bool)
        requires
            self.wf(),
        ensures
            b == self.authorizes(group@, unit@),
    {
        if let Some(set) = self.pubtop.get(group.as_name()) {
            set.contains(unit.as_name())
        } else {
            false
        }
    }

    /// The member logins, in insertion order.
    pub fn iter_login(&self) -> (r: Vec<Login>)
        requires
            self.wf(),
        ensures
            r@.len() == self.logins().seq().len(),
            forall|i: int| 0 <= i < r@.len() ==> (#[trigger] r@[i])@ == self.logins().seq()[i]@
                && self.has_login(r@[i]@),
            forall|a: int, b: int| 0 <= a < b < r@.len() ==> (#[trigger] r@[a])@ != (
            #[trigger] r@[b])@,
    {
        let mut out: Vec<Login> = Vec::new();
        let n = self.set_login.len();
        for i in 0..n
            invariant
                n == self.logins().seq().len(),
                self.wf(),
                out@.len() == i,
                forall|a: int| 0 <= a < i ==> (#[trigger] out@[a])@ == self.logins().seq()[a]@,
        {
            out.push(Login::new(self.set_login.at(i).clone()));
        }
        out
    }

    /// Every group of the topology stands at an entry position.
    pub proof fn lemma_pubtop_index(&self, g: Seq<char>)
        requires
            self.wf(),
            self.pubtop_m().contains_key(g),
        ensures
            exists|a: int|
                0 <= a < self.pubtop_kv().len() && (#[trigger] self.pubtop_kv()[a]).0@ == g
                    && self.pubtop_kv()[a].1 == self.pubtop_m()[g],
    {
        self.pubtop.lemma_contains_index(g);
        let a = choose|a: int|
            0 <= a < self.pubtop.kv().len() && (#[trigger] self.pubtop.kv()[a]).0@ == g;
        self.pubtop.lemma_kv_index(a);
        assert(self.pubtop_kv() == self.pubtop.kv());
        assert(0 <= a < self.pubtop_kv().len() && self.pubtop_kv()[a].0@ == g
            && self.pubtop_kv()[a].1 == self.pubtop_m()[g]);
    }

    /// A workspace has no members exactly when its login list is empty.
    pub proof fn lemma_members_empty(&self)
        ensures
            (self.logins().seq().len() == 0) <==> !(exists|l: Seq<char>| self.has_login(l)),
    {
        if self.logins().seq().len() > 0 {
            assert(self.has_login(self.logins().seq()[0]@));
        }
    }

    pub fn get_name(&self) -> (r: &Name)
        ensures
            r@ == self.name_v(),
    {
        &self.name
    }

    pub fn len_login(&self) -> (n: usize)
        ensures
            n == self.logins().seq().len(),
    {
        self.set_login.len()
    }

    pub fn len_pubtop(&self) -> (n: usize)
        ensures
            n == self.pubtop_kv().len(),
    {
        self.pubtop.len()
    }

    /// True when no member is left: such a workspace is removed.
    pub fn is_empty(&self) -> (b: bool)
        ensures
            b == (self.logins().seq().len() == 0),
    {
        self.set_login.is_empty()
    }
}

/// A `(g, u)` pair stands in a workspace file: some listed group is named
/// `g` and lists a unit named `u`.
pub open spec fn cfg_lists(groups: Seq<(String, Vec<String>)>, g: Seq<char>, u: Seq<char>) -> bool {
    exists|i: int, j: int|
        0 <= i < groups.len() && 0 <= j < (#[trigger] groups[i]).1@.len() && groups[i].0@ == g && (
        #[trigger] groups[i].1@[j])@ == u
}

/// Build a workspace from a parsed workspace file: the result authorizes
/// exactly the `(group, unit)` pairs the file lists, and starts with no
/// members.
pub fn help_wplace_make(name: Name, cfg_wplace: crate::config::ConfigWplace) -> (r: Wplace)
    requires
        forall|a: int, b: int| 0 <= a < b < cfg_wplace.groups@.len() ==> (
        #[trigger] cfg_wplace.groups@[a]).0@ != (#[trigger] cfg_wplace.groups@[b]).0@,
    ensures
        r.wf(),
        r.name_v() == name@,
        forall|l: Seq<char>| !r.has_login(l),
        forall|g: Seq<char>, u: Seq<char>| #[trigger] r.authorizes(g, u) <==> cfg_lists(
            cfg_wplace.groups@,
            g,
            u,
        ),
{
    let mut pubtop: StrMap<StrSet> = StrMap::new();
    let n = cfg_wplace.groups.len();
    let groups = cfg_wplace.groups;
    for i in 0..n
        invariant
            n == groups@.len(),
            forall|a: int, b: int| 0 <= a < b < groups@.len() ==> (#[trigger] groups@[a]).0@ != (
            #[trigger] groups@[b]).0@,
            pubtop.wf(),
            forall|g: Seq<char>| pubtop.m().contains_key(g) ==> (#[trigger] pubtop.m()[g]).wf(),
            forall|g: Seq<char>, u: Seq<char>|
                #![trigger pubtop.m()[g].has(u)]
                pubtop.m().contains_key(g) && pubtop.m()[g].has(u) ==> cfg_lists(
                    groups@.take(i as int),
                    g,
                    u,
                ),
            forall|a: int| 0 <= a < i ==> pubtop.m().contains_key((#[trigger] groups@[a]).0@),
            forall|a: int, b: int|
                #![trigger groups@[a].1@[b]]
                0 <= a < i && 0 <= b < groups@[a].1@.len() ==> pubtop.m().contains_key(
                    groups@[a].0@,
                ) && pubtop.m()[groups@[a].0@].has(groups@[a].1@[b]@),
    {
        let group_name = &groups[i].0;
        let unit_names = &groups[i].1;
        let mut set: StrSet = StrSet::new();
        let m = unit_names.len();
        for j in 0..m
            invariant
                m == unit_names@.len(),
                i < n,
                n == groups@.len(),
                *unit_names == groups@[i as int].1,
                set.wf(),
                forall|u: Seq<char>| #[trigger] set.has(u) ==> exists|jj: int|
                    0 <= jj < j && (#[trigger] unit_names@[jj])@ == u,
                forall|jj: int| 0 <= jj < j ==> set.has((#[trigger] unit_names@[jj])@),
        {
            let ghost j0 = j;
            set.insert(unit_names[j].clone());
            proof {
                assert forall|u: Seq<char>| #[trigger] set.has(u) implies exists|jj: int|
                    0 <= jj < j0 + 1 && (#[trigger] unit_names@[jj])@ == u by {
                    if u == unit_names@[j0 as int]@ {
                        assert(unit_names@[j0 as int]@ == u);
                    }
                };
            }
        }
        let ghost p0 = pubtop.m();
        pubtop.insert(group_name.clone(), set);
        proof {
            assert forall|g: Seq<char>, u: Seq<char>|
                #![trigger pubtop.m()[g].has(u)]
                pubtop.m().contains_key(g) && pubtop.m()[g].has(u) implies cfg_lists(
                groups@.take(i as int + 1),
                g,
                u,
            ) by {
                if g == group_name@ {
                    assert(pubtop.m()[g] == set);
                    let jj = choose|jj: int|
                        0 <= jj < unit_names@.len() && (#[trigger] unit_names@[jj])@ == u;
                    assert((#[trigger] groups@.take(i as int + 1)[i as int]).0@ == g);
                    assert((#[trigger] groups@.take(i as int + 1)[i as int].1@[jj])@ == u);
                } else {
                    assert(pubtop.m()[g] == p0[g]);
                    assert(p0.contains_key(g) && p0[g].has(u));
                    assert(cfg_lists(groups@.take(i as int), g, u));
                    let (a, b) = choose|a: int, b: int|
                        0 <= a < groups@.take(i as int).len() && 0 <= b < (
                        #[trigger] groups@.take(i as int)[a]).1@.len() && groups@.take(
                            i as int,
                        )[a].0@ == g && (#[trigger] groups@.take(i as int)[a].1@[b])@ == u;
                    assert((#[trigger] groups@.take(i as int + 1)[a]).0@ == g);
                    assert((#[trigger] groups@.take(i as int + 1)[a].1@[b])@ == u);
                }
            };
            assert forall|a: int| 0 <= a < i + 1 implies pubtop.m().contains_key(
                (#[trigger] groups@[a]).0@,
            ) by {
                if a == i {
                    assert(pubtop.m().contains_key(group_name@));
                }
            };
            assert forall|a: int, b: int|
                #![trigger groups@[a].1@[b]]
                0 <= a < i + 1 && 0 <= b < groups@[a].1@.len() implies pubtop.m().contains_key(
                groups@[a].0@,
            ) && pubtop.m()[groups@[a].0@].has(groups@[a].1@[b]@) by {
                if a == i {
                    assert(pubtop.m()[group_name@] == set);
                    assert(set.has(unit_names@[b]@));
                } else {
                    assert(groups@[a].0@ != group_name@);
                    assert(pubtop.m()[groups@[a].0@] == p0[groups@[a].0@]);
                }
            };
        }
    }
    let ghost pm = pubtop.m();
    let r = Wplace::new(name, pubtop);
    proof {
        assert forall|g: Seq<char>, u: Seq<char>| #[trigger] r.authorizes(g, u) <==> cfg_lists(
            cfg_wplace.groups@,
            g,
            u,
        ) by {
            if r.authorizes(g, u) {
                assert(pm.contains_key(g) && pm[g].has(u));
                assert(cfg_lists(groups@.take(n as int), g, u));
                let (a, b) = choose|a: int, b: int|
                    0 <= a < groups@.take(n as int).len() && 0 <= b < (
                    #[trigger] groups@.take(n as int)[a]).1@.len() && groups@.take(
                        n as int,
                    )[a].0@ == g && (#[trigger] groups@.take(n as int)[a].1@[b])@ == u;
                assert((#[trigger] groups@[a]).0@ == g);
                assert((#[trigger] groups@[a].1@[b])@ == u);
            }
            if cfg_lists(cfg_wplace.groups@, g, u) {
                let (a, b) = choose|a: int, b: int|
                    0 <= a < groups@.len() && 0 <= b < (#[trigger] groups@[a]).1@.len()
                        && groups@[a].0@ == g && (#[trigger] groups@[a].1@[b])@ == u;
                assert(pm.contains_key(g) && pm[g].has(u));
            }
        };
    }
    r
}

} // verus!