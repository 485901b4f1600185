//! The registry of users and their running trading cores.
//!
//! Each user owns any number of cores; each core has a process-wide id taken
//! from a counter that only grows, and the list of coins it trades. The tasks
//! that run a core and the channels that carry its signals live with the
//! caller, keyed by the ids this registry hands out and reports back.
use crate::text::{decimal_string, decimal_text, text_with_number};
use std::collections::HashMap;
use std::collections::HashSet;
use vstd::prelude::*;
use vstd::std_specs::hash::spec_hash_map_iter;
use vstd::std_specs::iter::IteratorSpec;

verus! {

broadcast use vstd::std_specs::hash::group_hash_axioms;

/// A signal that one tactic of a trading bot emits.
#[derive(Debug, Clone)]
pub struct StrategySignal {
    pub tactic_name: String,
    pub tactic_signal: String,
}

/// A signal tagged with the id of the core that produced it.
#[derive(Debug, Clone)]
pub struct StrategySignalWithCoreId {
    pub core_id: i64,
    pub signal: StrategySignal,
}

impl StrategySignalWithCoreId {
    /// Tags `signal` with `core_id`.
    pub fn new(core_id: i64, signal: StrategySignal) -> (s: Self)
        ensures
            s.core_id == core_id,
            s.signal == signal,
    {
        StrategySignalWithCoreId { core_id, signal }
    }
}

/// What the manager knows of one running core.
pub struct CoreEntry {
    pub user_id: i64,
    pub coins: Seq<Seq<char>>,
}

/// The manager as a mathematical value: the registered users, the running
/// cores by id, and the id the next started core receives.
#[verifier::ext_equal]
pub struct ManagerView {
    pub users: Set<i64>,
    pub cores: Map<i64, CoreEntry>,
    pub next_core_id: i64,
}

pub open spec fn user_not_registered_text(user_id: i64) -> Seq<char> {
    "User "@ + decimal_text(user_id as int) + " not registered"@
}

pub open spec fn user_not_found_text(user_id: i64) -> Seq<char> {
    "User "@ + decimal_text(user_id as int) + " not found"@
}

pub open spec fn core_not_found_text(core_id: i64, user_id: i64) -> Seq<char> {
    "Core "@ + decimal_text(core_id as int) + " not found for user "@ + decimal_text(
        user_id as int,
    )
}

impl ManagerView {
    /// Every core belongs to a registered user and has an id below the counter.
    pub open spec fn wf(self) -> bool {
        &&& self.next_core_id >= 1
        &&& self.users.finite()
        &&& self.cores.dom().finite()
        &&& forall|k: i64| #[trigger]
            self.cores.contains_key(k) ==> {
                &&& self.users.contains(self.cores[k].user_id)
                &&& 1 <= k < self.next_core_id
            }
    }

    /// `core_id` names a running core of `user_id`.
    pub open spec fn owns(self, user_id: i64, core_id: i64) -> bool {
        self.cores.contains_key(core_id) && self.cores[core_id].user_id == user_id
    }

    /// `core_id` names a running core of `user_id` that trades `coins`.
    pub open spec fn holds_core(self, user_id: i64, core_id: i64, coins: Seq<Seq<char>>) -> bool {
        self.owns(user_id, core_id) && self.cores[core_id].coins == coins
    }

    /// The ids of the running cores of `user_id`.
    pub open spec fn cores_of(self, user_id: i64) -> Set<i64> {
        Set::new(|k: i64| self.owns(user_id, k))
    }

    /// `user_id` is registered afresh: its earlier cores are forgotten.
    pub open spec fn register(self, user_id: i64) -> ManagerView {
        ManagerView {
            users: self.users.insert(user_id),
            cores: self.cores.remove_keys(self.cores_of(user_id)),
            next_core_id: self.next_core_id,
        }
    }

    /// A start request: the counter always advances; the core is recorded
    /// under the old counter value when the user is registered.
    pub open spec fn start(self, user_id: i64, coins: Seq<Seq<char>>) -> ManagerView {
        ManagerView {
            users: self.users,
            cores: if self.users.contains(user_id) {
                self.cores.insert(self.next_core_id, CoreEntry { user_id, coins })
            } else {
                self.cores
            },
            next_core_id: (self.next_core_id + 1) as i64,
        }
    }

    /// A stop request for one core.
    pub open spec fn stop(self, user_id: i64, core_id: i64) -> ManagerView {
        if self.users.contains(user_id) && self.owns(user_id, core_id) {
            ManagerView { cores: self.cores.remove(core_id), ..self }
        } else {
            self
        }
    }

    /// A stop request for all cores of one user.
    pub open spec fn stop_all(self, user_id: i64) -> ManagerView {
        if self.users.contains(user_id) {
            ManagerView { cores: self.cores.remove_keys(self.cores_of(user_id)), ..self }
        } else {
            self
        }
    }

    /// An unregister request.
    pub open spec fn unregister(self, user_id: i64) -> ManagerView {
        if self.users.contains(user_id) {
            ManagerView {
                users: self.users.remove(user_id),
                cores: self.cores.remove_keys(self.cores_of(user_id)),
                next_core_id: self.next_core_id,
            }
        } else {
            self
        }
    }

    /// `list` holds each running core of `user_id` once, with its coins, and
    /// nothing else.
    pub open spec fn lists_cores_of(self, user_id: i64, list: Seq<(i64, Seq<Seq<char>>)>) -> bool {
        &&& forall|a: int, b: int| 0 <= a < b < list.len() ==> list[a].0 != list[b].0
        &&& forall|i: int|
            0 <= i < list.len() ==> {
                &&& self.owns(user_id, #[trigger] list[i].0)
                &&& self.cores[list[i].0].coins == list[i].1
            }
        &&& forall|k: i64| #[trigger]
            self.owns(user_id, k) ==> exists|i: int| 0 <= i < list.len() && list[i].0 == k
    }

    /// `ids` holds each running core id of `user_id` once, and nothing else.
    pub open spec fn lists_ids_of(self, user_id: i64, ids: Seq<i64>) -> bool {
        &&& ids.no_duplicates()
        &&& ids.to_set() == self.cores_of(user_id)
    }
}

pub open spec fn listed_view(list: Seq<(i64, Vec<String>)>) -> Seq<(i64, Seq<Seq<char>>)> {
    list.map_values(|p: (i64, Vec<String>)| (p.0, p.1.deep_view()))
}

/// A copy of a list of coin names.
fn copy_coins(coins: &Vec<String>) -> (r: Vec<String>)
    ensures
        r.deep_view() == coins.deep_view(),
{
    let mut r: Vec<String> = Vec::new();
    for i in 0..coins.len()
        invariant
            r@.len() == i,
            forall|j: int| 0 <= j < i ==> #[trigger] r@[j]@ == coins@[j]@,
    {
        r.push(coins[i].clone());
    }
    assert(r.deep_view() =~= coins.deep_view());
    r
}

struct CoreInstance {
    user_id: i64,
    core_id: i64,
    coins: Vec<String>,
}

/// The registry of users and their cores.
pub struct CoreManager {
    users: HashSet<i64>,
    cores: HashMap<i64, CoreInstance>,
    next_core_id: i64,
}

impl View for CoreManager {
    type V = ManagerView;

    closed spec fn view(&self) -> ManagerView {
        ManagerView {
            users: self.users@,
            cores: self.cores@.map_values(
                |c: CoreInstance| CoreEntry { user_id: c.user_id, coins: c.coins.deep_view() },
            ),
            next_core_id: self.next_core_id,
        }
    }
}

impl CoreManager {
    /// The registry is consistent: the view is well formed and each core is
    /// stored under its own id.
    pub closed spec fn wf(&self) -> bool {
        &&& self@.wf()
        &&& forall|k: i64| #[trigger] self.cores@.contains_key(k) ==> self.cores@[k].core_id == k
    }

    /// A consistent registry has a well formed view, so the laws about
    /// `ManagerView` apply to it.
    pub proof fn lemma_view_wf(&self)
        requires
            self.wf(),
        ensures
            self@.wf(),
    {
    }

    /// An empty registry whose first core gets id 1.
    pub fn new() -> (m: Self)
        ensures
            m.wf(),
            m@.users == Set::<i64>::empty(),
            m@.cores == Map::<i64, CoreEntry>::empty(),
            m@.next_core_id == 1,
    {
        let m = CoreManager { users: HashSet::new(), cores: HashMap::new(), next_core_id: 1 };
        assert(m@.cores =~= Map::<i64, CoreEntry>::empty());
        assert(m@.cores.dom() =~= Set::<i64>::empty());
        m
    }

    /// The id that the next start request consumes.
    pub fn next_core_id(&self) -> (id: i64)
        ensures
            id == self@.next_core_id,
    {
        self.next_core_id
    }

    fn generate_core_id(&mut self) -> (id: i64)
        requires
            old(self).wf(),
            old(self)@.next_core_id < i64::MAX,
        ensures
            final(self).wf(),
            id == old(self)@.next_core_id,
            final(self)@ == (ManagerView { next_core_id: (id + 1) as i64, ..old(self)@ }),
    {
        let id = self.next_core_id;
        self.next_core_id = self.next_core_id + 1;
        assert(self@ =~= (ManagerView { next_core_id: (id + 1) as i64, ..old(self)@ }));
        id
    }

    /// Each running core of `user_id` with a copy of its coins, in the order
    /// the table is walked.
    fn user_core_list(&self, user_id: i64) -> (res: Vec<(i64, Vec<String>)>)
        requires
            self.wf(),
        ensures
            self@.lists_cores_of(user_id, listed_view(res@)),
    {
        let mut res: Vec<(i64, Vec<String>)> = Vec::new();
        let iter = self.cores.iter();
        let ghost entries = iter.remaining();
        let ghost mut pos: Seq<int> = Seq::empty();
        assert(entries.no_duplicates());
        for (k, c) in it: iter
            invariant
                self.wf(),
                it.seq() == entries,
                entries == spec_hash_map_iter(&self.cores).remaining(),
                entries.no_duplicates(),
                forall|a: int, b: int| 0 <= a < b < res@.len() ==> res@[a].0 != res@[b].0,
                forall|i: int|
                    0 <= i < res@.len() ==> self@.holds_core(user_id, #[trigger] res@[i].0, res@[i].1.deep_view()),
                pos.len() == res@.len(),
                forall|i: int|
                    0 <= i < pos.len() ==> 0 <= #[trigger] pos[i] < it.index() && *entries[pos[i]].0
                        == res@[i].0,
                forall|j: int|
                    0 <= j < it.index() && (#[trigger] entries[j]).1.user_id == user_id
                        ==> exists|i: int| 0 <= i < res@.len() && res@[i].0 == *entries[j].0,
        {
            let ghost old_res = res@;
            let ghost old_pos = pos;
            let ghost idx = it.index();
            assert(entries[idx] == (k, c));
            assert(self.cores@.contains_key(*k) && self.cores@[*k] == *c);
            if c.user_id == user_id {
                res.push((*k, copy_coins(&c.coins)));
                proof {
                    pos = pos.push(idx);
                }
                assert forall|a: int, b: int| 0 <= a < b < res@.len() implies res@[a].0 != res@[
                    b
                ].0 by {
                    if b == res@.len() - 1 {
                        assert(res@[a] == old_res[a]);
                        let j = old_pos[a];
                        assert(0 <= j < idx && *entries[j].0 == old_res[a].0);
                        if res@[a].0 == res@[b].0 {
                            assert(self.cores@.contains_key(*entries[j].0));
                            assert(entries[j] == entries[idx]);
                        }
                    } else {
                        assert(res@[a] == old_res[a]);
                        assert(res@[b] == old_res[b]);
                    }
                }
            }
            assert forall|i: int| 0 <= i < res@.len() implies self@.holds_core(user_id, #[trigger] res@[i].0, res@[i].1.deep_view()) by {
                if i < old_res.len() {
                    assert(res@[i] == old_res[i]);
                } else {
                    assert(res@[i].0 == *k);
                    assert(self@.cores.contains_key(*k));
                    assert(self@.cores[*k].user_id == c.user_id);
                    assert(self@.cores[*k].coins == c.coins.deep_view());
                }
            }
            assert forall|i: int| 0 <= i < pos.len() implies 0 <= #[trigger] pos[i] < idx + 1
                && *entries[pos[i]].0 == res@[i].0 by {
                if i < old_pos.len() {
                    assert(res@[i] == old_res[i]);
                    assert(pos[i] == old_pos[i]);
                }
            }
            assert forall|j: int|
                0 <= j < idx + 1 && (#[trigger] entries[j]).1.user_id == user_id implies exists|i: int|
                    0 <= i < res@.len() && res@[i].0 == *entries[j].0 by {
                if j < idx {
                    let i = choose|i: int| 0 <= i < old_res.len() && old_res[i].0 == *entries[j].0;
                    assert(res@[i] == old_res[i]);
                } else {
                    assert(res@[res@.len() - 1].0 == *k);
                }
            }
        }
        let ghost lv = listed_view(res@);
        assert forall|a: int, b: int| 0 <= a < b < lv.len() implies lv[a].0 != lv[b].0 by {}
        assert forall|i: int| 0 <= i < lv.len() implies {
            &&& self@.owns(user_id, #[trigger] lv[i].0)
            &&& self@.cores[lv[i].0].coins == lv[i].1
        } by {
            assert(self@.holds_core(user_id, res@[i].0, res@[i].1.deep_view()));
        }
        assert forall|k: i64| #[trigger]
            self@.owns(user_id, k) implies exists|i: int| 0 <= i < lv.len() && lv[i].0 == k by {
            assert(self.cores@.contains_key(k));
            assert(entries.contains((&k, &self.cores@[k])));
            let j = choose|j: int| 0 <= j < entries.len() && entries[j] == (&k, &self.cores@[k]);
            assert(entries[j].1.user_id == user_id);
            let i = choose|i: int| 0 <= i < res@.len() && res@[i].0 == *entries[j].0;
            assert(lv[i].0 == k);
        }
        res
    }

    /// The ids of the running cores of `user_id`, each once.
    fn user_core_ids(&self, user_id: i64) -> (ids: Vec<i64>)
        requires
            self.wf(),
        ensures
            self@.lists_ids_of(user_id, ids@),
    {
        let list = self.user_core_list(user_id);
        let ghost lv = listed_view(list@);
        let mut ids: Vec<i64> = Vec::new();
        for i in 0..list.len()
            invariant
                lv == listed_view(list@),
                self@.lists_cores_of(user_id, lv),
                ids@.len() == i,
                forall|j: int| 0 <= j < i ==> #[trigger] ids@[j] == list@[j].0,
        {
            ids.push(list[i].0);
        }
        assert(ids@.no_duplicates()) by {
            assert forall|a: int, b: int| 0 <= a < ids@.len() && 0 <= b < ids@.len() && a != b implies ids@[a]
                != ids@[b] by {
                if a < b {
                    assert(lv[a].0 != lv[b].0);
                } else {
                    assert(lv[b].0 != lv[a].0);
                }
            }
        }
        assert(ids@.to_set() =~= self@.cores_of(user_id)) by {
            assert forall|k: i64| ids@.to_set().contains(k) implies self@.cores_of(user_id).contains(
                k,
            ) by {
                let i = choose|i: int| 0 <= i < ids@.len() && ids@[i] == k;
                assert(lv[i].0 == k);
            }
            assert forall|k: i64| self@.cores_of(user_id).contains(k) implies ids@.to_set().contains(
                k,
            ) by {
                assert(self@.owns(user_id, k));
                let i = choose|i: int| 0 <= i < lv.len() && lv[i].0 == k;
                assert(ids@[i] == k);
            }
        }
        ids
    }

    /// Removes the cores whose ids `ids` lists, each of them a core of `user_id`.
    fn remove_cores(&mut self, user_id: i64, ids: &Vec<i64>)
        requires
            old(self).wf(),
            old(self)@.lists_ids_of(user_id, ids@),
        ensures
            final(self).wf(),
            final(self)@ == (ManagerView {
                cores: old(self)@.cores.remove_keys(old(self)@.cores_of(user_id)),
                ..old(self)@
            }),
    {
        let ghost v0 = self@;
        for i in 0..ids.len()
            invariant
                self.wf(),
                self@.users == v0.users,
                self@.next_core_id == v0.next_core_id,
                self@.cores == v0.cores.remove_keys(ids@.take(i as int).to_set()),
        {
            let id = ids[i];
            let ghost before = self@;
            self.cores.remove(&id);
            assert(self@.cores =~= before.cores.remove(id));
            assert(ids@.take(i + 1) =~= ids@.take(i as int).push(id));
            assert(ids@.take(i + 1).to_set() =~= ids@.take(i as int).to_set().insert(id)) by {
                ids@.take(i as int).lemma_push_to_set_commute(id);
            }
            assert(v0.cores.remove_keys(ids@.take(i + 1).to_set()) =~= before.cores.remove(id));
        }
        assert(ids@.take(ids@.len() as int) =~= ids@);
        assert(self@ =~= (ManagerView {
            cores: v0.cores.remove_keys(v0.cores_of(user_id)),
            ..v0
        }));
    }

    /// Registers `user_id`. A user registered before starts over with no cores;
    /// the ids of the cores it had are returned so that the caller can release
    /// them. `None` means the user is new.
    pub fn register_user(&mut self, user_id: i64) -> (dropped: Option<Vec<i64>>)
        requires
            old(self).wf(),
        ensures
            final(self).wf(),
            final(self)@ == old(self)@.register(user_id),
            dropped is None <==> !old(self)@.users.contains(user_id),
            dropped matches Some(ids) ==> old(self)@.lists_ids_of(user_id, ids@),
    {
        let was_registered = self.users.contains(&user_id);
        let ids = self.user_core_ids(user_id);
        self.remove_cores(user_id, &ids);
        self.users.insert(user_id);
        assert(self@ =~= old(self)@.register(user_id));
        if was_registered {
            Some(ids)
        } else {
            None
        }
    }

    /// Starts a core of `user_id` trading `coins`. The id counter advances
    /// whether or not the user is registered; an unregistered user gets an error.
    pub fn start_core(&mut self, user_id: i64, coins: Vec<String>) -> (r: Result<i64, String>)
        requires
            old(self).wf(),
            old(self)@.next_core_id < i64::MAX,
        ensures
            final(self).wf(),
            final(self)@ == old(self)@.start(user_id, coins.deep_view()),
            r is Ok <==> old(self)@.users.contains(user_id),
            r matches Ok(id) ==> id == old(self)@.next_core_id,
            r matches Err(e) ==> e@ == user_not_registered_text(user_id),
    {
        let core_id = self.generate_core_id();
        if !self.users.contains(&user_id) {
            let e = text_with_number("User ", user_id, " not registered");
            assert(self@ =~= old(self)@.start(user_id, coins.deep_view()));
            return Err(e);
        }
        let ghost coins_view = coins.deep_view();
        self.cores.insert(core_id, CoreInstance { user_id, core_id, coins });
        assert(self@.cores =~= old(self)@.cores.insert(
            core_id,
            CoreEntry { user_id, coins: coins_view },
        ));
        assert(self@ =~= old(self)@.start(user_id, coins_view));
        Ok(core_id)
    }

    /// Stops core `core_id` of `user_id`: it leaves the registry, and the
    /// caller shuts its tasks down.
    pub fn stop_core(&mut self, user_id: i64, core_id: i64) -> (r: Result<(), String>)
        requires
            old(self).wf(),
        ensures
            final(self).wf(),
            final(self)@ == old(self)@.stop(user_id, core_id),
            r is Ok <==> old(self)@.users.contains(user_id) && old(self)@.owns(user_id, core_id),
            r matches Err(e) ==> {
                if !old(self)@.users.contains(user_id) {
                    e@ == user_not_found_text(user_id)
                } else {
                    e@ == core_not_found_text(core_id, user_id)
                }
            },
    {
        if !self.users.contains(&user_id) {
            return Err(text_with_number("User ", user_id, " not found"));
        }
        let owned = match self.cores.get(&core_id) {
            Some(c) => c.user_id == user_id,
            None => false,
        };
        if !owned {
            let mut e = text_with_number("Core ", core_id, " not found for user ");
            let u = decimal_string(user_id);
            e.append(u.as_str());
            return Err(e);
        }
        self.cores.remove(&core_id);
        assert(self@ =~= old(self)@.stop(user_id, core_id));
        Ok(())
    }

    /// Stops every core of `user_id`; returns their ids for the caller to shut
    /// down.
    pub fn stop_user_cores(&mut self, user_id: i64) -> (r: Result<Vec<i64>, String>)
        requires
            old(self).wf(),
        ensures
            final(self).wf(),
            final(self)@ == old(self)@.stop_all(user_id),
            r is Ok <==> old(self)@.users.contains(user_id),
            r matches Ok(ids) ==> old(self)@.lists_ids_of(user_id, ids@),
            r matches Err(e) ==> e@ == user_not_found_text(user_id),
    {
        if !self.users.contains(&user_id) {
            return Err(text_with_number("User ", user_id, " not found"));
        }
        let ids = self.user_core_ids(user_id);
        self.remove_cores(user_id, &ids);
        assert(self@ =~= old(self)@.stop_all(user_id));
        Ok(ids)
    }

    /// Stops every core of `user_id` and forgets the user; returns the ids of
    /// the stopped cores.
    pub fn unregister_user(&mut self, user_id: i64) -> (r: Result<Vec<i64>, String>)
        requires
            old(self).wf(),
        ensures
            final(self).wf(),
            final(self)@ == old(self)@.unregister(user_id),
            r is Ok <==> old(self)@.users.contains(user_id),
            r matches Ok(ids) ==> old(self)@.lists_ids_of(user_id, ids@),
            r matches Err(e) ==> e@ == user_not_found_text(user_id),
    {
        let ids = self.stop_user_cores(user_id)?;
        self.users.remove(&user_id);
        assert(self@ =~= old(self)@.unregister(user_id));
        Ok(ids)
    }

    /// The cores of `user_id` with their coins, or `None` for an unknown user.
    pub fn get_user_cores(&self, user_id: i64) -> (r: Option<Vec<(i64, Vec<String>)>>)
        requires
            self.wf(),
        ensures
            r is None <==> !self@.users.contains(user_id),
            r matches Some(list) ==> self@.lists_cores_of(user_id, listed_view(list@)),
    {
        if !self.users.contains(&user_id) {
            return None;
        }
        Some(self.user_core_list(user_id))
    }

    /// The number of running cores over all users.
    pub fn total_cores(&self) -> (n: usize)
        requires
            self.wf(),
        ensures
            n == self@.cores.len(),
    {
        assert(self@.cores.dom() =~= self.cores@.dom());
        self.cores.len()
    }
}


// ---------------------------------------------------------------------------
// Laws of the registry
// ---------------------------------------------------------------------------

/// Every operation keeps the registry consistent: each core belongs to a
/// registered user and has an id below the counter.
pub proof fn lemma_operations_keep_wf(m: ManagerView, user_id: i64, core_id: i64, coins: Seq<Seq<char>>)
    requires
        m.wf(),
    ensures
        m.register(user_id).wf(),
        m.stop(user_id, core_id).wf(),
        m.stop_all(user_id).wf(),
        m.unregister(user_id).wf(),
        m.next_core_id < i64::MAX ==> m.start(user_id, coins).wf(),
{
    // What is left of the cores is a part of a finite table.
    let rest = m.cores.remove_keys(m.cores_of(user_id));
    assert(rest.dom() =~= m.cores.dom().filter(|k: i64| !m.owns(user_id, k)));
}

/// A start request for a registered user records a core under an id that no
/// running core has, above every id handed out before; the other cores stay
/// as they were, and the count of cores grows by one.
pub proof fn lemma_start_issues_fresh_id(m: ManagerView, user_id: i64, coins: Seq<Seq<char>>)
    requires
        m.wf(),
        m.users.contains(user_id),
        m.next_core_id < i64::MAX,
    ensures
        !m.cores.contains_key(m.next_core_id),
        forall|k: i64| m.cores.contains_key(k) ==> k < m.next_core_id,
        m.start(user_id, coins).holds_core(user_id, m.next_core_id, coins),
        forall|k: i64|
            m.cores.contains_key(k) ==> #[trigger] m.start(user_id, coins).cores.contains_key(k)
                && m.start(user_id, coins).cores[k] == m.cores[k],
        m.start(user_id, coins).cores.len() == m.cores.len() + 1,
        m.start(user_id, coins).next_core_id == m.next_core_id + 1,
{
}

/// Ids are never reused: whatever the operation, the counter does not go
/// back, so an id once handed out is never handed out again.
pub proof fn lemma_counter_never_decreases(m: ManagerView, user_id: i64, core_id: i64, coins: Seq<Seq<char>>)
    requires
        m.wf(),
        m.next_core_id < i64::MAX,
    ensures
        m.register(user_id).next_core_id == m.next_core_id,
        m.start(user_id, coins).next_core_id == m.next_core_id + 1,
        m.stop(user_id, core_id).next_core_id == m.next_core_id,
        m.stop_all(user_id).next_core_id == m.next_core_id,
        m.unregister(user_id).next_core_id == m.next_core_id,
{
}

/// Stopping the core that a start request just created gives back the
/// registry as it was, except that the counter moved on.
pub proof fn lemma_start_then_stop(m: ManagerView, user_id: i64, coins: Seq<Seq<char>>)
    requires
        m.wf(),
        m.users.contains(user_id),
        m.next_core_id < i64::MAX,
    ensures
        m.start(user_id, coins).stop(user_id, m.next_core_id) == (ManagerView {
            next_core_id: (m.next_core_id + 1) as i64,
            ..m
        }),
{
    let m1 = m.start(user_id, coins);
    assert(m1.owns(user_id, m.next_core_id));
    assert(m1.cores.remove(m.next_core_id) =~= m.cores);
    assert(m1.stop(user_id, m.next_core_id) =~= (ManagerView {
        next_core_id: (m.next_core_id + 1) as i64,
        ..m
    }));
}

/// A stopped core is gone: the count drops by one, and stopping it again is
/// refused and changes nothing.
pub proof fn lemma_stop_removes(m: ManagerView, user_id: i64, core_id: i64)
    requires
        m.wf(),
        m.users.contains(user_id),
        m.owns(user_id, core_id),
    ensures
        !m.stop(user_id, core_id).owns(user_id, core_id),
        m.stop(user_id, core_id).cores.len() + 1 == m.cores.len(),
        m.stop(user_id, core_id).stop(user_id, core_id) == m.stop(user_id, core_id),
{
}

/// Registering a user leaves it registered with no cores, whether or not it
/// was registered before; the cores of other users are untouched, and a second
/// registration changes nothing more.
pub proof fn lemma_register_starts_over(m: ManagerView, user_id: i64, other: i64)
    requires
        m.wf(),
        other != user_id,
    ensures
        m.register(user_id).users.contains(user_id),
        m.register(user_id).cores_of(user_id) == Set::<i64>::empty(),
        forall|k: i64|
            m.owns(other, k) ==> #[trigger] m.register(user_id).owns(other, k)
                && m.register(user_id).cores[k] == m.cores[k],
        m.register(user_id).register(user_id) == m.register(user_id),
{
    assert(m.register(user_id).cores_of(user_id) =~= Set::<i64>::empty());
    let m1 = m.register(user_id);
    assert(m1.cores_of(user_id) =~= Set::<i64>::empty());
    assert(m1.cores.remove_keys(m1.cores_of(user_id)) =~= m1.cores);
    assert(m1.users.insert(user_id) =~= m1.users);
    assert(m1.register(user_id) =~= m1);
}

/// Unregistering a user forgets it and all its cores and leaves the cores of
/// other users untouched; it is the same as stopping all its cores and then
/// dropping the user.
pub proof fn lemma_unregister_forgets(m: ManagerView, user_id: i64, other: i64)
    requires
        m.wf(),
        m.users.contains(user_id),
        other != user_id,
    ensures
        !m.unregister(user_id).users.contains(user_id),
        m.unregister(user_id).cores_of(user_id) == Set::<i64>::empty(),
        forall|k: i64|
            m.owns(other, k) ==> #[trigger] m.unregister(user_id).owns(other, k)
                && m.unregister(user_id).cores[k] == m.cores[k],
        m.unregister(user_id) == (ManagerView {
            users: m.users.remove(user_id),
            ..m.stop_all(user_id)
        }),
{
    assert(m.unregister(user_id).cores_of(user_id) =~= Set::<i64>::empty());
    assert(m.unregister(user_id) =~= (ManagerView {
        users: m.users.remove(user_id),
        ..m.stop_all(user_id)
    }));
}

/// Requests about an unknown user are refused without effect, except that a
/// start request still uses up an id.
pub proof fn lemma_unknown_user(m: ManagerView, user_id: i64, core_id: i64, coins: Seq<Seq<char>>)
    requires
        m.wf(),
        !m.users.contains(user_id),
        m.next_core_id < i64::MAX,
    ensures
        m.cores_of(user_id) == Set::<i64>::empty(),
        m.start(user_id, coins) == (ManagerView { next_core_id: (m.next_core_id + 1) as i64, ..m }),
        m.stop(user_id, core_id) == m,
        m.stop_all(user_id) == m,
        m.unregister(user_id) == m,
{
    assert(m.cores_of(user_id) =~= Set::<i64>::empty());
    assert(m.start(user_id, coins) =~= (ManagerView {
        next_core_id: (m.next_core_id + 1) as i64,
        ..m
    }));
}


// ---------------------------------------------------------------------------
// Laws over sequences of requests
// ---------------------------------------------------------------------------

/// One request on the registry, as a value.
pub enum Request {
    Register(i64),
    Start(i64, Seq<Seq<char>>),
    Stop(i64, i64),
    StopAll(i64),
    Unregister(i64),
}

impl ManagerView {
    /// The registry after one request.
    pub open spec fn apply(self, r: Request) -> ManagerView {
        match r {
            Request::Register(u) => self.register(u),
            Request::Start(u, coins) => self.start(u, coins),
            Request::Stop(u, c) => self.stop(u, c),
            Request::StopAll(u) => self.stop_all(u),
            Request::Unregister(u) => self.unregister(u),
        }
    }

    /// The core id that one request hands out: a start request for a
    /// registered user hands out the counter.
    pub open spec fn issued(self, r: Request) -> Seq<i64> {
        match r {
            Request::Start(u, _) => if self.users.contains(u) {
                seq![self.next_core_id]
            } else {
                Seq::<i64>::empty()
            },
            _ => Seq::<i64>::empty(),
        }
    }
}

/// The registry after the requests `rs`, in order.
pub open spec fn run(m: ManagerView, rs: Seq<Request>) -> ManagerView
    decreases rs.len(),
{
    if rs.len() == 0 {
        m
    } else {
        run(m, rs.drop_last()).apply(rs.last())
    }
}

/// The core ids that start requests among `rs` hand out, in order.
pub open spec fn issued_ids(m: ManagerView, rs: Seq<Request>) -> Seq<i64>
    decreases rs.len(),
{
    if rs.len() == 0 {
        Seq::<i64>::empty()
    } else {
        issued_ids(m, rs.drop_last()) + run(m, rs.drop_last()).issued(rs.last())
    }
}

/// Over any sequence of requests the registry stays consistent, the ids that
/// are handed out are at least 1, strictly increasing, below the final
/// counter, and above every id the registry held at the start.
pub proof fn lemma_ids_increase(m: ManagerView, rs: Seq<Request>)
    requires
        m.wf(),
        m.next_core_id + rs.len() < i64::MAX,
    ensures
        run(m, rs).wf(),
        m.next_core_id <= run(m, rs).next_core_id <= m.next_core_id + rs.len(),
        forall|i: int, j: int|
            0 <= i < j < issued_ids(m, rs).len() ==> issued_ids(m, rs)[i] < issued_ids(m, rs)[j],
        forall|i: int|
            0 <= i < issued_ids(m, rs).len() ==> 1 <= m.next_core_id <= #[trigger] issued_ids(m, rs)[i]
                < run(m, rs).next_core_id,
        forall|i: int, k: i64|
            0 <= i < issued_ids(m, rs).len() && #[trigger] m.cores.contains_key(k) ==> k
                < #[trigger] issued_ids(m, rs)[i],
    decreases rs.len(),
{
    if rs.len() > 0 {
        let prev = rs.drop_last();
        lemma_ids_increase(m, prev);
        let m1 = run(m, prev);
        let r = rs.last();
        match r {
            Request::Register(u) => lemma_operations_keep_wf(m1, u, 0, Seq::empty()),
            Request::Start(u, coins) => lemma_operations_keep_wf(m1, u, 0, coins),
            Request::Stop(u, c) => lemma_operations_keep_wf(m1, u, c, Seq::empty()),
            Request::StopAll(u) => lemma_operations_keep_wf(m1, u, 0, Seq::empty()),
            Request::Unregister(u) => lemma_operations_keep_wf(m1, u, 0, Seq::empty()),
        }
        let ids = issued_ids(m, rs);
        let pids = issued_ids(m, prev);
        assert forall|i: int| 0 <= i < pids.len() implies ids[i] == pids[i] by {}
    }
}

/// Running `rs` is running its first `p` requests and then the rest.
pub proof fn lemma_run_split(m: ManagerView, rs: Seq<Request>, p: int)
    requires
        0 <= p <= rs.len(),
    ensures
        run(m, rs) == run(run(m, rs.take(p)), rs.skip(p)),
        issued_ids(m, rs) == issued_ids(m, rs.take(p)) + issued_ids(run(m, rs.take(p)), rs.skip(p)),
    decreases rs.len(),
{
    if p == rs.len() {
        assert(rs.take(p) =~= rs);
        assert(rs.skip(p).len() == 0);
        assert(issued_ids(m, rs) + Seq::<i64>::empty() =~= issued_ids(m, rs));
    } else {
        let dl = rs.drop_last();
        lemma_run_split(m, dl, p);
        assert(dl.take(p) =~= rs.take(p));
        assert(rs.skip(p).drop_last() =~= dl.skip(p));
        assert(rs.skip(p).last() == rs.last());
        let x = run(m, rs.take(p));
        assert(issued_ids(x, rs.skip(p)) == issued_ids(x, dl.skip(p)) + run(x, dl.skip(p)).issued(
            rs.last(),
        ));
        assert(issued_ids(m, rs) =~= issued_ids(m, rs.take(p)) + issued_ids(x, rs.skip(p)));
    }
}

/// Ids are never reused: an id handed out after the first `p` requests is
/// above every id the registry held after those requests, running, stopped or
/// dropped since; and the ids handed out by the first `p` requests come first.
pub proof fn lemma_ids_never_reused(m: ManagerView, rs: Seq<Request>, p: int)
    requires
        m.wf(),
        m.next_core_id + rs.len() < i64::MAX,
        0 <= p <= rs.len(),
    ensures
        forall|j: int|
            0 <= j < issued_ids(m, rs.take(p)).len() ==> #[trigger] issued_ids(m, rs)[j]
                == issued_ids(m, rs.take(p))[j],
        forall|j: int, k: i64|
            issued_ids(m, rs.take(p)).len() <= j < issued_ids(m, rs).len() && #[trigger] run(
                m,
                rs.take(p),
            ).cores.contains_key(k) ==> k < #[trigger] issued_ids(m, rs)[j],
{
    lemma_run_split(m, rs, p);
    lemma_ids_increase(m, rs.take(p));
    let x = run(m, rs.take(p));
    lemma_ids_increase(x, rs.skip(p));
    let a = issued_ids(m, rs.take(p));
    let b = issued_ids(x, rs.skip(p));
    assert forall|j: int, k: i64|
        a.len() <= j < issued_ids(m, rs).len() && #[trigger] x.cores.contains_key(k) implies k
            < #[trigger] issued_ids(m, rs)[j] by {
        assert(issued_ids(m, rs)[j] == b[j - a.len()]);
    }
}

/// No core id belongs to two users.
pub proof fn lemma_ids_belong_to_one_user(m: ManagerView, u: i64, v: i64)
    requires
        u != v,
    ensures
        m.cores_of(u).disjoint(m.cores_of(v)),
{
}

/// The requests of `rs` only start and stop cores of `user_id`.
pub open spec fn only_cores_of(rs: Seq<Request>, user_id: i64) -> bool {
    forall|i: int|
        0 <= i < rs.len() ==> match #[trigger] rs[i] {
            Request::Start(u, _) => u == user_id,
            Request::Stop(u, _) => u == user_id,
            _ => false,
        }
}

proof fn lemma_session_invariant(m: ManagerView, user_id: i64, rs: Seq<Request>)
    requires
        m.wf(),
        !m.users.contains(user_id),
        only_cores_of(rs, user_id),
        m.next_core_id + rs.len() < i64::MAX,
    ensures
        run(m.register(user_id), rs).wf(),
        run(m.register(user_id), rs).users == m.users.insert(user_id),
        m.next_core_id <= run(m.register(user_id), rs).next_core_id <= m.next_core_id + rs.len(),
        forall|k: i64|
            #[trigger] run(m.register(user_id), rs).cores.contains_key(k) && run(
                m.register(user_id),
                rs,
            ).cores[k].user_id != user_id <==> m.cores.contains_key(k),
        forall|k: i64|
            #[trigger] m.cores.contains_key(k) ==> run(m.register(user_id), rs).cores[k]
                == m.cores[k],
    decreases rs.len(),
{
    let m0 = m.register(user_id);
    lemma_operations_keep_wf(m, user_id, 0, Seq::empty());
    assert(m.cores_of(user_id) =~= Set::<i64>::empty());
    assert(m0.cores =~= m.cores);
    if rs.len() > 0 {
        let prev = rs.drop_last();
        assert(only_cores_of(prev, user_id)) by {
            assert forall|i: int| 0 <= i < prev.len() implies match #[trigger] prev[i] {
                Request::Start(u, _) => u == user_id,
                Request::Stop(u, _) => u == user_id,
                _ => false,
            } by {
                assert(prev[i] == rs[i]);
            }
        }
        lemma_session_invariant(m, user_id, prev);
        let m1 = run(m0, prev);
        let r = rs.last();
        assert(match rs[rs.len() - 1] {
            Request::Start(u, _) => u == user_id,
            Request::Stop(u, _) => u == user_id,
            _ => false,
        });
        match r {
            Request::Start(u, coins) => {
                lemma_operations_keep_wf(m1, u, 0, coins);
                if m.cores.contains_key(m1.next_core_id) {
                    assert(m1.next_core_id < m.next_core_id);
                }
            },
            Request::Stop(u, c) => lemma_operations_keep_wf(m1, u, c, Seq::empty()),
            _ => {},
        }
    }
}

/// A user's session leaves no trace: registering a new user, then starting and
/// stopping any of its cores, then unregistering it gives back the users and
/// the cores from before, with the counter moved on by the ids handed out.
pub proof fn lemma_session_round_trip(m: ManagerView, user_id: i64, rs: Seq<Request>)
    requires
        m.wf(),
        !m.users.contains(user_id),
        only_cores_of(rs, user_id),
        m.next_core_id + rs.len() < i64::MAX,
    ensures
        run(m.register(user_id), rs).unregister(user_id).users == m.users,
        run(m.register(user_id), rs).unregister(user_id).cores == m.cores,
        run(m.register(user_id), rs).unregister(user_id).cores.len() == m.cores.len(),
{
    lemma_session_invariant(m, user_id, rs);
    let r = run(m.register(user_id), rs);
    assert(r.users.remove(user_id) =~= m.users);
    assert(r.cores.remove_keys(r.cores_of(user_id)) =~= m.cores);
}

/// The number of cores of the users in `us`.
pub open spec fn cores_of_users(m: ManagerView, us: Set<i64>) -> nat
    decreases us.len(),
{
    if us.finite() && us.len() > 0 {
        let u = us.choose();
        m.cores_of(u).len() + cores_of_users(m, us.remove(u))
    } else {
        0
    }
}

proof fn lemma_cores_of_users_count(m: ManagerView, us: Set<i64>)
    requires
        m.wf(),
        us.finite(),
    ensures
        cores_of_users(m, us) == m.cores.dom().filter(|k: i64| us.contains(m.cores[k].user_id)).len(),
    decreases us.len(),
{
    let f = m.cores.dom().filter(|k: i64| us.contains(m.cores[k].user_id));
    if us.len() == 0 {
        assert(f =~= Set::<i64>::empty());
    } else {
        let u = us.choose();
        let rest = us.remove(u);
        lemma_cores_of_users_count(m, rest);
        let g = m.cores.dom().filter(|k: i64| rest.contains(m.cores[k].user_id));
        let c = m.cores_of(u);
        assert(c =~= m.cores.dom().filter(|k: i64| m.cores[k].user_id == u));
        assert(f =~= g + c);
        vstd::set_lib::lemma_set_disjoint_lens(g, c);
    }
}

/// The number of cores is the sum, over the registered users, of the number
/// of cores of each.
pub proof fn lemma_total_is_sum_over_users(m: ManagerView)
    requires
        m.wf(),
    ensures
        m.cores.len() == cores_of_users(m, m.users),
{
    lemma_cores_of_users_count(m, m.users);
    assert(m.cores.dom().filter(|k: i64| m.users.contains(m.cores[k].user_id)) =~= m.cores.dom());
}

} // verus!
