//! The ordered registry of watched channels and the poll-cycle step.

use vstd::prelude::*;
use crate::entry::{Channel, EntryModel, clone_bytes, bytes_equal, trim_bytes, trim_spec,
    fresh_entry};

verus! {

/// The registry after `add(raw)`: the trimmed name is appended as a fresh
/// entry, unless trimming leaves nothing, in which case nothing changes.
pub open spec fn spec_add(s: Seq<EntryModel>, raw: Seq<u8>) -> Seq<EntryModel> {
    if trim_spec(raw).len() == 0 {
        s
    } else {
        s.push(fresh_entry(trim_spec(raw)))
    }
}

/// The registry after `remove(name)`: every entry of that exact name is
/// deleted; the rest keep their order.
pub open spec fn spec_remove(s: Seq<EntryModel>, name: Seq<u8>) -> Seq<EntryModel> {
    s.filter(|e: EntryModel| e.name != name)
}

/// The registry after `update_preference(name, value)`.
pub open spec fn spec_set_preference(s: Seq<EntryModel>, name: Seq<u8>, value: bool) -> Seq<
    EntryModel,
> {
    s.map_values(
        |e: EntryModel|
            if e.name == name {
                EntryModel { name: e.name, is_live: e.is_live, auto_open: value, opened: e.opened }
            } else {
                e
            },
    )
}

/// Whether one poll cycle fires the browser-open action for entry `e`, given
/// the names the remote side reports live: the entry just went from offline
/// to live, the user asked for it, and it has not fired yet this session.
pub open spec fn fires(e: EntryModel, live: Seq<Seq<u8>>) -> bool {
    live.contains(e.name) && !e.is_live && e.auto_open && !e.opened
}

/// One poll cycle's effect on a single entry: liveness becomes exactly
/// membership in the reported live set; the per-session open flag is set when
/// the action fires and cleared whenever the entry is observed offline.
pub open spec fn step_entry(e: EntryModel, live: Seq<Seq<u8>>) -> EntryModel {
    EntryModel {
        name: e.name,
        is_live: live.contains(e.name),
        auto_open: e.auto_open,
        opened: if fires(e, live) {
            true
        } else if !live.contains(e.name) {
            false
        } else {
            e.opened
        },
    }
}

/// One poll cycle's effect on the whole registry.
pub open spec fn spec_apply(s: Seq<EntryModel>, live: Seq<Seq<u8>>) -> Seq<EntryModel> {
    s.map_values(|e: EntryModel| step_entry(e, live))
}

/// The names the cycle must open, in registry order: one per entry for which
/// the cycle fires.
pub open spec fn opens_of(s: Seq<EntryModel>, live: Seq<Seq<u8>>) -> Seq<Seq<u8>> {
    s.filter(|e: EntryModel| fires(e, live)).map_values(|e: EntryModel| e.name)
}

/// Appending one element to a sequence filters to the old filtrate, plus the
/// element if it passes.
pub proof fn lemma_filter_push<A>(s: Seq<A>, x: A, pred: spec_fn(A) -> bool)
    ensures
        s.push(x).filter(pred) == if pred(x) {
            s.filter(pred).push(x)
        } else {
            s.filter(pred)
        },
{
    reveal(Seq::filter);
    assert(s.push(x).drop_last() =~= s);
    assert(s.push(x).last() == x);
}

/// Filtering an empty sequence gives an empty sequence.
pub proof fn lemma_filter_empty<A>(s: Seq<A>, pred: spec_fn(A) -> bool)
    requires
        s.len() == 0,
    ensures
        s.filter(pred) == s,
{
    reveal(Seq::filter);
}

/// Adding a blank or whitespace-only name leaves the registry exactly as it
/// was: not even its size changes.
pub proof fn lemma_blank_add_is_noop(s: Seq<EntryModel>, raw: Seq<u8>)
    requires
        trim_spec(raw).len() == 0,
    ensures
        spec_add(s, raw) == s,
        spec_add(s, raw).len() == s.len(),
{
}

/// A poll cycle sets each entry's liveness to exactly its membership in the
/// reported live set, and touches nothing else about entries whose liveness
/// and session flag it has no reason to change: names and preferences are
/// always kept, entry for entry.
pub proof fn lemma_apply_sets_liveness(s: Seq<EntryModel>, live: Seq<Seq<u8>>)
    ensures
        spec_apply(s, live).len() == s.len(),
        forall|i: int|
            0 <= i < s.len() ==> #[trigger] spec_apply(s, live)[i] == step_entry(s[i], live),
        forall|i: int|
            0 <= i < s.len() ==> (#[trigger] spec_apply(s, live)[i]).is_live == live.contains(
                s[i].name,
            ),
        forall|i: int| 0 <= i < s.len() ==> (#[trigger] spec_apply(s, live)[i]).name == s[i].name,
        forall|i: int|
            0 <= i < s.len() ==> (#[trigger] spec_apply(s, live)[i]).auto_open == s[i].auto_open,
{
}

/// The offline-to-live transition fires exactly once per live session: the
/// cycle that takes an armed entry (offline, auto-open wanted, nothing opened
/// yet) live fires the open action and sets the session flag, and any later
/// cycle that still sees the entry live does not fire again.
pub proof fn lemma_transition_fires_once(e: EntryModel, live: Seq<Seq<u8>>)
    requires
        !e.is_live,
        e.auto_open,
        !e.opened,
        live.contains(e.name),
    ensures
        fires(e, live),
        step_entry(e, live).is_live,
        step_entry(e, live).opened,
        forall|later: Seq<Seq<u8>>|
            later.contains(e.name) ==> !fires(#[trigger] step_entry(e, live), later),
{
}

/// A cycle that observes a live entry offline clears the session flag, which
/// re-arms the entry: with the auto-open preference still set, the next
/// offline-to-live transition fires the open action once more.
pub proof fn lemma_offline_resets_session(e: EntryModel, live: Seq<Seq<u8>>)
    requires
        e.is_live,
        !live.contains(e.name),
    ensures
        !step_entry(e, live).is_live,
        !step_entry(e, live).opened,
        forall|later: Seq<Seq<u8>>|
            later.contains(e.name) && e.auto_open ==> fires(
                #[trigger] step_entry(e, live),
                later,
            ),
{
}

/// The ordered collection of watched channels: the single source of truth the
/// interaction surface and the poller both go through.
pub struct Registry {
    pub channels: Vec<Channel>,
}

impl View for Registry {
    type V = Seq<EntryModel>;

    open spec fn view(&self) -> Seq<EntryModel> {
        self.channels.deep_view()
    }
}

/// Whether `name` occurs in the reported live set.
pub fn contains_name(live: &Vec<Vec<u8>>, name: &Vec<u8>) -> (r: bool)
    ensures
        r == live.deep_view().contains(name@),
{
    let mut i: usize = 0;
    while i < live.len()
        invariant
            i <= live@.len(),
            forall|k: int| 0 <= k < i ==> live.deep_view()[k] != name@,
        decreases live@.len() - i,
    {
        proof {
            assert(live.deep_view()[i as int] == live@[i as int]@);
        }
        if bytes_equal(&live[i], name) {
            proof {
                assert(live.deep_view()[i as int] == name@);
            }
            return true;
        }
        i += 1;
    }
    proof {
        assert forall|k: int| 0 <= k < live.deep_view().len() implies live.deep_view()[k]
            != name@ by {}
    }
    false
}

impl Registry {
    /// An empty registry.
    pub fn new() -> (r: Registry)
        ensures
            r@ == Seq::<EntryModel>::empty(),
    {
        let r = Registry { channels: Vec::new() };
        proof {
            assert(r@ =~= Seq::<EntryModel>::empty());
        }
        r
    }

    /// A registry holding the given entries, as `load` hands them back.
    pub fn from_entries(channels: Vec<Channel>) -> (r: Registry)
        ensures
            r@ == channels.deep_view(),
    {
        Registry { channels }
    }

    /// Adds a channel under its trimmed name; a blank name changes nothing.
    pub fn add(&mut self, name: &Vec<u8>)
        ensures
            final(self)@ == spec_add(old(self)@, name@),
    {
        let trimmed = trim_bytes(name);
        if trimmed.len() == 0 {
            return;
        }
        let ghost before = self@;
        self.channels.push(Channel::new(trimmed));
        proof {
            assert(self@ =~= before.push(fresh_entry(trim_spec(name@))));
        }
    }

    /// Removes every entry whose name equals `name` exactly; order of the
    /// survivors is kept.
    pub fn remove(&mut self, name: &Vec<u8>)
        ensures
            final(self)@ == spec_remove(old(self)@, name@),
    {
        let ghost before = self@;
        let ghost pred = |e: EntryModel| e.name != name@;
        let mut kept: Vec<Channel> = Vec::new();
        let mut i: usize = 0;
        proof {
            lemma_filter_empty(before.take(0), pred);
            assert(before.take(0).filter(pred) =~= kept.deep_view());
        }
        while i < self.channels.len()
            invariant
                i <= self.channels@.len(),
                before == self.channels.deep_view(),
                kept.deep_view() == before.take(i as int).filter(pred),
                pred == (|e: EntryModel| e.name != name@),
            decreases self.channels@.len() - i,
        {
            let keep = !bytes_equal(&self.channels[i].name, name);
            if keep {
                kept.push(self.channels[i].duplicate());
            }
            proof {
                let e = before[i as int];
                assert(before.take(i as int).push(e) =~= before.take(i as int + 1));
                lemma_filter_push(before.take(i as int), e, pred);
                if keep {
                    assert(kept.deep_view() =~= before.take(i as int).filter(pred).push(e));
                }
            }
            i += 1;
        }
        proof {
            assert(before.take(before.len() as int) =~= before);
        }
        self.channels = kept;
    }

    /// A consistent point-in-time copy of the registry for rendering; the
    /// caller never sees a half-applied update.
    pub fn snapshot(&self) -> (r: Vec<Channel>)
        ensures
            r.deep_view() == self@,
    {
        let mut r: Vec<Channel> = Vec::new();
        let mut i: usize = 0;
        while i < self.channels.len()
            invariant
                i <= self.channels@.len(),
                r.deep_view() == self.channels.deep_view().take(i as int),
            decreases self.channels@.len() - i,
        {
            r.push(self.channels[i].duplicate());
            proof {
                let dv = self.channels.deep_view();
                assert(r.deep_view() =~= dv.take(i as int).push(dv[i as int]));
                assert(dv.take(i as int).push(dv[i as int]) =~= dv.take(i as int + 1));
            }
            i += 1;
        }
        proof {
            let dv = self.channels.deep_view();
            assert(dv.take(dv.len() as int) =~= dv);
        }
        r
    }

    /// Sets the auto-open preference of every entry named `name`.
    pub fn update_preference(&mut self, name: &Vec<u8>, value: bool)
        ensures
            final(self)@ == spec_set_preference(old(self)@, name@, value),
    {
        let ghost before = self@;
        let mut updated: Vec<Channel> = Vec::new();
        let mut i: usize = 0;
        proof {
            assert(updated.deep_view() =~= spec_set_preference(before, name@, value).take(0));
        }
        while i < self.channels.len()
            invariant
                i <= self.channels@.len(),
                before == self.channels.deep_view(),
                updated.deep_view() == spec_set_preference(before, name@, value).take(i as int),
            decreases self.channels@.len() - i,
        {
            let c = &self.channels[i];
            let matched = bytes_equal(&c.name, name);
            let newc = Channel {
                name: clone_bytes(&c.name),
                is_live: c.is_live,
                auto_open: if matched {
                    value
                } else {
                    c.auto_open
                },
                opened_this_session: c.opened_this_session,
            };
            updated.push(newc);
            proof {
                let after = spec_set_preference(before, name@, value);
                assert(updated.deep_view() =~= after.take(i as int).push(after[i as int]));
                assert(after.take(i as int).push(after[i as int]) =~= after.take(i as int + 1));
            }
            i += 1;
        }
        proof {
            let after = spec_set_preference(before, name@, value);
            assert(after.take(after.len() as int) =~= after);
        }
        self.channels = updated;
    }

    /// Applies one poll cycle's reported live set: every entry's liveness
    /// becomes membership in `live`, and the returned names are exactly the
    /// channels this cycle must open in the browser, in registry order.
    pub fn apply_status_update(&mut self, live: &Vec<Vec<u8>>) -> (opens: Vec<Vec<u8>>)
        ensures
            final(self)@ == spec_apply(old(self)@, live.deep_view()),
            opens.deep_view() == opens_of(old(self)@, live.deep_view()),
    {
        let ghost before = self@;
        let ghost lv = live.deep_view();
        let ghost firing = |e: EntryModel| fires(e, lv);
        let mut stepped: Vec<Channel> = Vec::new();
        let mut opens: Vec<Vec<u8>> = Vec::new();
        let mut i: usize = 0;
        proof {
            lemma_filter_empty(before.take(0), firing);
            assert(stepped.deep_view() =~= spec_apply(before, lv).take(0));
            assert(opens.deep_view() =~= before.take(0).filter(firing).map_values(
                |e: EntryModel| e.name,
            ));
        }
        while i < self.channels.len()
            invariant
                i <= self.channels@.len(),
                before == self.channels.deep_view(),
                lv == live.deep_view(),
                firing == (|e: EntryModel| fires(e, lv)),
                stepped.deep_view() == spec_apply(before, lv).take(i as int),
                opens.deep_view() == before.take(i as int).filter(firing).map_values(
                    |e: EntryModel| e.name,
                ),
            decreases self.channels@.len() - i,
        {
            let c = &self.channels[i];
            let was_live = c.is_live;
            let now_live = contains_name(live, &c.name);
            let fire = now_live && !was_live && c.auto_open && !c.opened_this_session;
            let newc = Channel {
                name: clone_bytes(&c.name),
                is_live: now_live,
                auto_open: c.auto_open,
                opened_this_session: if fire {
                    true
                } else if !now_live {
                    false
                } else {
                    c.opened_this_session
                },
            };
            stepped.push(newc);
            if fire {
                opens.push(clone_bytes(&c.name));
            }
            proof {
                let e = before[i as int];
                let after = spec_apply(before, lv);
                assert(fire == fires(e, lv));
                assert(stepped.deep_view() =~= after.take(i as int).push(after[i as int]));
                assert(after.take(i as int).push(after[i as int]) =~= after.take(i as int + 1));
                assert(before.take(i as int).push(e) =~= before.take(i as int + 1));
                lemma_filter_push(before.take(i as int), e, firing);
                let pre = before.take(i as int).filter(firing);
                let f = |e: EntryModel| e.name;
                if fire {
                    assert(before.take(i as int + 1).filter(firing) == pre.push(e));
                    assert(pre.push(e).map_values(f) =~= pre.map_values(f).push(e.name));
                    assert(opens.deep_view() =~~= pre.map_values(f).push(e.name));
                } else {
                    assert(before.take(i as int + 1).filter(firing) == pre);
                }
            }
            i += 1;
        }
        proof {
            let after = spec_apply(before, lv);
            assert(after.take(after.len() as int) =~= after);
            assert(before.take(before.len() as int) =~= before);
        }
        self.channels = stepped;
        opens
    }
}

} // verus!
