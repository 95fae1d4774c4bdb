//! The coordination surface the interaction layer and the poller call.
//!
//! Every mutating call hands back the bytes of the registry's durable
//! snapshot file, realizing write-through persistence: the caller writes them
//! out at once, so the file always holds the full current registry.

use vstd::prelude::*;
use crate::entry::{Channel, EntryModel};
use crate::registry::{Registry, spec_add, spec_remove, spec_set_preference, spec_apply, opens_of};
use crate::store::{save, load, encode, decode, append_bytes};

verus! {

/// The bytes of `https://api.twitch.tv/helix/streams?user_login=`: the
/// status endpoint with its first repeated name parameter.
pub open spec fn query_base() -> Seq<u8> {
    seq![
        104u8,
        116,
        116,
        112,
        115,
        58,
        47,
        47,
        97,
        112,
        105,
        46,
        116,
        119,
        105,
        116,
        99,
        104,
        46,
        116,
        118,
        47,
        104,
        101,
        108,
        105,
        120,
        47,
        115,
        116,
        114,
        101,
        97,
        109,
        115,
        63,
        117,
        115,
        101,
        114,
        95,
        108,
        111,
        103,
        105,
        110,
        61,
    ]
}

/// The bytes of `&user_login=`, which precede every further name.
pub open spec fn query_sep() -> Seq<u8> {
    seq![38u8, 117, 115, 101, 114, 95, 108, 111, 103, 105, 110, 61]
}

/// The query arguments for every name after the first.
pub open spec fn query_tail(names: Seq<Seq<u8>>) -> Seq<u8>
    decreases names.len(),
{
    if names.len() == 0 {
        Seq::empty()
    } else {
        query_sep() + names[0] + query_tail(names.skip(1))
    }
}

/// The batched status request for a non-empty name list: one request asks
/// about every watched channel at once.
pub open spec fn query_of(names: Seq<Seq<u8>>) -> Seq<u8>
    recommends
        names.len() > 0,
{
    query_base() + names[0] + query_tail(names.skip(1))
}

/// One more name appends one more separated query argument.
proof fn lemma_query_tail_push(names: Seq<Seq<u8>>, n: Seq<u8>)
    ensures
        query_tail(names.push(n)) == query_tail(names) + (query_sep() + n),
    decreases names.len(),
{
    if names.len() == 0 {
        assert(names.push(n) =~= seq![n]);
        assert(seq![n][0] == n);
        assert(seq![n].skip(1) =~= Seq::<Seq<u8>>::empty());
        assert(query_tail(seq![n].skip(1)) =~= Seq::<u8>::empty());
        assert(query_sep() + n + Seq::<u8>::empty() =~= query_sep() + n);
        assert(query_tail(names) + (query_sep() + n) =~= query_sep() + n);
    } else {
        assert(names.push(n)[0] == names[0]);
        assert(names.push(n).skip(1) =~= names.skip(1).push(n));
        lemma_query_tail_push(names.skip(1), n);
        assert(query_sep() + names[0] + (query_tail(names.skip(1)) + (query_sep() + n)) =~= (
        query_sep() + names[0] + query_tail(names.skip(1))) + (query_sep() + n));
    }
}

/// The bytes of `&user_login=`.
fn query_sep_vec() -> (v: Vec<u8>)
    ensures
        v@ == query_sep(),
{
    let mut v: Vec<u8> = Vec::new();
    v.push(38);
    v.push(117);
    v.push(115);
    v.push(101);
    v.push(114);
    v.push(95);
    v.push(108);
    v.push(111);
    v.push(103);
    v.push(105);
    v.push(110);
    v.push(61);
    proof {
        assert(v@ =~= query_sep());
    }
    v
}

/// Builds the batched status-request URL for one poll cycle.  The poller
/// skips the network entirely when no channel is watched, so the name list
/// is never empty here.
pub fn build_status_query(names: &Vec<Vec<u8>>) -> (url: Vec<u8>)
    requires
        names.deep_view().len() > 0,
    ensures
        url@ == query_of(names.deep_view()),
{
    let ghost dv = names.deep_view();
    let mut url: Vec<u8> = Vec::new();
    url.push(104);
    url.push(116);
    url.push(116);
    url.push(112);
    url.push(115);
    url.push(58);
    url.push(47);
    url.push(47);
    url.push(97);
    url.push(112);
    url.push(105);
    url.push(46);
    url.push(116);
    url.push(119);
    url.push(105);
    url.push(116);
    url.push(99);
    url.push(104);
    url.push(46);
    url.push(116);
    url.push(118);
    url.push(47);
    url.push(104);
    url.push(101);
    url.push(108);
    url.push(105);
    url.push(120);
    url.push(47);
    url.push(115);
    url.push(116);
    url.push(114);
    url.push(101);
    url.push(97);
    url.push(109);
    url.push(115);
    url.push(63);
    url.push(117);
    url.push(115);
    url.push(101);
    url.push(114);
    url.push(95);
    url.push(108);
    url.push(111);
    url.push(103);
    url.push(105);
    url.push(110);
    url.push(61);
    proof {
        assert(url@ =~= query_base());
        assert(dv[0] == names@[0]@);
    }
    append_bytes(&mut url, &names[0]);
    let sep = query_sep_vec();
    let mut i: usize = 1;
    proof {
        assert(dv.subrange(1, 1) =~= Seq::<Seq<u8>>::empty());
        assert(query_tail(dv.subrange(1, 1)) =~= Seq::<u8>::empty());
        assert(url@ =~= query_base() + dv[0] + query_tail(dv.subrange(1, 1)));
    }
    while i < names.len()
        invariant
            1 <= i <= dv.len(),
            dv == names.deep_view(),
            dv.len() == names@.len(),
            sep@ == query_sep(),
            url@ == query_base() + dv[0] + query_tail(dv.subrange(1, i as int)),
        decreases dv.len() - i,
    {
        append_bytes(&mut url, &sep);
        proof {
            assert(dv[i as int] == names@[i as int]@);
        }
        append_bytes(&mut url, &names[i]);
        proof {
            assert(dv.subrange(1, i as int).push(dv[i as int]) =~= dv.subrange(1, i as int + 1));
            lemma_query_tail_push(dv.subrange(1, i as int), dv[i as int]);
            assert(url@ =~= query_base() + dv[0] + query_tail(dv.subrange(1, i as int + 1)));
        }
        i += 1;
    }
    proof {
        assert(dv.subrange(1, dv.len() as int) =~= dv.skip(1));
    }
    url
}

/// The monitor: the registry behind the one surface both the interaction
/// layer and the background poller go through.  The caller serializes access
/// (one exclusive-access window per call), keeping every read and write
/// atomic with respect to the others.
pub struct Monitor {
    pub registry: Registry,
}

impl View for Monitor {
    type V = Seq<EntryModel>;

    open spec fn view(&self) -> Seq<EntryModel> {
        self.registry@
    }
}

impl Monitor {
    /// Starts from the durable snapshot bytes read at startup.  Bytes that do
    /// not parse — a missing file read as nothing, damage, another format —
    /// mean no saved state, never a startup failure.
    pub fn from_saved(data: &Vec<u8>) -> (r: Monitor)
        ensures
            r@ == (match decode(data@) {
                Some(s) => s,
                None => Seq::<EntryModel>::empty(),
            }),
    {
        let channels = load(data);
        Monitor { registry: Registry::from_entries(channels) }
    }

    /// Adds a channel under its trimmed name (a blank name changes nothing)
    /// and returns the new snapshot file bytes to persist.
    pub fn add_channel(&mut self, name: &Vec<u8>) -> (file: Vec<u8>)
        ensures
            final(self)@ == spec_add(old(self)@, name@),
            file@ == encode(final(self)@),
    {
        self.registry.add(name);
        save(&self.registry.channels)
    }

    /// Removes every entry of that exact name (no error if none matches) and
    /// returns the new snapshot file bytes to persist.
    pub fn remove_channel(&mut self, name: &Vec<u8>) -> (file: Vec<u8>)
        ensures
            final(self)@ == spec_remove(old(self)@, name@),
            file@ == encode(final(self)@),
    {
        self.registry.remove(name);
        save(&self.registry.channels)
    }

    /// Sets the auto-open preference of every entry named `name` and returns
    /// the new snapshot file bytes to persist.
    pub fn set_auto_open_preference(&mut self, name: &Vec<u8>, value: bool) -> (file: Vec<u8>)
        ensures
            final(self)@ == spec_set_preference(old(self)@, name@, value),
            file@ == encode(final(self)@),
    {
        self.registry.update_preference(name, value);
        save(&self.registry.channels)
    }

    /// A consistent point-in-time copy of the entries, for rendering.
    pub fn current_snapshot(&self) -> (r: Vec<Channel>)
        ensures
            r.deep_view() == self@,
    {
        self.registry.snapshot()
    }

    /// The names of the watched channels, in registry order: what one poll
    /// cycle queries the remote side about.
    pub fn channel_names(&self) -> (names: Vec<Vec<u8>>)
        ensures
            names.deep_view().len() == self@.len(),
            forall|i: int| 0 <= i < self@.len() ==> names.deep_view()[i] == self@[i].name,
    {
        let mut names: Vec<Vec<u8>> = Vec::new();
        let mut i: usize = 0;
        while i < self.registry.channels.len()
            invariant
                i <= self.registry.channels@.len(),
                names.deep_view().len() == i,
                forall|k: int|
                    0 <= k < i ==> names.deep_view()[k] == self.registry.channels.deep_view()[k].name,
            decreases self.registry.channels@.len() - i,
        {
            let ghost names_before = names.deep_view();
            names.push(crate::entry::clone_bytes(&self.registry.channels[i].name));
            proof {
                let dv = self.registry.channels.deep_view();
                assert(dv[i as int] == self.registry.channels@[i as int]@);
                assert(names.deep_view() =~~= names_before.push(dv[i as int].name));
            }
            i += 1;
        }
        names
    }

    /// Applies one successful poll cycle: reconciles the reported live set
    /// into the registry, returns the channels this cycle must open (each the
    /// result of an offline-to-live transition with the preference set and
    /// nothing opened yet this session) and the new snapshot file bytes to
    /// persist.  A failed cycle makes no call here, so the registry and its
    /// file stay exactly as they were.
    pub fn apply_status_update(&mut self, live: &Vec<Vec<u8>>) -> (r: (Vec<Vec<u8>>, Vec<u8>))
        ensures
            final(self)@ == spec_apply(old(self)@, live.deep_view()),
            r.0.deep_view() == opens_of(old(self)@, live.deep_view()),
            r.1@ == encode(final(self)@),
    {
        let opens = self.registry.apply_status_update(live);
        let file = save(&self.registry.channels);
        (opens, file)
    }
}

} // verus!
