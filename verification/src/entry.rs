//! A single watched channel and its mathematical model.

use vstd::prelude::*;

verus! {

/// One watched channel: the unit of state the monitor tracks.
///
/// `name` holds the channel identifier as bytes (UTF-8 for real channel
/// names); it is both the key matched against the remote live set and the
/// label shown to the user.  `opened_this_session` remembers that the
/// browser-open action has already fired for the current live session, so a
/// session triggers the action at most once.
pub struct Channel {
    pub name: Vec<u8>,
    pub is_live: bool,
    pub auto_open: bool,
    pub opened_this_session: bool,
}

/// Mathematical model of one channel entry; contracts speak of this.
#[verifier::ext_equal]
pub ghost struct EntryModel {
    pub name: Seq<u8>,
    pub is_live: bool,
    pub auto_open: bool,
    pub opened: bool,
}

impl View for Channel {
    type V = EntryModel;

    open spec fn view(&self) -> EntryModel {
        EntryModel {
            name: self.name@,
            is_live: self.is_live,
            auto_open: self.auto_open,
            opened: self.opened_this_session,
        }
    }
}

impl DeepView for Channel {
    type V = EntryModel;

    open spec fn deep_view(&self) -> EntryModel {
        self@
    }
}

/// The entry an `add` operation creates: offline, no auto-open preference,
/// nothing opened yet.
pub open spec fn fresh_entry(name: Seq<u8>) -> EntryModel {
    EntryModel { name: name, is_live: false, auto_open: false, opened: false }
}

/// The ASCII whitespace bytes stripped from channel names at `add`.
pub open spec fn is_space(b: u8) -> bool {
    b == 32 || b == 9 || b == 10 || b == 13
}

/// `s` with leading whitespace removed.
pub open spec fn trim_front(s: Seq<u8>) -> Seq<u8>
    decreases s.len(),
{
    if s.len() > 0 && is_space(s[0]) {
        trim_front(s.skip(1))
    } else {
        s
    }
}

/// `s` with trailing whitespace removed.
pub open spec fn trim_back(s: Seq<u8>) -> Seq<u8>
    decreases s.len(),
{
    if s.len() > 0 && is_space(s[s.len() - 1]) {
        trim_back(s.drop_last())
    } else {
        s
    }
}

/// `s` with both leading and trailing whitespace removed: the normal form a
/// channel name takes before it enters the registry.
pub open spec fn trim_spec(s: Seq<u8>) -> Seq<u8> {
    trim_back(trim_front(s))
}

/// A byte-for-byte copy of a byte string.
pub fn clone_bytes(v: &Vec<u8>) -> (r: Vec<u8>)
    ensures
        r@ == v@,
{
    let mut r: Vec<u8> = Vec::new();
    let mut i: usize = 0;
    while i < v.len()
        invariant
            i <= v@.len(),
            r@ == v@.take(i as int),
        decreases v@.len() - i,
    {
        r.push(v[i]);
        proof {
            assert(v@.take(i as int).push(v@[i as int]) =~= v@.take(i as int + 1));
        }
        i += 1;
    }
    proof {
        assert(v@.take(v@.len() as int) =~= v@);
    }
    r
}

/// Whether two byte strings hold the same bytes.
pub fn bytes_equal(a: &Vec<u8>, b: &Vec<u8>) -> (r: bool)
    ensures
        r == (a@ == b@),
{
    if a.len() != b.len() {
        return false;
    }
    let mut i: usize = 0;
    while i < a.len()
        invariant
            i <= a@.len(),
            a@.len() == b@.len(),
            forall|k: int| 0 <= k < i ==> a@[k] == b@[k],
        decreases a@.len() - i,
    {
        if a[i] != b[i] {
            return false;
        }
        i += 1;
    }
    proof {
        assert(a@ =~= b@);
    }
    true
}

/// `s` trimmed of leading and trailing whitespace.
pub fn trim_bytes(s: &Vec<u8>) -> (r: Vec<u8>)
    ensures
        r@ == trim_spec(s@),
{
    let mut i: usize = 0;
    proof {
        assert(s@.skip(0) =~= s@);
    }
    while i < s.len() && is_space_exec(s[i])
        invariant
            i <= s@.len(),
            trim_front(s@) == trim_front(s@.skip(i as int)),
        decreases s@.len() - i,
    {
        proof {
            assert(s@.skip(i as int)[0] == s@[i as int]);
            assert(s@.skip(i as int).skip(1) =~= s@.skip(i as int + 1));
        }
        i += 1;
    }
    proof {
        if i < s@.len() {
            assert(s@.skip(i as int)[0] == s@[i as int]);
        }
        assert(trim_front(s@) == s@.skip(i as int));
    }
    let mut j: usize = s.len();
    proof {
        assert(s@.skip(i as int) =~= s@.subrange(i as int, s@.len() as int));
    }
    while j > i && is_space_exec(s[j - 1])
        invariant
            i <= j <= s@.len(),
            trim_back(trim_front(s@)) == trim_back(s@.subrange(i as int, j as int)),
        decreases j,
    {
        proof {
            let seg = s@.subrange(i as int, j as int);
            assert(seg[seg.len() - 1] == s@[j - 1]);
            assert(seg.drop_last() =~= s@.subrange(i as int, j as int - 1));
        }
        j -= 1;
    }
    proof {
        let seg = s@.subrange(i as int, j as int);
        if j > i {
            assert(seg[seg.len() - 1] == s@[j - 1]);
        }
        assert(trim_back(seg) == seg);
    }
    let mut r: Vec<u8> = Vec::new();
    let mut k: usize = i;
    while k < j
        invariant
            i <= k <= j <= s@.len(),
            r@ == s@.subrange(i as int, k as int),
        decreases j - k,
    {
        r.push(s[k]);
        proof {
            assert(s@.subrange(i as int, k as int).push(s@[k as int]) =~= s@.subrange(
                i as int,
                k as int + 1,
            ));
        }
        k += 1;
    }
    r
}

/// Whether `b` is one of the whitespace bytes trimmed from names.
pub fn is_space_exec(b: u8) -> (r: bool)
    ensures
        r == is_space(b),
{
    b == 32 || b == 9 || b == 10 || b == 13
}

impl Channel {
    /// Builds the entry an `add` operation creates.
    pub fn new(name: Vec<u8>) -> (r: Channel)
        ensures
            r@ == fresh_entry(name@),
    {
        Channel { name, is_live: false, auto_open: false, opened_this_session: false }
    }

    /// A field-for-field copy, used to hand out snapshots.
    pub fn duplicate(&self) -> (r: Channel)
        ensures
            r@ == self@,
    {
        Channel {
            name: clone_bytes(&self.name),
            is_live: self.is_live,
            auto_open: self.auto_open,
            opened_this_session: self.opened_this_session,
        }
    }
}

} // verus!
