//! What the registry holds after any history of add and remove operations.

use vstd::prelude::*;
use crate::entry::{EntryModel, fresh_entry, trim_spec};
use crate::registry::{spec_add, spec_remove};

verus! {

/// One interaction-layer mutation of the registry.
pub ghost enum RegistryOp {
    Add(Seq<u8>),
    Remove(Seq<u8>),
}

/// The effect of one operation.
pub open spec fn apply_op(s: Seq<EntryModel>, op: RegistryOp) -> Seq<EntryModel> {
    match op {
        RegistryOp::Add(raw) => spec_add(s, raw),
        RegistryOp::Remove(name) => spec_remove(s, name),
    }
}

/// The registry after running a whole history of operations, oldest first.
pub open spec fn run_ops(s: Seq<EntryModel>, ops: Seq<RegistryOp>) -> Seq<EntryModel>
    decreases ops.len(),
{
    if ops.len() == 0 {
        s
    } else {
        run_ops(apply_op(s, ops[0]), ops.skip(1))
    }
}

/// Whether the history removes `name` at some point.
pub open spec fn removes(ops: Seq<RegistryOp>, name: Seq<u8>) -> bool {
    exists|j: int| 0 <= j < ops.len() && ops[j] == RegistryOp::Remove(name)
}

/// The entries that survive a history started from nothing: one fresh entry
/// per add whose trimmed name is non-blank and is not removed later, in the
/// order the adds were made.
pub open spec fn survivors(ops: Seq<RegistryOp>) -> Seq<EntryModel>
    decreases ops.len(),
{
    if ops.len() == 0 {
        Seq::empty()
    } else {
        let rest = ops.skip(1);
        match ops[0] {
            RegistryOp::Add(raw) => if trim_spec(raw).len() > 0 && !removes(rest, trim_spec(raw)) {
                seq![fresh_entry(trim_spec(raw))] + survivors(rest)
            } else {
                survivors(rest)
            },
            RegistryOp::Remove(_name) => survivors(rest),
        }
    }
}

/// What a history leaves of entries that were already present: those whose
/// name it never removes, in their original order.
pub open spec fn purge(s: Seq<EntryModel>, ops: Seq<RegistryOp>) -> Seq<EntryModel>
    decreases s.len(),
{
    if s.len() == 0 {
        Seq::empty()
    } else {
        (if removes(ops, s[0].name) {
            Seq::<EntryModel>::empty()
        } else {
            seq![s[0]]
        }) + purge(s.skip(1), ops)
    }
}

/// A history removes `name` exactly when its first operation does or the
/// remainder does.
proof fn lemma_removes_head(ops: Seq<RegistryOp>, name: Seq<u8>)
    requires
        ops.len() > 0,
    ensures
        removes(ops, name) == (ops[0] == RegistryOp::Remove(name) || removes(ops.skip(1), name)),
{
    let rest = ops.skip(1);
    if removes(ops, name) {
        let j = choose|j: int| 0 <= j < ops.len() && ops[j] == RegistryOp::Remove(name);
        if j > 0 {
            assert(rest[j - 1] == ops[j]);
            assert(removes(rest, name));
        }
    }
    if ops[0] == RegistryOp::Remove(name) {
        assert(removes(ops, name));
    }
    if removes(rest, name) {
        let j = choose|j: int| 0 <= j < rest.len() && rest[j] == RegistryOp::Remove(name);
        assert(ops[j + 1] == rest[j]);
        assert(removes(ops, name));
    }
}

/// Histories that remove the same names purge the same entries.
proof fn lemma_purge_same(s: Seq<EntryModel>, ops1: Seq<RegistryOp>, ops2: Seq<RegistryOp>)
    requires
        forall|n: Seq<u8>| removes(ops1, n) == removes(ops2, n),
    ensures
        purge(s, ops1) == purge(s, ops2),
    decreases s.len(),
{
    if s.len() > 0 {
        assert(removes(ops1, s[0].name) == removes(ops2, s[0].name));
        lemma_purge_same(s.skip(1), ops1, ops2);
    }
}

/// A history that removes nothing leaves the pre-existing entries untouched.
proof fn lemma_purge_nothing(s: Seq<EntryModel>, ops: Seq<RegistryOp>)
    requires
        forall|n: Seq<u8>| !removes(ops, n),
    ensures
        purge(s, ops) == s,
    decreases s.len(),
{
    if s.len() > 0 {
        assert(!removes(ops, s[0].name));
        lemma_purge_nothing(s.skip(1), ops);
        assert(seq![s[0]] + s.skip(1) =~= s);
    }
}

/// Purging a sequence one entry longer purges the extra entry on its own.
proof fn lemma_purge_push(s: Seq<EntryModel>, e: EntryModel, ops: Seq<RegistryOp>)
    ensures
        purge(s.push(e), ops) == purge(s, ops) + (if removes(ops, e.name) {
            Seq::<EntryModel>::empty()
        } else {
            seq![e]
        }),
    decreases s.len(),
{
    let tail = if removes(ops, e.name) {
        Seq::<EntryModel>::empty()
    } else {
        seq![e]
    };
    if s.len() == 0 {
        assert(s.push(e) =~= seq![e]);
        assert(seq![e][0] == e);
        assert(seq![e].skip(1) =~= Seq::<EntryModel>::empty());
        assert(purge(seq![e].skip(1), ops) =~= Seq::<EntryModel>::empty());
        assert(tail + Seq::<EntryModel>::empty() =~= tail);
        assert(purge(s, ops) + tail =~= tail);
    } else {
        assert(s.push(e)[0] == s[0]);
        assert(s.push(e).skip(1) =~= s.skip(1).push(e));
        lemma_purge_push(s.skip(1), e, ops);
        let h = if removes(ops, s[0].name) {
            Seq::<EntryModel>::empty()
        } else {
            seq![s[0]]
        };
        assert(h + (purge(s.skip(1), ops) + tail) =~= (h + purge(s.skip(1), ops)) + tail);
    }
}

/// A sequence filters head-first as well: the head survives on its own, the
/// tail filters recursively.
proof fn lemma_remove_head(s: Seq<EntryModel>, name: Seq<u8>)
    requires
        s.len() > 0,
    ensures
        spec_remove(s, name) == (if s[0].name != name {
            seq![s[0]]
        } else {
            Seq::<EntryModel>::empty()
        }) + spec_remove(s.skip(1), name),
{
    reveal(Seq::filter);
    let pred = |e: EntryModel| e.name != name;
    assert(seq![s[0]] + s.skip(1) =~= s);
    Seq::filter_distributes_over_add(seq![s[0]], s.skip(1), pred);
    assert(seq![s[0]].drop_last() =~= Seq::<EntryModel>::empty());
    assert(Seq::<EntryModel>::empty().filter(pred) =~= Seq::<EntryModel>::empty());
    if pred(s[0]) {
        assert(seq![s[0]].filter(pred) =~= seq![s[0]]);
    } else {
        assert(seq![s[0]].filter(pred) =~= Seq::<EntryModel>::empty());
    }
}

/// Removing a name now and then running a history purges the same entries as
/// a history that starts with that removal.
proof fn lemma_purge_after_remove(
    s: Seq<EntryModel>,
    name: Seq<u8>,
    rest: Seq<RegistryOp>,
    ops: Seq<RegistryOp>,
)
    requires
        forall|n: Seq<u8>| removes(ops, n) == (n == name || removes(rest, n)),
    ensures
        purge(spec_remove(s, name), rest) == purge(s, ops),
    decreases s.len(),
{
    reveal(Seq::filter);
    if s.len() == 0 {
        assert(s.filter(|e: EntryModel| e.name != name) =~= Seq::<EntryModel>::empty());
    } else {
        let e = s[0];
        lemma_remove_head(s, name);
        lemma_purge_after_remove(s.skip(1), name, rest, ops);
        assert(removes(ops, e.name) == (e.name == name || removes(rest, e.name)));
        if e.name == name {
            assert(spec_remove(s, name) =~= spec_remove(s.skip(1), name));
        } else {
            let r2 = spec_remove(s.skip(1), name);
            assert(spec_remove(s, name) =~= seq![e] + r2);
            assert((seq![e] + r2)[0] == e);
            assert((seq![e] + r2).skip(1) =~= r2);
            if (seq![e] + r2).len() > 0 {
                assert(purge(seq![e] + r2, rest) == (if removes(rest, e.name) {
                    Seq::<EntryModel>::empty()
                } else {
                    seq![e]
                }) + purge(r2, rest));
            }
        }
    }
}

/// Running a history on any starting registry leaves the never-removed part
/// of the start, followed by the history's own surviving adds.
proof fn lemma_run_ops_purge(s: Seq<EntryModel>, ops: Seq<RegistryOp>)
    ensures
        run_ops(s, ops) == purge(s, ops) + survivors(ops),
    decreases ops.len(),
{
    if ops.len() == 0 {
        assert(forall|n: Seq<u8>| !removes(ops, n));
        lemma_purge_nothing(s, ops);
        assert(purge(s, ops) + survivors(ops) =~= s);
    } else {
        let rest = ops.skip(1);
        match ops[0] {
            RegistryOp::Add(raw) => {
                let t = trim_spec(raw);
                assert forall|n: Seq<u8>| removes(ops, n) == removes(rest, n) by {
                    lemma_removes_head(ops, n);
                }
                lemma_purge_same(s, ops, rest);
                if t.len() == 0 {
                    assert(apply_op(s, ops[0]) == s);
                    lemma_run_ops_purge(s, rest);
                } else {
                    let e = fresh_entry(t);
                    assert(apply_op(s, ops[0]) == s.push(e));
                    lemma_run_ops_purge(s.push(e), rest);
                    lemma_purge_push(s, e, rest);
                    if removes(rest, t) {
                        assert(purge(s.push(e), rest) =~= purge(s, rest));
                    } else {
                        assert(survivors(ops) == seq![e] + survivors(rest));
                        assert((purge(s, rest) + seq![e]) + survivors(rest) =~= purge(s, rest) + (
                        seq![e] + survivors(rest)));
                    }
                }
            },
            RegistryOp::Remove(name) => {
                assert forall|n: Seq<u8>| removes(ops, n) == (n == name || removes(rest, n)) by {
                    lemma_removes_head(ops, n);
                }
                assert(apply_op(s, ops[0]) == spec_remove(s, name));
                lemma_run_ops_purge(spec_remove(s, name), rest);
                lemma_purge_after_remove(s, name, rest, ops);
            },
        }
    }
}

/// After any history of add and remove operations on an initially empty
/// registry, the registry — and so the snapshot handed to the renderer —
/// holds exactly the surviving entries in their original insertion order:
/// one fresh entry per non-blank add that no later operation removed.
pub proof fn lemma_snapshot_reflects_history(ops: Seq<RegistryOp>)
    ensures
        run_ops(Seq::empty(), ops) == survivors(ops),
{
    lemma_run_ops_purge(Seq::empty(), ops);
    assert(purge(Seq::empty(), ops) =~= Seq::<EntryModel>::empty());
    assert(Seq::<EntryModel>::empty() + survivors(ops) =~= survivors(ops));
}

} // verus!
