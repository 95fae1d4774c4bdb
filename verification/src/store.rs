//! The persistence codec: the registry as a durable snapshot.
//!
//! The snapshot file is a JSON array of channel objects, each with the fields
//! `name` (string), `status`, `open_in_browser` and `opened_in_browser`
//! (booleans).  `save` produces the full file contents; `load` reads them
//! back, handing back an empty sequence for anything it cannot parse, so a
//! missing or damaged file never aborts startup.  The caller does the actual
//! file I/O with the bytes.

use vstd::prelude::*;
use crate::entry::{Channel, EntryModel};

verus! {

pub const QUOTE: u8 = 34;
pub const COMMA: u8 = 44;
pub const COLON: u8 = 58;
pub const LBRACKET: u8 = 91;
pub const BACKSLASH: u8 = 92;
pub const RBRACKET: u8 = 93;
pub const LBRACE: u8 = 123;
pub const RBRACE: u8 = 125;

/// The bytes of `{"name":"`, which open an entry object.
pub open spec fn lit_entry_head() -> Seq<u8> {
    seq![LBRACE, QUOTE, 110u8, 97, 109, 101, QUOTE, COLON, QUOTE]
}

/// The bytes of `,"status":`, which follow the name's closing quote.
pub open spec fn lit_status() -> Seq<u8> {
    seq![COMMA, QUOTE, 115u8, 116, 97, 116, 117, 115, QUOTE, COLON]
}

/// The bytes of `,"open_in_browser":`.
pub open spec fn lit_open() -> Seq<u8> {
    seq![
        COMMA,
        QUOTE,
        111u8,
        112,
        101,
        110,
        95,
        105,
        110,
        95,
        98,
        114,
        111,
        119,
        115,
        101,
        114,
        QUOTE,
        COLON,
    ]
}

/// The bytes of `,"opened_in_browser":`.
pub open spec fn lit_opened() -> Seq<u8> {
    seq![
        COMMA,
        QUOTE,
        111u8,
        112,
        101,
        110,
        101,
        100,
        95,
        105,
        110,
        95,
        98,
        114,
        111,
        119,
        115,
        101,
        114,
        QUOTE,
        COLON,
    ]
}

/// The bytes of `true`.
pub open spec fn lit_true() -> Seq<u8> {
    seq![116u8, 114, 117, 101]
}

/// The bytes of `false`.
pub open spec fn lit_false() -> Seq<u8> {
    seq![102u8, 97, 108, 115, 101]
}

/// How one name byte is written inside a JSON string: quotes and backslashes
/// get a backslash escape, everything else stands as it is.
pub open spec fn esc1(c: u8) -> Seq<u8> {
    if c == QUOTE || c == BACKSLASH {
        seq![BACKSLASH, c]
    } else {
        seq![c]
    }
}

/// A whole name, escaped byte for byte.
pub open spec fn esc(s: Seq<u8>) -> Seq<u8>
    decreases s.len(),
{
    if s.len() == 0 {
        Seq::empty()
    } else {
        esc1(s[0]) + esc(s.skip(1))
    }
}

/// The bytes of a JSON boolean.
pub open spec fn enc_bool(b: bool) -> Seq<u8> {
    if b {
        lit_true()
    } else {
        lit_false()
    }
}

/// The bytes of one entry object.
pub open spec fn enc_entry(e: EntryModel) -> Seq<u8> {
    lit_entry_head() + esc(e.name) + seq![QUOTE] + lit_status() + enc_bool(e.is_live) + lit_open()
        + enc_bool(e.auto_open) + lit_opened() + enc_bool(e.opened) + seq![RBRACE]
}

/// The bytes of every entry after the first, each preceded by a comma.
pub open spec fn enc_tail(s: Seq<EntryModel>) -> Seq<u8>
    decreases s.len(),
{
    if s.len() == 0 {
        Seq::empty()
    } else {
        seq![COMMA] + enc_entry(s[0]) + enc_tail(s.skip(1))
    }
}

/// The full snapshot file for an entry sequence.
pub open spec fn encode(s: Seq<EntryModel>) -> Seq<u8> {
    if s.len() == 0 {
        seq![LBRACKET, RBRACKET]
    } else {
        seq![LBRACKET] + enc_entry(s[0]) + enc_tail(s.skip(1)) + seq![RBRACKET]
    }
}

/// Consumes `lit` from the front of `b`, or fails.
pub open spec fn take_lit(lit: Seq<u8>, b: Seq<u8>) -> Option<Seq<u8>> {
    if lit.len() <= b.len() && b.take(lit.len() as int) == lit {
        Some(b.skip(lit.len() as int))
    } else {
        None
    }
}

/// Reads a JSON string body up to and including its closing quote, undoing
/// the backslash escapes; yields the name and the unread remainder.
pub open spec fn parse_name(b: Seq<u8>) -> Option<(Seq<u8>, Seq<u8>)>
    decreases b.len(),
{
    if b.len() == 0 {
        None
    } else if b[0] == QUOTE {
        Some((Seq::empty(), b.skip(1)))
    } else if b[0] == BACKSLASH {
        if b.len() >= 2 && (b[1] == QUOTE || b[1] == BACKSLASH) {
            match parse_name(b.skip(2)) {
                Some(p) => Some((seq![b[1]] + p.0, p.1)),
                None => None,
            }
        } else {
            None
        }
    } else {
        match parse_name(b.skip(1)) {
            Some(p) => Some((seq![b[0]] + p.0, p.1)),
            None => None,
        }
    }
}

/// Reads a JSON boolean.
pub open spec fn parse_bool(b: Seq<u8>) -> Option<(bool, Seq<u8>)> {
    match take_lit(lit_true(), b) {
        Some(r) => Some((true, r)),
        None => match take_lit(lit_false(), b) {
            Some(r) => Some((false, r)),
            None => None,
        },
    }
}

/// Reads one entry object.
pub open spec fn parse_entry(b: Seq<u8>) -> Option<(EntryModel, Seq<u8>)> {
    match take_lit(lit_entry_head(), b) {
        None => None,
        Some(b1) => match parse_name(b1) {
            None => None,
            Some((name, b2)) => match take_lit(lit_status(), b2) {
                None => None,
                Some(b3) => match parse_bool(b3) {
                    None => None,
                    Some((is_live, b4)) => match take_lit(lit_open(), b4) {
                        None => None,
                        Some(b5) => match parse_bool(b5) {
                            None => None,
                            Some((auto_open, b6)) => match take_lit(lit_opened(), b6) {
                                None => None,
                                Some(b7) => match parse_bool(b7) {
                                    None => None,
                                    Some((opened, b8)) => match take_lit(seq![RBRACE], b8) {
                                        None => None,
                                        Some(b9) => Some(
                                            (EntryModel { name, is_live, auto_open, opened }, b9),
                                        ),
                                    },
                                },
                            },
                        },
                    },
                },
            },
        },
    }
}

/// Reads a non-empty entry list followed by the closing bracket.  `fuel`
/// bounds the recursion; any fuel at least the number of entries gives the
/// same answer, and callers pass the input length, which is always enough.
pub open spec fn parse_items(b: Seq<u8>, fuel: nat) -> Option<(Seq<EntryModel>, Seq<u8>)>
    decreases fuel,
{
    match parse_entry(b) {
        None => None,
        Some((e, rest)) => {
            if rest.len() > 0 && rest[0] == RBRACKET {
                Some((seq![e], rest.skip(1)))
            } else if rest.len() > 0 && rest[0] == COMMA && fuel > 0 {
                match parse_items(rest.skip(1), (fuel - 1) as nat) {
                    Some(p) => Some((seq![e] + p.0, p.1)),
                    None => None,
                }
            } else {
                None
            }
        },
    }
}

/// What the snapshot file means: the entry sequence it holds, or nothing if
/// it is not a file `encode` could have produced.
pub open spec fn decode(b: Seq<u8>) -> Option<Seq<EntryModel>> {
    if b.len() >= 1 && b[0] == LBRACKET {
        let r = b.skip(1);
        if r.len() >= 1 && r[0] == RBRACKET {
            if r.len() == 1 {
                Some(Seq::empty())
            } else {
                None
            }
        } else {
            match parse_items(r, r.len()) {
                Some(p) => if p.1.len() == 0 {
                    Some(p.0)
                } else {
                    None
                },
                None => None,
            }
        }
    } else {
        None
    }
}

/// A literal at the front of the input is consumed exactly.
pub proof fn lemma_take_lit(lit: Seq<u8>, rest: Seq<u8>)
    ensures
        take_lit(lit, lit + rest) == Some(rest),
{
    assert((lit + rest).take(lit.len() as int) =~= lit);
    assert((lit + rest).skip(lit.len() as int) =~= rest);
}

/// Reading an escaped name back yields the name that was written.
pub proof fn lemma_parse_name_esc(n: Seq<u8>, rest: Seq<u8>)
    ensures
        parse_name(esc(n) + seq![QUOTE] + rest) == Some((n, rest)),
    decreases n.len(),
{
    let b = esc(n) + seq![QUOTE] + rest;
    if n.len() == 0 {
        assert(b =~= seq![QUOTE] + rest);
        assert(b[0] == QUOTE);
        assert(b.skip(1) =~= rest);
        assert(Seq::<u8>::empty() =~= n);
    } else {
        let c = n[0];
        let tail = n.skip(1);
        lemma_parse_name_esc(tail, rest);
        if c == QUOTE || c == BACKSLASH {
            assert(b =~= seq![BACKSLASH, c] + (esc(tail) + seq![QUOTE] + rest));
            assert(b[0] == BACKSLASH);
            assert(b[1] == c);
            assert(b.len() >= 2);
            assert(b.skip(2) =~= esc(tail) + seq![QUOTE] + rest);
            assert(seq![c] + tail =~= n);
        } else {
            assert(b =~= seq![c] + (esc(tail) + seq![QUOTE] + rest));
            assert(b[0] == c);
            assert(b.skip(1) =~= esc(tail) + seq![QUOTE] + rest);
            assert(seq![c] + tail =~= n);
        }
    }
}

/// Reading a written boolean back yields the boolean that was written.
pub proof fn lemma_parse_bool(v: bool, rest: Seq<u8>)
    ensures
        parse_bool(enc_bool(v) + rest) == Some((v, rest)),
{
    if v {
        lemma_take_lit(lit_true(), rest);
    } else {
        lemma_take_lit(lit_false(), rest);
        let b = lit_false() + rest;
        assert(b.len() >= 4);
        assert(b.take(4)[0] == 102);
        assert(lit_true()[0] == 116);
        assert(take_lit(lit_true(), b) is None);
    }
}

/// Reading a written entry back yields the entry that was written.
#[verifier::rlimit(100)]
pub proof fn lemma_parse_entry(e: EntryModel, rest: Seq<u8>)
    ensures
        parse_entry(enc_entry(e) + rest) == Some((e, rest)),
{
    let t9 = seq![RBRACE] + rest;
    let t8 = enc_bool(e.opened) + t9;
    let t7 = lit_opened() + t8;
    let t6 = enc_bool(e.auto_open) + t7;
    let t5 = lit_open() + t6;
    let t4 = enc_bool(e.is_live) + t5;
    let t3 = lit_status() + t4;
    let t1 = esc(e.name) + seq![QUOTE] + t3;
    assert(enc_entry(e) + rest =~= lit_entry_head() + t1);
    lemma_take_lit(lit_entry_head(), t1);
    assert(take_lit(lit_entry_head(), enc_entry(e) + rest) == Some(t1));
    lemma_parse_name_esc(e.name, t3);
    assert(parse_name(t1) == Some((e.name, t3)));
    lemma_take_lit(lit_status(), t4);
    assert(take_lit(lit_status(), t3) == Some(t4));
    lemma_parse_bool(e.is_live, t5);
    assert(parse_bool(t4) == Some((e.is_live, t5)));
    lemma_take_lit(lit_open(), t6);
    assert(take_lit(lit_open(), t5) == Some(t6));
    lemma_parse_bool(e.auto_open, t7);
    assert(parse_bool(t6) == Some((e.auto_open, t7)));
    lemma_take_lit(lit_opened(), t8);
    assert(take_lit(lit_opened(), t7) == Some(t8));
    lemma_parse_bool(e.opened, t9);
    assert(parse_bool(t8) == Some((e.opened, t9)));
    lemma_take_lit(seq![RBRACE], rest);
    assert(take_lit(seq![RBRACE], t9) == Some(rest));
    assert(EntryModel { name: e.name, is_live: e.is_live, auto_open: e.auto_open, opened: e.opened }
        =~= e);
}

/// Reading a written entry list back yields the entries that were written,
/// for any fuel at least the number of entries.
#[verifier::rlimit(100)]
pub proof fn lemma_parse_items(s: Seq<EntryModel>, rest: Seq<u8>, fuel: nat)
    requires
        s.len() >= 1,
        fuel >= s.len(),
    ensures
        parse_items(enc_entry(s[0]) + enc_tail(s.skip(1)) + seq![RBRACKET] + rest, fuel) == Some(
            (s, rest),
        ),
    decreases s.len(),
{
    let b = enc_entry(s[0]) + enc_tail(s.skip(1)) + seq![RBRACKET] + rest;
    if s.len() == 1 {
        assert(enc_tail(s.skip(1)) =~= Seq::<u8>::empty());
        let r1 = seq![RBRACKET] + rest;
        assert(b =~= enc_entry(s[0]) + r1);
        lemma_parse_entry(s[0], r1);
        assert(parse_entry(b) == Some((s[0], r1)));
        assert(r1[0] == RBRACKET);
        assert(r1.skip(1) =~= rest);
        assert(parse_items(b, fuel) == Some((seq![s[0]], rest)));
        assert(seq![s[0]] =~= s);
    } else {
        let tail = s.skip(1);
        assert(tail[0] == s[1]);
        assert(tail.skip(1) =~= s.skip(2));
        let r1 = seq![COMMA] + (enc_entry(s[1]) + enc_tail(s.skip(2)) + seq![RBRACKET] + rest);
        assert(enc_tail(tail) =~= seq![COMMA] + enc_entry(s[1]) + enc_tail(s.skip(2)));
        assert(b =~= enc_entry(s[0]) + r1);
        lemma_parse_entry(s[0], r1);
        assert(parse_entry(b) == Some((s[0], r1)));
        assert(r1[0] == COMMA);
        assert(r1[0] != RBRACKET);
        assert(r1.len() > 0);
        assert(r1.skip(1) =~= enc_entry(tail[0]) + enc_tail(tail.skip(1)) + seq![RBRACKET] + rest);
        lemma_parse_items(tail, rest, (fuel - 1) as nat);
        assert(parse_items(r1.skip(1), (fuel - 1) as nat) == Some((tail, rest)));
        assert(parse_items(b, fuel) == Some((seq![s[0]] + tail, rest)));
        assert(seq![s[0]] + tail =~= s);
    }
}

/// Every entry written makes the written tail at least one byte longer, so
/// the file is always long enough to serve as parsing fuel.
pub proof fn lemma_enc_tail_len(s: Seq<EntryModel>)
    ensures
        enc_tail(s).len() >= s.len(),
    decreases s.len(),
{
    if s.len() > 0 {
        lemma_enc_tail_len(s.skip(1));
    }
}

/// Round trip: a saved registry loads back exactly as it was — same names,
/// same statuses, same preferences, same session flags, in the same order.
#[verifier::rlimit(100)]
pub proof fn lemma_save_load_round_trip(s: Seq<EntryModel>)
    ensures
        decode(encode(s)) == Some(s),
{
    let b = encode(s);
    if s.len() == 0 {
        assert(b[0] == LBRACKET);
        assert(b.skip(1) =~= seq![RBRACKET]);
        assert(Seq::<EntryModel>::empty() =~= s);
    } else {
        assert(b =~= seq![LBRACKET] + (enc_entry(s[0]) + enc_tail(s.skip(1)) + seq![RBRACKET]
            + Seq::<u8>::empty()));
        assert(b[0] == LBRACKET);
        let r = b.skip(1);
        assert(r =~= enc_entry(s[0]) + enc_tail(s.skip(1)) + seq![RBRACKET] + Seq::<u8>::empty());
        assert(r[0] == lit_entry_head()[0]);
        assert(r[0] == LBRACE);
        assert(r[0] != RBRACKET);
        lemma_enc_tail_len(s.skip(1));
        assert(enc_entry(s[0]).len() >= 1);
        assert(r.len() >= s.len());
        lemma_parse_items(s, Seq::<u8>::empty(), r.len());
    }
}

/// Escaping a name one byte longer appends that byte's escape.
pub proof fn lemma_esc_push(s: Seq<u8>, c: u8)
    ensures
        esc(s.push(c)) == esc(s) + esc1(c),
    decreases s.len(),
{
    if s.len() == 0 {
        assert(s.push(c) =~= seq![c]);
        assert(seq![c].skip(1) =~= Seq::<u8>::empty());
        assert(esc(seq![c].skip(1)) =~= Seq::<u8>::empty());
        assert(esc1(c) + Seq::<u8>::empty() =~= esc1(c));
        assert(esc(s) + esc1(c) =~= esc1(c));
    } else {
        assert(s.push(c)[0] == s[0]);
        assert(s.push(c).skip(1) =~= s.skip(1).push(c));
        lemma_esc_push(s.skip(1), c);
        assert(esc1(s[0]) + (esc(s.skip(1)) + esc1(c)) =~= (esc1(s[0]) + esc(s.skip(1))) + esc1(
            c,
        ));
    }
}

/// Writing one more entry appends a comma and that entry's bytes.
pub proof fn lemma_enc_tail_push(s: Seq<EntryModel>, e: EntryModel)
    ensures
        enc_tail(s.push(e)) == enc_tail(s) + (seq![COMMA] + enc_entry(e)),
    decreases s.len(),
{
    if s.len() == 0 {
        assert(s.push(e) =~= seq![e]);
        assert(seq![e].skip(1) =~= Seq::<EntryModel>::empty());
        assert(enc_tail(seq![e].skip(1)) =~= Seq::<u8>::empty());
        assert(seq![COMMA] + enc_entry(e) + Seq::<u8>::empty() =~= seq![COMMA] + enc_entry(e));
        assert(enc_tail(s) + (seq![COMMA] + enc_entry(e)) =~= seq![COMMA] + enc_entry(e));
    } else {
        assert(s.push(e)[0] == s[0]);
        assert(s.push(e).skip(1) =~= s.skip(1).push(e));
        lemma_enc_tail_push(s.skip(1), e);
        assert(seq![COMMA] + enc_entry(s[0]) + (enc_tail(s.skip(1)) + (seq![COMMA] + enc_entry(e)))
            =~= (seq![COMMA] + enc_entry(s[0]) + enc_tail(s.skip(1))) + (seq![COMMA] + enc_entry(
            e,
        )));
    }
}

/// Appends a copy of `src` to `out`.
pub(crate) fn append_bytes(out: &mut Vec<u8>, src: &Vec<u8>)
    ensures
        final(out)@ == old(out)@ + src@,
{
    let mut i: usize = 0;
    proof {
        assert(old(out)@ + src@.take(0) =~= old(out)@);
    }
    while i < src.len()
        invariant
            i <= src@.len(),
            out@ == old(out)@ + src@.take(i as int),
        decreases src@.len() - i,
    {
        out.push(src[i]);
        proof {
            assert((old(out)@ + src@.take(i as int)).push(src@[i as int]) =~= old(out)@
                + src@.take(i as int + 1));
        }
        i += 1;
    }
    proof {
        assert(src@.take(src@.len() as int) =~= src@);
    }
}

/// The bytes of `{"name":"`.
fn lit_entry_head_vec() -> (v: Vec<u8>)
    ensures
        v@ == lit_entry_head(),
{
    let mut v: Vec<u8> = Vec::new();
    v.push(LBRACE);
    v.push(QUOTE);
    v.push(110);
    v.push(97);
    v.push(109);
    v.push(101);
    v.push(QUOTE);
    v.push(COLON);
    v.push(QUOTE);
    proof {
        assert(v@ =~= lit_entry_head());
    }
    v
}

/// The bytes of `,"status":`.
fn lit_status_vec() -> (v: Vec<u8>)
    ensures
        v@ == lit_status(),
{
    let mut v: Vec<u8> = Vec::new();
    v.push(COMMA);
    v.push(QUOTE);
    v.push(115);
    v.push(116);
    v.push(97);
    v.push(116);
    v.push(117);
    v.push(115);
    v.push(QUOTE);
    v.push(COLON);
    proof {
        assert(v@ =~= lit_status());
    }
    v
}

/// The bytes of `,"open_in_browser":`.
fn lit_open_vec() -> (v: Vec<u8>)
    ensures
        v@ == lit_open(),
{
    let mut v: Vec<u8> = Vec::new();
    v.push(COMMA);
    v.push(QUOTE);
    v.push(111);
    v.push(112);
    v.push(101);
    v.push(110);
    v.push(95);
    v.push(105);
    v.push(110);
    v.push(95);
    v.push(98);
    v.push(114);
    v.push(111);
    v.push(119);
    v.push(115);
    v.push(101);
    v.push(114);
    v.push(QUOTE);
    v.push(COLON);
    proof {
        assert(v@ =~= lit_open());
    }
    v
}

/// The bytes of `,"opened_in_browser":`.
fn lit_opened_vec() -> (v: Vec<u8>)
    ensures
        v@ == lit_opened(),
{
    let mut v: Vec<u8> = Vec::new();
    v.push(COMMA);
    v.push(QUOTE);
    v.push(111);
    v.push(112);
    v.push(101);
    v.push(110);
    v.push(101);
    v.push(100);
    v.push(95);
    v.push(105);
    v.push(110);
    v.push(95);
    v.push(98);
    v.push(114);
    v.push(111);
    v.push(119);
    v.push(115);
    v.push(101);
    v.push(114);
    v.push(QUOTE);
    v.push(COLON);
    proof {
        assert(v@ =~= lit_opened());
    }
    v
}

/// The bytes of `true`.
fn lit_true_vec() -> (v: Vec<u8>)
    ensures
        v@ == lit_true(),
{
    let mut v: Vec<u8> = Vec::new();
    v.push(116);
    v.push(114);
    v.push(117);
    v.push(101);
    proof {
        assert(v@ =~= lit_true());
    }
    v
}

/// The bytes of `false`.
fn lit_false_vec() -> (v: Vec<u8>)
    ensures
        v@ == lit_false(),
{
    let mut v: Vec<u8> = Vec::new();
    v.push(102);
    v.push(97);
    v.push(108);
    v.push(115);
    v.push(101);
    proof {
        assert(v@ =~= lit_false());
    }
    v
}

/// Appends a JSON boolean.
fn push_bool(out: &mut Vec<u8>, b: bool)
    ensures
        final(out)@ == old(out)@ + enc_bool(b),
{
    if b {
        let v = lit_true_vec();
        append_bytes(out, &v);
    } else {
        let v = lit_false_vec();
        append_bytes(out, &v);
    }
}

/// Appends a name with its JSON string escapes.
fn push_escaped(out: &mut Vec<u8>, name: &Vec<u8>)
    ensures
        final(out)@ == old(out)@ + esc(name@),
{
    let mut i: usize = 0;
    proof {
        assert(esc(name@.take(0)) =~= Seq::<u8>::empty());
        assert(old(out)@ + esc(name@.take(0)) =~= old(out)@);
    }
    while i < name.len()
        invariant
            i <= name@.len(),
            out@ == old(out)@ + esc(name@.take(i as int)),
        decreases name@.len() - i,
    {
        let c = name[i];
        if c == QUOTE || c == BACKSLASH {
            out.push(BACKSLASH);
        }
        out.push(c);
        proof {
            assert(name@.take(i as int).push(name@[i as int]) =~= name@.take(i as int + 1));
            lemma_esc_push(name@.take(i as int), c);
            assert(out@ =~= old(out)@ + esc(name@.take(i as int + 1)));
        }
        i += 1;
    }
    proof {
        assert(name@.take(name@.len() as int) =~= name@);
    }
}

/// Appends the bytes of one entry object.
#[verifier::rlimit(100)]
fn write_entry(out: &mut Vec<u8>, c: &Channel)
    ensures
        final(out)@ == old(out)@ + enc_entry(c@),
{
    let head = lit_entry_head_vec();
    append_bytes(out, &head);
    push_escaped(out, &c.name);
    out.push(QUOTE);
    let status = lit_status_vec();
    append_bytes(out, &status);
    push_bool(out, c.is_live);
    let open = lit_open_vec();
    append_bytes(out, &open);
    push_bool(out, c.auto_open);
    let opened = lit_opened_vec();
    append_bytes(out, &opened);
    push_bool(out, c.opened_this_session);
    out.push(RBRACE);
    proof {
        assert(out@ =~= old(out)@ + enc_entry(c@));
    }
}

/// Serializes the whole registry snapshot into the bytes of its durable
/// file: the full entry sequence, written every time.
pub fn save(entries: &Vec<Channel>) -> (out: Vec<u8>)
    ensures
        out@ == encode(entries.deep_view()),
{
    let ghost dv = entries.deep_view();
    let mut out: Vec<u8> = Vec::new();
    out.push(LBRACKET);
    if entries.len() == 0 {
        out.push(RBRACKET);
        proof {
            assert(out@ =~= encode(dv));
        }
        return out;
    }
    proof {
        assert(dv[0] == entries@[0]@);
    }
    write_entry(&mut out, &entries[0]);
    let mut i: usize = 1;
    proof {
        assert(dv.subrange(1, 1) =~= Seq::<EntryModel>::empty());
        assert(enc_tail(dv.subrange(1, 1)) =~= Seq::<u8>::empty());
        assert(out@ =~= seq![LBRACKET] + enc_entry(dv[0]) + enc_tail(dv.subrange(1, 1)));
    }
    while i < entries.len()
        invariant
            1 <= i <= dv.len(),
            dv == entries.deep_view(),
            dv.len() == entries@.len(),
            out@ == seq![LBRACKET] + enc_entry(dv[0]) + enc_tail(dv.subrange(1, i as int)),
        decreases dv.len() - i,
    {
        out.push(COMMA);
        proof {
            assert(dv[i as int] == entries@[i as int]@);
        }
        write_entry(&mut out, &entries[i]);
        proof {
            assert(dv.subrange(1, i as int).push(dv[i as int]) =~= dv.subrange(1, i as int + 1));
            lemma_enc_tail_push(dv.subrange(1, i as int), dv[i as int]);
            assert(out@ =~= seq![LBRACKET] + enc_entry(dv[0]) + enc_tail(
                dv.subrange(1, i as int + 1),
            ));
        }
        i += 1;
    }
    out.push(RBRACKET);
    proof {
        assert(dv.subrange(1, dv.len() as int) =~= dv.skip(1));
        assert(out@ =~= encode(dv));
    }
    out
}

/// Consumes `lit` at position `p` of `b`, yielding the position after it.
fn eat(b: &Vec<u8>, p: usize, lit: &Vec<u8>) -> (r: Option<usize>)
    requires
        p <= b@.len(),
    ensures
        (match r {
            Some(q) => p <= q <= b@.len() && q == p + lit@.len() && take_lit(
                lit@,
                b@.skip(p as int),
            ) == Some(b@.skip(q as int)),
            None => take_lit(lit@, b@.skip(p as int)) is None,
        }),
{
    if b.len() - p < lit.len() {
        return None;
    }
    let n = b.len();
    let mut j: usize = 0;
    while j < lit.len()
        invariant
            j <= lit@.len(),
            n == b@.len(),
            p + lit@.len() <= b@.len(),
            forall|k: int| 0 <= k < j ==> b@[p + k] == lit@[k],
        decreases lit@.len() - j,
    {
        if b[p + j] != lit[j] {
            proof {
                let front = b@.skip(p as int);
                assert(front.take(lit@.len() as int)[j as int] == b@[p + j]);
            }
            return None;
        }
        j += 1;
    }
    proof {
        let front = b@.skip(p as int);
        assert(front.take(lit@.len() as int) =~= lit@);
        assert(front.skip(lit@.len() as int) =~= b@.skip(p + lit@.len()));
    }
    Some(p + lit.len())
}

/// Reads a string body from position `p`, mirroring `parse_name`.
fn scan_name(b: &Vec<u8>, p: usize) -> (r: Option<(Vec<u8>, usize)>)
    requires
        p <= b@.len(),
    ensures
        (match r {
            Some(nq) => p < nq.1 <= b@.len() && parse_name(b@.skip(p as int)) == Some(
                (nq.0@, b@.skip(nq.1 as int)),
            ),
            None => parse_name(b@.skip(p as int)) is None,
        }),
    decreases b@.len() - p,
{
    if p >= b.len() {
        return None;
    }
    let c = b[p];
    proof {
        assert(b@.skip(p as int)[0] == b@[p as int]);
    }
    if c == QUOTE {
        proof {
            assert(b@.skip(p as int).skip(1) =~= b@.skip(p as int + 1));
        }
        return Some((Vec::new(), p + 1));
    }
    if c == BACKSLASH {
        if p + 1 >= b.len() {
            return None;
        }
        let c2 = b[p + 1];
        proof {
            assert(b@.skip(p as int)[1] == b@[p as int + 1]);
        }
        if c2 == QUOTE || c2 == BACKSLASH {
            proof {
                assert(b@.skip(p as int).skip(2) =~= b@.skip(p as int + 2));
            }
            match scan_name(b, p + 2) {
                Some((mut tail, q)) => {
                    let ghost tail_view = tail@;
                    let mut name: Vec<u8> = Vec::new();
                    name.push(c2);
                    name.append(&mut tail);
                    proof {
                        assert(name@ =~= seq![b@.skip(p as int)[1]] + tail_view);
                    }
                    return Some((name, q));
                },
                None => {
                    return None;
                },
            }
        } else {
            return None;
        }
    }
    proof {
        assert(b@.skip(p as int).skip(1) =~= b@.skip(p as int + 1));
    }
    match scan_name(b, p + 1) {
        Some((mut tail, q)) => {
            let ghost tail_view = tail@;
            let mut name: Vec<u8> = Vec::new();
            name.push(c);
            name.append(&mut tail);
            proof {
                assert(name@ =~= seq![b@.skip(p as int)[0]] + tail_view);
            }
            Some((name, q))
        },
        None => None,
    }
}

/// Reads a boolean from position `p`, mirroring `parse_bool`.
fn scan_bool(b: &Vec<u8>, p: usize) -> (r: Option<(bool, usize)>)
    requires
        p <= b@.len(),
    ensures
        (match r {
            Some(vq) => p <= vq.1 <= b@.len() && parse_bool(b@.skip(p as int)) == Some(
                (vq.0, b@.skip(vq.1 as int)),
            ),
            None => parse_bool(b@.skip(p as int)) is None,
        }),
{
    let t = lit_true_vec();
    match eat(b, p, &t) {
        Some(q) => {
            return Some((true, q));
        },
        None => {},
    }
    let f = lit_false_vec();
    match eat(b, p, &f) {
        Some(q) => {
            return Some((false, q));
        },
        None => {},
    }
    None
}

/// Reads one entry object from position `p`, mirroring `parse_entry`.
#[verifier::rlimit(100)]
fn scan_entry(b: &Vec<u8>, p: usize) -> (r: Option<(Channel, usize)>)
    requires
        p <= b@.len(),
    ensures
        (match r {
            Some(cq) => p < cq.1 <= b@.len() && parse_entry(b@.skip(p as int)) == Some(
                (cq.0@, b@.skip(cq.1 as int)),
            ),
            None => parse_entry(b@.skip(p as int)) is None,
        }),
{
    let head = lit_entry_head_vec();
    let q1 = match eat(b, p, &head) {
        Some(q) => q,
        None => {
            return None;
        },
    };
    let (name, q2) = match scan_name(b, q1) {
        Some(nq) => nq,
        None => {
            return None;
        },
    };
    let status = lit_status_vec();
    let q3 = match eat(b, q2, &status) {
        Some(q) => q,
        None => {
            return None;
        },
    };
    let (is_live, q4) = match scan_bool(b, q3) {
        Some(vq) => vq,
        None => {
            return None;
        },
    };
    let open = lit_open_vec();
    let q5 = match eat(b, q4, &open) {
        Some(q) => q,
        None => {
            return None;
        },
    };
    let (auto_open, q6) = match scan_bool(b, q5) {
        Some(vq) => vq,
        None => {
            return None;
        },
    };
    let opened_lit = lit_opened_vec();
    let q7 = match eat(b, q6, &opened_lit) {
        Some(q) => q,
        None => {
            return None;
        },
    };
    let (opened, q8) = match scan_bool(b, q7) {
        Some(vq) => vq,
        None => {
            return None;
        },
    };
    let mut close: Vec<u8> = Vec::new();
    close.push(RBRACE);
    proof {
        assert(close@ =~= seq![RBRACE]);
    }
    let q9 = match eat(b, q8, &close) {
        Some(q) => q,
        None => {
            return None;
        },
    };
    let c = Channel { name, is_live, auto_open, opened_this_session: opened };
    Some((c, q9))
}

/// Deserializes a snapshot file.  A file that `encode` could have produced
/// yields its entries; anything else — a missing body, damage, any other
/// shape — yields the empty sequence, so startup never fails on bad state.
#[verifier::rlimit(100)]
pub fn load(data: &Vec<u8>) -> (r: Vec<Channel>)
    ensures
        (match decode(data@) {
            Some(s) => r.deep_view() == s,
            None => r.deep_view() == Seq::<EntryModel>::empty(),
        }),
{
    let empty: Vec<Channel> = Vec::new();
    proof {
        assert(empty.deep_view() =~= Seq::<EntryModel>::empty());
    }
    let n = data.len();
    if n == 0 || data[0] != LBRACKET {
        return empty;
    }
    if n >= 2 && data[1] == RBRACKET {
        proof {
            assert(data@.skip(1)[0] == data@[1]);
            assert(data@.skip(1).len() == n - 1);
        }
        return empty;
    }
    if n == 1 {
        proof {
            assert(data@.skip(1).len() == 0);
        }
        return empty;
    }
    proof {
        assert(data@.skip(1)[0] == data@[1]);
    }
    let mut acc: Vec<Channel> = Vec::new();
    let mut p: usize = 1;
    let ghost fuel0: nat = (data@.len() - 1) as nat;
    let ghost mut fuel: nat = fuel0;
    proof {
        assert(acc.deep_view() =~= Seq::<EntryModel>::empty());
        assert(data@.skip(p as int) =~= data@.skip(1));
    }
    loop
        invariant
            1 <= p <= data@.len(),
            fuel >= data@.len() - p,
            n == data@.len(),
            n >= 2,
            data@[0] == LBRACKET,
            data@[1] != RBRACKET,
            empty.deep_view() == Seq::<EntryModel>::empty(),
            fuel0 == data@.len() - 1,
            parse_items(data@.skip(1), fuel0) == (match parse_items(data@.skip(p as int), fuel) {
                Some(sr) => Some((acc.deep_view() + sr.0, sr.1)),
                None => None::<(Seq<EntryModel>, Seq<u8>)>,
            }),
        decreases data@.len() - p,
    {
        let ghost acc_before = acc.deep_view();
        match scan_entry(data, p) {
            None => {
                return empty;
            },
            Some((c, q)) => {
                if q < n && data[q] == RBRACKET {
                    acc.push(c);
                    proof {
                        assert(data@.skip(q as int)[0] == data@[q as int]);
                        assert(data@.skip(q as int).skip(1) =~= data@.skip(q as int + 1));
                        assert(acc.deep_view() =~= acc_before.push(c@));
                        assert(acc_before + seq![c@] =~= acc.deep_view());
                    }
                    if q + 1 == n {
                        proof {
                            assert(data@.skip(q as int + 1).len() == 0);
                            assert(parse_items(data@.skip(p as int), fuel) == Some(
                                (seq![c@], data@.skip(q as int + 1)),
                            ));
                        }
                        return acc;
                    } else {
                        proof {
                            assert(data@.skip(q as int + 1).len() > 0);
                        }
                        return empty;
                    }
                } else if q < n && data[q] == COMMA {
                    acc.push(c);
                    proof {
                        assert(data@.skip(q as int)[0] == data@[q as int]);
                        assert(data@.skip(q as int).skip(1) =~= data@.skip(q as int + 1));
                        assert(acc.deep_view() =~= acc_before.push(c@));
                        assert(fuel > 0);
                        let inner = parse_items(data@.skip(q as int + 1), (fuel - 1) as nat);
                        assert(parse_items(data@.skip(p as int), fuel) == (match inner {
                            Some(pr) => Some((seq![c@] + pr.0, pr.1)),
                            None => None::<(Seq<EntryModel>, Seq<u8>)>,
                        }));
                        match inner {
                            Some(pr) => {
                                assert(acc_before + (seq![c@] + pr.0) =~= acc.deep_view() + pr.0);
                            },
                            None => {},
                        }
                        fuel = (fuel - 1) as nat;
                    }
                    p = q + 1;
                } else {
                    proof {
                        if q < n {
                            assert(data@.skip(q as int)[0] == data@[q as int]);
                        }
                        assert(data@.skip(q as int).len() == n - q);
                        assert(parse_items(data@.skip(p as int), fuel) is None);
                    }
                    return empty;
                }
            },
        }
    }
}

} // verus!
