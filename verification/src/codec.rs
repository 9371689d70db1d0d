//! A compact interchange form for parsed programs: a flat word sequence
//! caching the parse result. Restoring the words yields a program equal to
//! the one serialized, so it executes identically; the artifact carries no
//! semantics beyond that.
//!
//! Layout: a program is its routine count followed by its routines in
//! order; a routine is its name (UTF-8 byte count, then one word per
//! byte) and its body (instruction count, then the instructions); an
//! instruction is a tag word followed by its operands.

use vstd::prelude::*;
use vstd::utf8::{decode_utf8, encode_utf8, valid_utf8};
use crate::code::{
    distinct_names, lemma_map_of_contains, CodePoint, MemLocation, Op, Registry, Routines,
    UnitMemLocation, ValMemLoc,
};
use crate::interpreter::CodeBlock;

verus! {

broadcast use vstd::utf8::encode_utf8_valid_utf8, vstd::utf8::encode_utf8_decode_utf8;

// ---------------------------------------------------------------------------
// Encoding.
// ---------------------------------------------------------------------------

/// The words of a unit address.
pub open spec fn enc_unit(u: UnitMemLocation) -> Seq<u64> {
    match u {
        UnitMemLocation::Registry(Registry::I1) => seq![0u64],
        UnitMemLocation::Registry(Registry::I2) => seq![1u64],
        UnitMemLocation::Registry(Registry::O) => seq![2u64],
        UnitMemLocation::Mem(i) => seq![3u64, i as u64],
    }
}

/// The words of a located address.
pub open spec fn enc_loc(l: MemLocation) -> Seq<u64> {
    seq![l.ptr_count as u64] + enc_unit(l.unit_mem)
}

/// The words of a value-or-located-address.
pub open spec fn enc_vml(v: ValMemLoc) -> Seq<u64> {
    match v {
        ValMemLoc::MemLoc(l) => seq![0u64] + enc_loc(l),
        ValMemLoc::Value(x) => seq![1u64, x as u64],
    }
}

/// The words of a routine name: its UTF-8 byte count, then its bytes.
pub open spec fn enc_name(s: Seq<char>) -> Seq<u64> {
    seq![encode_utf8(s).len() as u64] + encode_utf8(s).map_values(|b: u8| b as u64)
}

/// The words of one instruction: a tag, then its operands.
pub open spec fn enc_op(op: Op) -> Seq<u64> {
    match op {
        Op::SetLit { dest, value } => seq![0u64] + enc_loc(dest) + seq![value as u64],
        Op::Cpy { dest, source } => seq![1u64] + enc_loc(dest) + enc_loc(source),
        Op::Add => seq![2u64],
        Op::Sub => seq![3u64],
        Op::Mul => seq![4u64],
        Op::Div => seq![5u64],
        Op::Mod => seq![6u64],
        Op::Cmp => seq![7u64],
        Op::BJmp { cond } => seq![8u64] + enc_loc(cond),
        Op::Land => seq![9u64],
        Op::RAdd { name } => seq![10u64] + enc_name(name),
        Op::RSwp { name } => seq![11u64] + enc_name(name),
        Op::Print { source } => seq![12u64] + enc_vml(source),
        Op::PrintC { source } => seq![13u64] + enc_vml(source),
        Op::Term => seq![14u64],
    }
}

/// The words of an instruction sequence, in order.
pub open spec fn enc_ops(ops: Seq<Op>) -> Seq<u64>
    decreases ops.len(),
{
    if ops.len() == 0 {
        Seq::empty()
    } else {
        enc_op(ops.first()) + enc_ops(ops.drop_first())
    }
}

/// The words of a routine body: its instruction count, then the
/// instructions.
pub open spec fn enc_body(ops: Seq<Op>) -> Seq<u64> {
    seq![ops.len() as u64] + enc_ops(ops)
}

/// The words of an entry sequence, in order.
pub open spec fn enc_entries(e: Seq<(Seq<char>, Seq<Op>)>) -> Seq<u64>
    decreases e.len(),
{
    if e.len() == 0 {
        Seq::empty()
    } else {
        enc_name(e.first().0) + enc_body(e.first().1) + enc_entries(e.drop_first())
    }
}

/// The words of a whole program: its routine count, then the routines.
pub open spec fn enc_program(e: Seq<(Seq<char>, Seq<Op>)>) -> Seq<u64> {
    seq![e.len() as u64] + enc_entries(e)
}

// ---------------------------------------------------------------------------
// Decoding: each function consumes a prefix and returns the rest.
// ---------------------------------------------------------------------------

/// Decode a unit address.
pub open spec fn dec_unit(s: Seq<u64>) -> Option<(UnitMemLocation, Seq<u64>)> {
    if s.len() == 0 {
        None
    } else if s.first() == 0 {
        Some((UnitMemLocation::Registry(Registry::I1), s.drop_first()))
    } else if s.first() == 1 {
        Some((UnitMemLocation::Registry(Registry::I2), s.drop_first()))
    } else if s.first() == 2 {
        Some((UnitMemLocation::Registry(Registry::O), s.drop_first()))
    } else if s.first() == 3 {
        let r = s.drop_first();
        if r.len() > 0 && r.first() <= usize::MAX as u64 {
            Some((UnitMemLocation::Mem(r.first() as usize), r.drop_first()))
        } else {
            None
        }
    } else {
        None
    }
}

/// Decode a located address.
pub open spec fn dec_loc(s: Seq<u64>) -> Option<(MemLocation, Seq<u64>)> {
    if s.len() > 0 && s.first() <= 255 {
        match dec_unit(s.drop_first()) {
            Some((u, r)) => Some((MemLocation { ptr_count: s.first() as u8, unit_mem: u }, r)),
            None => None,
        }
    } else {
        None
    }
}

/// Decode a value-or-located-address.
pub open spec fn dec_vml(s: Seq<u64>) -> Option<(ValMemLoc, Seq<u64>)> {
    if s.len() == 0 {
        None
    } else if s.first() == 0 {
        match dec_loc(s.drop_first()) {
            Some((l, r)) => Some((ValMemLoc::MemLoc(l), r)),
            None => None,
        }
    } else if s.first() == 1 {
        let r = s.drop_first();
        if r.len() > 0 && r.first() <= 255 {
            Some((ValMemLoc::Value(r.first() as u8), r.drop_first()))
        } else {
            None
        }
    } else {
        None
    }
}

/// Decode a routine name: a byte count, then valid UTF-8 bytes.
pub open spec fn dec_name(s: Seq<u64>) -> Option<(Seq<char>, Seq<u64>)> {
    if s.len() == 0 {
        None
    } else {
        let k = s.first() as int;
        let r = s.drop_first();
        if k <= r.len() && (forall|i: int| 0 <= i < k ==> r[i] <= 255) {
            let bytes = r.take(k).map_values(|w: u64| w as u8);
            if valid_utf8(bytes) {
                Some((decode_utf8(bytes), r.skip(k)))
            } else {
                None
            }
        } else {
            None
        }
    }
}

/// Decode one instruction.
pub open spec fn dec_op(s: Seq<u64>) -> Option<(Op, Seq<u64>)> {
    if s.len() == 0 {
        None
    } else {
        let t = s.first();
        let r = s.drop_first();
        if t == 0 {
            match dec_loc(r) {
                Some((dest, r2)) => if r2.len() > 0 && r2.first() <= 255 {
                    Some((Op::SetLit { dest, value: r2.first() as u8 }, r2.drop_first()))
                } else {
                    None
                },
                None => None,
            }
        } else if t == 1 {
            match dec_loc(r) {
                Some((dest, r2)) => match dec_loc(r2) {
                    Some((source, r3)) => Some((Op::Cpy { dest, source }, r3)),
                    None => None,
                },
                None => None,
            }
        } else if t == 2 {
            Some((Op::Add, r))
        } else if t == 3 {
            Some((Op::Sub, r))
        } else if t == 4 {
            Some((Op::Mul, r))
        } else if t == 5 {
            Some((Op::Div, r))
        } else if t == 6 {
            Some((Op::Mod, r))
        } else if t == 7 {
            Some((Op::Cmp, r))
        } else if t == 8 {
            match dec_loc(r) {
                Some((cond, r2)) => Some((Op::BJmp { cond }, r2)),
                None => None,
            }
        } else if t == 9 {
            Some((Op::Land, r))
        } else if t == 10 {
            match dec_name(r) {
                Some((name, r2)) => Some((Op::RAdd { name }, r2)),
                None => None,
            }
        } else if t == 11 {
            match dec_name(r) {
                Some((name, r2)) => Some((Op::RSwp { name }, r2)),
                None => None,
            }
        } else if t == 12 {
            match dec_vml(r) {
                Some((source, r2)) => Some((Op::Print { source }, r2)),
                None => None,
            }
        } else if t == 13 {
            match dec_vml(r) {
                Some((source, r2)) => Some((Op::PrintC { source }, r2)),
                None => None,
            }
        } else if t == 14 {
            Some((Op::Term, r))
        } else {
            None
        }
    }
}

/// Decode `k` instructions.
pub open spec fn dec_ops(s: Seq<u64>, k: nat) -> Option<(Seq<Op>, Seq<u64>)>
    decreases k,
{
    if k == 0 {
        Some((Seq::empty(), s))
    } else {
        match dec_op(s) {
            Some((op, r)) => match dec_ops(r, (k - 1) as nat) {
                Some((ops, r2)) => Some((seq![op] + ops, r2)),
                None => None,
            },
            None => None,
        }
    }
}

/// Decode a routine body.
pub open spec fn dec_body(s: Seq<u64>) -> Option<(Seq<Op>, Seq<u64>)> {
    if s.len() == 0 {
        None
    } else {
        dec_ops(s.drop_first(), s.first() as nat)
    }
}

/// Decode `k` routines.
pub open spec fn dec_entries(s: Seq<u64>, k: nat) -> Option<
    (Seq<(Seq<char>, Seq<Op>)>, Seq<u64>),
>
    decreases k,
{
    if k == 0 {
        Some((Seq::empty(), s))
    } else {
        match dec_name(s) {
            Some((name, r)) => match dec_body(r) {
                Some((ops, r2)) => match dec_entries(r2, (k - 1) as nat) {
                    Some((e, r3)) => Some((seq![(name, ops)] + e, r3)),
                    None => None,
                },
                None => None,
            },
            None => None,
        }
    }
}

/// Decode a whole program; every word must be consumed.
pub open spec fn dec_program(s: Seq<u64>) -> Option<Seq<(Seq<char>, Seq<Op>)>> {
    if s.len() == 0 {
        None
    } else {
        match dec_entries(s.drop_first(), s.first() as nat) {
            Some((e, r)) => if r.len() == 0 {
                Some(e)
            } else {
                None
            },
            None => None,
        }
    }
}

// ---------------------------------------------------------------------------
// The round trip.
// ---------------------------------------------------------------------------

/// Whether a name's UTF-8 encoding fits the machine (as any name held in
/// a `String` does).
pub open spec fn name_ok(s: Seq<char>) -> bool {
    encode_utf8(s).len() <= usize::MAX
}

/// Whether an instruction's operands fit the machine.
pub open spec fn op_ok(op: Op) -> bool {
    match op {
        Op::RAdd { name } => name_ok(name),
        Op::RSwp { name } => name_ok(name),
        _ => true,
    }
}

/// Whether a body fits the machine.
pub open spec fn ops_ok(ops: Seq<Op>) -> bool {
    ops.len() <= usize::MAX && forall|i: int| 0 <= i < ops.len() ==> op_ok(#[trigger] ops[i])
}

/// Whether an entry sequence fits the machine.
pub open spec fn entries_ok(e: Seq<(Seq<char>, Seq<Op>)>) -> bool {
    e.len() <= usize::MAX && forall|i: int|
        0 <= i < e.len() ==> name_ok((#[trigger] e[i]).0) && ops_ok(e[i].1)
}

proof fn lemma_dec_enc_unit(u: UnitMemLocation, rest: Seq<u64>)
    ensures
        dec_unit(enc_unit(u) + rest) == Some((u, rest)),
{
    let s = enc_unit(u) + rest;
    match u {
        UnitMemLocation::Registry(r) => {
            assert(s.drop_first() =~= rest);
        },
        UnitMemLocation::Mem(i) => {
            assert(s.first() == 3);
            assert(s.drop_first() =~= seq![i as u64] + rest);
            assert(s.drop_first().drop_first() =~= rest);
        },
    }
}

proof fn lemma_dec_enc_loc(l: MemLocation, rest: Seq<u64>)
    ensures
        dec_loc(enc_loc(l) + rest) == Some((l, rest)),
{
    let s = enc_loc(l) + rest;
    assert(s.first() == l.ptr_count as u64);
    assert(s.drop_first() =~= enc_unit(l.unit_mem) + rest);
    lemma_dec_enc_unit(l.unit_mem, rest);
}

proof fn lemma_dec_enc_vml(v: ValMemLoc, rest: Seq<u64>)
    ensures
        dec_vml(enc_vml(v) + rest) == Some((v, rest)),
{
    let s = enc_vml(v) + rest;
    match v {
        ValMemLoc::MemLoc(l) => {
            assert(s.drop_first() =~= enc_loc(l) + rest);
            lemma_dec_enc_loc(l, rest);
        },
        ValMemLoc::Value(x) => {
            assert(s.drop_first() =~= seq![x as u64] + rest);
            assert(s.drop_first().drop_first() =~= rest);
        },
    }
}

proof fn lemma_dec_enc_name(nm: Seq<char>, rest: Seq<u64>)
    requires
        name_ok(nm),
    ensures
        dec_name(enc_name(nm) + rest) == Some((nm, rest)),
{
    let bytes = encode_utf8(nm);
    let words = bytes.map_values(|b: u8| b as u64);
    let s = enc_name(nm) + rest;
    assert(s.first() == bytes.len() as u64);
    let k = bytes.len() as int;
    let r = s.drop_first();
    assert(r =~= words + rest);
    assert(k <= r.len());
    assert forall|i: int| 0 <= i < k implies r[i] <= 255 by {
        assert(r[i] == words[i]);
        assert(words[i] == bytes[i] as u64);
    }
    assert(r.take(k) =~= words);
    assert(r.take(k).map_values(|w: u64| w as u8) =~= bytes);
    assert(valid_utf8(bytes));
    assert(decode_utf8(encode_utf8(nm)) == nm);
    assert(r.skip(k) =~= rest);
}

#[verifier::rlimit(60)]
proof fn lemma_dec_enc_op(op: Op, rest: Seq<u64>)
    requires
        op_ok(op),
    ensures
        dec_op(enc_op(op) + rest) == Some((op, rest)),
{
    let s = enc_op(op) + rest;
    match op {
        Op::SetLit { dest, value } => {
            assert(s.drop_first() =~= enc_loc(dest) + (seq![value as u64] + rest));
            lemma_dec_enc_loc(dest, seq![value as u64] + rest);
            assert((seq![value as u64] + rest).drop_first() =~= rest);
        },
        Op::Cpy { dest, source } => {
            assert(s.drop_first() =~= enc_loc(dest) + (enc_loc(source) + rest));
            lemma_dec_enc_loc(dest, enc_loc(source) + rest);
            lemma_dec_enc_loc(source, rest);
        },
        Op::BJmp { cond } => {
            assert(s.drop_first() =~= enc_loc(cond) + rest);
            lemma_dec_enc_loc(cond, rest);
        },
        Op::RAdd { name } => {
            assert(s.drop_first() =~= enc_name(name) + rest);
            lemma_dec_enc_name(name, rest);
        },
        Op::RSwp { name } => {
            assert(s.drop_first() =~= enc_name(name) + rest);
            lemma_dec_enc_name(name, rest);
        },
        Op::Print { source } => {
            assert(s.drop_first() =~= enc_vml(source) + rest);
            lemma_dec_enc_vml(source, rest);
        },
        Op::PrintC { source } => {
            assert(s.drop_first() =~= enc_vml(source) + rest);
            lemma_dec_enc_vml(source, rest);
        },
        _ => {
            assert(s.drop_first() =~= rest);
        },
    }
}

proof fn lemma_dec_enc_ops(ops: Seq<Op>, rest: Seq<u64>)
    requires
        forall|i: int| 0 <= i < ops.len() ==> op_ok(#[trigger] ops[i]),
    ensures
        dec_ops(enc_ops(ops) + rest, ops.len() as nat) == Some((ops, rest)),
    decreases ops.len(),
{
    if ops.len() == 0 {
        assert(enc_ops(ops) + rest =~= rest);
        assert(Seq::<Op>::empty() =~= ops);
    } else {
        let tail = ops.drop_first();
        assert(enc_ops(ops) + rest =~= enc_op(ops.first()) + (enc_ops(tail) + rest));
        lemma_dec_enc_op(ops.first(), enc_ops(tail) + rest);
        lemma_dec_enc_ops(tail, rest);
        assert(seq![ops.first()] + tail =~= ops);
    }
}

proof fn lemma_dec_enc_entries(e: Seq<(Seq<char>, Seq<Op>)>, rest: Seq<u64>)
    requires
        forall|i: int| 0 <= i < e.len() ==> name_ok((#[trigger] e[i]).0) && ops_ok(e[i].1),
    ensures
        dec_entries(enc_entries(e) + rest, e.len() as nat) == Some((e, rest)),
    decreases e.len(),
{
    if e.len() == 0 {
        assert(enc_entries(e) + rest =~= rest);
        assert(Seq::<(Seq<char>, Seq<Op>)>::empty() =~= e);
    } else {
        let (nm, ops) = e.first();
        let tail = e.drop_first();
        let after_name = enc_body(ops) + (enc_entries(tail) + rest);
        assert(enc_entries(e) + rest =~= enc_name(nm) + after_name);
        lemma_dec_enc_name(nm, after_name);
        assert(after_name.first() == ops.len() as u64);
        assert(after_name.drop_first() =~= enc_ops(ops) + (enc_entries(tail) + rest));
        lemma_dec_enc_ops(ops, enc_entries(tail) + rest);
        lemma_dec_enc_entries(tail, rest);
        assert(seq![(nm, ops)] + tail =~= e);
    }
}

/// The round trip: restoring a serialized program yields exactly the
/// entries that were serialized, so the restored program is equal to the
/// original and executes identically.
pub proof fn lemma_words_round_trip(e: Seq<(Seq<char>, Seq<Op>)>)
    requires
        entries_ok(e),
    ensures
        dec_program(enc_program(e)) == Some(e),
{
    let s = enc_program(e);
    assert(s.first() == e.len() as u64);
    assert(s.drop_first() =~= enc_entries(e) + Seq::<u64>::empty());
    lemma_dec_enc_entries(e, Seq::empty());
}

// ---------------------------------------------------------------------------
// Executable serialization.
// ---------------------------------------------------------------------------

fn push_unit(out: &mut Vec<u64>, u: UnitMemLocation)
    ensures
        final(out)@ == old(out)@ + enc_unit(u),
{
    match u {
        UnitMemLocation::Registry(Registry::I1) => out.push(0),
        UnitMemLocation::Registry(Registry::I2) => out.push(1),
        UnitMemLocation::Registry(Registry::O) => out.push(2),
        UnitMemLocation::Mem(i) => {
            out.push(3);
            out.push(i as u64);
        },
    }
    proof {
        assert(final(out)@ =~= old(out)@ + enc_unit(u));
    }
}

fn push_loc(out: &mut Vec<u64>, l: MemLocation)
    ensures
        final(out)@ == old(out)@ + enc_loc(l),
{
    out.push(l.ptr_count as u64);
    push_unit(out, l.unit_mem);
    proof {
        assert(final(out)@ =~= old(out)@ + enc_loc(l));
    }
}

fn push_vml(out: &mut Vec<u64>, v: ValMemLoc)
    ensures
        final(out)@ == old(out)@ + enc_vml(v),
{
    match v {
        ValMemLoc::MemLoc(l) => {
            out.push(0);
            push_loc(out, l);
        },
        ValMemLoc::Value(x) => {
            out.push(1);
            out.push(x as u64);
        },
    }
    proof {
        assert(final(out)@ =~= old(out)@ + enc_vml(v));
    }
}

fn push_name(out: &mut Vec<u64>, name: &String)
    ensures
        final(out)@ == old(out)@ + enc_name(name@),
        name_ok(name@),
{
    let bytes = name.as_str().as_bytes_vec();
    out.push(bytes.len() as u64);
    let n = bytes.len();
    let mut i: usize = 0;
    while i < n
        invariant
            0 <= i <= n,
            n == bytes@.len(),
            bytes@ == encode_utf8(name@),
            out@ == old(out)@ + seq![bytes@.len() as u64] + bytes@.take(i as int).map_values(
                |b: u8| b as u64,
            ),
        decreases n - i,
    {
        out.push(bytes[i] as u64);
        proof {
            assert(bytes@.take(i + 1).map_values(|b: u8| b as u64) =~= bytes@.take(
                i as int,
            ).map_values(|b: u8| b as u64).push(bytes@[i as int] as u64));
        }
        i += 1;
    }
    proof {
        assert(bytes@.take(n as int) =~= bytes@);
        assert(final(out)@ =~= old(out)@ + enc_name(name@));
    }
}

fn push_op(out: &mut Vec<u64>, cp: &CodePoint)
    ensures
        final(out)@ == old(out)@ + enc_op(cp@),
        op_ok(cp@),
{
    match cp {
        CodePoint::SetLit { dest, value } => {
            out.push(0);
            push_loc(out, *dest);
            out.push(*value as u64);
        },
        CodePoint::Cpy { dest, source } => {
            out.push(1);
            push_loc(out, *dest);
            push_loc(out, *source);
        },
        CodePoint::Add => out.push(2),
        CodePoint::Sub => out.push(3),
        CodePoint::Mul => out.push(4),
        CodePoint::Div => out.push(5),
        CodePoint::Mod => out.push(6),
        CodePoint::Cmp => out.push(7),
        CodePoint::BJmp { cond } => {
            out.push(8);
            push_loc(out, *cond);
        },
        CodePoint::Land => out.push(9),
        CodePoint::RAdd { name } => {
            out.push(10);
            push_name(out, name);
        },
        CodePoint::RSwp { name } => {
            out.push(11);
            push_name(out, name);
        },
        CodePoint::Print { source } => {
            out.push(12);
            push_vml(out, *source);
        },
        CodePoint::PrintC { source } => {
            out.push(13);
            push_vml(out, *source);
        },
        CodePoint::Term => out.push(14),
    }
    proof {
        assert(final(out)@ =~= old(out)@ + enc_op(cp@));
    }
}

fn push_block(out: &mut Vec<u64>, block: &CodeBlock)
    ensures
        final(out)@ == old(out)@ + enc_body(block@),
        ops_ok(block@),
{
    let ghost ops = block@;
    let m = block.code.len();
    out.push(m as u64);
    proof {
        assert(ops.skip(0) =~= ops);
        assert(out@ + enc_ops(ops.skip(0)) =~= old(out)@ + enc_body(ops));
    }
    let mut j: usize = 0;
    while j < m
        invariant
            0 <= j <= m,
            m == block.code@.len(),
            ops == block@,
            out@ + enc_ops(ops.skip(j as int)) == old(out)@ + enc_body(ops),
            forall|k: int| 0 <= k < j ==> op_ok(#[trigger] ops[k]),
        decreases m - j,
    {
        let ghost before = out@;
        proof {
            assert(ops.skip(j as int).first() == ops[j as int]);
            assert(ops.skip(j as int).drop_first() =~= ops.skip(j as int + 1));
            assert(ops[j as int] == block.code@[j as int]@);
        }
        push_op(out, &block.code[j]);
        proof {
            assert(out@ + enc_ops(ops.skip(j as int + 1)) =~= before + enc_ops(
                ops.skip(j as int),
            ));
        }
        j += 1;
    }
    proof {
        assert(ops.skip(m as int) =~= Seq::<Op>::empty());
        assert(out@ + enc_ops(ops.skip(m as int)) =~= out@);
    }
}

// ---------------------------------------------------------------------------
// Executable restoration.
// ---------------------------------------------------------------------------

/// Relies on String::from_utf8: valid UTF-8 bytes decode to the string
/// they encode; invalid bytes are rejected.
#[verifier::external_body]
fn string_from_utf8(bytes: Vec<u8>) -> (r: Option<String>)
    ensures
        r is Some <==> valid_utf8(bytes@),
        r matches Some(s) ==> encode_utf8(s@) == bytes@,
{
    String::from_utf8(bytes).ok()
}

fn dec_unit_exec(words: &Vec<u64>, pos: usize) -> (r: Option<(UnitMemLocation, usize)>)
    requires
        pos <= words@.len(),
    ensures
        (match r {
            Some(p) => p.1 <= words@.len() && dec_unit(words@.skip(pos as int)) == Some(
                (p.0, words@.skip(p.1 as int)),
            ),
            None => dec_unit(words@.skip(pos as int)) is None,
        }),
{
    let ghost s = words@.skip(pos as int);
    if pos >= words.len() {
        return None;
    }
    let t = words[pos];
    proof {
        assert(s.first() == words@[pos as int]);
        assert(s.drop_first() =~= words@.skip(pos as int + 1));
    }
    if t == 0 {
        Some((UnitMemLocation::Registry(Registry::I1), pos + 1))
    } else if t == 1 {
        Some((UnitMemLocation::Registry(Registry::I2), pos + 1))
    } else if t == 2 {
        Some((UnitMemLocation::Registry(Registry::O), pos + 1))
    } else if t == 3 {
        if pos + 1 < words.len() {
            let w = words[pos + 1];
            proof {
                assert(s.drop_first().first() == words@[pos as int + 1]);
                assert(s.drop_first().drop_first() =~= words@.skip(pos as int + 2));
            }
            if w <= usize::MAX as u64 {
                Some((UnitMemLocation::Mem(w as usize), pos + 2))
            } else {
                None
            }
        } else {
            proof {
                assert(s.drop_first().len() == 0);
            }
            None
        }
    } else {
        None
    }
}

fn dec_loc_exec(words: &Vec<u64>, pos: usize) -> (r: Option<(MemLocation, usize)>)
    requires
        pos <= words@.len(),
    ensures
        (match r {
            Some(p) => p.1 <= words@.len() && dec_loc(words@.skip(pos as int)) == Some(
                (p.0, words@.skip(p.1 as int)),
            ),
            None => dec_loc(words@.skip(pos as int)) is None,
        }),
{
    let ghost s = words@.skip(pos as int);
    if pos >= words.len() {
        return None;
    }
    let t = words[pos];
    proof {
        assert(s.first() == words@[pos as int]);
        assert(s.drop_first() =~= words@.skip(pos as int + 1));
    }
    if t > 255 {
        return None;
    }
    match dec_unit_exec(words, pos + 1) {
        Some((u, pos2)) => Some((MemLocation { ptr_count: t as u8, unit_mem: u }, pos2)),
        None => None,
    }
}

fn dec_vml_exec(words: &Vec<u64>, pos: usize) -> (r: Option<(ValMemLoc, usize)>)
    requires
        pos <= words@.len(),
    ensures
        (match r {
            Some(p) => p.1 <= words@.len() && dec_vml(words@.skip(pos as int)) == Some(
                (p.0, words@.skip(p.1 as int)),
            ),
            None => dec_vml(words@.skip(pos as int)) is None,
        }),
{
    let ghost s = words@.skip(pos as int);
    if pos >= words.len() {
        return None;
    }
    let t = words[pos];
    proof {
        assert(s.first() == words@[pos as int]);
        assert(s.drop_first() =~= words@.skip(pos as int + 1));
    }
    if t == 0 {
        match dec_loc_exec(words, pos + 1) {
            Some((l, pos2)) => Some((ValMemLoc::MemLoc(l), pos2)),
            None => None,
        }
    } else if t == 1 {
        if pos + 1 < words.len() {
            let w = words[pos + 1];
            proof {
                assert(s.drop_first().first() == words@[pos as int + 1]);
                assert(s.drop_first().drop_first() =~= words@.skip(pos as int + 2));
            }
            if w <= 255 {
                Some((ValMemLoc::Value(w as u8), pos + 2))
            } else {
                None
            }
        } else {
            proof {
                assert(s.drop_first().len() == 0);
            }
            None
        }
    } else {
        None
    }
}

fn dec_name_exec(words: &Vec<u64>, pos: usize) -> (r: Option<(String, usize)>)
    requires
        pos <= words@.len(),
    ensures
        (match r {
            Some(p) => p.1 <= words@.len() && dec_name(words@.skip(pos as int)) == Some(
                (p.0@, words@.skip(p.1 as int)),
            ),
            None => dec_name(words@.skip(pos as int)) is None,
        }),
{
    let ghost s = words@.skip(pos as int);
    if pos >= words.len() {
        return None;
    }
    let kw = words[pos];
    proof {
        assert(s.first() == words@[pos as int]);
        assert(s.drop_first() =~= words@.skip(pos as int + 1));
    }
    let remaining = words.len() - (pos + 1);
    if kw > remaining as u64 {
        return None;
    }
    let k = kw as usize;
    let ghost body = s.drop_first();
    let mut bytes: Vec<u8> = Vec::new();
    let mut i: usize = 0;
    while i < k
        invariant
            0 <= i <= k,
            pos + 1 + k <= words@.len(),
            words@.len() <= usize::MAX,
            kw == k as u64,
            body == words@.skip(pos as int + 1),
            words@.skip(pos as int).len() > 0,
            words@.skip(pos as int).first() == kw,
            words@.skip(pos as int).drop_first() == body,
            bytes@.len() == i as int,
            forall|x: int| 0 <= x < i ==> #[trigger] body[x] <= 255 && bytes@[x] == body[x] as u8,
        decreases k - i,
    {
        let w = words[pos + 1 + i];
        proof {
            assert(body[i as int] == words@[pos as int + 1 + i]);
        }
        if w > 255 {
            proof {
                assert(!(forall|x: int| 0 <= x < kw as int ==> #[trigger] body[x] <= 255)) by {
                    assert(body[i as int] > 255);
                }
            }
            return None;
        }
        bytes.push(w as u8);
        i += 1;
    }
    proof {
        assert(bytes@ =~= body.take(k as int).map_values(|w: u64| w as u8));
    }
    let ghost byte_view = bytes@;
    match string_from_utf8(bytes) {
        Some(st) => {
            proof {
                assert(decode_utf8(byte_view) == st@);
            }
            Some((st, pos + 1 + k))
        },
        None => None,
    }
}

#[verifier::rlimit(50)]
fn dec_op_exec(words: &Vec<u64>, pos: usize) -> (r: Option<(CodePoint, usize)>)
    requires
        pos <= words@.len(),
    ensures
        (match r {
            Some(p) => p.1 <= words@.len() && dec_op(words@.skip(pos as int)) == Some(
                (p.0@, words@.skip(p.1 as int)),
            ),
            None => dec_op(words@.skip(pos as int)) is None,
        }),
{
    let ghost s = words@.skip(pos as int);
    if pos >= words.len() {
        return None;
    }
    let t = words[pos];
    proof {
        assert(s.first() == words@[pos as int]);
        assert(s.drop_first() =~= words@.skip(pos as int + 1));
    }
    if t == 0 {
        match dec_loc_exec(words, pos + 1) {
            Some((dest, pos2)) => {
                let ghost s2 = words@.skip(pos2 as int);
                if pos2 < words.len() {
                    let w = words[pos2];
                    proof {
                        assert(s2.first() == words@[pos2 as int]);
                        assert(s2.drop_first() =~= words@.skip(pos2 as int + 1));
                    }
                    if w <= 255 {
                        Some((CodePoint::SetLit { dest, value: w as u8 }, pos2 + 1))
                    } else {
                        None
                    }
                } else {
                    None
                }
            },
            None => None,
        }
    } else if t == 1 {
        match dec_loc_exec(words, pos + 1) {
            Some((dest, pos2)) => match dec_loc_exec(words, pos2) {
                Some((source, pos3)) => Some((CodePoint::Cpy { dest, source }, pos3)),
                None => None,
            },
            None => None,
        }
    } else if t == 2 {
        Some((CodePoint::Add, pos + 1))
    } else if t == 3 {
        Some((CodePoint::Sub, pos + 1))
    } else if t == 4 {
        Some((CodePoint::Mul, pos + 1))
    } else if t == 5 {
        Some((CodePoint::Div, pos + 1))
    } else if t == 6 {
        Some((CodePoint::Mod, pos + 1))
    } else if t == 7 {
        Some((CodePoint::Cmp, pos + 1))
    } else if t == 8 {
        match dec_loc_exec(words, pos + 1) {
            Some((cond, pos2)) => Some((CodePoint::BJmp { cond }, pos2)),
            None => None,
        }
    } else if t == 9 {
        Some((CodePoint::Land, pos + 1))
    } else if t == 10 {
        match dec_name_exec(words, pos + 1) {
            Some((name, pos2)) => Some((CodePoint::RAdd { name }, pos2)),
            None => None,
        }
    } else if t == 11 {
        match dec_name_exec(words, pos + 1) {
            Some((name, pos2)) => Some((CodePoint::RSwp { name }, pos2)),
            None => None,
        }
    } else if t == 12 {
        match dec_vml_exec(words, pos + 1) {
            Some((source, pos2)) => Some((CodePoint::Print { source }, pos2)),
            None => None,
        }
    } else if t == 13 {
        match dec_vml_exec(words, pos + 1) {
            Some((source, pos2)) => Some((CodePoint::PrintC { source }, pos2)),
            None => None,
        }
    } else if t == 14 {
        Some((CodePoint::Term, pos + 1))
    } else {
        None
    }
}

fn dec_block_exec(words: &Vec<u64>, pos: usize) -> (r: Option<(CodeBlock, usize)>)
    requires
        pos <= words@.len(),
    ensures
        (match r {
            Some(p) => p.1 <= words@.len() && dec_body(words@.skip(pos as int)) == Some(
                (p.0@, words@.skip(p.1 as int)),
            ),
            None => dec_body(words@.skip(pos as int)) is None,
        }),
{
    let ghost s = words@.skip(pos as int);
    if pos >= words.len() {
        return None;
    }
    let m = words[pos];
    proof {
        assert(s.first() == words@[pos as int]);
        assert(s.drop_first() =~= words@.skip(pos as int + 1));
    }
    let mut cb = CodeBlock::new();
    let mut cur: usize = pos + 1;
    let mut j: u64 = 0;
    proof {
        assert forall|p: (Seq<Op>, Seq<u64>)|
            dec_ops(words@.skip(cur as int), m as nat) == Some(p) implies cb@ + p.0 =~= p.0 by {}
    }
    while j < m
        invariant
            cur <= words@.len(),
            0 <= j <= m,
            dec_body(words@.skip(pos as int)) == dec_ops(words@.skip(pos as int + 1), m as nat),
            (match dec_ops(words@.skip(cur as int), (m - j) as nat) {
                Some(p) => dec_ops(words@.skip(pos as int + 1), m as nat) == Some(
                    (cb@ + p.0, p.1),
                ),
                None => dec_ops(words@.skip(pos as int + 1), m as nat) is None,
            }),
        decreases m - j,
    {
        match dec_op_exec(words, cur) {
            Some((cp, cur2)) => {
                let ghost old_ops = cb@;
                cb.code.push(cp);
                proof {
                    assert(cb@ =~= old_ops.push(cp@));
                    assert(dec_ops(words@.skip(cur as int), (m - j) as nat) == (match dec_ops(
                        words@.skip(cur2 as int),
                        (m - j - 1) as nat,
                    ) {
                        Some(p2) => Some((seq![cp@] + p2.0, p2.1)),
                        None => None::<(Seq<Op>, Seq<u64>)>,
                    }));
                    assert forall|p2: (Seq<Op>, Seq<u64>)|
                        dec_ops(words@.skip(cur2 as int), (m - j - 1) as nat) == Some(
                            p2,
                        ) implies old_ops + (seq![cp@] + p2.0) =~= cb@ + p2.0 by {}
                }
                cur = cur2;
                j += 1;
            },
            None => {
                proof {
                    assert(dec_ops(words@.skip(cur as int), (m - j) as nat) is None);
                }
                return None;
            },
        }
    }
    proof {
        assert(dec_ops(words@.skip(cur as int), 0) == Some(
            (Seq::<Op>::empty(), words@.skip(cur as int)),
        ));
        assert(cb@ + Seq::<Op>::empty() =~= cb@);
    }
    Some((cb, cur))
}

impl Routines {
    /// Restore a program from its interchange words: the entries exactly
    /// as serialized, rejected if the words are malformed or hold a
    /// duplicate routine name.
    pub fn from_words(words: &Vec<u64>) -> (r: Option<Routines>)
        ensures
            (match r {
                Some(rt) => rt.wf() && dec_program(words@) == Some(rt.entries()),
                None => dec_program(words@) is None || !distinct_names(dec_program(words@)->0),
            }),
    {
        let len = words.len();
        if len == 0 {
            return None;
        }
        let cnt = words[0];
        proof {
            assert(words@.first() == words@[0]);
            assert(words@.drop_first() =~= words@.skip(1));
        }
        let mut rt = Routines::new();
        let mut pos: usize = 1;
        let mut j: u64 = 0;
        proof {
            assert forall|p: (Seq<(Seq<char>, Seq<Op>)>, Seq<u64>)|
                dec_entries(words@.skip(pos as int), cnt as nat) == Some(p) implies rt.entries()
                + p.0 =~= p.0 by {}
        }
        while j < cnt
            invariant
                pos <= words@.len(),
                0 <= j <= cnt,
                rt.wf(),
                words@.len() > 0,
                cnt == words@[0],
                words@.first() == cnt,
                words@.drop_first() == words@.skip(1),
                (match dec_entries(words@.skip(pos as int), (cnt - j) as nat) {
                    Some(p) => dec_entries(words@.skip(1), cnt as nat) == Some(
                        (rt.entries() + p.0, p.1),
                    ),
                    None => dec_entries(words@.skip(1), cnt as nat) is None,
                }),
            decreases cnt - j,
        {
            let (name, pos2) = match dec_name_exec(words, pos) {
                Some(p) => p,
                None => {
                    proof {
                        assert(dec_entries(words@.skip(pos as int), (cnt - j) as nat) is None);
                        assert(dec_program(words@) is None);
                    }
                    return None;
                },
            };
            let (block, pos3) = match dec_block_exec(words, pos2) {
                Some(p) => p,
                None => {
                    proof {
                        assert(dec_entries(words@.skip(pos as int), (cnt - j) as nat) is None);
                        assert(dec_program(words@) is None);
                    }
                    return None;
                },
            };
            let ghost nm = name@;
            let ghost ops = block@;
            let ghost pre_entries = rt.entries();
            proof {
                assert(dec_entries(words@.skip(pos as int), (cnt - j) as nat) == (
                match dec_entries(words@.skip(pos3 as int), (cnt - j - 1) as nat) {
                    Some(p2) => Some((seq![(nm, ops)] + p2.0, p2.1)),
                    None => None::<(Seq<(Seq<char>, Seq<Op>)>, Seq<u64>)>,
                }));
            }
            match rt.add_routine(name, block) {
                Ok(_u) => {
                    proof {
                        assert(rt.entries() == pre_entries.push((nm, ops)));
                        assert forall|p2: (Seq<(Seq<char>, Seq<Op>)>, Seq<u64>)|
                            dec_entries(words@.skip(pos3 as int), (cnt - j - 1) as nat) == Some(
                                p2,
                            ) implies pre_entries + (seq![(nm, ops)] + p2.0) =~= rt.entries()
                            + p2.0 by {}
                    }
                    pos = pos3;
                    j += 1;
                },
                Err(_e) => {
                    proof {
                        if dec_entries(words@.skip(pos3 as int), (cnt - j - 1) as nat) is Some {
                            let p2 = choose|p2: (Seq<(Seq<char>, Seq<Op>)>, Seq<u64>)|
                                dec_entries(words@.skip(pos3 as int), (cnt - j - 1) as nat)
                                    == Some(p2);
                            let ef_pair = (pre_entries + (seq![(nm, ops)] + p2.0), p2.1);
                            assert(dec_entries(words@.skip(1), cnt as nat) == Some(ef_pair));
                            if p2.1.len() == 0 {
                                let ef = ef_pair.0;
                                assert(dec_program(words@) == Some(ef));
                                lemma_map_of_contains(pre_entries, nm);
                                let idx = choose|idx: int|
                                    0 <= idx < pre_entries.len()
                                        && (#[trigger] pre_entries[idx]).0 == nm;
                                assert((ef[idx]).0 == nm);
                                assert((ef[pre_entries.len() as int]).0 == nm);
                                assert(!distinct_names(ef));
                            } else {
                                assert(dec_program(words@) is None);
                            }
                        } else {
                            assert(dec_entries(words@.skip(pos as int), (cnt - j) as nat)
                                is None);
                            assert(dec_program(words@) is None);
                        }
                    }
                    return None;
                },
            }
        }
        proof {
            assert(dec_entries(words@.skip(pos as int), 0) == Some(
                (Seq::<(Seq<char>, Seq<Op>)>::empty(), words@.skip(pos as int)),
            ));
            assert(rt.entries() + Seq::<(Seq<char>, Seq<Op>)>::empty() =~= rt.entries());
        }
        if pos == len {
            proof {
                assert(words@.skip(pos as int).len() == 0);
            }
            Some(rt)
        } else {
            proof {
                assert(words@.skip(pos as int).len() > 0);
            }
            None
        }
    }

    /// Serialize this program to its interchange words.
    pub fn to_words(&self) -> (r: Vec<u64>)
        ensures
            r@ == enc_program(self.entries()),
            entries_ok(self.entries()),
    {
        let ghost e = self.entries();
        let mut out: Vec<u64> = Vec::new();
        let n = self.routine_map.len();
        out.push(n as u64);
        proof {
            assert(e.skip(0) =~= e);
            assert(out@ + enc_entries(e.skip(0)) =~= seq![e.len() as u64] + enc_entries(e));
        }
        let mut i: usize = 0;
        while i < n
            invariant
                0 <= i <= n,
                n == self.routine_map@.len(),
                e == self.entries(),
                out@ + enc_entries(e.skip(i as int)) == seq![e.len() as u64] + enc_entries(e),
                forall|k: int| 0 <= k < i ==> name_ok((#[trigger] e[k]).0) && ops_ok(e[k].1),
            decreases n - i,
        {
            let ghost before = out@;
            let entry = &self.routine_map[i];
            proof {
                assert(e[i as int] == (entry.0@, entry.1@));
                assert(e.skip(i as int).first() == e[i as int]);
                assert(e.skip(i as int).drop_first() =~= e.skip(i as int + 1));
            }
            push_name(&mut out, &entry.0);
            push_block(&mut out, &entry.1);
            proof {
                assert(out@ + enc_entries(e.skip(i as int + 1)) =~= before + enc_entries(
                    e.skip(i as int),
                ));
            }
            i += 1;
        }
        proof {
            assert(e.skip(n as int) =~= Seq::<(Seq<char>, Seq<Op>)>::empty());
            assert(out@ + enc_entries(e.skip(n as int)) =~= out@);
            assert(out@ =~= enc_program(e));
        }
        out
    }
}

} // verus!
