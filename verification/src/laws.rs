//! The library's stated laws, proved once and for all: determinism of
//! parsing and execution, the unit-address round trip, memory auto-growth,
//! and the tail-replace shape of the call stack.

use vstd::prelude::*;
use crate::code::{
    all_digits, dec_chars, dec_val, digit_val, is_digit_char, parse_unit_spec, render_unit_spec,
    MemLocation, Op, UnitMemLocation,
};
use crate::interpreter::{
    loc_write, mem_read, run_n, step, FrameModel, MemModel, RunState, StateModel,
};
use crate::parser::parse_program_spec;

verus! {

/// Parsing is deterministic and pure: one source text, from one starting
/// program, has exactly one meaning.
pub proof fn lemma_parse_deterministic(
    m0: Map<Seq<char>, Seq<Op>>,
    lines1: Seq<Seq<char>>,
    lines2: Seq<Seq<char>>,
)
    requires
        lines1 == lines2,
    ensures
        parse_program_spec(m0, lines1) == parse_program_spec(m0, lines2),
{
}

/// Digit renderings are never empty and contain digits only.
proof fn lemma_dec_chars_wf(n: nat)
    ensures
        dec_chars(n).len() >= 1,
        all_digits(dec_chars(n)),
    decreases n,
{
    if n < 10 {
        assert(is_digit_char(((48 + n) as u8) as char));
        assert forall|i: int| 0 <= i < dec_chars(n).len() implies #[trigger] is_digit_char(
            dec_chars(n)[i],
        ) by {
            assert(dec_chars(n)[i] == ((48 + n) as u8) as char);
        }
    } else {
        lemma_dec_chars_wf(n / 10);
        let c = ((48 + n % 10) as u8) as char;
        assert(is_digit_char(c));
        assert(dec_chars(n) == dec_chars(n / 10).push(c));
        assert forall|i: int| 0 <= i < dec_chars(n).len() implies #[trigger] is_digit_char(
            dec_chars(n)[i],
        ) by {
            if i < dec_chars(n / 10).len() {
                assert(dec_chars(n)[i] == dec_chars(n / 10)[i]);
            } else {
                assert(dec_chars(n)[i] == c);
            }
        }
    }
}

/// Reading back a rendered decimal gives the value rendered.
proof fn lemma_dec_val_of_dec_chars(n: nat)
    ensures
        dec_val(dec_chars(n)) == n,
    decreases n,
{
    if n < 10 {
        let c = ((48 + n) as u8) as char;
        assert(c as u32 == 48 + n);
        assert(digit_val(c) == n);
        assert(dec_chars(n) == seq![c]);
        assert(dec_chars(n).drop_last() =~= Seq::<char>::empty());
        assert(dec_val(Seq::<char>::empty()) == 0);
        assert(dec_chars(n).last() == c);
        assert(dec_val(dec_chars(n)) == dec_val(dec_chars(n).drop_last()) * 10 + digit_val(
            dec_chars(n).last(),
        ));
    } else {
        lemma_dec_val_of_dec_chars(n / 10);
        let c = ((48 + n % 10) as u8) as char;
        assert(c as u32 == 48 + n % 10);
        assert(digit_val(c) == n % 10);
        assert(dec_chars(n) == dec_chars(n / 10).push(c));
        assert(dec_chars(n).drop_last() =~= dec_chars(n / 10));
        assert(dec_chars(n).last() == c);
        assert(dec_val(dec_chars(n)) == dec_val(dec_chars(n).drop_last()) * 10 + digit_val(
            dec_chars(n).last(),
        ));
        assert(dec_val(dec_chars(n)) == (n / 10) * 10 + n % 10);
    }
}

/// A valid unit-address token, parsed and re-rendered, denotes the same
/// storage cell: the canonical token parses back to the very same unit
/// address.
pub proof fn lemma_unit_token_round_trip(t: Seq<char>, u: UnitMemLocation)
    requires
        parse_unit_spec(t) == Some(u),
    ensures
        parse_unit_spec(render_unit_spec(u)) == Some(u),
{
    match u {
        UnitMemLocation::Registry(r) => {
        },
        UnitMemLocation::Mem(i) => {
            let d = dec_chars(i as nat);
            lemma_dec_chars_wf(i as nat);
            lemma_dec_val_of_dec_chars(i as nat);
            let rt = render_unit_spec(u);
            assert(rt.len() >= 2);
            assert(rt[0] == 'M');
            assert(rt.skip(1) =~= d);
            assert(parse_unit_spec(rt) == Some(UnitMemLocation::Mem(i)));
        },
    }
}

/// Writing memory index `k` of empty memory grows it to length exactly
/// k + 1; index `k` then reads back the value written, and every other
/// index still reads 0.
pub proof fn lemma_memory_auto_growth(m: MemModel, k: usize, v: u8, j: nat)
    requires
        m.mem.len() == 0,
    ensures
        loc_write(m, MemLocation { ptr_count: 0, unit_mem: UnitMemLocation::Mem(k) }, v).mem.len()
            == k + 1,
        mem_read(
            loc_write(m, MemLocation { ptr_count: 0, unit_mem: UnitMemLocation::Mem(k) }, v),
            k as nat,
        ) == v,
        j != k as nat ==> mem_read(
            loc_write(m, MemLocation { ptr_count: 0, unit_mem: UnitMemLocation::Mem(k) }, v),
            j,
        ) == 0,
{
    let w = loc_write(m, MemLocation { ptr_count: 0, unit_mem: UnitMemLocation::Mem(k) }, v);
    assert(w.mem =~= m.mem + Seq::new(k as nat, |x: int| 0u8) + seq![v]);
}

/// A tail replace removes the calling frame from the stack before pushing
/// the new one: the stack height is unchanged, the frames below stay, and
/// the caller's frame is gone, so the replaced routine can never resume
/// its caller.
pub proof fn lemma_tail_replace(p: Map<Seq<char>, Seq<Op>>, s: StateModel, name: Seq<char>)
    requires
        s.stack.len() > 0,
        !s.stack.last().skipping,
        s.stack.last().pc < s.stack.last().body.len(),
        s.stack.last().body[s.stack.last().pc as int] == (Op::RSwp { name }),
        p.contains_key(name),
    ensures
        step(p, s) == RunState::Running(
            StateModel {
                stack: s.stack.drop_last().push(FrameModel { body: p[name], pc: 0, skipping: false }),
                ..s
            },
        ),
        s.stack.drop_last().push(FrameModel { body: p[name], pc: 0, skipping: false }).len()
            == s.stack.len(),
        forall|idx: int|
            0 <= idx < s.stack.len() - 1 ==> s.stack.drop_last().push(
                FrameModel { body: p[name], pc: 0, skipping: false },
            )[idx] == s.stack[idx],
{
}

/// Once a run has completed or failed, further steps change nothing.
proof fn lemma_run_absorbs(p: Map<Seq<char>, Seq<Op>>, s: StateModel, n: nat, m: nat)
    requires
        n <= m,
        !(run_n(p, s, n) is Running),
    ensures
        run_n(p, s, m) == run_n(p, s, n),
    decreases m - n,
{
    if n < m {
        lemma_run_absorbs(p, s, n, (m - 1) as nat);
    }
}

/// Execution is deterministic: a run has at most one completed or failed
/// outcome, whatever step counts witness them.
pub proof fn lemma_outcome_unique(p: Map<Seq<char>, Seq<Op>>, s: StateModel, n: nat, m: nat)
    requires
        !(run_n(p, s, n) is Running),
        !(run_n(p, s, m) is Running),
    ensures
        run_n(p, s, n) == run_n(p, s, m),
{
    if n <= m {
        lemma_run_absorbs(p, s, n, m);
    } else {
        lemma_run_absorbs(p, s, m, n);
    }
}

/// Equal programs execute identically from equal states: execution
/// depends only on the program's routine mapping, so a restored program
/// equal to the original gives the same registers, memory and output at
/// every step.
pub proof fn lemma_execution_determined(
    p1: Map<Seq<char>, Seq<Op>>,
    p2: Map<Seq<char>, Seq<Op>>,
    s1: StateModel,
    s2: StateModel,
    n: nat,
)
    requires
        p1 == p2,
        s1 == s2,
    ensures
        run_n(p1, s1, n) == run_n(p2, s2, n),
{
}

} // verus!
