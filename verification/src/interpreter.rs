//! Memory and register model, call frames, and the execution engine.
//!
//! The addressable state is three 8-bit registers and an auto-growing byte
//! memory; reading out of range yields 0 without growing, writing out of
//! range grows the memory with zero fill. Execution is modelled by a
//! small-step specification (`step`, `run_n`) that the run loop is proved
//! to implement.

use vstd::prelude::*;
use crate::code::{
    dec_chars, CodePoint, ExecError, MemLocation, MemUnit, Op, Routines, UnitMemLocation,
    ValMemLoc,
};

verus! {

/// One routine's ordered, immutable instruction sequence.
#[derive(Debug)]
pub struct CodeBlock {
    pub code: Vec<CodePoint>,
}

impl View for CodeBlock {
    type V = Seq<Op>;

    open spec fn view(&self) -> Seq<Op> {
        self.code@.map_values(|cp: CodePoint| cp@)
    }
}

impl CodeBlock {
    /// An empty instruction sequence.
    pub fn new() -> (r: Self)
        ensures
            r@ == Seq::<Op>::empty(),
    {
        let r = CodeBlock { code: Vec::new() };
        proof {
            assert(r@ =~= Seq::<Op>::empty());
        }
        r
    }

    /// A deep copy whose model equals the original's.
    pub fn duplicate(&self) -> (r: CodeBlock)
        ensures
            r@ == self@,
    {
        let mut code: Vec<CodePoint> = Vec::new();
        let n = self.code.len();
        let mut i: usize = 0;
        while i < n
            invariant
                i <= n == self.code.len(),
                code@.len() == i as int,
                forall|j: int| 0 <= j < i ==> code@[j] == self.code@[j],
            decreases n - i,
        {
            code.push(self.code[i].duplicate());
            i += 1;
        }
        let r = CodeBlock { code };
        proof {
            assert(r.code@ =~= self.code@);
            assert(r@ =~= self@);
        }
        r
    }
}

/// An execution cursor over one routine's instructions, plus its
/// skip-region state.
#[derive(Debug)]
pub struct CodeFrame {
    pub code: CodeBlock,
    pub pc: usize,
    pub skipping: bool,
}

/// The model of a call frame.
#[verifier::ext_equal]
pub struct FrameModel {
    pub body: Seq<Op>,
    pub pc: nat,
    pub skipping: bool,
}

impl View for CodeFrame {
    type V = FrameModel;

    open spec fn view(&self) -> FrameModel {
        FrameModel { body: self.code@, pc: self.pc as nat, skipping: self.skipping }
    }
}

impl CodeFrame {
    /// A fresh frame at the start of `code_block`, outside any skip region.
    pub fn new(code_block: CodeBlock) -> (r: Self)
        ensures
            r@ == (FrameModel { body: code_block@, pc: 0, skipping: false }),
    {
        CodeFrame { code: code_block, pc: 0, skipping: false }
    }
}

/// The three fixed registers.
#[derive(Debug)]
pub struct Registry {
    pub i1: MemUnit,
    pub i2: MemUnit,
    pub o: MemUnit,
}

/// The comparison result written by `CMP`: 0, 1 or 2 for less, equal,
/// greater.
pub open spec fn cmp_val(i1: u8, i2: u8) -> u8 {
    if i1 < i2 {
        0
    } else if i1 == i2 {
        1
    } else {
        2
    }
}

impl Registry {
    /// All registers start at 0.
    pub fn new() -> (r: Self)
        ensures
            r.i1 == 0 && r.i2 == 0 && r.o == 0,
    {
        Registry { i1: 0, i2: 0, o: 0 }
    }

    /// Read one register.
    pub fn get(&self, reg: crate::code::Registry) -> (r: MemUnit)
        ensures
            r == reg_read_regs(*self, reg),
    {
        match reg {
            crate::code::Registry::I1 => self.i1,
            crate::code::Registry::I2 => self.i2,
            crate::code::Registry::O => self.o,
        }
    }

    /// A mutable reference to one register: the register reads its old
    /// value and ends up holding whatever the caller leaves in the
    /// reference.
    pub fn get_mut(&mut self, reg: crate::code::Registry) -> (r: &mut MemUnit)
        ensures
            *r == reg_read_regs(*old(self), reg),
            *final(self) == reg_write_regs(*old(self), reg, *final(r)),
    {
        match reg {
            crate::code::Registry::I1 => &mut self.i1,
            crate::code::Registry::I2 => &mut self.i2,
            crate::code::Registry::O => &mut self.o,
        }
    }

    /// Write one register.
    pub fn set(&mut self, reg: crate::code::Registry, val: MemUnit)
        ensures
            *final(self) == reg_write_regs(*old(self), reg, val),
    {
        match reg {
            crate::code::Registry::I1 => self.i1 = val,
            crate::code::Registry::I2 => self.i2 = val,
            crate::code::Registry::O => self.o = val,
        }
    }

    /// `O = I1 + I2`, wrapping on 8-bit overflow.
    pub fn add(&mut self)
        ensures
            final(self).o == (old(self).i1 + old(self).i2) % 256,
            final(self).i1 == old(self).i1 && final(self).i2 == old(self).i2,
    {
        self.o = ((self.i1 as u16 + self.i2 as u16) % 256) as u8;
    }

    /// `O = I1 - I2`, wrapping on 8-bit underflow.
    pub fn sub(&mut self)
        ensures
            final(self).o == (old(self).i1 - old(self).i2 + 256) % 256,
            final(self).i1 == old(self).i1 && final(self).i2 == old(self).i2,
    {
        self.o = ((self.i1 as u16 + 256 - self.i2 as u16) % 256) as u8;
    }

    /// `O = I1 * I2`, wrapping on 8-bit overflow.
    pub fn mul(&mut self)
        ensures
            final(self).o == (old(self).i1 * old(self).i2) % 256,
            final(self).i1 == old(self).i1 && final(self).i2 == old(self).i2,
    {
        proof {
            assert(self.i1 as int * self.i2 as int <= 255 * 255) by (nonlinear_arith)
                requires
                    self.i1 <= 255,
                    self.i2 <= 255,
            ;
        }
        self.o = ((self.i1 as u32 * self.i2 as u32) % 256) as u8;
    }

    /// `O = I1 / I2`, integer division; division by zero yields 0.
    pub fn div(&mut self)
        ensures
            final(self).o == (if old(self).i2 == 0 {
                0u8
            } else {
                old(self).i1 / old(self).i2
            }),
            final(self).i1 == old(self).i1 && final(self).i2 == old(self).i2,
    {
        if self.i2 == 0 {
            self.o = 0;
        } else {
            self.o = self.i1 / self.i2;
        }
    }

    /// `O = I1 mod I2`; modulo by zero yields 0.
    pub fn modulo(&mut self)
        ensures
            final(self).o == (if old(self).i2 == 0 {
                0u8
            } else {
                old(self).i1 % old(self).i2
            }),
            final(self).i1 == old(self).i1 && final(self).i2 == old(self).i2,
    {
        if self.i2 == 0 {
            self.o = 0;
        } else {
            self.o = self.i1 % self.i2;
        }
    }

    /// Compare `I1` with `I2`: 0 for less, 1 for equal, 2 for greater.
    pub fn cmp(&self) -> (r: u8)
        ensures
            r == cmp_val(self.i1, self.i2),
    {
        if self.i1 < self.i2 {
            0
        } else if self.i1 == self.i2 {
            1
        } else {
            2
        }
    }
}

/// Read one register of a register file.
pub open spec fn reg_read_regs(regs: Registry, r: crate::code::Registry) -> u8 {
    match r {
        crate::code::Registry::I1 => regs.i1,
        crate::code::Registry::I2 => regs.i2,
        crate::code::Registry::O => regs.o,
    }
}

/// Write one register of a register file.
pub open spec fn reg_write_regs(regs: Registry, r: crate::code::Registry, v: u8) -> Registry {
    match r {
        crate::code::Registry::I1 => Registry { i1: v, ..regs },
        crate::code::Registry::I2 => Registry { i2: v, ..regs },
        crate::code::Registry::O => Registry { o: v, ..regs },
    }
}

/// Registers plus an auto-growing linear memory.
#[derive(Debug)]
pub struct Memory {
    pub registry: Registry,
    pub mem: Vec<MemUnit>,
}

/// The model of the addressable state: register values and the memory
/// sequence.
#[verifier::ext_equal]
pub struct MemModel {
    pub i1: u8,
    pub i2: u8,
    pub o: u8,
    pub mem: Seq<u8>,
}

impl View for Memory {
    type V = MemModel;

    open spec fn view(&self) -> MemModel {
        MemModel {
            i1: self.registry.i1,
            i2: self.registry.i2,
            o: self.registry.o,
            mem: self.mem@,
        }
    }
}

/// Read a register of the model.
pub open spec fn reg_read(m: MemModel, r: crate::code::Registry) -> u8 {
    match r {
        crate::code::Registry::I1 => m.i1,
        crate::code::Registry::I2 => m.i2,
        crate::code::Registry::O => m.o,
    }
}

/// Read memory index `i`: out-of-range indices read as 0.
pub open spec fn mem_read(m: MemModel, i: nat) -> u8 {
    if i < m.mem.len() {
        m.mem[i as int]
    } else {
        0
    }
}

/// Read a unit address.
pub open spec fn unit_read(m: MemModel, u: UnitMemLocation) -> u8 {
    match u {
        UnitMemLocation::Registry(r) => reg_read(m, r),
        UnitMemLocation::Mem(i) => mem_read(m, i as nat),
    }
}

/// Chase `hops` further memory hops starting from index `idx`.
pub open spec fn chase_hops(m: MemModel, idx: nat, hops: nat) -> nat
    decreases hops,
{
    if hops == 0 {
        idx
    } else {
        chase_hops(m, mem_read(m, idx) as nat, (hops - 1) as nat)
    }
}

/// Resolve a located address to the unit address it denotes: indirection
/// count 0 keeps the unit address; otherwise the first hop reads the unit
/// address and every later hop is a memory read.
pub open spec fn chase(m: MemModel, loc: MemLocation) -> UnitMemLocation {
    if loc.ptr_count == 0 {
        loc.unit_mem
    } else {
        UnitMemLocation::Mem(
            chase_hops(
                m,
                unit_read(m, loc.unit_mem) as nat,
                (loc.ptr_count - 1) as nat,
            ) as usize,
        )
    }
}

/// Write memory index `i`, growing the sequence with zero fill when `i` is
/// out of range.
pub open spec fn mem_write_seq(mem: Seq<u8>, i: nat, v: u8) -> Seq<u8> {
    if i < mem.len() {
        mem.update(i as int, v)
    } else {
        (mem + Seq::new((i - mem.len()) as nat, |j: int| 0u8)).push(v)
    }
}

/// Write a unit address of the model.
pub open spec fn unit_write(m: MemModel, u: UnitMemLocation, v: u8) -> MemModel {
    match u {
        UnitMemLocation::Registry(crate::code::Registry::I1) => MemModel { i1: v, ..m },
        UnitMemLocation::Registry(crate::code::Registry::I2) => MemModel { i2: v, ..m },
        UnitMemLocation::Registry(crate::code::Registry::O) => MemModel { o: v, ..m },
        UnitMemLocation::Mem(i) => MemModel { mem: mem_write_seq(m.mem, i as nat, v), ..m },
    }
}

/// Read a located address: resolve the indirection, then read the cell.
pub open spec fn loc_read(m: MemModel, loc: MemLocation) -> u8 {
    unit_read(m, chase(m, loc))
}

/// Write a located address: resolve the indirection, then write the cell.
pub open spec fn loc_write(m: MemModel, loc: MemLocation, v: u8) -> MemModel {
    unit_write(m, chase(m, loc), v)
}

impl Memory {
    /// Registers at 0 and an empty memory.
    pub fn new() -> (r: Self)
        ensures
            r@ == (MemModel { i1: 0, i2: 0, o: 0, mem: Seq::<u8>::empty() }),
    {
        let r = Memory { registry: Registry::new(), mem: Vec::new() };
        proof {
            assert(r@ =~= (MemModel { i1: 0, i2: 0, o: 0, mem: Seq::<u8>::empty() }));
        }
        r
    }

    /// Read memory index `index`; out-of-range reads yield 0.
    fn mem_get(&self, index: usize) -> (r: u8)
        ensures
            r == mem_read(self@, index as nat),
    {
        if index < self.mem.len() {
            self.mem[index]
        } else {
            0
        }
    }

    /// Resolve a located address to the unit address it denotes.
    fn pointer_chase(&self, mem_loc: MemLocation) -> (r: UnitMemLocation)
        ensures
            r == chase(self@, mem_loc),
    {
        let MemLocation { ptr_count, unit_mem } = mem_loc;
        if ptr_count == 0 {
            return unit_mem;
        }
        let first = match unit_mem {
            UnitMemLocation::Registry(reg) => self.registry.get(reg),
            UnitMemLocation::Mem(i) => self.mem_get(i),
        };
        let mut index_val: usize = first as usize;
        let mut hop: u8 = 1;
        while hop < ptr_count
            invariant
                1 <= hop <= ptr_count,
                chase_hops(self@, index_val as nat, (ptr_count - hop) as nat) == chase_hops(
                    self@,
                    first as nat,
                    (ptr_count - 1) as nat,
                ),
            decreases ptr_count - hop,
        {
            index_val = self.mem_get(index_val) as usize;
            hop = hop + 1;
        }
        UnitMemLocation::Mem(index_val)
    }

    /// Read the value at a located address.
    pub fn get(&self, loc: MemLocation) -> (r: MemUnit)
        ensures
            r == loc_read(self@, loc),
    {
        match self.pointer_chase(loc) {
            UnitMemLocation::Registry(reg) => self.registry.get(reg),
            UnitMemLocation::Mem(i) => self.mem_get(i),
        }
    }

    /// Write `val` at a located address, growing memory as needed.
    pub fn set(&mut self, loc: MemLocation, val: MemUnit)
        ensures
            final(self)@ == loc_write(old(self)@, loc, val),
    {
        let ghost m0 = self@;
        match self.pointer_chase(loc) {
            UnitMemLocation::Registry(reg) => {
                self.registry.set(reg, val);
                proof {
                    assert(self@ =~= loc_write(m0, loc, val));
                }
            },
            UnitMemLocation::Mem(index) => {
                if index < self.mem.len() {
                    self.mem[index] = val;
                } else {
                    let ghost old_mem = self.mem@;
                    while self.mem.len() <= index
                        invariant
                            self.mem@.len() <= index + 1,
                            old_mem.len() <= self.mem@.len(),
                            self.mem@ == old_mem + Seq::new(
                                (self.mem@.len() - old_mem.len()) as nat,
                                |j: int| 0u8,
                            ),
                            self.registry == old(self).registry,
                        decreases index - self.mem@.len() + 1,
                    {
                        proof {
                            assert(self.mem@.push(0u8) =~= old_mem + Seq::new(
                                (self.mem@.len() + 1 - old_mem.len()) as nat,
                                |j: int| 0u8,
                            ));
                        }
                        self.mem.push(0);
                    }
                    self.mem[index] = val;
                }
                proof {
                    assert(self@.mem =~= mem_write_seq(m0.mem, index as nat, val));
                    assert(self@ =~= loc_write(m0, loc, val));
                }
            },
        }
    }
}

// ---------------------------------------------------------------------------
// Small-step execution model.
// ---------------------------------------------------------------------------

/// The model of the whole machine: addressable state, call stack, output.
#[verifier::ext_equal]
pub struct StateModel {
    pub mem: MemModel,
    pub stack: Seq<FrameModel>,
    pub out: Seq<char>,
}

/// The value denoted by a value-or-located-address operand.
pub open spec fn vml_val(m: MemModel, s: ValMemLoc) -> u8 {
    match s {
        ValMemLoc::MemLoc(l) => loc_read(m, l),
        ValMemLoc::Value(v) => v,
    }
}

/// The outcome after some number of steps: still running, complete (the
/// call stack emptied), or stuck on an undeclared routine name.
#[verifier::ext_equal]
pub enum RunState {
    Running(StateModel),
    Done(StateModel),
    Stuck(StateModel),
}

/// One step of the machine: pop an exhausted frame, skip an instruction
/// inside a skip region, or dispatch the current instruction.
pub open spec fn step(p: Map<Seq<char>, Seq<Op>>, s: StateModel) -> RunState {
    if s.stack.len() == 0 {
        RunState::Done(s)
    } else {
        let f = s.stack.last();
        let rest = s.stack.drop_last();
        if f.pc >= f.body.len() {
            RunState::Running(StateModel { stack: rest, ..s })
        } else {
            let op = f.body[f.pc as int];
            let adv = FrameModel { pc: f.pc + 1, ..f };
            if f.skipping {
                if op is Land {
                    RunState::Running(
                        StateModel { stack: rest.push(FrameModel { skipping: false, ..adv }), ..s },
                    )
                } else {
                    RunState::Running(StateModel { stack: rest.push(adv), ..s })
                }
            } else {
                match op {
                    Op::SetLit { dest, value } => RunState::Running(
                        StateModel { mem: loc_write(s.mem, dest, value), stack: rest.push(adv), ..s },
                    ),
                    Op::Cpy { dest, source } => RunState::Running(
                        StateModel {
                            mem: loc_write(s.mem, dest, loc_read(s.mem, source)),
                            stack: rest.push(adv),
                            ..s
                        },
                    ),
                    Op::Add => RunState::Running(
                        StateModel {
                            mem: MemModel { o: ((s.mem.i1 + s.mem.i2) % 256) as u8, ..s.mem },
                            stack: rest.push(adv),
                            ..s
                        },
                    ),
                    Op::Sub => RunState::Running(
                        StateModel {
                            mem: MemModel { o: ((s.mem.i1 - s.mem.i2 + 256) % 256) as u8, ..s.mem },
                            stack: rest.push(adv),
                            ..s
                        },
                    ),
                    Op::Mul => RunState::Running(
                        StateModel {
                            mem: MemModel { o: ((s.mem.i1 * s.mem.i2) % 256) as u8, ..s.mem },
                            stack: rest.push(adv),
                            ..s
                        },
                    ),
                    Op::Div => RunState::Running(
                        StateModel {
                            mem: MemModel {
                                o: if s.mem.i2 == 0 {
                                    0u8
                                } else {
                                    (s.mem.i1 / s.mem.i2) as u8
                                },
                                ..s.mem
                            },
                            stack: rest.push(adv),
                            ..s
                        },
                    ),
                    Op::Mod => RunState::Running(
                        StateModel {
                            mem: MemModel {
                                o: if s.mem.i2 == 0 {
                                    0u8
                                } else {
                                    (s.mem.i1 % s.mem.i2) as u8
                                },
                                ..s.mem
                            },
                            stack: rest.push(adv),
                            ..s
                        },
                    ),
                    Op::Cmp => RunState::Running(
                        StateModel {
                            mem: MemModel { o: cmp_val(s.mem.i1, s.mem.i2), ..s.mem },
                            stack: rest.push(adv),
                            ..s
                        },
                    ),
                    Op::BJmp { cond } => RunState::Running(
                        StateModel {
                            stack: rest.push(
                                FrameModel { skipping: loc_read(s.mem, cond) != 0, ..adv },
                            ),
                            ..s
                        },
                    ),
                    Op::Land => RunState::Running(StateModel { stack: rest.push(adv), ..s }),
                    Op::RAdd { name } => if p.contains_key(name) {
                        RunState::Running(
                            StateModel {
                                stack: rest.push(adv).push(
                                    FrameModel { body: p[name], pc: 0, skipping: false },
                                ),
                                ..s
                            },
                        )
                    } else {
                        RunState::Stuck(s)
                    },
                    Op::RSwp { name } => if p.contains_key(name) {
                        RunState::Running(
                            StateModel {
                                stack: rest.push(
                                    FrameModel { body: p[name], pc: 0, skipping: false },
                                ),
                                ..s
                            },
                        )
                    } else {
                        RunState::Stuck(s)
                    },
                    Op::Term => RunState::Running(StateModel { stack: rest, ..s }),
                    Op::Print { source } => RunState::Running(
                        StateModel {
                            out: s.out + dec_chars(vml_val(s.mem, source) as nat),
                            stack: rest.push(adv),
                            ..s
                        },
                    ),
                    Op::PrintC { source } => RunState::Running(
                        StateModel {
                            out: s.out.push(vml_val(s.mem, source) as char),
                            stack: rest.push(adv),
                            ..s
                        },
                    ),
                }
            }
        }
    }
}

/// The outcome after `n` steps from state `s`: completion and failure are
/// absorbing.
pub open spec fn run_n(p: Map<Seq<char>, Seq<Op>>, s: StateModel, n: nat) -> RunState
    decreases n,
{
    if n == 0 {
        RunState::Running(s)
    } else {
        match run_n(p, s, (n - 1) as nat) {
            RunState::Running(s2) => step(p, s2),
            r => r,
        }
    }
}

/// The state `s` with a fresh frame for `body` pushed on the call stack.
pub open spec fn start_state(s: StateModel, body: Seq<Op>) -> StateModel {
    StateModel { stack: s.stack.push(FrameModel { body, pc: 0, skipping: false }), ..s }
}

/// Whether a bounded run ended by completing, or by exhausting its step
/// budget.
#[derive(Debug, Copy, Clone, PartialEq, Eq, Structural)]
pub enum RunStatus {
    Completed,
    OutOfFuel,
}

/// Append the decimal rendering of `v` to `out`.
fn push_decimal_chars(out: &mut Vec<char>, v: u8)
    ensures
        final(out)@ == old(out)@ + dec_chars(v as nat),
{
    if v >= 100 {
        out.push((48 + v / 100) as char);
        out.push((48 + (v / 10) % 10) as char);
        out.push((48 + v % 10) as char);
        proof {
            let vn = v as nat;
            assert((v as int / 10) / 10 == v as int / 100) by (nonlinear_arith);
            assert(vn / 10 >= 10);
            assert(vn / 100 < 10);
            assert(dec_chars(vn / 100) =~= seq![((48 + vn / 100) as u8) as char]);
            assert(dec_chars(vn / 10) == dec_chars((vn / 10) / 10).push(
                ((48 + (vn / 10) % 10) as u8) as char,
            ));
            assert(dec_chars(vn) == dec_chars(vn / 10).push(((48 + vn % 10) as u8) as char));
            assert(dec_chars(vn) =~= seq![
                ((48 + vn / 100) as u8) as char,
                ((48 + (vn / 10) % 10) as u8) as char,
                ((48 + vn % 10) as u8) as char,
            ]);
            assert(final(out)@ =~= old(out)@ + dec_chars(v as nat));
        }
    } else if v >= 10 {
        out.push((48 + v / 10) as char);
        out.push((48 + v % 10) as char);
        proof {
            let vn = v as nat;
            assert(vn / 10 < 10);
            assert(dec_chars(vn / 10) =~= seq![((48 + vn / 10) as u8) as char]);
            assert(dec_chars(vn) == dec_chars(vn / 10).push(((48 + vn % 10) as u8) as char));
            assert(dec_chars(vn) =~= seq![
                ((48 + vn / 10) as u8) as char,
                ((48 + vn % 10) as u8) as char,
            ]);
            assert(final(out)@ =~= old(out)@ + dec_chars(v as nat));
        }
    } else {
        out.push((48 + v) as char);
        proof {
            assert(dec_chars(v as nat) =~= seq![((48 + v as nat) as u8) as char]);
            assert(final(out)@ =~= old(out)@ + dec_chars(v as nat));
        }
    }
}

/// The interpreter: exclusively owned registers, memory, call stack and
/// output buffer.
#[derive(Debug)]
pub struct Interpreter {
    pub memory: Memory,
    pub runtime_stack: Vec<CodeFrame>,
    pub output: Vec<char>,
}

impl View for Interpreter {
    type V = StateModel;

    open spec fn view(&self) -> StateModel {
        StateModel {
            mem: self.memory@,
            stack: self.runtime_stack@.map_values(|f: CodeFrame| f@),
            out: self.output@,
        }
    }
}

impl Interpreter {
    /// A fresh machine: registers 0, empty memory, empty stack, no output.
    pub fn new() -> (r: Self)
        ensures
            r@ == (StateModel {
                mem: MemModel { i1: 0, i2: 0, o: 0, mem: Seq::<u8>::empty() },
                stack: Seq::<FrameModel>::empty(),
                out: Seq::<char>::empty(),
            }),
    {
        let r = Interpreter {
            memory: Memory::new(),
            runtime_stack: Vec::new(),
            output: Vec::new(),
        };
        proof {
            assert(r@ =~= (StateModel {
                mem: MemModel { i1: 0, i2: 0, o: 0, mem: Seq::<u8>::empty() },
                stack: Seq::<FrameModel>::empty(),
                out: Seq::<char>::empty(),
            }));
        }
        r
    }

    /// A fresh frame for the named routine, or the undeclared-routine
    /// error.
    fn make_code_frame(routines: &Routines, routine_name: &str) -> (r: Result<
        CodeFrame,
        ExecError,
    >)
        requires
            routines.wf(),
        ensures
            match r {
                Ok(f) => routines@.contains_key(routine_name@) && f@ == (FrameModel {
                    body: routines@[routine_name@],
                    pc: 0,
                    skipping: false,
                }),
                Err(e) => e == ExecError::UndeclaredRoutine && !routines@.contains_key(
                    routine_name@,
                ),
            },
    {
        match routines.get_routine(routine_name) {
            Some(cb) => Ok(CodeFrame::new(cb.duplicate())),
            None => Err(ExecError::UndeclaredRoutine),
        }
    }

    /// Run routine `Main` for at most `fuel` machine steps.
    pub fn execute(&mut self, routines: &Routines, fuel: u64) -> (r: Result<
        RunStatus,
        ExecError,
    >)
        requires
            routines.wf(),
        ensures
            !routines@.contains_key("Main"@) ==> r == Err::<RunStatus, ExecError>(
                ExecError::UndeclaredRoutine,
            ) && *final(self) == *old(self),
            routines@.contains_key("Main"@) ==> run_contract(
                routines@,
                start_state(old(self)@, routines@["Main"@]),
                final(self)@,
                fuel,
                r,
            ),
    {
        self.execute_routine("Main", routines, fuel)
    }

    /// Run the named routine for at most `fuel` machine steps.
    pub fn execute_routine(&mut self, routine_name: &str, routines: &Routines, fuel: u64) -> (r:
        Result<RunStatus, ExecError>)
        requires
            routines.wf(),
        ensures
            !routines@.contains_key(routine_name@) ==> r == Err::<RunStatus, ExecError>(
                ExecError::UndeclaredRoutine,
            ) && *final(self) == *old(self),
            routines@.contains_key(routine_name@) ==> run_contract(
                routines@,
                start_state(old(self)@, routines@[routine_name@]),
                final(self)@,
                fuel,
                r,
            ),
    {
        let frame = match Interpreter::make_code_frame(routines, routine_name) {
            Ok(f) => f,
            Err(e) => {
                return Err(e);
            },
        };
        self.runtime_stack.push(frame);
        proof {
            assert(self@ =~= start_state(old(self)@, routines@[routine_name@]));
        }
        self.run(routines, fuel)
    }

    /// The run loop: repeatedly take one machine step until the stack
    /// empties, a routine lookup fails, or the step budget runs out.
    #[verifier::rlimit(100)]
    fn run(&mut self, routines: &Routines, fuel: u64) -> (r: Result<RunStatus, ExecError>)
        requires
            routines.wf(),
        ensures
            run_contract(routines@, old(self)@, final(self)@, fuel, r),
    {
        let ghost init = old(self)@;
        let ghost p = routines@;
        let ghost mut n: nat = 0nat;
        let mut steps: u64 = 0;
        loop
            invariant
                routines.wf(),
                p == routines@,
                init == old(self)@,
                steps as nat == n,
                n <= fuel as nat,
                run_n(p, init, n) == RunState::Running(self@),
            decreases fuel - steps,
        {
            let ghost pre = self@;
            let stack_len = self.runtime_stack.len();
            if stack_len == 0 {
                proof {
                    assert(run_n(p, init, n + 1) == RunState::Done(self@));
                    assert(exists|m: nat| run_n(p, init, m) == RunState::Done(self@)) by {
                        assert(run_n(p, init, n + 1) == RunState::Done(self@));
                    }
                }
                return Ok(RunStatus::Completed);
            }
            if steps == fuel {
                return Ok(RunStatus::OutOfFuel);
            }
            let mut frame = self.runtime_stack.pop().unwrap();
            let ghost fpre = pre.stack.last();
            proof {
                assert(frame@ == fpre);
                assert(self.runtime_stack@.map_values(|f: CodeFrame| f@) =~= pre.stack.drop_last());
            }
            let body_len = frame.code.code.len();
            if frame.pc >= body_len {
                // The frame's instructions are exhausted: implicit return.
                proof {
                    assert(self@ =~= (StateModel { stack: pre.stack.drop_last(), ..pre }));
                    assert(step(p, pre) == RunState::Running(self@));
                    assert(run_n(p, init, n + 1) == RunState::Running(self@));
                    n = n + 1;
                }
                steps = steps + 1;
                continue;
            }
            let ghost op = fpre.body[fpre.pc as int];
            let ghost adv = FrameModel { pc: fpre.pc + 1, ..fpre };
            proof {
                assert(op == frame.code.code@[frame.pc as int]@);
            }
            if frame.skipping {
                let is_land = match &frame.code.code[frame.pc] {
                    CodePoint::Land => true,
                    _ => false,
                };
                frame.pc = frame.pc + 1;
                if is_land {
                    frame.skipping = false;
                    proof {
                        assert(frame@ =~= (FrameModel { skipping: false, ..adv }));
                    }
                } else {
                    proof {
                        assert(frame@ =~= adv);
                    }
                }
                self.runtime_stack.push(frame);
                proof {
                    assert(self@ =~= (StateModel {
                        stack: pre.stack.drop_last().push(frame@),
                        ..pre
                    }));
                    assert(step(p, pre) == RunState::Running(self@));
                    assert(run_n(p, init, n + 1) == RunState::Running(self@));
                    n = n + 1;
                }
                steps = steps + 1;
                continue;
            }
            let next = match &frame.code.code[frame.pc] {
                CodePoint::SetLit { dest, value } => {
                    let d = *dest;
                    let v = *value;
                    frame.pc = frame.pc + 1;
                    self.runtime_stack.push(frame);
                    self.memory.set(d, v);
                    proof {
                        assert(self@ =~= (StateModel {
                            mem: loc_write(pre.mem, d, v),
                            stack: pre.stack.drop_last().push(adv),
                            ..pre
                        }));
                        assert(step(p, pre) == RunState::Running(self@));
                    }
                    None
                },
                CodePoint::Cpy { dest, source } => {
                    let d = *dest;
                    let src = *source;
                    frame.pc = frame.pc + 1;
                    self.runtime_stack.push(frame);
                    let data = self.memory.get(src);
                    self.memory.set(d, data);
                    proof {
                        assert(self@ =~= (StateModel {
                            mem: loc_write(pre.mem, d, loc_read(pre.mem, src)),
                            stack: pre.stack.drop_last().push(adv),
                            ..pre
                        }));
                        assert(step(p, pre) == RunState::Running(self@));
                    }
                    None
                },
                CodePoint::Add => {
                    frame.pc = frame.pc + 1;
                    self.runtime_stack.push(frame);
                    self.memory.registry.add();
                    proof {
                        assert(self@ =~= (StateModel {
                            mem: MemModel { o: ((pre.mem.i1 + pre.mem.i2) % 256) as u8, ..pre.mem },
                            stack: pre.stack.drop_last().push(adv),
                            ..pre
                        }));
                        assert(step(p, pre) == RunState::Running(self@));
                    }
                    None
                },
                CodePoint::Sub => {
                    frame.pc = frame.pc + 1;
                    self.runtime_stack.push(frame);
                    self.memory.registry.sub();
                    proof {
                        assert(self@ =~= (StateModel {
                            mem: MemModel {
                                o: ((pre.mem.i1 - pre.mem.i2 + 256) % 256) as u8,
                                ..pre.mem
                            },
                            stack: pre.stack.drop_last().push(adv),
                            ..pre
                        }));
                        assert(step(p, pre) == RunState::Running(self@));
                    }
                    None
                },
                CodePoint::Mul => {
                    frame.pc = frame.pc + 1;
                    self.runtime_stack.push(frame);
                    self.memory.registry.mul();
                    proof {
                        assert(self@ =~= (StateModel {
                            mem: MemModel { o: ((pre.mem.i1 * pre.mem.i2) % 256) as u8, ..pre.mem },
                            stack: pre.stack.drop_last().push(adv),
                            ..pre
                        }));
                        assert(step(p, pre) == RunState::Running(self@));
                    }
                    None
                },
                CodePoint::Div => {
                    frame.pc = frame.pc + 1;
                    self.runtime_stack.push(frame);
                    self.memory.registry.div();
                    proof {
                        assert(self@ =~= (StateModel {
                            mem: MemModel {
                                o: if pre.mem.i2 == 0 {
                                    0u8
                                } else {
                                    (pre.mem.i1 / pre.mem.i2) as u8
                                },
                                ..pre.mem
                            },
                            stack: pre.stack.drop_last().push(adv),
                            ..pre
                        }));
                        assert(step(p, pre) == RunState::Running(self@));
                    }
                    None
                },
                CodePoint::Mod => {
                    frame.pc = frame.pc + 1;
                    self.runtime_stack.push(frame);
                    self.memory.registry.modulo();
                    proof {
                        assert(self@ =~= (StateModel {
                            mem: MemModel {
                                o: if pre.mem.i2 == 0 {
                                    0u8
                                } else {
                                    (pre.mem.i1 % pre.mem.i2) as u8
                                },
                                ..pre.mem
                            },
                            stack: pre.stack.drop_last().push(adv),
                            ..pre
                        }));
                        assert(step(p, pre) == RunState::Running(self@));
                    }
                    None
                },
                CodePoint::Cmp => {
                    frame.pc = frame.pc + 1;
                    self.runtime_stack.push(frame);
                    let c = self.memory.registry.cmp();
                    self.memory.registry.o = c;
                    proof {
                        assert(self@ =~= (StateModel {
                            mem: MemModel { o: cmp_val(pre.mem.i1, pre.mem.i2), ..pre.mem },
                            stack: pre.stack.drop_last().push(adv),
                            ..pre
                        }));
                        assert(step(p, pre) == RunState::Running(self@));
                    }
                    None
                },
                CodePoint::BJmp { cond } => {
                    let c = *cond;
                    let data = self.memory.get(c);
                    frame.pc = frame.pc + 1;
                    frame.skipping = data != 0;
                    self.runtime_stack.push(frame);
                    proof {
                        assert(self@ =~= (StateModel {
                            stack: pre.stack.drop_last().push(
                                FrameModel { skipping: loc_read(pre.mem, c) != 0, ..adv },
                            ),
                            ..pre
                        }));
                        assert(step(p, pre) == RunState::Running(self@));
                    }
                    None
                },
                CodePoint::Land => {
                    frame.pc = frame.pc + 1;
                    self.runtime_stack.push(frame);
                    proof {
                        assert(self@ =~= (StateModel {
                            stack: pre.stack.drop_last().push(adv),
                            ..pre
                        }));
                        assert(step(p, pre) == RunState::Running(self@));
                    }
                    None
                },
                CodePoint::RAdd { name } => {
                    let ghost nm = name@;
                    match Interpreter::make_code_frame(routines, name.as_str()) {
                        Ok(new_frame) => {
                            frame.pc = frame.pc + 1;
                            self.runtime_stack.push(frame);
                            self.runtime_stack.push(new_frame);
                            proof {
                                assert(self@ =~= (StateModel {
                                    stack: pre.stack.drop_last().push(adv).push(
                                        FrameModel { body: p[nm], pc: 0, skipping: false },
                                    ),
                                    ..pre
                                }));
                                assert(step(p, pre) == RunState::Running(self@));
                            }
                            None
                        },
                        Err(_) => {
                            self.runtime_stack.push(frame);
                            proof {
                                assert(self@ =~= pre);
                                assert(step(p, pre) == RunState::Stuck(pre));
                            }
                            Some(())
                        },
                    }
                },
                CodePoint::RSwp { name } => {
                    let ghost nm = name@;
                    match Interpreter::make_code_frame(routines, name.as_str()) {
                        Ok(new_frame) => {
                            self.runtime_stack.push(new_frame);
                            proof {
                                assert(self@ =~= (StateModel {
                                    stack: pre.stack.drop_last().push(
                                        FrameModel { body: p[nm], pc: 0, skipping: false },
                                    ),
                                    ..pre
                                }));
                                assert(step(p, pre) == RunState::Running(self@));
                            }
                            None
                        },
                        Err(_) => {
                            self.runtime_stack.push(frame);
                            proof {
                                assert(self@ =~= pre);
                                assert(step(p, pre) == RunState::Stuck(pre));
                            }
                            Some(())
                        },
                    }
                },
                CodePoint::Term => {
                    proof {
                        assert(self@ =~= (StateModel { stack: pre.stack.drop_last(), ..pre }));
                        assert(step(p, pre) == RunState::Running(self@));
                    }
                    None
                },
                CodePoint::Print { source } => {
                    let src = *source;
                    frame.pc = frame.pc + 1;
                    self.runtime_stack.push(frame);
                    let v = match src {
                        ValMemLoc::MemLoc(l) => self.memory.get(l),
                        ValMemLoc::Value(lit) => lit,
                    };
                    push_decimal_chars(&mut self.output, v);
                    proof {
                        assert(self@ =~= (StateModel {
                            out: pre.out + dec_chars(vml_val(pre.mem, src) as nat),
                            stack: pre.stack.drop_last().push(adv),
                            ..pre
                        }));
                        assert(step(p, pre) == RunState::Running(self@));
                    }
                    None
                },
                CodePoint::PrintC { source } => {
                    let src = *source;
                    frame.pc = frame.pc + 1;
                    self.runtime_stack.push(frame);
                    let v = match src {
                        ValMemLoc::MemLoc(l) => self.memory.get(l),
                        ValMemLoc::Value(lit) => lit,
                    };
                    self.output.push(v as char);
                    proof {
                        assert(self@ =~= (StateModel {
                            out: pre.out.push(vml_val(pre.mem, src) as char),
                            stack: pre.stack.drop_last().push(adv),
                            ..pre
                        }));
                        assert(step(p, pre) == RunState::Running(self@));
                    }
                    None
                },
            };
            if next.is_some() {
                proof {
                    assert(run_n(p, init, n + 1) == RunState::Stuck(self@));
                    assert(exists|m: nat| run_n(p, init, m) == RunState::Stuck(self@)) by {
                        assert(run_n(p, init, n + 1) == RunState::Stuck(self@));
                    }
                }
                return Err(ExecError::UndeclaredRoutine);
            }
            proof {
                assert(run_n(p, init, n + 1) == RunState::Running(self@));
                n = n + 1;
            }
            steps = steps + 1;
        }
    }
}

/// What a bounded run promises: on completion or failure the final state
/// is reached from the initial one by machine steps; on an exhausted step
/// budget the final state is exactly the state after `fuel` steps.
pub open spec fn run_contract(
    p: Map<Seq<char>, Seq<Op>>,
    init: StateModel,
    fin: StateModel,
    fuel: u64,
    r: Result<RunStatus, ExecError>,
) -> bool {
    &&& (r == Ok::<RunStatus, ExecError>(RunStatus::Completed) ==> exists|m: nat|
        run_n(p, init, m) == RunState::Done(fin))
    &&& (r == Ok::<RunStatus, ExecError>(RunStatus::OutOfFuel) ==> run_n(p, init, fuel as nat)
        == RunState::Running(fin) && fin.stack.len() > 0)
    &&& (r is Err ==> r == Err::<RunStatus, ExecError>(ExecError::UndeclaredRoutine) && exists|
        m: nat|
        run_n(p, init, m) == RunState::Stuck(fin))
}

} // verus!
