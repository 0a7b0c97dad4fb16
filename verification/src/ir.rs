//! Variables, instructions and the builder that records them.

use vstd::prelude::*;
use crate::field::{BABYBEAR_P, felt_from_usize, felt_of_nat};
use crate::semantics::{MachineState, run, scalar, prime, length, with_var, usize_value};
use crate::digest::lemma_run_push;

verus! {

/// A variable of the native field.
#[derive(Clone, Copy, PartialEq, Eq, Debug)]
pub struct Var {
    pub id: u32,
}

/// A variable of the base field of the proof system.
#[derive(Clone, Copy, PartialEq, Eq, Debug)]
pub struct Felt {
    pub id: u32,
}

/// A variable of the degree-four extension field.
#[derive(Clone, Copy, PartialEq, Eq, Debug)]
pub struct Ext {
    pub id: u32,
}

/// A pointer into the memory of the executing machine; its address lives in a native variable.
#[derive(Clone, Copy, PartialEq, Eq, Debug)]
pub struct Ptr {
    pub address: Var,
}

/// A length or index that is either known while building or held in a native variable.
#[derive(Clone, Copy, PartialEq, Eq, Debug)]
pub enum Usize {
    Const(usize),
    Var(Var),
}

/// The place `index * size + offset` cells past a pointer.
#[derive(Clone, Copy, PartialEq, Eq, Debug)]
pub struct MemIndex {
    pub index: Usize,
    pub offset: usize,
    pub size: usize,
}

/// A storage place of the executing machine: a native, base-field or extension variable.
#[derive(Clone, Copy, PartialEq, Eq, Debug)]
pub enum Slot {
    V(u32),
    F(u32),
    E(u32),
}

/// An instruction of the intermediate representation.
#[derive(PartialEq, Eq, Debug)]
pub enum DslIr {
    /// `dst := c` for a native variable; `c` is a canonical field value.
    ImmV(Var, u32),
    /// `dst := c` for a base-field variable.
    ImmF(Felt, u32),
    /// `dst := c` for an extension variable, given by its four coefficients.
    ImmE(Ext, [u32; 4]),
    /// `dst := lhs + rhs` on native variables.
    AddV(Var, Var, Var),
    /// `dst := lhs - rhs` on native variables.
    SubV(Var, Var, Var),
    /// `dst := src`; both places have the same kind.
    Copy(Slot, Slot),
    /// `ptr := ` a fresh region of `len * size` cells.
    Alloc(Ptr, Usize, usize),
    /// `dst := mem[ptr + index * size + offset]`.
    Load(Slot, Ptr, MemIndex),
    /// `mem[ptr + index * size + offset] := src`.
    Store(Ptr, MemIndex, Slot),
    /// Fails unless the two places hold equal values.
    AssertEq(Slot, Slot),
    /// Fails if the two places hold equal values.
    AssertNe(Slot, Slot),
    /// Fails unless the native variable holds the constant.
    AssertEqVI(Var, u32),
    /// `for var in start..end step` over the body.
    For(Usize, Usize, u32, Var, Vec<DslIr>),
    /// `dst := lhs + c` on native variables.
    AddVI(Var, Var, u32),
    /// `dst := lhs * c` on native variables.
    MulVI(Var, Var, u32),
    /// Runs the first body if the two native variables are equal, else the second.
    IfEq(Var, Var, Vec<DslIr>, Vec<DslIr>),
    /// Runs the first body if the native variable holds the constant, else the second.
    IfEqI(Var, u32, Vec<DslIr>, Vec<DslIr>),
    /// Runs the first body if the two native variables differ, else the second.
    IfNe(Var, Var, Vec<DslIr>, Vec<DslIr>),
    /// Runs the first body if the native variable does not hold the constant, else the second.
    IfNeI(Var, u32, Vec<DslIr>, Vec<DslIr>),
    /// Writes the four base-field coefficients of an extension variable to the array.
    Ext2Felt(Ptr, Usize, Ext),
    /// Writes the Poseidon2 hash of the second array to the first.
    Poseidon2Hash(Ptr, Usize, Ptr, Usize),
    /// Writes the Poseidon2 compression of the second and third arrays to the first.
    Poseidon2Compress(Ptr, Usize, Ptr, Usize, Ptr, Usize),
}

/// The mathematical model of an instruction: the same shape, with loop bodies as sequences.
pub enum Instr {
    ImmV(Var, u32),
    ImmF(Felt, u32),
    ImmE(Ext, Seq<u32>),
    AddV(Var, Var, Var),
    SubV(Var, Var, Var),
    Copy(Slot, Slot),
    Alloc(Ptr, Usize, usize),
    Load(Slot, Ptr, MemIndex),
    Store(Ptr, MemIndex, Slot),
    AssertEq(Slot, Slot),
    AssertNe(Slot, Slot),
    AssertEqVI(Var, u32),
    For(Usize, Usize, u32, Var, Seq<Instr>),
    AddVI(Var, Var, u32),
    MulVI(Var, Var, u32),
    IfEq(Var, Var, Seq<Instr>, Seq<Instr>),
    IfEqI(Var, u32, Seq<Instr>, Seq<Instr>),
    IfNe(Var, Var, Seq<Instr>, Seq<Instr>),
    IfNeI(Var, u32, Seq<Instr>, Seq<Instr>),
    Ext2Felt(Ptr, Usize, Ext),
    Poseidon2Hash(Ptr, Usize, Ptr, Usize),
    Poseidon2Compress(Ptr, Usize, Ptr, Usize, Ptr, Usize),
}

/// The model of one instruction.
pub open spec fn instr_model(d: DslIr) -> Instr
    decreases d,
{
    match d {
        DslIr::ImmV(v, c) => Instr::ImmV(v, c),
        DslIr::ImmF(v, c) => Instr::ImmF(v, c),
        DslIr::ImmE(v, c) => Instr::ImmE(v, c@),
        DslIr::AddV(d, l, r) => Instr::AddV(d, l, r),
        DslIr::SubV(d, l, r) => Instr::SubV(d, l, r),
        DslIr::Copy(d, s) => Instr::Copy(d, s),
        DslIr::Alloc(p, l, s) => Instr::Alloc(p, l, s),
        DslIr::Load(d, p, i) => Instr::Load(d, p, i),
        DslIr::Store(p, i, s) => Instr::Store(p, i, s),
        DslIr::AssertEq(l, r) => Instr::AssertEq(l, r),
        DslIr::AssertNe(l, r) => Instr::AssertNe(l, r),
        DslIr::AssertEqVI(v, c) => Instr::AssertEqVI(v, c),
        DslIr::For(s, e, st, v, body) => Instr::For(s, e, st, v, program_model(body@)),
        DslIr::AddVI(d, l, c) => Instr::AddVI(d, l, c),
        DslIr::MulVI(d, l, c) => Instr::MulVI(d, l, c),
        DslIr::IfEq(l, r, t, e) => Instr::IfEq(l, r, program_model(t@), program_model(e@)),
        DslIr::IfEqI(l, r, t, e) => Instr::IfEqI(l, r, program_model(t@), program_model(e@)),
        DslIr::IfNe(l, r, t, e) => Instr::IfNe(l, r, program_model(t@), program_model(e@)),
        DslIr::IfNeI(l, r, t, e) => Instr::IfNeI(l, r, program_model(t@), program_model(e@)),
        DslIr::Ext2Felt(p, l, e) => Instr::Ext2Felt(p, l, e),
        DslIr::Poseidon2Hash(o, ol, i, il) => Instr::Poseidon2Hash(o, ol, i, il),
        DslIr::Poseidon2Compress(o, ol, l, ll, r, rl) => Instr::Poseidon2Compress(o, ol, l, ll, r, rl),
    }
}

/// The model of a sequence of instructions.
pub open spec fn program_model(s: Seq<DslIr>) -> Seq<Instr>
    decreases s,
{
    if s.len() == 0 {
        Seq::empty()
    } else {
        program_model(s.drop_last()).push(instr_model(s.last()))
    }
}

/// Appending an instruction appends its model.
pub proof fn lemma_program_model_push(s: Seq<DslIr>, d: DslIr)
    ensures
        program_model(s.push(d)) == program_model(s).push(instr_model(d)),
{
    assert(s.push(d).drop_last() =~= s);
}

/// The condition of a branch.
#[derive(Clone, Copy, PartialEq, Eq, Debug)]
pub enum Cond {
    /// The two native variables are equal.
    Eq(Var, Var),
    /// The native variable holds the constant.
    EqI(Var, u32),
    /// The two native variables differ.
    Ne(Var, Var),
    /// The native variable does not hold the constant.
    NeI(Var, u32),
}

/// The branch instruction on a condition with its two bodies.
pub open spec fn branch_instr(cond: Cond, t: Seq<Instr>, e: Seq<Instr>) -> Instr {
    match cond {
        Cond::Eq(l, r) => Instr::IfEq(l, r, t, e),
        Cond::EqI(l, c) => Instr::IfEqI(l, c, t, e),
        Cond::Ne(l, r) => Instr::IfNe(l, r, t, e),
        Cond::NeI(l, c) => Instr::IfNeI(l, c, t, e),
    }
}

/// The counters of variables that a builder has handed out, one per kind.
pub struct Counts {
    pub v: nat,
    pub f: nat,
    pub e: nat,
}

impl Counts {
    pub open spec fn zero() -> Counts {
        Counts { v: 0, f: 0, e: 0 }
    }

    pub open spec fn vars(n: nat) -> Counts {
        Counts { v: n, f: 0, e: 0 }
    }

    pub open spec fn add(self, o: Counts) -> Counts {
        Counts { v: self.v + o.v, f: self.f + o.f, e: self.e + o.e }
    }

    /// `k` copies of these counters, added up.
    pub open spec fn times(self, k: nat) -> Counts
        decreases k,
    {
        if k == 0 {
            Counts::zero()
        } else {
            self.times((k - 1) as nat).add(self)
        }
    }

    pub open spec fn le(self, o: Counts) -> bool {
        self.v <= o.v && self.f <= o.f && self.e <= o.e
    }

    /// Every counter still fits in a `u32`.
    pub open spec fn fits(self) -> bool {
        self.v <= u32::MAX && self.f <= u32::MAX && self.e <= u32::MAX
    }

    /// Whether a slot was handed out under these counters.
    pub open spec fn has(self, s: Slot) -> bool {
        match s {
            Slot::V(i) => i < self.v,
            Slot::F(i) => i < self.f,
            Slot::E(i) => i < self.e,
        }
    }
}

pub open spec fn var_slot(v: Var) -> Slot {
    Slot::V(v.id)
}

/// The native variable numbered by a counter value.
pub open spec fn var_at(n: nat) -> Var {
    Var { id: n as u32 }
}

/// The field value of a constant length.
pub open spec fn usize_felt(n: usize) -> u32 {
    felt_of_nat(n as nat)
}

/// Records the instructions of a program and hands out fresh variables.
pub struct Builder {
    pub var_count: u32,
    pub felt_count: u32,
    pub ext_count: u32,
    pub operations: Vec<DslIr>,
}

impl Builder {
    pub open spec fn counts(&self) -> Counts {
        Counts { v: self.var_count as nat, f: self.felt_count as nat, e: self.ext_count as nat }
    }

    pub open spec fn ops(&self) -> Seq<Instr> {
        program_model(self.operations@)
    }

    /// Room for `w` more variables of each kind.
    pub open spec fn room(&self, w: Counts) -> bool {
        self.counts().add(w).fits()
    }

    /// An empty program with no variables handed out.
    pub fn new() -> (b: Builder)
        ensures
            b.counts() == Counts::zero(),
            b.ops() == Seq::<Instr>::empty(),
    {
        Builder { var_count: 0, felt_count: 0, ext_count: 0, operations: Vec::new() }
    }

    /// Appends one instruction.
    pub fn push(&mut self, op: DslIr)
        ensures
            final(self).ops() == old(self).ops().push(instr_model(op)),
            final(self).counts() == old(self).counts(),
    {
        proof {
            lemma_program_model_push(self.operations@, op);
        }
        self.operations.push(op);
    }

    /// A fresh native variable.
    pub fn uninit_var(&mut self) -> (r: Var)
        requires
            old(self).room(Counts::vars(1)),
        ensures
            r == var_at(old(self).counts().v),
            final(self).counts() == old(self).counts().add(Counts::vars(1)),
            final(self).ops() == old(self).ops(),
    {
        let r = Var { id: self.var_count };
        self.var_count = self.var_count + 1;
        r
    }

    /// A fresh base-field variable.
    pub fn uninit_felt(&mut self) -> (r: Felt)
        requires
            old(self).room(Counts { v: 0, f: 1, e: 0 }),
        ensures
            r.id == old(self).counts().f,
            final(self).counts() == old(self).counts().add(Counts { v: 0, f: 1, e: 0 }),
            final(self).ops() == old(self).ops(),
    {
        let r = Felt { id: self.felt_count };
        self.felt_count = self.felt_count + 1;
        r
    }

    /// A fresh extension variable.
    pub fn uninit_ext(&mut self) -> (r: Ext)
        requires
            old(self).room(Counts { v: 0, f: 0, e: 1 }),
        ensures
            r.id == old(self).counts().e,
            final(self).counts() == old(self).counts().add(Counts { v: 0, f: 0, e: 1 }),
            final(self).ops() == old(self).ops(),
    {
        let r = Ext { id: self.ext_count };
        self.ext_count = self.ext_count + 1;
        r
    }

    /// A fresh native variable that holds the constant `c`.
    pub fn eval_const_var(&mut self, c: u32) -> (r: Var)
        requires
            old(self).room(Counts::vars(1)),
        ensures
            r == var_at(old(self).counts().v),
            final(self).counts() == old(self).counts().add(Counts::vars(1)),
            final(self).ops() == old(self).ops().push(Instr::ImmV(r, c)),
            forall|s: MachineState|
                #[trigger] run(final(self).ops(), s) == match run(old(self).ops(), s) {
                    Some(t) => Some(with_var(t, Slot::V(r.id), seq![c as int])),
                    None => None,
                },
    {
        let r = self.uninit_var();
        self.push(DslIr::ImmV(r, c));
        proof {
            assert forall|s: MachineState| #[trigger] run(self.ops(), s) == match run(old(self).ops(), s) {
                Some(t) => Some(with_var(t, Slot::V(r.id), seq![c as int])),
                None => None,
            } by {
                lemma_run_push(old(self).ops(), Instr::ImmV(r, c), s);
            }
        }
        r
    }

    /// The native variable that holds a length: a fresh one for a constant, else its own.
    pub fn materialize(&mut self, u: Usize) -> (r: Var)
        requires
            old(self).room(Counts::vars(1)),
        ensures
            (r, final(self).counts(), final(self).ops()) == materialize_effect(
                u,
                old(self).counts(),
                old(self).ops(),
            ),
    {
        match u {
            Usize::Const(n) => {
                let c = felt_from_usize(n);
                self.eval_const_var(c)
            },
            Usize::Var(v) => v,
        }
    }

    /// `dst := src` for a length held in a native variable.
    pub fn assign_usize(&mut self, dst: Var, src: Usize)
        ensures
            final(self).counts() == old(self).counts(),
            final(self).ops() == old(self).ops().push(assign_usize_op(dst, src)),
            forall|s: MachineState|
                #[trigger] run(final(self).ops(), s) == match run(old(self).ops(), s) {
                    Some(t) => Some(with_var(t, Slot::V(dst.id), usize_value(t.env, src))),
                    None => None,
                },
    {
        proof {
            assert forall|s: MachineState| #[trigger] run(old(self).ops().push(assign_usize_op(dst, src)), s) == match run(old(self).ops(), s) {
                Some(t) => Some(with_var(t, Slot::V(dst.id), usize_value(t.env, src))),
                None => None,
            } by {
                lemma_run_push(old(self).ops(), assign_usize_op(dst, src), s);
                if let Usize::Const(n) = src {
                    assert(felt_of_nat(n as nat) as int == (n as int) % prime());
                }
            }
        }
        match src {
            Usize::Const(n) => {
                let c = felt_from_usize(n);
                self.push(DslIr::ImmV(dst, c));
            },
            Usize::Var(v) => {
                self.push(DslIr::Copy(Slot::V(dst.id), Slot::V(v.id)));
            },
        }
    }

    /// `lhs + rhs` into a fresh native variable.
    pub fn eval_add(&mut self, lhs: Var, rhs: Var) -> (r: Var)
        requires
            old(self).room(Counts::vars(1)),
        ensures
            r == var_at(old(self).counts().v),
            final(self).counts() == old(self).counts().add(Counts::vars(1)),
            final(self).ops() == old(self).ops().push(Instr::AddV(r, lhs, rhs)),
            forall|s: MachineState|
                #[trigger] run(final(self).ops(), s) == match run(old(self).ops(), s) {
                    Some(t) => Some(
                        with_var(t, Slot::V(r.id), seq![(scalar(t, lhs) + scalar(t, rhs)) % prime()]),
                    ),
                    None => None,
                },
    {
        let r = self.uninit_var();
        self.push(DslIr::AddV(r, lhs, rhs));
        proof {
            assert forall|s: MachineState| #[trigger] run(self.ops(), s) == match run(old(self).ops(), s) {
                Some(t) => Some(
                    with_var(t, Slot::V(r.id), seq![(scalar(t, lhs) + scalar(t, rhs)) % prime()]),
                ),
                None => None,
            } by {
                lemma_run_push(old(self).ops(), Instr::AddV(r, lhs, rhs), s);
            }
        }
        r
    }

    /// `lhs - rhs` into a fresh native variable.
    pub fn eval_sub(&mut self, lhs: Var, rhs: Var) -> (r: Var)
        requires
            old(self).room(Counts::vars(1)),
        ensures
            r == var_at(old(self).counts().v),
            final(self).counts() == old(self).counts().add(Counts::vars(1)),
            final(self).ops() == old(self).ops().push(Instr::SubV(r, lhs, rhs)),
            forall|s: MachineState|
                #[trigger] run(final(self).ops(), s) == match run(old(self).ops(), s) {
                    Some(t) => Some(
                        with_var(t, Slot::V(r.id), seq![(scalar(t, lhs) - scalar(t, rhs)) % prime()]),
                    ),
                    None => None,
                },
    {
        let r = self.uninit_var();
        self.push(DslIr::SubV(r, lhs, rhs));
        proof {
            assert forall|s: MachineState| #[trigger] run(self.ops(), s) == match run(old(self).ops(), s) {
                Some(t) => Some(
                    with_var(t, Slot::V(r.id), seq![(scalar(t, lhs) - scalar(t, rhs)) % prime()]),
                ),
                None => None,
            } by {
                lemma_run_push(old(self).ops(), Instr::SubV(r, lhs, rhs), s);
            }
        }
        r
    }

    /// A builder for a loop body: the same counters and no instructions yet.
    pub fn sub_builder(&self) -> (r: Builder)
        ensures
            r.counts() == self.counts(),
            r.ops() == Seq::<Instr>::empty(),
    {
        Builder {
            var_count: self.var_count,
            felt_count: self.felt_count,
            ext_count: self.ext_count,
            operations: Vec::new(),
        }
    }

    /// Closes a loop `for var in start..end` step one over the body built in `body`,
    /// and takes over the counters the body reached.
    pub fn close_loop(&mut self, start: Usize, end: Usize, var: Var, body: Builder)
        ensures
            final(self).ops() == old(self).ops().push(Instr::For(start, end, 1, var, body.ops())),
            final(self).counts() == body.counts(),
    {
        let step = felt_from_usize(1);
        assert(felt_of_nat(1) == 1) by {
            assert(1nat % (BABYBEAR_P as nat) == 1);
        }
        self.push(DslIr::For(start, end, step, var, body.operations));
        self.var_count = body.var_count;
        self.felt_count = body.felt_count;
        self.ext_count = body.ext_count;
    }

    /// Closes a branch on `cond` with the bodies built in `then_body` and `else_body`, the
    /// second built after the first, and takes over the counters the second reached.
    pub fn close_if(&mut self, cond: Cond, then_body: Builder, else_body: Builder)
        ensures
            final(self).ops() == old(self).ops().push(
                branch_instr(cond, then_body.ops(), else_body.ops()),
            ),
            final(self).counts() == else_body.counts(),
    {
        let op = match cond {
            Cond::Eq(l, r) => DslIr::IfEq(l, r, then_body.operations, else_body.operations),
            Cond::EqI(l, c) => DslIr::IfEqI(l, c, then_body.operations, else_body.operations),
            Cond::Ne(l, r) => DslIr::IfNe(l, r, then_body.operations, else_body.operations),
            Cond::NeI(l, c) => DslIr::IfNeI(l, c, then_body.operations, else_body.operations),
        };
        self.push(op);
        self.var_count = else_body.var_count;
        self.felt_count = else_body.felt_count;
        self.ext_count = else_body.ext_count;
    }

    /// A fresh pointer to a new region of `len` entries of `size` cells each.
    pub fn allocate(&mut self, len: Usize, size: usize) -> (r: Ptr)
        requires
            old(self).room(Counts::vars(1)),
        ensures
            r == (Ptr { address: var_at(old(self).counts().v) }),
            final(self).counts() == old(self).counts().add(Counts::vars(1)),
            final(self).ops() == old(self).ops().push(Instr::Alloc(r, len, size)),
            forall|s: MachineState|
                #[trigger] run(final(self).ops(), s) == match run(old(self).ops(), s) {
                    Some(t) => Some(
                        MachineState {
                            heap: t.heap + length(t, len) * size,
                            ..with_var(t, Slot::V(r.address.id), seq![t.heap])
                        },
                    ),
                    None => None,
                },
    {
        let address = self.uninit_var();
        let r = Ptr { address };
        self.push(DslIr::Alloc(r, len, size));
        proof {
            assert forall|s: MachineState| #[trigger] run(self.ops(), s) == match run(old(self).ops(), s) {
                Some(t) => Some(
                    MachineState {
                        heap: t.heap + length(t, len) * size,
                        ..with_var(t, Slot::V(r.address.id), seq![t.heap])
                    },
                ),
                None => None,
            } by {
                lemma_run_push(old(self).ops(), Instr::Alloc(r, len, size), s);
            }
        }
        r
    }
}

/// What materializing a length does to a builder's counters and program.
pub open spec fn materialize_effect(u: Usize, c: Counts, ops: Seq<Instr>) -> (Var, Counts, Seq<Instr>) {
    match u {
        Usize::Const(n) => (
            var_at(c.v),
            c.add(Counts::vars(1)),
            ops.push(Instr::ImmV(var_at(c.v), usize_felt(n))),
        ),
        Usize::Var(v) => (v, c, ops),
    }
}

/// The instruction that stores a length into a native variable.
pub open spec fn assign_usize_op(dst: Var, src: Usize) -> Instr {
    match src {
        Usize::Const(n) => Instr::ImmV(dst, usize_felt(n)),
        Usize::Var(v) => Instr::Copy(Slot::V(dst.id), Slot::V(v.id)),
    }
}

} // verus!
