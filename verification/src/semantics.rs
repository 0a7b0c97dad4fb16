//! What a program of the intermediate representation does when the machine runs it.

use vstd::prelude::*;
use crate::field::BABYBEAR_P;
use crate::ir::{Instr, MemIndex, Ptr, Slot, Usize, Var};

verus! {

/// A state of the executing machine: the value of every variable (one field element for
/// native and base-field variables, four for extension ones), the content of every memory
/// cell, the next free address, and the machine's Poseidon2 hash and compression of
/// sequences of cells.
pub struct MachineState {
    pub env: spec_fn(Slot) -> Seq<int>,
    pub mem: spec_fn(int) -> Seq<int>,
    pub heap: int,
    pub hash: spec_fn(Seq<Seq<int>>) -> Seq<Seq<int>>,
    pub compress: spec_fn(Seq<Seq<int>>, Seq<Seq<int>>) -> Seq<Seq<int>>,
}

/// The prime as an integer.
pub open spec fn prime() -> int {
    BABYBEAR_P as int
}

/// The value of a length: a constant's field value, or the variable's.
pub open spec fn usize_value(env: spec_fn(Slot) -> Seq<int>, u: Usize) -> Seq<int> {
    match u {
        Usize::Const(n) => seq![(n as int) % prime()],
        Usize::Var(v) => env(Slot::V(v.id)),
    }
}

/// The value of a native variable.
pub open spec fn scalar(s: MachineState, v: Var) -> int {
    (s.env)(Slot::V(v.id))[0]
}

/// The value of a length, as one field element.
pub open spec fn length(s: MachineState, u: Usize) -> int {
    usize_value(s.env, u)[0]
}

/// The address of the place `index` past `ptr`: `ptr + index * size + offset`, in the field.
pub open spec fn address(s: MachineState, ptr: Ptr, index: MemIndex) -> int {
    (scalar(s, ptr.address) + length(s, index.index) * index.size + index.offset) % prime()
}

/// The state with variable `x` set to `v`.
pub open spec fn with_var(s: MachineState, x: Slot, v: Seq<int>) -> MachineState {
    MachineState { env: |y: Slot| if y == x { v } else { (s.env)(y) }, ..s }
}

/// The state with memory cell `a` set to `v`.
pub open spec fn with_cell(s: MachineState, a: int, v: Seq<int>) -> MachineState {
    MachineState { mem: |b: int| if b == a { v } else { (s.mem)(b) }, ..s }
}

/// The contents of `n` consecutive cells from address `a`.
pub open spec fn read_cells(s: MachineState, a: int, n: nat) -> Seq<Seq<int>> {
    Seq::new(n, |k: int| (s.mem)((a + k) % prime()))
}

/// The state with the cells from address `a` on set to `vals`, the last one written last.
pub open spec fn write_cells(s: MachineState, a: int, vals: Seq<Seq<int>>) -> MachineState
    decreases vals.len(),
{
    if vals.len() == 0 {
        s
    } else {
        let n = vals.len() - 1;
        with_cell(write_cells(s, a, vals.drop_last()), (a + n) % prime(), vals.last())
    }
}

/// The length of an array as a number of cells, or zero when it is not one.
pub open spec fn cell_count(s: MachineState, len: Usize) -> nat {
    if length(s, len) >= 0 {
        length(s, len) as nat
    } else {
        0
    }
}

/// How far a loop counter is from its end.
pub open spec fn distance(i: int, end: int) -> int {
    if i < end {
        end - i
    } else {
        0
    }
}

/// Runs one instruction; `None` when an assertion fails or a loop has step zero.
pub open spec fn step(ins: Instr, s: MachineState) -> Option<MachineState>
    decreases ins, 0int, 0int,
{
    match ins {
        Instr::ImmV(v, c) => Some(with_var(s, Slot::V(v.id), seq![c as int])),
        Instr::ImmF(v, c) => Some(with_var(s, Slot::F(v.id), seq![c as int])),
        Instr::ImmE(v, c) => Some(with_var(s, Slot::E(v.id), c.map_values(|x: u32| x as int))),
        Instr::AddV(d, l, r) => Some(
            with_var(s, Slot::V(d.id), seq![(scalar(s, l) + scalar(s, r)) % prime()]),
        ),
        Instr::SubV(d, l, r) => Some(
            with_var(s, Slot::V(d.id), seq![(scalar(s, l) - scalar(s, r)) % prime()]),
        ),
        Instr::Copy(d, x) => Some(with_var(s, d, (s.env)(x))),
        Instr::Alloc(p, len, size) => Some(
            MachineState {
                heap: s.heap + length(s, len) * size,
                ..with_var(s, Slot::V(p.address.id), seq![s.heap])
            },
        ),
        Instr::Load(d, p, i) => Some(with_var(s, d, (s.mem)(address(s, p, i)))),
        Instr::Store(p, i, x) => Some(with_cell(s, address(s, p, i), (s.env)(x))),
        Instr::AssertEq(l, r) => if (s.env)(l) == (s.env)(r) {
            Some(s)
        } else {
            None
        },
        Instr::AssertNe(l, r) => if (s.env)(l) != (s.env)(r) {
            Some(s)
        } else {
            None
        },
        Instr::AssertEqVI(v, c) => if scalar(s, v) == c as int {
            Some(s)
        } else {
            None
        },
        Instr::For(start, end, st, var, body) => run_loop(
            body,
            var,
            length(s, start),
            length(s, end),
            st as int,
            s,
        ),
        Instr::AddVI(d, l, c) => Some(
            with_var(s, Slot::V(d.id), seq![(scalar(s, l) + c) % prime()]),
        ),
        Instr::MulVI(d, l, c) => Some(
            with_var(s, Slot::V(d.id), seq![(scalar(s, l) * c) % prime()]),
        ),
        Instr::IfEq(l, r, t, e) => if (s.env)(Slot::V(l.id)) == (s.env)(Slot::V(r.id)) {
            run(t, s)
        } else {
            run(e, s)
        },
        Instr::IfEqI(l, c, t, e) => if scalar(s, l) == c as int {
            run(t, s)
        } else {
            run(e, s)
        },
        Instr::IfNe(l, r, t, e) => if (s.env)(Slot::V(l.id)) != (s.env)(Slot::V(r.id)) {
            run(t, s)
        } else {
            run(e, s)
        },
        Instr::IfNeI(l, c, t, e) => if scalar(s, l) != c as int {
            run(t, s)
        } else {
            run(e, s)
        },
        Instr::Ext2Felt(p, _, e) => Some(
            write_cells(
                s,
                scalar(s, p.address),
                Seq::new(4, |k: int| seq![(s.env)(Slot::E(e.id))[k]]),
            ),
        ),
        Instr::Poseidon2Hash(o, ol, i, il) => Some(
            write_cells(
                s,
                scalar(s, o.address),
                (s.hash)(read_cells(s, scalar(s, i.address), cell_count(s, il))),
            ),
        ),
        Instr::Poseidon2Compress(o, ol, l, ll, r, rl) => Some(
            write_cells(
                s,
                scalar(s, o.address),
                (s.compress)(
                    read_cells(s, scalar(s, l.address), cell_count(s, ll)),
                    read_cells(s, scalar(s, r.address), cell_count(s, rl)),
                ),
            ),
        ),
    }
}

/// Runs a loop body for `var = i, i + st, ...` while `var < end`.
pub open spec fn run_loop(
    body: Seq<Instr>,
    var: Var,
    i: int,
    end: int,
    st: int,
    s: MachineState,
) -> Option<MachineState>
    decreases body, 1int, distance(i, end),
{
    if i >= end {
        Some(s)
    } else if st <= 0 {
        None
    } else {
        match run(body, with_var(s, Slot::V(var.id), seq![i])) {
            Some(s1) => run_loop(body, var, i + st, end, st, s1),
            None => None,
        }
    }
}

/// Runs a program from its first instruction to its last; `None` when one fails.
pub open spec fn run(prog: Seq<Instr>, s: MachineState) -> Option<MachineState>
    decreases prog, 0int, 0int,
{
    if prog.len() == 0 {
        Some(s)
    } else {
        match run(prog.drop_last(), s) {
            Some(s1) => step(prog.last(), s1),
            None => None,
        }
    }
}

/// Running two programs one after the other is running their concatenation.
pub proof fn lemma_run_append(a: Seq<Instr>, b: Seq<Instr>, s: MachineState)
    ensures
        run(a + b, s) == match run(a, s) {
            Some(s1) => run(b, s1),
            None => None,
        },
    decreases b.len(),
{
    if b.len() == 0 {
        assert(a + b =~= a);
    } else {
        lemma_run_append(a, b.drop_last(), s);
        assert((a + b).drop_last() =~= a + b.drop_last());
        assert((a + b).last() == b.last());
    }
}

/// A program of one instruction runs that instruction.
pub proof fn lemma_run_one(i: Instr, s: MachineState)
    ensures
        run(seq![i], s) == step(i, s),
{
    assert(seq![i].drop_last() =~= Seq::<Instr>::empty());
    assert(run(Seq::<Instr>::empty(), s) == Some(s));
    assert(seq![i].last() == i);
}

} // verus!
