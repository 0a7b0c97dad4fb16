//! What the program that digests the tables of one height does when the machine runs it.

use vstd::prelude::*;
use vstd::arithmetic::div_mod::{lemma_small_mod, lemma_add_mod_noop_right};
use crate::ir::{Counts, Ext, Felt, Instr, MemIndex, Ptr, Slot, Usize, Var, var_at};
use crate::semantics::{
    MachineState, run, run_loop, step, address, prime, scalar, length, with_var, write_cells,
    distance, lemma_run_append, lemma_run_one,
};
use crate::variable::{MemVariable, load_ops, index_plus};
use crate::collections::{Array, ArrayModel, get_ops, set_ops, dyn_array_effect, model_len};
use crate::fri::{Dimensions, felts, felts_effect, unpack_ops, reduce_effect, reduce_uses, FLATTENED_CAPACITY, DIGEST_SIZE};
use crate::laws::{cell_address, law_dyn_array};

verus! {

/// One more instruction after a program: it runs once the program has.
pub open spec fn then_step(o: Option<MachineState>, i: Instr) -> Option<MachineState> {
    match o {
        Some(t) => step(i, t),
        None => None,
    }
}

/// Running a program and then one instruction is running the longer program.
pub proof fn lemma_run_push(p: Seq<Instr>, i: Instr, t: MachineState)
    ensures
        run(p.push(i), t) == then_step(run(p, t), i),
{
    assert(p.push(i).drop_last() =~= p);
}

/// Writing cells leaves the variables and the free address as they were.
pub proof fn lemma_write_cells_keeps(s: MachineState, a: int, vals: Seq<Seq<int>>)
    ensures
        write_cells(s, a, vals).env == s.env,
        write_cells(s, a, vals).heap == s.heap,
        write_cells(s, a, vals).hash == s.hash,
        write_cells(s, a, vals).compress == s.compress,
    decreases vals.len(),
{
    if vals.len() > 0 {
        lemma_write_cells_keeps(s, a, vals.drop_last());
    }
}

/// Writing cells from `a` on, below the prime, leaves each cell below `a` as it was.
pub proof fn lemma_write_cells_frame(s: MachineState, a: int, vals: Seq<Seq<int>>, b: int)
    requires
        0 <= b < a,
        a + vals.len() <= prime(),
    ensures
        (write_cells(s, a, vals).mem)(b) == (s.mem)(b),
    decreases vals.len(),
{
    if vals.len() > 0 {
        lemma_write_cells_frame(s, a, vals.drop_last(), b);
        lemma_small_mod((a + (vals.len() - 1)) as nat, prime() as nat);
    }
}

/// One instruction keeps the machine's hash.
pub proof fn lemma_step_keeps_hash(ins: Instr, s: MachineState)
    ensures
        step(ins, s) matches Some(t) ==> t.hash == s.hash && t.compress == s.compress,
    decreases ins, 0int, 0int,
{
    match ins {
        Instr::For(start, end, st, var, body) => {
            lemma_loop_keeps_hash(body, var, length(s, start), length(s, end), st as int, s);
        },
        Instr::IfEq(l, r, a, b) => {
            lemma_run_keeps_hash(a, s);
            lemma_run_keeps_hash(b, s);
        },
        Instr::IfEqI(l, r, a, b) => {
            lemma_run_keeps_hash(a, s);
            lemma_run_keeps_hash(b, s);
        },
        Instr::IfNe(l, r, a, b) => {
            lemma_run_keeps_hash(a, s);
            lemma_run_keeps_hash(b, s);
        },
        Instr::IfNeI(l, r, a, b) => {
            lemma_run_keeps_hash(a, s);
            lemma_run_keeps_hash(b, s);
        },
        Instr::Ext2Felt(p, _, e) => {
            lemma_write_cells_keeps(s, scalar(s, p.address), Seq::new(4, |k: int| seq![(s.env)(Slot::E(e.id))[k]]));
        },
        Instr::Poseidon2Hash(o, ol, i, il) => {
            lemma_write_cells_keeps(
                s,
                scalar(s, o.address),
                (s.hash)(crate::semantics::read_cells(s, scalar(s, i.address), crate::semantics::cell_count(s, il))),
            );
        },
        Instr::Poseidon2Compress(o, ol, l, ll, r, rl) => {
            lemma_write_cells_keeps(
                s,
                scalar(s, o.address),
                (s.compress)(
                    crate::semantics::read_cells(s, scalar(s, l.address), crate::semantics::cell_count(s, ll)),
                    crate::semantics::read_cells(s, scalar(s, r.address), crate::semantics::cell_count(s, rl)),
                ),
            );
        },
        _ => {},
    }
}

/// A program keeps the machine's hash.
pub proof fn lemma_run_keeps_hash(p: Seq<Instr>, s: MachineState)
    ensures
        run(p, s) matches Some(t) ==> t.hash == s.hash && t.compress == s.compress,
    decreases p, 0int, 0int,
{
    if p.len() > 0 {
        lemma_run_keeps_hash(p.drop_last(), s);
        if let Some(s1) = run(p.drop_last(), s) {
            lemma_step_keeps_hash(p.last(), s1);
        }
    }
}

/// A loop keeps the machine's hash.
pub proof fn lemma_loop_keeps_hash(body: Seq<Instr>, var: Var, i: int, end: int, st: int, s: MachineState)
    ensures
        run_loop(body, var, i, end, st, s) matches Some(t) ==> t.hash == s.hash && t.compress == s.compress,
    decreases body, 1int, distance(i, end),
{
    if i < end && st > 0 {
        let s0 = with_var(s, Slot::V(var.id), seq![i]);
        lemma_run_keeps_hash(body, s0);
        if let Some(s1) = run(body, s0) {
            lemma_loop_keeps_hash(body, var, i + st, end, st, s1);
        }
    }
}

/// Every cell below `h` holds the same in both memories.
pub open spec fn same_below(m1: spec_fn(int) -> Seq<int>, m2: spec_fn(int) -> Seq<int>, h: int) -> bool {
    forall|b: int| 0 <= b < h ==> #[trigger] m1(b) == m2(b)
}

/// Writing cells from `a` on, below the prime, puts `vals[m]` at `a + m`.
pub proof fn lemma_write_cells_value(s: MachineState, a: int, vals: Seq<Seq<int>>, m: int)
    requires
        0 <= a,
        a + vals.len() <= prime(),
        0 <= m < vals.len(),
    ensures
        (write_cells(s, a, vals).mem)(cell_at(a, m)) == vals[m],
    decreases vals.len(),
{
    let n = vals.len() - 1;
    lemma_small_mod((a + m) as nat, prime() as nat);
    lemma_small_mod((a + n) as nat, prime() as nat);
    if m < n {
        lemma_write_cells_value(s, a, vals.drop_last(), m);
    }
}

/// The first `d` coefficients of an extension value, one cell each.
pub open spec fn coeffs(v: Seq<int>, d: nat) -> Seq<Seq<int>> {
    Seq::new(d, |m: int| seq![v[m]])
}

/// A counter that steps by one in the field stays between zero and one more than it was.
proof fn lemma_step_bound(x: int)
    requires
        0 <= x,
    ensures
        0 <= (x + 1) % prime() <= x + 1,
        x + 1 < prime() ==> (x + 1) % prime() == x + 1,
{
    if x + 1 < prime() {
        lemma_small_mod((x + 1) as nat, prime() as nat);
    }
}

/// Every cell from `lo` up to the prime holds the same in both memories.
pub open spec fn same_above(m1: spec_fn(int) -> Seq<int>, m2: spec_fn(int) -> Seq<int>, lo: int) -> bool {
    forall|b: int| lo <= b < prime() ==> #[trigger] m1(b) == m2(b)
}

/// The cell `k` places past `base`, in the field.
pub open spec fn cell_at(base: int, k: int) -> int {
    (base + k) % prime()
}

/// The `k` cells from `base` on.
pub open spec fn cells_from(mem: spec_fn(int) -> Seq<int>, base: int, k: nat) -> Seq<Seq<int>> {
    Seq::new(k, |m: int| mem(cell_at(base, m)))
}

/// The cells from `n` places past `base` on hold `vals`.
pub open spec fn holds_at(mem: spec_fn(int) -> Seq<int>, base: int, n: int, vals: Seq<Seq<int>>) -> bool {
    forall|m: int| 0 <= m < vals.len() ==> mem(cell_at(base, n + m)) == #[trigger] vals[m]
}

/// Copying `k` coefficients from the array at `src` into the array at `dst`, from the
/// element numbered by `nb` on: the run always ends, changes only fresh base-field
/// variables and `nb`, and moves `nb` on by at most `k`; when `dst + nb + k` stays below
/// the prime, it moves `nb` on by exactly `k`, writes only the `k` cells from `dst + nb`
/// on, and, when these lie below `src`, fills them with the first `k` cells at `src`.
proof fn lemma_unpack_run(src: Ptr, dst: Ptr, nb: Var, c: Counts, k: nat, h0: int, t: MachineState)
    requires
        c.add(felts(2 * k)).fits(),
        c.has(Slot::V(nb.id)),
        c.has(Slot::V(dst.address.id)),
        c.has(Slot::V(src.address.id)),
        dst.address.id != nb.id,
        src.address.id != nb.id,
        scalar(t, dst.address) == h0,
        0 <= h0,
        0 <= scalar(t, nb),
    ensures
        run(unpack_ops(src, dst, nb, c, k), t) matches Some(t2) && {
            &&& t2.heap == t.heap
            &&& forall|x: Slot| c.has(x) && x != Slot::V(nb.id) ==> (t2.env)(x) == (t.env)(x)
            &&& 0 <= scalar(t2, nb) <= scalar(t, nb) + k
            &&& h0 + scalar(t, nb) + k < prime() ==> {
                &&& scalar(t2, nb) == scalar(t, nb) + k
                &&& same_below(t2.mem, t.mem, h0 + scalar(t, nb))
                &&& same_above(t2.mem, t.mem, h0 + scalar(t, nb) + k)
                &&& (h0 + scalar(t, nb) + k <= scalar(t, src.address) && scalar(t, src.address) + k
                    <= prime()) ==> holds_at(
                    t2.mem,
                    h0,
                    scalar(t, nb),
                    cells_from(t.mem, scalar(t, src.address), k),
                )
            }
        },
    decreases k,
{
    if k == 0 {
        assert(unpack_ops(src, dst, nb, c, k) =~= Seq::<Instr>::empty());
    } else {
        let km = (k - 1) as nat;
        let ck = c.add(felts(2 * km));
        lemma_unpack_run(src, dst, nb, c, km, h0, t);
        let pre = unpack_ops(src, dst, nb, c, km);
        let tm = run(pre, t).unwrap();
        let fa = Slot::F(ck.f as u32);
        let fb = Slot::F((ck.f + 1) as u32);
        let ixs = MemIndex { index: Usize::Const(km as usize), offset: 0, size: 1 };
        let ld = Instr::Load(fa, src, ixs);
        let ix = MemIndex { index: Usize::Var(nb), offset: 0, size: 1 };
        let cp = Instr::Copy(fb, fa);
        let st = Instr::Store(dst, ix, fb);
        let ad = Instr::AddVI(nb, nb, 1);
        assert(get_ops::<Felt>(src, Usize::Const(km as usize), ck) =~= seq![ld]);
        assert(set_ops::<Felt>(dst, Usize::Var(nb), Felt::fresh_at(ck), ck.add(felts(1))) =~= seq![cp, st]);
        assert(unpack_ops(src, dst, nb, c, k) =~= pre.push(ld).push(cp).push(st).push(ad));
        lemma_run_push(pre, ld, t);
        lemma_run_push(pre.push(ld), cp, t);
        lemma_run_push(pre.push(ld).push(cp), st, t);
        lemma_run_push(pre.push(ld).push(cp).push(st), ad, t);
        let ta = step(ld, tm).unwrap();
        let tb = step(cp, ta).unwrap();
        let tc = step(st, tb).unwrap();
        let td = step(ad, tc).unwrap();
        assert(!c.has(fa) && !c.has(fb));
        let n = scalar(tm, nb);
        let n0 = scalar(t, nb);
        assert(scalar(tb, nb) == n);
        assert((tm.env)(Slot::V(dst.address.id)) == (t.env)(Slot::V(dst.address.id)));
        assert((tm.env)(Slot::V(src.address.id)) == (t.env)(Slot::V(src.address.id)));
        let sv = scalar(t, src.address);
        assert(scalar(tb, dst.address) == h0);
        assert(n * 1 == n) by (nonlinear_arith);
        assert(address(tb, dst, ix) == (h0 + n) % prime());
        lemma_step_bound(n);
        assert(scalar(td, nb) == (n + 1) % prime());
        assert forall|x: Slot| c.has(x) && x != Slot::V(nb.id) implies (td.env)(x) == (t.env)(x) by {
            assert(x != fa && x != fb);
        }
        if h0 + n0 + k < prime() {
            assert(n == n0 + km);
            let w = h0 + n;
            lemma_small_mod(w as nat, prime() as nat);
            assert(address(tb, dst, ix) == w);
            assert(tc.mem == (|b: int| if b == w { (tb.env)(fb) } else { (tb.mem)(b) }));
            assert forall|b: int| 0 <= b < h0 + n0 implies #[trigger] (td.mem)(b) == (t.mem)(b) by {
                assert(b != w);
            }
            assert forall|b: int| h0 + n0 + k <= b < prime() implies #[trigger] (td.mem)(b) == (t.mem)(b) by {
                assert(b != w);
            }
            if h0 + n0 + k <= sv && sv + k <= prime() {
                lemma_small_mod(km as nat, prime() as nat);
                assert(length(tm, Usize::Const(km as usize)) == km);
                assert(km * 1 == km) by (nonlinear_arith);
                assert(address(tm, src, ixs) == cell_at(sv, km as int));
                lemma_small_mod((sv + km) as nat, prime() as nat);
                assert(cell_at(sv, km as int) == sv + km);
                assert((tm.mem)(sv + km) == (t.mem)(sv + km));
                assert((tb.env)(fb) == (t.mem)(cell_at(sv, km as int)));
                let vals = cells_from(t.mem, sv, k);
                let pv = cells_from(t.mem, sv, km);
                assert forall|m: int| 0 <= m < vals.len() implies (td.mem)(cell_at(h0, n0 + m)) == #[trigger] vals[m] by {
                    lemma_small_mod((h0 + n0 + m) as nat, prime() as nat);
                    if m < km {
                        assert(pv[m] == vals[m]);
                        assert((tm.mem)(cell_at(h0, n0 + m)) == pv[m]);
                    }
                }
            }
        }
    }
}

/// The instructions that flatten element `j` of the row at `row` onto the array at `flat`,
/// `d` coefficients of it from the element numbered by `nb` on, under counters `c7`.
pub open spec fn elem_ops(d: nat, row: Ptr, j: Var, nb: Var, flat: Ptr, c7: Counts) -> Seq<Instr> {
    let e = Ext::fresh_at(c7);
    let c8 = c7.add(Ext::width());
    let (fe, c9, o9) = felts_effect(4, c8, get_ops::<Ext>(row, Usize::Var(j), c7));
    o9.push(Instr::Ext2Felt(fe->Dyn_0, fe->Dyn_1, e)) + unpack_ops(fe->Dyn_0, flat, nb, c9, d)
}

/// Flattening one element: the run always ends, takes four cells from the free address,
/// changes only fresh variables and `nb`, keeps `flat + nb` within the free address, and,
/// when the free address stays below the prime, writes no cell below `h0 = flat`.
proof fn lemma_elem_run(d: nat, row: Ptr, j: Var, nb: Var, flat: Ptr, c7: Counts, h0: int, t: MachineState)
    requires
        c7.add(Ext::width()).add(Counts::vars(2)).add(felts(2 * d)).fits(),
        c7.has(Slot::V(nb.id)),
        c7.has(Slot::V(flat.address.id)),
        c7.has(Slot::V(j.id)),
        flat.address.id != nb.id,
        d <= 4,
        scalar(t, flat.address) == h0,
        0 <= h0,
        0 <= scalar(t, nb),
        h0 + scalar(t, nb) + d <= t.heap,
    ensures
        run(elem_ops(d, row, j, nb, flat, c7), t) matches Some(t2) && {
            &&& t2.heap == t.heap + 4
            &&& forall|x: Slot| c7.has(x) && x != Slot::V(nb.id) ==> (t2.env)(x) == (t.env)(x)
            &&& 0 <= scalar(t2, nb)
            &&& h0 + scalar(t2, nb) + d <= t2.heap
            &&& t2.heap < prime() ==> {
                &&& scalar(t2, nb) == scalar(t, nb) + d
                &&& same_below(t2.mem, t.mem, h0 + scalar(t, nb))
                &&& holds_at(
                    t2.mem,
                    h0,
                    scalar(t, nb),
                    coeffs((t.mem)(cell_at(scalar(t, row.address), scalar(t, j))), d),
                )
            }
        },
{
    let e = Ext::fresh_at(c7);
    let c8 = c7.add(Ext::width());
    let g = get_ops::<Ext>(row, Usize::Var(j), c7);
    let (fe, c9, o9) = felts_effect(4, c8, g);
    let (fe2, c92, a) = dyn_array_effect::<Felt>(Usize::Const(4), c8, Seq::empty());
    assert(fe2 == fe && c92 == c9);
    assert(o9 =~= g + a);
    let ld = Instr::Load(Slot::E(e.id), row, MemIndex { index: Usize::Var(j), offset: 0, size: 1 });
    assert(g =~= seq![ld]);
    let x2f = Instr::Ext2Felt(fe->Dyn_0, fe->Dyn_1, e);
    let u = unpack_ops(fe->Dyn_0, flat, nb, c9, d);
    assert(elem_ops(d, row, j, nb, flat, c7) =~= (g + a).push(x2f) + u);
    lemma_run_append((g + a).push(x2f), u, t);
    lemma_run_push(g + a, x2f, t);
    lemma_run_append(g, a, t);
    lemma_run_one(ld, t);
    let t1 = step(ld, t).unwrap();
    law_dyn_array::<Felt>(Usize::Const(4), c8, t1);
    let t2 = run(a, t1).unwrap();
    lemma_small_mod(4, prime() as nat);
    assert(length(t1, Usize::Const(4)) == 4);
    assert(t2.heap == t.heap + 4);
    assert(scalar(t2, fe->Dyn_0.address) == t.heap);
    let t3 = step(x2f, t2).unwrap();
    let vals = Seq::new(4, |k: int| seq![(t2.env)(Slot::E(e.id))[k]]);
    assert(t3 == write_cells(t2, t.heap, vals));
    assert(!c7.has(Slot::E(e.id)));
    assert forall|x: Slot| c7.has(x) implies (t2.env)(x) == (t.env)(x) by {
        assert(c8.has(x));
        assert(x != Slot::E(e.id));
    }
    lemma_write_cells_keeps(t2, t.heap, vals);
    assert(c9.has(Slot::V(fe->Dyn_0.address.id)));
    assert(scalar(t3, flat.address) == h0);
    assert(scalar(t3, nb) == scalar(t, nb));
    lemma_unpack_run(fe->Dyn_0, flat, nb, c9, d, h0, t3);
    let t4 = run(u, t3).unwrap();
    assert forall|x: Slot| c7.has(x) && x != Slot::V(nb.id) implies (t4.env)(x) == (t.env)(x) by {
        assert(c9.has(x));
    }
    if t4.heap < prime() {
        let n = scalar(t, nb);
        assert forall|b: int| 0 <= b < h0 + n implies #[trigger] (t4.mem)(b) == (t.mem)(b) by {
            lemma_write_cells_frame(t2, t.heap, vals, b);
        }
        let v = (t.mem)(cell_at(scalar(t, row.address), scalar(t, j)));
        assert(scalar(t, j) * 1 == scalar(t, j)) by (nonlinear_arith);
        assert((t1.env)(Slot::E(e.id)) == v);
        assert(c8.has(Slot::E(e.id)));
        assert((t2.env)(Slot::E(e.id)) == v);
        assert(scalar(t3, fe->Dyn_0.address) == t.heap);
        let cf = cells_from(t3.mem, t.heap, d);
        assert forall|m: int| 0 <= m < d implies #[trigger] cf[m] == coeffs(v, d)[m] by {
            lemma_write_cells_value(t2, t.heap, vals, m);
        }
        assert(cf =~= coeffs(v, d));
    }
}

/// The coefficients of the elements from `lo` up to `hi` of the row whose cells start at
/// `base`, `d` of each, in turn.
pub open spec fn row_values(mem: spec_fn(int) -> Seq<int>, base: int, lo: int, hi: int, d: nat) -> Seq<
    Seq<int>,
>
    decreases hi - lo,
{
    if lo >= hi {
        Seq::empty()
    } else {
        coeffs(mem(cell_at(base, lo)), d) + row_values(mem, base, lo + 1, hi, d)
    }
}

/// The number of values of a row from `lo` up to `hi`.
proof fn lemma_row_values_len(mem: spec_fn(int) -> Seq<int>, base: int, lo: int, hi: int, d: nat)
    ensures
        row_values(mem, base, lo, hi, d).len() == d * distance(lo, hi),
    decreases hi - lo,
{
    if lo < hi {
        lemma_row_values_len(mem, base, lo + 1, hi, d);
        assert(d * distance(lo, hi) == d + d * distance(lo + 1, hi)) by (nonlinear_arith)
            requires
                distance(lo, hi) == 1 + distance(lo + 1, hi),
        ;
    }
}

/// Memories that agree on the cells of a row give the same values for it.
proof fn lemma_row_values_same(
    m1: spec_fn(int) -> Seq<int>,
    m2: spec_fn(int) -> Seq<int>,
    base: int,
    lo: int,
    hi: int,
    d: nat,
    bound: int,
)
    requires
        same_below(m1, m2, bound),
        forall|k: int| lo <= k < hi ==> #[trigger] cell_at(base, k) < bound,
    ensures
        row_values(m1, base, lo, hi, d) == row_values(m2, base, lo, hi, d),
    decreases hi - lo,
{
    if lo < hi {
        assert(cell_at(base, lo) < bound);
        assert(0 <= cell_at(base, lo));
        assert(m1(cell_at(base, lo)) == m2(cell_at(base, lo)));
        lemma_row_values_same(m1, m2, base, lo + 1, hi, d, bound);
    }
}

/// Flattening the elements of a row from `jj` up to `end`: the run always ends, changes
/// no variable handed out before but `nb`, and keeps `flat + nb + d` within the free
/// address; when the free address stays below the prime and the row's cells lie below
/// `h0 = flat`, it leaves every cell below `flat + nb` as it was and puts the coefficients
/// of the elements, in turn, from `flat + nb` on.
proof fn lemma_row_run(
    d: nat,
    row: Ptr,
    nb: Var,
    flat: Ptr,
    c6: Counts,
    jj: int,
    end: int,
    h0: int,
    t: MachineState,
)
    requires
        c6.add(Counts::vars(1)).add(Ext::width()).add(Counts::vars(2)).add(felts(2 * d)).fits(),
        c6.has(Slot::V(nb.id)),
        c6.has(Slot::V(flat.address.id)),
        c6.has(Slot::V(row.address.id)),
        flat.address.id != nb.id,
        row.address.id != nb.id,
        d <= 4,
        scalar(t, flat.address) == h0,
        0 <= h0,
        0 <= scalar(t, nb),
        h0 + scalar(t, nb) + d <= t.heap,
    ensures
        run_loop(
            elem_ops(d, row, var_at(c6.v), nb, flat, c6.add(Counts::vars(1))),
            var_at(c6.v),
            jj,
            end,
            1,
            t,
        ) matches Some(t2) && {
            &&& t.heap <= t2.heap
            &&& forall|x: Slot| c6.has(x) && x != Slot::V(nb.id) ==> (t2.env)(x) == (t.env)(x)
            &&& 0 <= scalar(t2, nb)
            &&& h0 + scalar(t2, nb) + d <= t2.heap
            &&& t2.heap < prime() ==> {
                &&& same_below(t2.mem, t.mem, h0 + scalar(t, nb))
                &&& scalar(t, nb) <= scalar(t2, nb)
                &&& (forall|m: int| jj <= m < end ==> #[trigger] cell_at(scalar(t, row.address), m) < h0)
                    ==> {
                    &&& scalar(t2, nb) == scalar(t, nb) + d * distance(jj, end)
                    &&& holds_at(
                        t2.mem,
                        h0,
                        scalar(t, nb),
                        row_values(t.mem, scalar(t, row.address), jj, end, d),
                    )
                }
            }
        },
    decreases distance(jj, end),
{
    if jj < end {
        let j = var_at(c6.v);
        let c7 = c6.add(Counts::vars(1));
        let body = elem_ops(d, row, j, nb, flat, c7);
        let t0 = with_var(t, Slot::V(j.id), seq![jj]);
        assert(!c6.has(Slot::V(j.id)));
        lemma_elem_run(d, row, j, nb, flat, c7, h0, t0);
        let t1 = run(body, t0).unwrap();
        assert(c7.has(Slot::V(flat.address.id)));
        assert((t1.env)(Slot::V(flat.address.id)) == (t0.env)(Slot::V(flat.address.id)));
        lemma_row_run(d, row, nb, flat, c6, jj + 1, end, h0, t1);
        let t2 = run_loop(body, j, jj + 1, end, 1, t1).unwrap();
        assert forall|x: Slot| c6.has(x) && x != Slot::V(nb.id) implies (t2.env)(x) == (t.env)(x) by {
            assert(c7.has(x));
            assert(x != Slot::V(j.id));
        }
        if t2.heap < prime() {
            let n = scalar(t, nb);
            let rb = scalar(t, row.address);
            assert forall|b: int| 0 <= b < h0 + n implies #[trigger] (t2.mem)(b) == (t.mem)(b) by {
                assert((t2.mem)(b) == (t1.mem)(b));
                assert((t1.mem)(b) == (t0.mem)(b));
            }
            if forall|m: int| jj <= m < end ==> #[trigger] cell_at(rb, m) < h0 {
                assert(c7.has(Slot::V(row.address.id)));
                assert(scalar(t1, row.address) == rb);
                assert(scalar(t0, j) == jj);
                let v = (t.mem)(cell_at(rb, jj));
                let cv = coeffs(v, d);
                assert(cell_at(rb, jj) < h0);
                assert(0 <= cell_at(rb, jj));
                lemma_row_values_same(t1.mem, t.mem, rb, jj + 1, end, d, h0 + n);
                let rest = row_values(t.mem, rb, jj + 1, end, d);
                let all = row_values(t.mem, rb, jj, end, d);
                assert(all == cv + rest);
                assert(d * distance(jj, end) == d + d * distance(jj + 1, end)) by (nonlinear_arith)
                    requires
                        distance(jj, end) == 1 + distance(jj + 1, end),
                ;
                assert forall|m: int| 0 <= m < all.len() implies (t2.mem)(cell_at(h0, n + m)) == #[trigger] all[m] by {
                    if m < d {
                        assert(all[m] == cv[m]);
                        lemma_small_mod((h0 + n + m) as nat, prime() as nat);
                        assert((t1.mem)(cell_at(h0, n + m)) == cv[m]);
                        assert((t2.mem)(cell_at(h0, n + m)) == (t1.mem)(cell_at(h0, n + m)));
                    } else {
                        let m2 = m - d;
                        assert(all[m] == rest[m2]);
                        assert(n + m == (n + d) + m2);
                        assert((t2.mem)(cell_at(h0, (n + d) + m2)) == rest[m2]);
                    }
                }
            }
        }
    } else {
        assert(row_values(t.mem, scalar(t, row.address), jj, end, d) =~= Seq::<Seq<int>>::empty());
    }
}

/// The cell address of the first element of the row of table `k`, whose row descriptions
/// (address, then length) start at `obase`.
pub open spec fn row_start(mem: spec_fn(int) -> Seq<int>, obase: int, k: int) -> int {
    mem(cell_at(obase, 2 * k))[0]
}

/// The length of the row of table `k`.
pub open spec fn row_len(mem: spec_fn(int) -> Seq<int>, obase: int, k: int) -> int {
    mem(cell_at(obase, 2 * k + 1))[0]
}

/// When table `k` has height `h`, its row description and its row's cells lie below `bound`.
pub open spec fn row_cells_below(
    mem: spec_fn(int) -> Seq<int>,
    dbase: int,
    h: Seq<int>,
    obase: int,
    k: int,
    bound: int,
) -> bool {
    mem(cell_at(dbase, k)) == h ==> {
        &&& cell_at(obase, 2 * k) < bound
        &&& cell_at(obase, 2 * k + 1) < bound
        &&& forall|m: int|
            0 <= m < row_len(mem, obase, k) ==> #[trigger] cell_at(row_start(mem, obase, k), m) < bound
    }
}

/// The coefficients that table `k` contributes: those of its row when its height is `h`.
pub open spec fn table_values(
    mem: spec_fn(int) -> Seq<int>,
    dbase: int,
    h: Seq<int>,
    obase: int,
    k: int,
    d: nat,
) -> Seq<Seq<int>> {
    if mem(cell_at(dbase, k)) == h {
        row_values(mem, row_start(mem, obase, k), 0, row_len(mem, obase, k), d)
    } else {
        Seq::empty()
    }
}

/// The instructions for table `i` under counters `c4`: read its height, and, when it is
/// `curr`, flatten every element of its row onto the array at `flat` and move `dim_idx` on.
pub open spec fn table_ops(
    d: nat,
    dims: Ptr,
    opened: Ptr,
    i: Var,
    dim_idx: Var,
    curr: Var,
    nb: Var,
    flat: Ptr,
    c4: Counts,
) -> Seq<Instr> {
    let height = var_at(c4.v);
    let c5 = c4.add(Counts::vars(1));
    let ov = Array::<Ext>::fresh_at(c5);
    let c6 = c5.add(Counts::vars(2));
    let j = var_at(c6.v);
    let c7 = c6.add(Counts::vars(1));
    let then_ops = get_ops::<Array<Ext>>(opened, Usize::Var(i), c5).push(
        Instr::For(Usize::Const(0), ov->Dyn_1, 1, j, elem_ops(d, ov->Dyn_0, j, nb, flat, c7)),
    ).push(Instr::AddVI(dim_idx, dim_idx, 1));
    get_ops::<Dimensions>(dims, Usize::Var(i), c4).push(
        Instr::IfEq(height, curr, then_ops, Seq::empty()),
    )
}

/// The index after table `k`: one further when the table's height is `curr`.
pub open spec fn index_after(t: MachineState, dims: Ptr, k: int, dim_idx: Var, curr: Var) -> Seq<int> {
    if (t.mem)(cell_address(t, dims, k)) == (t.env)(Slot::V(curr.id)) {
        seq![(scalar(t, dim_idx) + 1) % prime()]
    } else {
        (t.env)(Slot::V(dim_idx.id))
    }
}

/// One table: the run always ends, moves `dim_idx` on exactly when the table's height is
/// `curr`, changes no other variable handed out before but `nb`, keeps `flat + nb` within
/// the free address, and, when the free address stays below the prime, writes no cell
/// below `h0 = flat`.
proof fn lemma_table_run(
    d: nat,
    dims: Ptr,
    opened: Ptr,
    i: Var,
    dim_idx: Var,
    curr: Var,
    nb: Var,
    flat: Ptr,
    c4: Counts,
    k: int,
    h0: int,
    t: MachineState,
)
    requires
        c4.add(Counts::vars(4)).add(Ext::width()).add(Counts::vars(2)).add(felts(2 * d)).fits(),
        c4.has(Slot::V(dims.address.id)),
        c4.has(Slot::V(nb.id)),
        c4.has(Slot::V(flat.address.id)),
        c4.has(Slot::V(i.id)),
        c4.has(Slot::V(dim_idx.id)),
        c4.has(Slot::V(curr.id)),
        c4.has(Slot::V(opened.address.id)),
        flat.address.id != nb.id,
        dim_idx.id != nb.id,
        dim_idx.id != curr.id,
        d <= 4,
        scalar(t, flat.address) == h0,
        0 <= h0,
        0 <= scalar(t, nb),
        h0 + scalar(t, nb) + d <= t.heap,
        (t.env)(Slot::V(i.id)) == seq![k],
    ensures
        run(table_ops(d, dims, opened, i, dim_idx, curr, nb, flat, c4), t) matches Some(t2) && {
            &&& t.heap <= t2.heap
            &&& forall|x: Slot|
                c4.has(x) && x != Slot::V(nb.id) && x != Slot::V(dim_idx.id) ==> (t2.env)(x) == (t.env)(x)
            &&& (t2.env)(Slot::V(dim_idx.id)) == index_after(t, dims, k, dim_idx, curr)
            &&& 0 <= scalar(t2, nb)
            &&& h0 + scalar(t2, nb) + d <= t2.heap
            &&& t2.heap < prime() ==> {
                &&& same_below(t2.mem, t.mem, h0 + scalar(t, nb))
                &&& scalar(t, nb) <= scalar(t2, nb)
                &&& row_cells_below(
                    t.mem,
                    scalar(t, dims.address),
                    (t.env)(Slot::V(curr.id)),
                    scalar(t, opened.address),
                    k,
                    h0,
                ) ==> {
                    let tv = table_values(
                        t.mem,
                        scalar(t, dims.address),
                        (t.env)(Slot::V(curr.id)),
                        scalar(t, opened.address),
                        k,
                        d,
                    );
                    &&& scalar(t2, nb) == scalar(t, nb) + tv.len()
                    &&& holds_at(t2.mem, h0, scalar(t, nb), tv)
                }
            }
        },
{
    let height = var_at(c4.v);
    let c5 = c4.add(Counts::vars(1));
    let ov = Array::<Ext>::fresh_at(c5);
    let c6 = c5.add(Counts::vars(2));
    let j = var_at(c6.v);
    let c7 = c6.add(Counts::vars(1));
    let inner = elem_ops(d, ov->Dyn_0, j, nb, flat, c7);
    let ix = MemIndex { index: Usize::Var(i), offset: 0, size: 1 };
    let hl = Instr::Load(Slot::V(height.id), dims, ix);
    assert(index_plus(ix, 0) == ix);
    assert(get_ops::<Dimensions>(dims, Usize::Var(i), c4) =~= seq![hl]);
    let ix2 = MemIndex { index: Usize::Var(i), offset: 0, size: 2 };
    let l1 = Instr::Load(Slot::V(c5.v as u32), opened, ix2);
    let l2 = Instr::Load(Slot::V((c5.v + 1) as u32), opened, index_plus(ix2, 1));
    assert(index_plus(ix2, 0) == ix2);
    let ga = get_ops::<Array<Ext>>(opened, Usize::Var(i), c5);
    assert(ga =~= seq![l1].push(l2));
    let fo = Instr::For(Usize::Const(0), ov->Dyn_1, 1, j, inner);
    let ad = Instr::AddVI(dim_idx, dim_idx, 1);
    let then_ops = ga.push(fo).push(ad);
    let ifeq = Instr::IfEq(height, curr, then_ops, Seq::empty());
    assert(table_ops(d, dims, opened, i, dim_idx, curr, nb, flat, c4) == seq![hl].push(ifeq));
    lemma_run_push(seq![hl], ifeq, t);
    lemma_run_one(hl, t);
    let t1 = step(hl, t).unwrap();
    assert(k * 1 == k) by (nonlinear_arith);
    assert(length(t, Usize::Var(i)) == k);
    assert(address(t, dims, ix) == cell_address(t, dims, k));
    assert(!c4.has(Slot::V(height.id)));
    assert((t1.env)(Slot::V(curr.id)) == (t.env)(Slot::V(curr.id)));
    if (t1.env)(Slot::V(height.id)) == (t1.env)(Slot::V(curr.id)) {
        lemma_run_push(ga.push(fo), ad, t1);
        lemma_run_push(ga, fo, t1);
        lemma_run_push(seq![l1], l2, t1);
        lemma_run_one(l1, t1);
        let t2 = step(l1, t1).unwrap();
        let t3 = step(l2, t2).unwrap();
        assert(run(ga, t1) == Some(t3));
        assert forall|x: Slot| c4.has(x) implies (t3.env)(x) == (t.env)(x) by {
            assert(x != Slot::V(height.id));
            assert(x != Slot::V(c5.v as u32));
            assert(x != Slot::V((c5.v + 1) as u32));
        }
        lemma_small_mod(0, prime() as nat);
        assert(length(t3, Usize::Const(0)) == 0);
        lemma_row_run(d, ov->Dyn_0, nb, flat, c6, 0, length(t3, ov->Dyn_1), h0, t3);
        assert(step(fo, t3) == run_loop(inner, j, 0, length(t3, ov->Dyn_1), 1, t3));
        let t4 = step(fo, t3).unwrap();
        assert(c6.has(Slot::V(dim_idx.id)));
        assert((t4.env)(Slot::V(dim_idx.id)) == (t3.env)(Slot::V(dim_idx.id)));
        let t5 = step(ad, t4).unwrap();
        assert((t4.env)(Slot::V(dim_idx.id)) == (t.env)(Slot::V(dim_idx.id)));
        assert forall|x: Slot|
            c4.has(x) && x != Slot::V(nb.id) && x != Slot::V(dim_idx.id) implies (t5.env)(x) == (t.env)(x) by {
            assert(c6.has(x));
        }
        if t5.heap < prime() {
            let n = scalar(t, nb);
            assert forall|b: int| 0 <= b < h0 + n implies #[trigger] (t5.mem)(b) == (t.mem)(b) by {
                assert((t4.mem)(b) == (t3.mem)(b));
            }
            let ob = scalar(t, opened.address);
            let rs = row_start(t.mem, ob, k);
            let rl = row_len(t.mem, ob, k);
            assert(c5.has(Slot::V(opened.address.id)));
            assert(scalar(t1, opened.address) == ob);
            assert(k * 2 == 2 * k) by (nonlinear_arith);
            assert(address(t1, opened, ix2) == cell_at(ob, 2 * k));
            assert(address(t2, opened, index_plus(ix2, 1)) == cell_at(ob, 2 * k + 1));
            assert(scalar(t3, ov->Dyn_0.address) == rs);
            assert(length(t3, ov->Dyn_1) == rl);
            assert((t.mem)(cell_address(t, dims, k)) == (t.env)(Slot::V(curr.id)));
            if row_cells_below(t.mem, scalar(t, dims.address), (t.env)(Slot::V(curr.id)), ob, k, h0) {
                lemma_row_values_len(t.mem, rs, 0, rl, d);
                assert(t3.mem == t.mem);
            }
        }
    } else {
        assert(run(Seq::<Instr>::empty(), t1) == Some(t1));
    }
}

/// How many of the tables from `lo` up to `hi`, whose heights are in the cells from `base`
/// on, have the height `h`.
pub open spec fn matching_tables(mem: spec_fn(int) -> Seq<int>, base: int, h: Seq<int>, lo: int, hi: int) -> nat
    decreases hi - lo,
{
    if lo >= hi {
        0
    } else {
        (if mem(cell_at(base, lo)) == h {
            1nat
        } else {
            0nat
        }) + matching_tables(mem, base, h, lo + 1, hi)
    }
}

/// A native value moved on by one `m` times, in the field.
pub open spec fn moved_on(x: Seq<int>, m: nat) -> Seq<int> {
    if m == 0 {
        x
    } else {
        seq![(x[0] + m) % prime()]
    }
}

/// Moving on by `a` and then by `b` is moving on by `a + b`.
proof fn lemma_moved_on_twice(x: Seq<int>, a: nat, b: nat)
    ensures
        moved_on(moved_on(x, a), b) == moved_on(x, a + b),
{
    if a > 0 && b > 0 {
        lemma_add_mod_noop_right(b as int, x[0] + a, prime());
        assert(seq![moved_on(x, a)[0]][0] == (x[0] + a) % prime());
        assert(b + (x[0] + a) == x[0] + (a + b));
    }
}

/// Memories that agree on the height cells count the same matching tables.
pub proof fn lemma_matching_same(
    m1: spec_fn(int) -> Seq<int>,
    m2: spec_fn(int) -> Seq<int>,
    base: int,
    h: Seq<int>,
    lo: int,
    hi: int,
    bound: int,
)
    requires
        same_below(m1, m2, bound),
        forall|k: int| lo <= k < hi ==> #[trigger] cell_at(base, k) < bound,
    ensures
        matching_tables(m1, base, h, lo, hi) == matching_tables(m2, base, h, lo, hi),
    decreases hi - lo,
{
    if lo < hi {
        assert(cell_at(base, lo) < bound);
        assert(0 <= cell_at(base, lo));
        assert(m1(cell_at(base, lo)) == m2(cell_at(base, lo)));
        lemma_matching_same(m1, m2, base, h, lo + 1, hi, bound);
    }
}

/// The coefficients that the tables from `lo` up to `hi` contribute, in turn.
pub open spec fn tables_values(
    mem: spec_fn(int) -> Seq<int>,
    dbase: int,
    h: Seq<int>,
    obase: int,
    lo: int,
    hi: int,
    d: nat,
) -> Seq<Seq<int>>
    decreases hi - lo,
{
    if lo >= hi {
        Seq::empty()
    } else {
        table_values(mem, dbase, h, obase, lo, d) + tables_values(mem, dbase, h, obase, lo + 1, hi, d)
    }
}

/// Memories that agree below `bound`, where a table's height, row description and row
/// lie, agree on what the table contributes.
pub proof fn lemma_table_same(
    m1: spec_fn(int) -> Seq<int>,
    m2: spec_fn(int) -> Seq<int>,
    dbase: int,
    h: Seq<int>,
    obase: int,
    k: int,
    d: nat,
    bound: int,
)
    requires
        same_below(m1, m2, bound),
        cell_at(dbase, k) < bound,
        row_cells_below(m2, dbase, h, obase, k, bound),
    ensures
        row_cells_below(m1, dbase, h, obase, k, bound),
        table_values(m1, dbase, h, obase, k, d) == table_values(m2, dbase, h, obase, k, d),
{
    assert(0 <= cell_at(dbase, k));
    assert(m1(cell_at(dbase, k)) == m2(cell_at(dbase, k)));
    if m2(cell_at(dbase, k)) == h {
        assert(0 <= cell_at(obase, 2 * k));
        assert(0 <= cell_at(obase, 2 * k + 1));
        assert(m1(cell_at(obase, 2 * k)) == m2(cell_at(obase, 2 * k)));
        assert(m1(cell_at(obase, 2 * k + 1)) == m2(cell_at(obase, 2 * k + 1)));
        lemma_row_values_same(m1, m2, row_start(m2, obase, k), 0, row_len(m2, obase, k), d, bound);
    }
}

/// Memories that agree below `bound`, where the tables' heights, row descriptions and
/// rows lie, agree on what the tables contribute.
pub proof fn lemma_tables_same(
    m1: spec_fn(int) -> Seq<int>,
    m2: spec_fn(int) -> Seq<int>,
    dbase: int,
    h: Seq<int>,
    obase: int,
    lo: int,
    hi: int,
    d: nat,
    bound: int,
)
    requires
        same_below(m1, m2, bound),
        forall|kk: int| lo <= kk < hi ==> #[trigger] cell_at(dbase, kk) < bound,
        forall|kk: int| lo <= kk < hi ==> #[trigger] row_cells_below(m2, dbase, h, obase, kk, bound),
    ensures
        forall|kk: int| lo <= kk < hi ==> #[trigger] row_cells_below(m1, dbase, h, obase, kk, bound),
        tables_values(m1, dbase, h, obase, lo, hi, d) == tables_values(m2, dbase, h, obase, lo, hi, d),
    decreases hi - lo,
{
    if lo < hi {
        assert(cell_at(dbase, lo) < bound);
        assert(row_cells_below(m2, dbase, h, obase, lo, bound));
        lemma_table_same(m1, m2, dbase, h, obase, lo, d, bound);
        lemma_tables_same(m1, m2, dbase, h, obase, lo + 1, hi, d, bound);
        assert forall|kk: int| lo <= kk < hi implies #[trigger] row_cells_below(m1, dbase, h, obase, kk, bound) by {
            if kk > lo {
                assert(lo + 1 <= kk < hi);
            }
        }
    }
}

/// The tables from `k` up to `end`, whose height cells lie below `h0 = flat`: the run
/// always ends, moves `dim_idx` on once for each table of height `curr` when the free
/// address stays below the prime, changes no other variable handed out before but `nb`,
/// and keeps `flat + nb` within the free address.
proof fn lemma_tables_run(
    d: nat,
    dims: Ptr,
    opened: Ptr,
    dim_idx: Var,
    curr: Var,
    nb: Var,
    flat: Ptr,
    c3: Counts,
    k: int,
    end: int,
    h0: int,
    t: MachineState,
)
    requires
        c3.add(Counts::vars(5)).add(Ext::width()).add(Counts::vars(2)).add(felts(2 * d)).fits(),
        c3.has(Slot::V(dims.address.id)),
        c3.has(Slot::V(nb.id)),
        c3.has(Slot::V(flat.address.id)),
        c3.has(Slot::V(dim_idx.id)),
        c3.has(Slot::V(curr.id)),
        flat.address.id != nb.id,
        dim_idx.id != nb.id,
        dim_idx.id != curr.id,
        dim_idx.id != dims.address.id,
        dims.address.id != nb.id,
        curr.id != nb.id,
        flat.address.id != dim_idx.id,
        c3.has(Slot::V(opened.address.id)),
        opened.address.id != nb.id,
        d <= 4,
        scalar(t, flat.address) == h0,
        0 <= h0,
        0 <= scalar(t, nb),
        h0 + scalar(t, nb) + d <= t.heap,
        forall|kk: int| k <= kk < end ==> #[trigger] cell_at(scalar(t, dims.address), kk) < h0,
    ensures
        run_loop(
            table_ops(d, dims, opened, var_at(c3.v), dim_idx, curr, nb, flat, c3.add(Counts::vars(1))),
            var_at(c3.v),
            k,
            end,
            1,
            t,
        ) matches Some(t2) && {
            &&& t.heap <= t2.heap
            &&& forall|x: Slot|
                c3.has(x) && x != Slot::V(nb.id) && x != Slot::V(dim_idx.id) ==> (t2.env)(x) == (t.env)(x)
            &&& 0 <= scalar(t2, nb)
            &&& h0 + scalar(t2, nb) + d <= t2.heap
            &&& ((t.env)(Slot::V(dim_idx.id)) == seq![scalar(t, dim_idx)] && 0 <= scalar(t, dim_idx) && scalar(
                t,
                dim_idx,
            ) + distance(k, end) < prime()) ==> {
                &&& (t2.env)(Slot::V(dim_idx.id)) == seq![scalar(t2, dim_idx)]
                &&& scalar(t, dim_idx) <= scalar(t2, dim_idx) <= scalar(t, dim_idx) + distance(k, end)
            }
            &&& t2.heap < prime() ==> {
                &&& same_below(t2.mem, t.mem, h0 + scalar(t, nb))
                &&& scalar(t, nb) <= scalar(t2, nb)
                &&& (t2.env)(Slot::V(dim_idx.id)) == moved_on(
                    (t.env)(Slot::V(dim_idx.id)),
                    matching_tables(t.mem, scalar(t, dims.address), (t.env)(Slot::V(curr.id)), k, end),
                )
                &&& (opened.address.id != dim_idx.id && forall|kk: int|
                    k <= kk < end ==> #[trigger] row_cells_below(
                        t.mem,
                        scalar(t, dims.address),
                        (t.env)(Slot::V(curr.id)),
                        scalar(t, opened.address),
                        kk,
                        h0,
                    )) ==> {
                    let tv = tables_values(
                        t.mem,
                        scalar(t, dims.address),
                        (t.env)(Slot::V(curr.id)),
                        scalar(t, opened.address),
                        k,
                        end,
                        d,
                    );
                    &&& scalar(t2, nb) == scalar(t, nb) + tv.len()
                    &&& holds_at(t2.mem, h0, scalar(t, nb), tv)
                }
            }
        },
    decreases distance(k, end),
{
    let i = var_at(c3.v);
    let c4 = c3.add(Counts::vars(1));
    let body = table_ops(d, dims, opened, i, dim_idx, curr, nb, flat, c4);
    let base = scalar(t, dims.address);
    let h = (t.env)(Slot::V(curr.id));
    if k < end {
        let t0 = with_var(t, Slot::V(i.id), seq![k]);
        assert(!c3.has(Slot::V(i.id)));
        lemma_table_run(d, dims, opened, i, dim_idx, curr, nb, flat, c4, k, h0, t0);
        let t1 = run(body, t0).unwrap();
        assert(c4.has(Slot::V(dims.address.id)) && c4.has(Slot::V(flat.address.id)) && c4.has(
            Slot::V(curr.id),
        ));
        assert((t1.env)(Slot::V(dims.address.id)) == (t.env)(Slot::V(dims.address.id)));
        assert((t1.env)(Slot::V(flat.address.id)) == (t.env)(Slot::V(flat.address.id)));
        assert((t1.env)(Slot::V(curr.id)) == h);
        lemma_tables_run(d, dims, opened, dim_idx, curr, nb, flat, c3, k + 1, end, h0, t1);
        let t2 = run_loop(body, i, k + 1, end, 1, t1).unwrap();
        assert forall|x: Slot|
            c3.has(x) && x != Slot::V(nb.id) && x != Slot::V(dim_idx.id) implies (t2.env)(x) == (t.env)(x) by {
            assert(c4.has(x));
            assert(x != Slot::V(i.id));
        }
        let x0 = scalar(t, dim_idx);
        if (t.env)(Slot::V(dim_idx.id)) == seq![x0] && 0 <= x0 && x0 + distance(k, end) < prime() {
            assert((t0.env)(Slot::V(dim_idx.id)) == (t.env)(Slot::V(dim_idx.id)));
            lemma_small_mod((x0 + 1) as nat, prime() as nat);
            assert(distance(k, end) == 1 + distance(k + 1, end));
        }
        if t2.heap < prime() {
            let n = scalar(t, nb);
            assert forall|b: int| 0 <= b < h0 + n implies #[trigger] (t2.mem)(b) == (t.mem)(b) by {
                assert((t2.mem)(b) == (t1.mem)(b));
                assert((t1.mem)(b) == (t0.mem)(b));
            }
            let ob = scalar(t, opened.address);
            if opened.address.id != dim_idx.id && forall|kk: int|
                k <= kk < end ==> #[trigger] row_cells_below(t.mem, base, h, ob, kk, h0) {
                assert(c4.has(Slot::V(opened.address.id)));
                assert(scalar(t1, opened.address) == ob);
                assert(row_cells_below(t.mem, base, h, ob, k, h0));
                assert(cell_address(t0, dims, k) == cell_at(base, k));
                let tv = table_values(t.mem, base, h, ob, k, d);
                assert(scalar(t1, nb) == n + tv.len());
                lemma_tables_same(t1.mem, t.mem, base, h, ob, k + 1, end, d, h0);
                let rest = tables_values(t.mem, base, h, ob, k + 1, end, d);
                let all = tables_values(t.mem, base, h, ob, k, end, d);
                assert(all == tv + rest);
                assert forall|m: int| 0 <= m < all.len() implies (t2.mem)(cell_at(h0, n + m)) == #[trigger] all[m] by {
                    if m < tv.len() {
                        assert(all[m] == tv[m]);
                        lemma_small_mod((h0 + n + m) as nat, prime() as nat);
                        assert((t1.mem)(cell_at(h0, n + m)) == tv[m]);
                        assert((t2.mem)(cell_at(h0, n + m)) == (t1.mem)(cell_at(h0, n + m)));
                    } else {
                        let m2 = m - tv.len();
                        assert(all[m] == rest[m2]);
                        assert(n + m == (n + tv.len()) + m2);
                        assert((t2.mem)(cell_at(h0, (n + tv.len()) + m2)) == rest[m2]);
                    }
                }
            }
            lemma_matching_same(t1.mem, t.mem, base, h, k + 1, end, h0);
            let a: nat = if (t.mem)(cell_at(base, k)) == h {
                1
            } else {
                0
            };
            assert(cell_address(t0, dims, k) == cell_at(base, k));
            assert((t1.env)(Slot::V(dim_idx.id)) == moved_on((t.env)(Slot::V(dim_idx.id)), a));
            lemma_moved_on_twice(
                (t.env)(Slot::V(dim_idx.id)),
                a,
                matching_tables(t.mem, base, h, k + 1, end),
            );
        }
    }
}

/// Digesting the tables of height `curr` from `dim_idx` on. The built program always runs
/// to the end, changes no variable handed out before but `dim_idx`, and returns an array
/// of `DIGEST_SIZE` elements in the last cells it takes from the free address; an index
/// that held a number up to the number of tables ends holding one between it and that
/// number. When the height cells of those tables lie below the first free address and
/// the free address stays below the prime, no cell below the first free address changes
/// (as far as the machine's hash is no longer than a digest), and:
/// - `dim_idx` ends moved on by one for each table from `dim_idx` up to the number of
///   tables whose height is `curr`;
/// - when, besides, the row descriptions and rows of the tables of that height lie below
///   the first free address too, and `dim_idx` is not the row descriptions' pointer, the
///   returned array holds the machine's hash of the first `d` coefficients of every
///   element of those rows, table after table and element after element (as far as the
///   hash is no longer than the array).
pub proof fn law_reduce(
    d: nat,
    dim_idx: Var,
    dims: ArrayModel<Dimensions>,
    curr: Var,
    opened: ArrayModel<ArrayModel<Ext>>,
    c: Counts,
    s: MachineState,
)
    requires
        dims matches ArrayModel::Dyn(dp, dl) && c.has(Slot::V(dp.address.id)) && (dl matches Usize::Var(
            v,
        ) ==> c.has(Slot::V(v.id))) && dim_idx.id != dp.address.id,
        opened matches ArrayModel::Dyn(op, _) && c.has(Slot::V(op.address.id)),
        c.has(Slot::V(dim_idx.id)),
        c.has(Slot::V(curr.id)),
        dim_idx.id != curr.id,
        c.add(reduce_uses(d)).fits(),
        d <= 4,
        0 <= s.heap,
        forall|k: int|
            scalar(s, dim_idx) <= k < length(s, model_len(dims)) ==> #[trigger] cell_at(
                scalar(s, dims->Dyn_0.address),
                k,
            ) < s.heap,
    ensures
        run(reduce_effect(d, dim_idx, dims, curr, opened, c, Seq::empty()).2, s) matches Some(s2) && {
        &&& s.heap <= s2.heap
        &&& forall|x: Slot| c.has(x) && x != Slot::V(dim_idx.id) ==> (s2.env)(x) == (s.env)(x)
        &&& reduce_effect(d, dim_idx, dims, curr, opened, c, Seq::empty()).0 matches ArrayModel::Dyn(
            rp,
            rl,
        ) && s.heap <= scalar(s2, rp.address) && scalar(s2, rp.address) + DIGEST_SIZE == s2.heap && length(
            s2,
            rl,
        ) == DIGEST_SIZE && rl is Var
        &&& (s2.heap < prime() && forall|x: Seq<Seq<int>>| #[trigger] (s.hash)(x).len() <= DIGEST_SIZE)
            ==> same_below(s2.mem, s.mem, s.heap)
        &&& ((s.env)(Slot::V(dim_idx.id)) == seq![scalar(s, dim_idx)] && 0 <= scalar(s, dim_idx) <= length(
            s,
            model_len(dims),
        ) < prime()) ==> {
            &&& (s2.env)(Slot::V(dim_idx.id)) == seq![scalar(s2, dim_idx)]
            &&& scalar(s, dim_idx) <= scalar(s2, dim_idx) <= length(s, model_len(dims))
        }
        &&& s2.heap < prime() ==> (s2.env)(Slot::V(dim_idx.id)) == moved_on(
            (s.env)(Slot::V(dim_idx.id)),
            matching_tables(
                s.mem,
                scalar(s, dims->Dyn_0.address),
                (s.env)(Slot::V(curr.id)),
                scalar(s, dim_idx),
                length(s, model_len(dims)),
            ),
        )
        &&& (s2.heap < prime() && opened->Dyn_0.address.id != dim_idx.id && (forall|k: int|
            scalar(s, dim_idx) <= k < length(s, model_len(dims)) ==> #[trigger] row_cells_below(
                s.mem,
                scalar(s, dims->Dyn_0.address),
                (s.env)(Slot::V(curr.id)),
                scalar(s, opened->Dyn_0.address),
                k,
                s.heap,
            ))) ==> {
            let f = tables_values(
                s.mem,
                scalar(s, dims->Dyn_0.address),
                (s.env)(Slot::V(curr.id)),
                scalar(s, opened->Dyn_0.address),
                scalar(s, dim_idx),
                length(s, model_len(dims)),
                d,
            );
            let r = reduce_effect(d, dim_idx, dims, curr, opened, c, Seq::empty()).0;
            (s.hash)(f).len() <= DIGEST_SIZE ==> forall|m: int|
                0 <= m < (s.hash)(f).len() ==> (s2.mem)(cell_at(scalar(s2, r->Dyn_0.address), m))
                    == #[trigger] (s.hash)(f)[m]
        }
    },
{
    let dp = dims->Dyn_0;
    let op = opened->Dyn_0;
    let h0 = s.heap;
    let nb = var_at(c.v);
    let c1 = c.add(Counts::vars(1));
    let o0 = Seq::<Instr>::empty().push(Instr::ImmV(nb, 0));
    let (flat, c2, o2) = felts_effect(FLATTENED_CAPACITY, c1, o0);
    let (flat2, c22, a) = dyn_array_effect::<Felt>(Usize::Const(FLATTENED_CAPACITY), c1, Seq::empty());
    assert(flat2 == flat && c22 == c2 && o2 =~= o0 + a);
    let fp = flat->Dyn_0;
    let start = var_at(c2.v);
    let c3 = c2.add(Counts::vars(1));
    let cp = Instr::Copy(Slot::V(start.id), Slot::V(dim_idx.id));
    let o3 = o2.push(cp);
    let i = var_at(c3.v);
    let c4 = c3.add(Counts::vars(1));
    let body = table_ops(d, dp, op, i, dim_idx, curr, nb, fp, c4);
    let fo = Instr::For(Usize::Var(start), model_len(dims), 1, i, body);
    let o4 = o3.push(fo);
    let c10 = c4.add(Counts::vars(4)).add(Ext::width()).add(Counts::vars(2)).add(felts(2 * d));
    let cl = crate::ir::assign_usize_op(flat->Dyn_1->Var_0, Usize::Var(nb));
    let o5 = o4.push(cl);
    let (out, c11, o6) = felts_effect(DIGEST_SIZE, c10, o5);
    let (out2, c112, b) = dyn_array_effect::<Felt>(Usize::Const(DIGEST_SIZE), c10, Seq::empty());
    assert(out2 == out && c112 == c11 && o6 =~= o5 + b);
    let hs = Instr::Poseidon2Hash(out->Dyn_0, out->Dyn_1, fp, flat->Dyn_1);
    let e = reduce_effect(d, dim_idx, dims, curr, opened, c, Seq::empty());
    assert(e.2 == o6.push(hs));
    // The array of flattened values, from the first free address on.
    lemma_run_one(Instr::ImmV(nb, 0), s);
    let s0 = step(Instr::ImmV(nb, 0), s).unwrap();
    lemma_run_append(o0, a, s);
    law_dyn_array::<Felt>(Usize::Const(FLATTENED_CAPACITY), c1, s0);
    let s1 = run(a, s0).unwrap();
    lemma_small_mod(FLATTENED_CAPACITY as nat, prime() as nat);
    assert(length(s0, Usize::Const(FLATTENED_CAPACITY)) == FLATTENED_CAPACITY);
    assert(!c.has(Slot::V(nb.id)));
    assert forall|x: Slot| c.has(x) implies (s1.env)(x) == (s.env)(x) by {
        assert(c1.has(x));
        assert(x != Slot::V(nb.id));
    }
    assert(scalar(s0, nb) == 0);
    assert(c1.has(Slot::V(nb.id)));
    assert((s1.env)(Slot::V(nb.id)) == (s0.env)(Slot::V(nb.id)));
    assert(scalar(s1, nb) == 0);
    lemma_run_push(o2, cp, s);
    let s2 = step(cp, s1).unwrap();
    assert(!c2.has(Slot::V(start.id)));
    assert(length(s2, Usize::Var(start)) == scalar(s, dim_idx));
    assert(length(s2, model_len(dims)) == length(s, model_len(dims)));
    assert(scalar(s2, dp.address) == scalar(s, dp.address));
    assert(scalar(s2, fp.address) == h0);
    assert(s2.mem == s.mem);
    // The loop over the tables.
    let k0 = scalar(s, dim_idx);
    let end = length(s, model_len(dims));
    lemma_tables_run(d, dp, op, dim_idx, curr, nb, fp, c3, k0, end, h0, s2);
    lemma_run_push(o3, fo, s);
    let s3 = step(fo, s2).unwrap();
    // Closing the array and hashing it.
    lemma_run_push(o4, cl, s);
    let s4 = step(cl, s3).unwrap();
    lemma_run_append(o5, b, s);
    law_dyn_array::<Felt>(Usize::Const(DIGEST_SIZE), c10, s4);
    let s5 = run(b, s4).unwrap();
    lemma_run_push(o6, hs, s);
    let s6 = step(hs, s5).unwrap();
    lemma_write_cells_keeps(s5, scalar(s5, out->Dyn_0.address), (s5.hash)(crate::semantics::read_cells(s5, scalar(s5, fp.address), crate::semantics::cell_count(s5, flat->Dyn_1))));
    assert(s6.heap >= s3.heap);
    if (s.env)(Slot::V(dim_idx.id)) == seq![k0] && 0 <= k0 <= end < prime() {
        assert((s2.env)(Slot::V(dim_idx.id)) == (s.env)(Slot::V(dim_idx.id)));
        assert(distance(k0, end) == end - k0);
    }
    assert(c10.has(Slot::V(dim_idx.id)));
    assert((s6.env)(Slot::V(dim_idx.id)) == (s3.env)(Slot::V(dim_idx.id)));
    assert forall|x: Slot| c.has(x) && x != Slot::V(dim_idx.id) implies (s6.env)(x) == (s.env)(x) by {
        assert(c1.has(x) && c3.has(x) && c10.has(x));
        assert(x != Slot::V(nb.id));
        assert(x != Slot::V(start.id));
        assert(x != Slot::V(flat->Dyn_1->Var_0.id));
    }
    lemma_small_mod(DIGEST_SIZE as nat, prime() as nat);
    assert(s5.heap == s4.heap + DIGEST_SIZE);
    assert(scalar(s5, out->Dyn_0.address) == s4.heap);
    assert(length(s5, out->Dyn_1) == DIGEST_SIZE);
    lemma_run_keeps_hash(o6, s);
    let rc0 = crate::semantics::read_cells(s5, scalar(s5, fp.address), crate::semantics::cell_count(s5, flat->Dyn_1));
    assert(s6 == write_cells(s5, s4.heap, (s5.hash)(rc0)));
    if s6.heap < prime() && forall|x: Seq<Seq<int>>| #[trigger] (s.hash)(x).len() <= DIGEST_SIZE {
        assert((s.hash)(rc0).len() <= DIGEST_SIZE);
        assert(s3.heap < prime());
        assert forall|b: int| 0 <= b < h0 implies #[trigger] (s6.mem)(b) == (s.mem)(b) by {
            lemma_write_cells_frame(s5, s4.heap, (s5.hash)(rc0), b);
            assert((s3.mem)(b) == (s2.mem)(b));
        }
    }
    let ob = scalar(s, op.address);
    let hh = (s.env)(Slot::V(curr.id));
    let db = scalar(s, dp.address);
    if s6.heap < prime() && op.address.id != dim_idx.id && (forall|k: int|
        k0 <= k < end ==> #[trigger] row_cells_below(s.mem, db, hh, ob, k, h0)) {
        let f = tables_values(s.mem, db, hh, ob, k0, end, d);
        assert(scalar(s2, op.address) == ob);
        assert((s2.env)(Slot::V(curr.id)) == hh);
        assert(scalar(s3, nb) == f.len());
        assert(holds_at(s3.mem, h0, 0, f));
        let fl = flat->Dyn_1->Var_0;
        assert(c10.has(Slot::V(fl.id)) && c10.has(Slot::V(fp.address.id)));
        assert(scalar(s4, fl) == f.len());
        assert(scalar(s5, fl) == f.len());
        assert(c3.has(Slot::V(fp.address.id)));
        assert(scalar(s3, fp.address) == h0);
        assert(fl.id != fp.address.id);
        assert(scalar(s4, fp.address) == h0);
        assert(scalar(s5, fp.address) == h0);
        assert(s5.mem == s4.mem && s4.mem == s3.mem);
        let rc = crate::semantics::read_cells(s5, h0, crate::semantics::cell_count(s5, flat->Dyn_1));
        assert forall|m: int| 0 <= m < f.len() implies #[trigger] rc[m] == f[m] by {
            assert((s3.mem)(cell_at(h0, 0 + m)) == f[m]);
        }
        assert(rc =~= f);
        let hf = (s.hash)(f);
        let oa = scalar(s5, out->Dyn_0.address);
        assert(oa == s4.heap);
        lemma_small_mod(DIGEST_SIZE as nat, prime() as nat);
        assert(s5.heap == s4.heap + DIGEST_SIZE);
        lemma_run_keeps_hash(o6, s);
        assert(s5.hash == s.hash);
        assert(s6 == write_cells(s5, oa, hf));
        lemma_write_cells_keeps(s5, oa, hf);
        if hf.len() <= DIGEST_SIZE {
            assert forall|m: int| 0 <= m < hf.len() implies (s6.mem)(cell_at(scalar(s6, out->Dyn_0.address), m))
                == #[trigger] hf[m] by {
                lemma_write_cells_value(s5, oa, hf, m);
            }
        }
    }
}

} // verus!
