//! What the program that walks a Merkle path does when the machine runs it.

use vstd::prelude::*;
use vstd::arithmetic::div_mod::lemma_small_mod;
use crate::ir::{Counts, Ext, Felt, Instr, MemIndex, Ptr, Slot, Usize, Var, branch_instr, var_at};
use crate::semantics::{
    MachineState, address, cell_count, distance, length, lemma_run_one, prime, read_cells, run,
    run_loop, scalar, step, usize_value, with_var, write_cells,
};
use crate::variable::{MemVariable, index_plus};
use crate::collections::{Array, ArrayModel, dyn_array_effect, get_ops, model_len};
use crate::fri::{
    DIGEST_SIZE, Dimensions, felts_effect, next_tables_effect, ne_usize, path_step_effect, reduce_effect,
    reduce_uses, verify_batch_effect, verify_batch_uses,
};
use crate::field::half;
use crate::digest::{
    cell_at, law_reduce, lemma_matching_same, lemma_run_push, lemma_tables_same,
    lemma_write_cells_frame, lemma_write_cells_keeps, lemma_write_cells_value, matching_tables,
    moved_on, row_cells_below, row_len, row_start, same_below, tables_values,
};
use crate::laws::law_dyn_array;

verus! {

/// The cells of sibling `i`, whose descriptions (address, then length) start at `pbase`.
pub open spec fn sibling_cells(mem: spec_fn(int) -> Seq<int>, pbase: int, i: int) -> Seq<Seq<int>> {
    let n = row_len(mem, pbase, i);
    Seq::new(
        if n >= 0 {
            n as nat
        } else {
            0
        },
        |m: int| mem(cell_at(row_start(mem, pbase, i), m)),
    )
}

/// The `DIGEST_SIZE` cells from `base` on.
pub open spec fn digest_cells(mem: spec_fn(int) -> Seq<int>, base: int) -> Seq<Seq<int>> {
    Seq::new(DIGEST_SIZE as nat, |m: int| mem(cell_at(base, m)))
}

/// The root after compressing in sibling `i`: the sibling goes left when bit `i`, in the
/// cells from `bbase` on, is one, else right.
pub open spec fn compressed(
    compress: spec_fn(Seq<Seq<int>>, Seq<Seq<int>>) -> Seq<Seq<int>>,
    mem: spec_fn(int) -> Seq<int>,
    pbase: int,
    bbase: int,
    i: int,
    root: Seq<Seq<int>>,
) -> Seq<Seq<int>> {
    let sib = sibling_cells(mem, pbase, i);
    if mem(cell_at(bbase, i))[0] == 1 {
        compress(sib, root)
    } else {
        compress(root, sib)
    }
}

/// Half a height, in the field.
pub open spec fn halved(h: Seq<int>) -> Seq<int> {
    seq![(h[0] * (half() as int)) % prime()]
}

/// The instructions of a path step before its branch on the next tables, for sibling `i`
/// under counters `c`: read the sibling and the bit, order the pair, compress it into a
/// fresh root, halve the height and read the next table's height.
pub open spec fn step_head_ops(
    index: Var,
    dp: Ptr,
    ch: Var,
    root: ArrayModel<Felt>,
    bp: Ptr,
    pp: Ptr,
    i: Var,
    c: Counts,
) -> Seq<Instr> {
    let sibling = Array::<Felt>::fresh_at(c);
    let c1 = c.add(Counts::vars(2));
    let bit = var_at(c1.v);
    let c2 = c1.add(Counts::vars(1));
    let left = Array::<Felt>::fresh_at(c2);
    let c3 = c2.add(Counts::vars(2));
    let right = Array::<Felt>::fresh_at(c3);
    let c4 = c3.add(Counts::vars(2));
    let then_ops = Array::<Felt>::assign_ops(left, sibling) + Array::<Felt>::assign_ops(right, root);
    let else_ops = Array::<Felt>::assign_ops(left, root) + Array::<Felt>::assign_ops(right, sibling);
    let b2 = get_ops::<Array<Felt>>(pp, Usize::Var(i), c) + get_ops::<Var>(bp, Usize::Var(i), c1);
    let b3 = b2.push(Instr::IfEqI(bit, 1, then_ops, else_ops));
    let (nr, c5, b4) = felts_effect(DIGEST_SIZE, c4, b3);
    let b5 = b4.push(
        Instr::Poseidon2Compress(
            nr->Dyn_0,
            nr->Dyn_1,
            left->Dyn_0,
            left->Dyn_1,
            right->Dyn_0,
            right->Dyn_1,
        ),
    ) + Array::<Felt>::assign_ops(root, nr);
    let b6 = b5.push(Instr::MulVI(ch, ch, half()));
    b6 + get_ops::<Dimensions>(dp, Usize::Var(index), c5)
}

/// Ordering the pair on bit `var_at(c.v + 2)`: the left array gets the sibling read into
/// the two variables from `c.v` on and the right one the root when the bit is one, the
/// other way round otherwise; nothing else changes.
proof fn lemma_order_run(root: ArrayModel<Felt>, c: Counts, u: MachineState)
    requires
        root matches ArrayModel::Dyn(rp, Usize::Var(rl)) && c.has(Slot::V(rp.address.id)) && c.has(
            Slot::V(rl.id),
        ),
        c.add(Counts::vars(7)).fits(),
    ensures
        ({
            let sibling = Array::<Felt>::fresh_at(c);
            let bit = var_at(c.v + 2);
            let c2 = c.add(Counts::vars(3));
            let left = Array::<Felt>::fresh_at(c2);
            let right = Array::<Felt>::fresh_at(c2.add(Counts::vars(2)));
            let then_ops = Array::<Felt>::assign_ops(left, sibling) + Array::<Felt>::assign_ops(right, root);
            let else_ops = Array::<Felt>::assign_ops(left, root) + Array::<Felt>::assign_ops(right, sibling);
            let (sa, sb) = if scalar(u, bit) == 1 {
                (sibling, root)
            } else {
                (root, sibling)
            };
            run(seq![Instr::IfEqI(bit, 1, then_ops, else_ops)], u) matches Some(v) && {
                &&& v.mem == u.mem && v.heap == u.heap && v.hash == u.hash && v.compress == u.compress
                &&& forall|x: Slot| c2.has(x) ==> (v.env)(x) == (u.env)(x)
                &&& (v.env)(Slot::V(left->Dyn_0.address.id)) == (u.env)(Slot::V(sa->Dyn_0.address.id))
                &&& (v.env)(Slot::V(left->Dyn_1->Var_0.id)) == (u.env)(Slot::V(sa->Dyn_1->Var_0.id))
                &&& (v.env)(Slot::V(right->Dyn_0.address.id)) == (u.env)(Slot::V(sb->Dyn_0.address.id))
                &&& (v.env)(Slot::V(right->Dyn_1->Var_0.id)) == (u.env)(Slot::V(sb->Dyn_1->Var_0.id))
            }
        }),
{
    let sibling = Array::<Felt>::fresh_at(c);
    let bit = var_at(c.v + 2);
    let c2 = c.add(Counts::vars(3));
    let left = Array::<Felt>::fresh_at(c2);
    let right = Array::<Felt>::fresh_at(c2.add(Counts::vars(2)));
    let rp = root->Dyn_0;
    let rl = root->Dyn_1->Var_0;
    let lp = Slot::V(c2.v as u32);
    let ll = Slot::V((c2.v + 1) as u32);
    let qp = Slot::V((c2.v + 2) as u32);
    let ql = Slot::V((c2.v + 3) as u32);
    let sp = Slot::V(c.v as u32);
    let sl = Slot::V((c.v + 1) as u32);
    let then_ops = Array::<Felt>::assign_ops(left, sibling) + Array::<Felt>::assign_ops(right, root);
    let else_ops = Array::<Felt>::assign_ops(left, root) + Array::<Felt>::assign_ops(right, sibling);
    let ife = Instr::IfEqI(bit, 1, then_ops, else_ops);
    lemma_run_one(ife, u);
    let x1 = Instr::Copy(lp, sp);
    let x2 = Instr::Copy(ll, sl);
    let x3 = Instr::Copy(qp, Slot::V(rp.address.id));
    let x4 = Instr::Copy(ql, Slot::V(rl.id));
    let y1 = Instr::Copy(lp, Slot::V(rp.address.id));
    let y2 = Instr::Copy(ll, Slot::V(rl.id));
    let y3 = Instr::Copy(qp, sp);
    let y4 = Instr::Copy(ql, sl);
    assert(then_ops =~= seq![x1].push(x2).push(x3).push(x4));
    assert(else_ops =~= seq![y1].push(y2).push(y3).push(y4));
    if scalar(u, bit) == 1 {
        lemma_run_push(seq![x1].push(x2).push(x3), x4, u);
        lemma_run_push(seq![x1].push(x2), x3, u);
        lemma_run_push(seq![x1], x2, u);
        lemma_run_one(x1, u);
    } else {
        lemma_run_push(seq![y1].push(y2).push(y3), y4, u);
        lemma_run_push(seq![y1].push(y2), y3, u);
        lemma_run_push(seq![y1], y2, u);
        lemma_run_one(y1, u);
    }
}

/// Compressing two arrays into a fresh array of `DIGEST_SIZE` elements under counters
/// `c4`: the run always ends, takes the `DIGEST_SIZE` cells from the free address, and
/// changes no variable handed out before; when the compression gives a digest below the
/// prime, those cells hold it and no cell below them changes.
proof fn lemma_compress_run(left: ArrayModel<Felt>, right: ArrayModel<Felt>, c4: Counts, v: MachineState)
    requires
        left matches ArrayModel::Dyn(lp, Usize::Var(ll)) && c4.has(Slot::V(lp.address.id)) && c4.has(
            Slot::V(ll.id),
        ),
        right matches ArrayModel::Dyn(qp, Usize::Var(ql)) && c4.has(Slot::V(qp.address.id)) && c4.has(
            Slot::V(ql.id),
        ),
        c4.add(Counts::vars(2)).fits(),
        0 <= v.heap,
    ensures
        ({
            let (nr, c5, a) = dyn_array_effect::<Felt>(Usize::Const(DIGEST_SIZE), c4, Seq::empty());
            let out = (v.compress)(
                read_cells(v, scalar(v, left->Dyn_0.address), cell_count(v, left->Dyn_1)),
                read_cells(v, scalar(v, right->Dyn_0.address), cell_count(v, right->Dyn_1)),
            );
            run(
                a.push(
                    Instr::Poseidon2Compress(
                        nr->Dyn_0,
                        nr->Dyn_1,
                        left->Dyn_0,
                        left->Dyn_1,
                        right->Dyn_0,
                        right->Dyn_1,
                    ),
                ),
                v,
            ) matches Some(w) && {
                &&& w.heap == v.heap + DIGEST_SIZE
                &&& w.hash == v.hash && w.compress == v.compress
                &&& forall|x: Slot| c4.has(x) ==> (w.env)(x) == (v.env)(x)
                &&& scalar(w, nr->Dyn_0.address) == v.heap
                &&& length(w, nr->Dyn_1) == DIGEST_SIZE
                &&& (out.len() == DIGEST_SIZE && v.heap + DIGEST_SIZE <= prime()) ==> {
                    &&& digest_cells(w.mem, v.heap) == out
                    &&& same_below(w.mem, v.mem, v.heap)
                }
            }
        }),
{
    let (nr, c5, a) = dyn_array_effect::<Felt>(Usize::Const(DIGEST_SIZE), c4, Seq::empty());
    let pc = Instr::Poseidon2Compress(nr->Dyn_0, nr->Dyn_1, left->Dyn_0, left->Dyn_1, right->Dyn_0, right->Dyn_1);
    lemma_run_push(a, pc, v);
    law_dyn_array::<Felt>(Usize::Const(DIGEST_SIZE), c4, v);
    let v2 = run(a, v).unwrap();
    lemma_small_mod(DIGEST_SIZE as nat, prime() as nat);
    assert(length(v, Usize::Const(DIGEST_SIZE)) == DIGEST_SIZE);
    assert(v2.hash == v.hash && v2.compress == v.compress) by {
        crate::digest::lemma_run_keeps_hash(a, v);
    }
    let ra = read_cells(v2, scalar(v2, left->Dyn_0.address), cell_count(v2, left->Dyn_1));
    let rb = read_cells(v2, scalar(v2, right->Dyn_0.address), cell_count(v2, right->Dyn_1));
    assert(ra == read_cells(v, scalar(v, left->Dyn_0.address), cell_count(v, left->Dyn_1)));
    assert(rb == read_cells(v, scalar(v, right->Dyn_0.address), cell_count(v, right->Dyn_1)));
    let out = (v2.compress)(ra, rb);
    let w = step(pc, v2).unwrap();
    assert(w == write_cells(v2, v.heap, out));
    lemma_write_cells_keeps(v2, v.heap, out);
    assert(c5.has(Slot::V(nr->Dyn_0.address.id)));
    if out.len() == DIGEST_SIZE && v.heap + DIGEST_SIZE <= prime() {
        assert forall|m: int| 0 <= m < DIGEST_SIZE implies #[trigger] digest_cells(w.mem, v.heap)[m] == out[m] by {
            lemma_write_cells_value(v2, v.heap, out, m);
        }
        assert(digest_cells(w.mem, v.heap) =~= out);
        assert forall|b: int| 0 <= b < v.heap implies #[trigger] (w.mem)(b) == (v.mem)(b) by {
            lemma_write_cells_frame(v2, v.heap, out, b);
        }
    }
}

/// The head of a path step, for sibling number `k`: the run always ends, takes the
/// `DIGEST_SIZE` cells from the free address for the new root, points the root there,
/// halves the height, reads the next table's height, and changes no other variable handed
/// out before; when the free address stays below the prime and the compression gives a
/// digest, the new root holds the compression of the sibling and the old root in the
/// order of bit `k`, and no cell below the old free address changes.
#[verifier::spinoff_prover]
#[verifier::rlimit(60)]
proof fn lemma_step_head(
    index: Var,
    dp: Ptr,
    ch: Var,
    root: ArrayModel<Felt>,
    bp: Ptr,
    pp: Ptr,
    i: Var,
    c: Counts,
    k: int,
    h0: int,
    m0: spec_fn(int) -> Seq<int>,
    rho: Seq<Seq<int>>,
    t: MachineState,
)
    requires
        root matches ArrayModel::Dyn(rp, Usize::Var(rl)) && {
            &&& c.has(Slot::V(rp.address.id))
            &&& c.has(Slot::V(rl.id))
            &&& rp.address.id != rl.id
            &&& ch.id != rp.address.id
            &&& ch.id != rl.id
            &&& 0 <= h0 <= scalar(t, rp.address)
            &&& scalar(t, rp.address) + DIGEST_SIZE <= t.heap
            &&& length(t, Usize::Var(rl)) == DIGEST_SIZE
            &&& digest_cells(t.mem, scalar(t, rp.address)) == rho
        },
        c.add(Counts::vars(10)).fits(),
        c.has(Slot::V(pp.address.id)),
        c.has(Slot::V(bp.address.id)),
        c.has(Slot::V(dp.address.id)),
        c.has(Slot::V(i.id)),
        c.has(Slot::V(index.id)),
        c.has(Slot::V(ch.id)),
        dp.address.id != root->Dyn_0.address.id && dp.address.id != root->Dyn_1->Var_0.id && dp.address.id
            != ch.id,
        index.id != root->Dyn_0.address.id && index.id != root->Dyn_1->Var_0.id && index.id != ch.id,
        (t.env)(Slot::V(i.id)) == seq![k],
        cell_at(scalar(t, pp.address), 2 * k) < h0,
        cell_at(scalar(t, pp.address), 2 * k + 1) < h0,
        cell_at(scalar(t, bp.address), k) < h0,
        forall|m: int|
            0 <= m < row_len(m0, scalar(t, pp.address), k) ==> #[trigger] cell_at(
                row_start(m0, scalar(t, pp.address), k),
                m,
            ) < h0,
    ensures
        run(step_head_ops(index, dp, ch, root, bp, pp, i, c), t) matches Some(u) && {
            &&& u.heap == t.heap + DIGEST_SIZE
            &&& u.hash == t.hash && u.compress == t.compress
            &&& forall|x: Slot|
                c.has(x) && x != Slot::V(root->Dyn_0.address.id) && x != Slot::V(root->Dyn_1->Var_0.id)
                    && x != Slot::V(ch.id) ==> (u.env)(x) == (t.env)(x)
            &&& scalar(u, root->Dyn_0.address) == t.heap
            &&& length(u, root->Dyn_1) == DIGEST_SIZE
            &&& (u.env)(Slot::V(ch.id)) == halved((t.env)(Slot::V(ch.id)))
            &&& (u.env)(Slot::V(var_at(c.v + 9).id)) == (u.mem)(cell_at(scalar(t, dp.address), scalar(t, index)))
            &&& (u.heap < prime() && same_below(t.mem, m0, h0) && (t.compress)(
                sibling_cells(m0, scalar(t, pp.address), k),
                rho,
            ).len() == DIGEST_SIZE && (t.compress)(rho, sibling_cells(m0, scalar(t, pp.address), k)).len()
                == DIGEST_SIZE) ==> {
                &&& same_below(u.mem, t.mem, t.heap)
                &&& digest_cells(u.mem, t.heap) == compressed(
                    t.compress,
                    m0,
                    scalar(t, pp.address),
                    scalar(t, bp.address),
                    k,
                    rho,
                )
            }
        },
{
    let rp = root->Dyn_0;
    let rl = root->Dyn_1->Var_0;
    let sibling = Array::<Felt>::fresh_at(c);
    let c1 = c.add(Counts::vars(2));
    let bit = var_at(c1.v);
    let c2 = c1.add(Counts::vars(1));
    let left = Array::<Felt>::fresh_at(c2);
    let c3 = c2.add(Counts::vars(2));
    let right = Array::<Felt>::fresh_at(c3);
    let c4 = c3.add(Counts::vars(2));
    let then_ops = Array::<Felt>::assign_ops(left, sibling) + Array::<Felt>::assign_ops(right, root);
    let else_ops = Array::<Felt>::assign_ops(left, root) + Array::<Felt>::assign_ops(right, sibling);
    let ix2 = MemIndex { index: Usize::Var(i), offset: 0, size: 2 };
    let ix1 = MemIndex { index: Usize::Var(i), offset: 0, size: 1 };
    let l1 = Instr::Load(Slot::V(c.v as u32), pp, ix2);
    let l2 = Instr::Load(Slot::V((c.v + 1) as u32), pp, index_plus(ix2, 1));
    let l3 = Instr::Load(Slot::V(bit.id), bp, ix1);
    assert(index_plus(ix2, 0) == ix2);
    assert(index_plus(ix1, 0) == ix1);
    assert(get_ops::<Array<Felt>>(pp, Usize::Var(i), c) =~= seq![l1, l2]);
    assert(get_ops::<Var>(bp, Usize::Var(i), c1) =~= seq![l3]);
    let ife = Instr::IfEqI(bit, 1, then_ops, else_ops);
    let (nr, c5, a) = dyn_array_effect::<Felt>(Usize::Const(DIGEST_SIZE), c4, Seq::empty());
    let pc = Instr::Poseidon2Compress(nr->Dyn_0, nr->Dyn_1, left->Dyn_0, left->Dyn_1, right->Dyn_0, right->Dyn_1);
    let a1 = Instr::Copy(Slot::V(rp.address.id), Slot::V(nr->Dyn_0.address.id));
    let a2 = Instr::Copy(Slot::V(rl.id), Slot::V(nr->Dyn_1->Var_0.id));
    assert(Array::<Felt>::assign_ops(root, nr) =~= seq![a1, a2]);
    let mh = Instr::MulVI(ch, ch, half());
    let nh = var_at(c5.v);
    let l4 = Instr::Load(Slot::V(nh.id), dp, ix1);
    assert(get_ops::<Dimensions>(dp, Usize::Var(index), c5) =~= seq![Instr::Load(Slot::V(nh.id), dp, MemIndex { index: Usize::Var(index), offset: 0, size: 1 })]);
    let l4 = Instr::Load(Slot::V(nh.id), dp, MemIndex { index: Usize::Var(index), offset: 0, size: 1 });
    let ca = seq![l1, l2, l3];
    let cb = seq![ife];
    let cc = a.push(pc);
    let cd = seq![a1].push(a2).push(mh).push(l4);
    let ops = step_head_ops(index, dp, ch, root, bp, pp, i, c);
    assert(ops =~= ((ca + cb) + cc) + cd);
    crate::semantics::lemma_run_append((ca + cb) + cc, cd, t);
    crate::semantics::lemma_run_append(ca + cb, cc, t);
    crate::semantics::lemma_run_append(ca, cb, t);
    // The sibling's description and the bit.
    assert(ca =~= seq![l1].push(l2).push(l3));
    lemma_run_push(seq![l1].push(l2), l3, t);
    lemma_run_push(seq![l1], l2, t);
    lemma_run_one(l1, t);
    let t1 = step(l1, t).unwrap();
    let t2 = step(l2, t1).unwrap();
    let ta = step(l3, t2).unwrap();
    let pb = scalar(t, pp.address);
    let bb = scalar(t, bp.address);
    assert(k * 2 == 2 * k) by (nonlinear_arith);
    assert(k * 1 == k) by (nonlinear_arith);
    assert(address(t, pp, ix2) == cell_at(pb, 2 * k));
    assert(address(t1, pp, index_plus(ix2, 1)) == cell_at(pb, 2 * k + 1));
    assert(address(t2, bp, ix1) == cell_at(bb, k));
    assert forall|x: Slot| c.has(x) implies (ta.env)(x) == (t.env)(x) by {
        assert(x != Slot::V(c.v as u32) && x != Slot::V((c.v + 1) as u32) && x != Slot::V(bit.id));
    }
    // The ordered pair.
    lemma_order_run(root, c, ta);
    let tb = run(cb, ta).unwrap();
    // The compression into a fresh root.
    lemma_compress_run(left, right, c4, tb);
    let tc = run(cc, tb).unwrap();
    // The root moved there, the height halved, the next height read.
    lemma_run_push(seq![a1].push(a2).push(mh), l4, tc);
    lemma_run_push(seq![a1].push(a2), mh, tc);
    lemma_run_push(seq![a1], a2, tc);
    lemma_run_one(a1, tc);
    let u = run(cd, tc).unwrap();
    let t5 = step(a1, tc).unwrap();
    let t6 = step(a2, t5).unwrap();
    let t7 = step(mh, t6).unwrap();
    assert(u == step(l4, t7).unwrap());
    assert(c2.has(Slot::V(rp.address.id)) && c4.has(Slot::V(rp.address.id)));
    assert forall|x: Slot|
        c.has(x) && x != Slot::V(rp.address.id) && x != Slot::V(rl.id) && x != Slot::V(ch.id) implies (u.env)(x)
        == (t.env)(x) by {
        assert(c2.has(x) && c4.has(x));
        assert(x != Slot::V(nh.id));
    }
    assert(scalar(t7, dp.address) == scalar(t, dp.address));
    assert(scalar(t7, index) == scalar(t, index));
    assert(address(t7, dp, MemIndex { index: Usize::Var(index), offset: 0, size: 1 }) == cell_at(
        scalar(t, dp.address),
        scalar(t, index),
    )) by {
        assert(scalar(t, index) * 1 == scalar(t, index)) by (nonlinear_arith);
    }
    assert((ta.env)(Slot::V(ch.id)) == (t.env)(Slot::V(ch.id)));
    assert(c2.has(Slot::V(ch.id)) && c4.has(Slot::V(ch.id)));
    assert((tb.env)(Slot::V(ch.id)) == (ta.env)(Slot::V(ch.id)));
    assert((tc.env)(Slot::V(ch.id)) == (tb.env)(Slot::V(ch.id)));
    assert(scalar(tc, ch) == scalar(t, ch));
    assert(c5.has(Slot::V(nr->Dyn_0.address.id)) && c5.has(Slot::V(nr->Dyn_1->Var_0.id)));
    let sib = sibling_cells(m0, pb, k);
    if u.heap < prime() && same_below(t.mem, m0, h0) && (t.compress)(sib, rho).len() == DIGEST_SIZE
        && (t.compress)(rho, sib).len() == DIGEST_SIZE {
        assert(cell_at(pb, 2 * k) >= 0 && cell_at(pb, 2 * k + 1) >= 0 && cell_at(bb, k) >= 0);
        assert((t.mem)(cell_at(pb, 2 * k)) == m0(cell_at(pb, 2 * k)));
        assert((t.mem)(cell_at(pb, 2 * k + 1)) == m0(cell_at(pb, 2 * k + 1)));
        assert((t.mem)(cell_at(bb, k)) == m0(cell_at(bb, k)));
        let rs = row_start(m0, pb, k);
        assert(scalar(tb, sibling->Dyn_0.address) == rs) by {
            assert(c2.has(Slot::V(sibling->Dyn_0.address.id)));
        }
        assert(cell_count(tb, sibling->Dyn_1) == sib.len()) by {
            assert(c2.has(Slot::V(sibling->Dyn_1->Var_0.id)));
        }
        let rsib = read_cells(tb, scalar(tb, sibling->Dyn_0.address), cell_count(tb, sibling->Dyn_1));
        assert forall|j: int| 0 <= j < sib.len() implies #[trigger] rsib[j] == sib[j] by {
            assert(cell_at(rs, j) < h0);
            assert(0 <= cell_at(rs, j));
        }
        assert(rsib =~= sib);
        let rr = read_cells(tb, scalar(tb, rp.address), cell_count(tb, root->Dyn_1));
        assert(scalar(tb, rp.address) == scalar(t, rp.address));
        assert((ta.env)(Slot::V(rl.id)) == (t.env)(Slot::V(rl.id)));
        assert(c2.has(Slot::V(rl.id)));
        assert((tb.env)(Slot::V(rl.id)) == (ta.env)(Slot::V(rl.id)));
        assert(length(tb, root->Dyn_1) == DIGEST_SIZE);
        assert(cell_count(tb, root->Dyn_1) == DIGEST_SIZE);
        assert(rr =~= digest_cells(t.mem, scalar(t, rp.address)));
        assert(scalar(ta, bit) == m0(cell_at(bb, k))[0]);
        assert(u.mem == tc.mem);
    }
}

/// The row description of table `k` and its row lie below `bound`.
pub open spec fn rows_below(mem: spec_fn(int) -> Seq<int>, obase: int, k: int, bound: int) -> bool {
    &&& cell_at(obase, 2 * k) < bound
    &&& cell_at(obase, 2 * k + 1) < bound
    &&& forall|m: int| 0 <= m < row_len(mem, obase, k) ==> #[trigger] cell_at(row_start(mem, obase, k), m) < bound
}

/// Whether the index has not reached the number of tables: as whole values when that
/// number is a variable holding `lv`, as field elements when it is a constant.
pub open spec fn more_tables(idx: Seq<int>, len: Usize, lv: Seq<int>) -> bool {
    match len {
        Usize::Var(_) => idx != lv,
        Usize::Const(n) => idx[0] != (n as int) % prime(),
    }
}

/// The branch of a path step on the next tables, built under counters `c6`: when the
/// index has not reached the number of tables and the next table's height, read into
/// `nh`, is the halved height, the tables of that height are digested and compressed into
/// the root. The run always ends; when the free address stays below the prime and the
/// machine's digests have `DIGEST_SIZE` elements, the root and the index end as the walk
/// says and no cell below the old free address changes.
#[verifier::spinoff_prover]
#[verifier::rlimit(80)]
proof fn lemma_step_tail(
    d: nat,
    index: Var,
    dims: ArrayModel<Dimensions>,
    ch: Var,
    opened: ArrayModel<ArrayModel<Ext>>,
    root: ArrayModel<Felt>,
    nh: Var,
    c6: Counts,
    h0: int,
    m0: spec_fn(int) -> Seq<int>,
    u: MachineState,
)
    requires
        dims matches ArrayModel::Dyn(dp, dl) && c6.has(Slot::V(dp.address.id)) && (dl matches Usize::Var(
            v,
        ) ==> c6.has(Slot::V(v.id)) && (u.env)(Slot::V(v.id)) == seq![length(u, dl)]) && index.id
            != dp.address.id,
        opened matches ArrayModel::Dyn(op, _) && c6.has(Slot::V(op.address.id)) && index.id != op.address.id,
        root matches ArrayModel::Dyn(rp, Usize::Var(rl)) && c6.has(Slot::V(rp.address.id)) && c6.has(
            Slot::V(rl.id),
        ) && rp.address.id != rl.id && index.id != rp.address.id && index.id != rl.id,
        c6.has(Slot::V(index.id)),
        c6.has(Slot::V(ch.id)),
        c6.has(Slot::V(nh.id)),
        index.id != ch.id,
        c6.add(reduce_uses(d)).add(Counts::vars(2)).fits(),
        d <= 4,
        0 <= h0 <= scalar(u, root->Dyn_0.address),
        scalar(u, root->Dyn_0.address) + DIGEST_SIZE <= u.heap,
        length(u, root->Dyn_1) == DIGEST_SIZE,
        (u.env)(Slot::V(index.id)) == seq![scalar(u, index)],
        0 <= scalar(u, index) <= length(u, model_len(dims)) < prime(),
        (u.env)(Slot::V(nh.id)) == (u.mem)(cell_at(scalar(u, dims->Dyn_0.address), scalar(u, index))),
        forall|k: int|
            0 <= k < length(u, model_len(dims)) ==> #[trigger] cell_at(scalar(u, dims->Dyn_0.address), k)
                < h0,
        forall|k: int|
            0 <= k < length(u, model_len(dims)) ==> #[trigger] rows_below(m0, scalar(u, opened->Dyn_0.address), k, h0),
    ensures
        ({
            let rp = root->Dyn_0;
            let rl = root->Dyn_1;
            let dbase = scalar(u, dims->Dyn_0.address);
            let obase = scalar(u, opened->Dyn_0.address);
            let len = length(u, model_len(dims));
            let idx = (u.env)(Slot::V(index.id));
            let h = (u.env)(Slot::V(ch.id));
            let taken = more_tables(idx, model_len(dims), usize_value(u.env, model_len(dims))) && m0(
                cell_at(dbase, idx[0]),
            ) == h;
            let f = tables_values(m0, dbase, h, obase, idx[0], len, d);
            let ops = seq![
                branch_instr(
                    ne_usize(index, model_len(dims)),
                    seq![Instr::IfEq(nh, ch, next_tables_effect(d, index, dims, ch, opened, root, c6).0, Seq::empty())],
                    Seq::empty(),
                ),
            ];
            run(ops, u) matches Some(v) && {
                &&& u.heap <= v.heap
                &&& v.hash == u.hash && v.compress == u.compress
                &&& forall|x: Slot|
                    c6.has(x) && x != Slot::V(index.id) && x != Slot::V(rp.address.id) && x != Slot::V(
                        rl->Var_0.id,
                    ) ==> (v.env)(x) == (u.env)(x)
                &&& length(v, rl) == DIGEST_SIZE
                &&& (v.env)(Slot::V(index.id)) == seq![scalar(v, index)]
                &&& scalar(u, index) <= scalar(v, index) <= len
                &&& h0 <= scalar(v, rp.address)
                &&& scalar(v, rp.address) + DIGEST_SIZE <= v.heap
                &&& (v.heap < prime() && same_below(u.mem, m0, h0) && (forall|x: Seq<Seq<int>>|
                    #[trigger] (u.hash)(x).len() == DIGEST_SIZE)
                    && (forall|x: Seq<Seq<int>>, y: Seq<Seq<int>>| #[trigger] (u.compress)(x, y).len()
                    == DIGEST_SIZE)) ==> {
                    &&& same_below(v.mem, u.mem, u.heap)
                    &&& (v.env)(Slot::V(index.id)) == (if taken {
                        moved_on(idx, matching_tables(m0, dbase, h, idx[0], len))
                    } else {
                        idx
                    })
                    &&& digest_cells(v.mem, scalar(v, rp.address)) == (if taken {
                        (u.compress)(digest_cells(u.mem, scalar(u, rp.address)), (u.hash)(f))
                    } else {
                        digest_cells(u.mem, scalar(u, rp.address))
                    })
                }
            }
        }),
{
    let dp = dims->Dyn_0;
    let dl = dims->Dyn_1;
    let op = opened->Dyn_0;
    let rp = root->Dyn_0;
    let rl = root->Dyn_1->Var_0;
    let dbase = scalar(u, dp.address);
    let obase = scalar(u, op.address);
    let len = length(u, model_len(dims));
    let idx = (u.env)(Slot::V(index.id));
    let i0 = idx[0];
    let h = (u.env)(Slot::V(ch.id));
    let (dg, cr, tr) = reduce_effect(d, index, dims, ch, opened, c6, Seq::empty());
    let (nr2, c2p, a) = dyn_array_effect::<Felt>(Usize::Const(DIGEST_SIZE), cr, Seq::empty());
    let (nr2b, c2b, t2) = felts_effect(DIGEST_SIZE, cr, tr);
    assert(nr2b == nr2 && c2b == c2p && t2 =~= tr + a);
    let pc = Instr::Poseidon2Compress(nr2->Dyn_0, nr2->Dyn_1, rp, root->Dyn_1, dg->Dyn_0, dg->Dyn_1);
    let x1 = Instr::Copy(Slot::V(rp.address.id), Slot::V(nr2->Dyn_0.address.id));
    let x2 = Instr::Copy(Slot::V(rl.id), Slot::V(nr2->Dyn_1->Var_0.id));
    assert(Array::<Felt>::assign_ops(root, nr2) =~= seq![x1, x2]);
    let cc = a.push(pc);
    let cd = seq![x1].push(x2);
    let tn = next_tables_effect(d, index, dims, ch, opened, root, c6).0;
    assert(tn =~= (tr + cc) + cd);
    let ieq = Instr::IfEq(nh, ch, tn, Seq::empty());
    let br = branch_instr(ne_usize(index, model_len(dims)), seq![ieq], Seq::empty());
    lemma_run_one(br, u);
    assert(run(Seq::<Instr>::empty(), u) == Some(u));
    let more = more_tables(idx, model_len(dims), usize_value(u.env, model_len(dims)));
    match dl {
        Usize::Var(w) => {
            assert(step(br, u) == (if more {
                run(seq![ieq], u)
            } else {
                Some(u)
            }));
        },
        Usize::Const(n) => {
            assert(crate::field::felt_of_nat(n as nat) as int == (n as int) % prime());
            assert(step(br, u) == (if more {
                run(seq![ieq], u)
            } else {
                Some(u)
            }));
        },
    }
    if more {
        assert(i0 < len);
        assert(cell_at(dbase, i0) < h0 && 0 <= cell_at(dbase, i0));
        lemma_run_one(ieq, u);
        if same_below(u.mem, m0, h0) {
            assert((u.mem)(cell_at(dbase, i0)) == m0(cell_at(dbase, i0)));
        }
        if (u.mem)(cell_at(dbase, i0)) == h {
            assert(step(ieq, u) == run(tn, u));
            crate::semantics::lemma_run_append(tr + cc, cd, u);
            crate::semantics::lemma_run_append(tr, cc, u);
            assert forall|k: int| i0 <= k < len implies #[trigger] cell_at(dbase, k) < u.heap by {
                assert(cell_at(dbase, k) < h0);
            }
            law_reduce(d, index, dims, ch, opened, c6, u);
            let s2 = run(tr, u).unwrap();
            let dgp = dg->Dyn_0;
            let dgl = dg->Dyn_1;
            assert(c6.le(cr));
            assert(dgl matches Usize::Var(_));
            assert(cr.has(Slot::V(dgp.address.id)) && cr.has(Slot::V(dgl->Var_0.id)));
            assert(cr.add(Counts::vars(2)).fits());
            lemma_compress_run(root, dg, cr, s2);
            let s3 = run(cc, s2).unwrap();
            lemma_run_push(seq![x1], x2, s3);
            lemma_run_one(x1, s3);
            let v = run(cd, s3).unwrap();
            assert(c6.has(Slot::V(rp.address.id)) && c6.has(Slot::V(rl.id)));
            assert(cr.has(Slot::V(rp.address.id)) && cr.has(Slot::V(rl.id)));
            assert(c2p.has(Slot::V(nr2->Dyn_0.address.id)) && c2p.has(Slot::V(nr2->Dyn_1->Var_0.id)));
            assert(scalar(v, rp.address) == scalar(s3, nr2->Dyn_0.address));
            assert(scalar(v, rp.address) == s2.heap);
            assert(length(v, root->Dyn_1) == length(s3, nr2->Dyn_1));
            assert forall|x: Slot|
                c6.has(x) && x != Slot::V(index.id) && x != Slot::V(rp.address.id) && x != Slot::V(rl.id)
                    implies (v.env)(x) == (u.env)(x) by {
                assert(cr.has(x));
            }
            crate::digest::lemma_run_keeps_hash(tr, u);
            assert(c6.has(Slot::V(index.id)) && cr.has(Slot::V(index.id)));
            assert((v.env)(Slot::V(index.id)) == (s2.env)(Slot::V(index.id)));
            assert(v.hash == u.hash && v.compress == u.compress);
            if v.heap < prime() && same_below(u.mem, m0, h0) && (forall|x: Seq<Seq<int>>|
                #[trigger] (u.hash)(x).len() == DIGEST_SIZE) && (forall|x: Seq<Seq<int>>, y: Seq<Seq<int>>|
                #[trigger] (u.compress)(x, y).len() == DIGEST_SIZE) {
                assert forall|x: Seq<Seq<int>>| #[trigger] (u.hash)(x).len() <= DIGEST_SIZE by {
                    assert((u.hash)(x).len() == DIGEST_SIZE);
                }
                assert(same_below(s2.mem, u.mem, u.heap));
                // The index.
                lemma_matching_same(u.mem, m0, dbase, h, i0, len, h0);
                assert(c6.has(Slot::V(index.id)) && cr.has(Slot::V(index.id)));
                assert((v.env)(Slot::V(index.id)) == (s2.env)(Slot::V(index.id)));
                // The digest of the next tables.
                assert forall|k: int| i0 <= k < len implies #[trigger] row_cells_below(m0, dbase, h, obase, k, h0) by {
                    assert(rows_below(m0, obase, k, h0));
                }
                lemma_tables_same(u.mem, m0, dbase, h, obase, i0, len, d, h0);
                assert forall|k: int| i0 <= k < len implies #[trigger] row_cells_below(
                    u.mem,
                    dbase,
                    h,
                    obase,
                    k,
                    u.heap,
                ) by {
                    assert(row_cells_below(u.mem, dbase, h, obase, k, h0));
                    if (u.mem)(cell_at(dbase, k)) == h {
                        assert forall|m: int| 0 <= m < row_len(u.mem, obase, k) implies #[trigger] cell_at(
                            row_start(u.mem, obase, k),
                            m,
                        ) < u.heap by {
                            assert(cell_at(row_start(u.mem, obase, k), m) < h0);
                        }
                    }
                }
                let f = tables_values(m0, dbase, h, obase, i0, len, d);
                let hf = (u.hash)(f);
                assert(hf.len() == DIGEST_SIZE);
                let dgv = scalar(s2, dgp.address);
                assert(length(s2, dgl) == DIGEST_SIZE);
                let rdg = read_cells(s2, dgv, cell_count(s2, dgl));
                assert forall|m: int| 0 <= m < DIGEST_SIZE implies #[trigger] rdg[m] == hf[m] by {
                    assert((s2.mem)(cell_at(dgv, m)) == hf[m]);
                }
                assert(rdg =~= hf);
                let rv = scalar(u, rp.address);
                assert(scalar(s2, rp.address) == rv);
                assert(length(s2, root->Dyn_1) == DIGEST_SIZE);
                let rr = read_cells(s2, rv, cell_count(s2, root->Dyn_1));
                assert forall|m: int| 0 <= m < DIGEST_SIZE implies #[trigger] rr[m] == digest_cells(u.mem, rv)[m] by {
                    lemma_small_mod((rv + m) as nat, prime() as nat);
                    assert((s2.mem)(rv + m) == (u.mem)(rv + m));
                }
                assert(rr =~= digest_cells(u.mem, rv));
                assert(s2.compress == u.compress);
                assert(v.mem == s3.mem);
                assert forall|b: int| 0 <= b < u.heap implies #[trigger] (v.mem)(b) == (u.mem)(b) by {
                    assert((s3.mem)(b) == (s2.mem)(b));
                }
            }
        }
    }
}

/// What a Merkle walk reads: the machine's hash and compression, the memory, the tables'
/// number (as built and as held), their heights, row descriptions, the siblings'
/// descriptions and the index bits (each by the address of its first cell), and the
/// number of coefficients taken of each extension value.
pub struct WalkEnv {
    pub hash: spec_fn(Seq<Seq<int>>) -> Seq<Seq<int>>,
    pub compress: spec_fn(Seq<Seq<int>>, Seq<Seq<int>>) -> Seq<Seq<int>>,
    pub mem: spec_fn(int) -> Seq<int>,
    pub dims_len: Usize,
    pub len_value: Seq<int>,
    pub dbase: int,
    pub obase: int,
    pub pbase: int,
    pub bbase: int,
    pub d: nat,
}

/// One step of the Merkle walk, for sibling `i`, from the root, index and height in `st`:
/// the sibling is compressed in, the height halved, and, when there are tables left and
/// the next one has that height, the digest of the tables of that height is compressed
/// in and the index moved past them.
pub open spec fn walk_step(
    w: WalkEnv,
    i: int,
    st: (Seq<Seq<int>>, Seq<int>, Seq<int>),
) -> (Seq<Seq<int>>, Seq<int>, Seq<int>) {
    let r1 = compressed(w.compress, w.mem, w.pbase, w.bbase, i, st.0);
    let h1 = halved(st.2);
    let idx = st.1;
    let len = w.len_value[0];
    if more_tables(idx, w.dims_len, w.len_value) && (w.mem)(cell_at(w.dbase, idx[0])) == h1 {
        (
            (w.compress)(r1, (w.hash)(tables_values(w.mem, w.dbase, h1, w.obase, idx[0], len, w.d))),
            moved_on(idx, matching_tables(w.mem, w.dbase, h1, idx[0], len)),
            h1,
        )
    } else {
        (r1, idx, h1)
    }
}

/// The Merkle walk over the siblings from `k` up to `end`, from the state `st`.
pub open spec fn walk_from(
    w: WalkEnv,
    k: int,
    end: int,
    st: (Seq<Seq<int>>, Seq<int>, Seq<int>),
) -> (Seq<Seq<int>>, Seq<int>, Seq<int>)
    decreases end - k,
{
    if k >= end {
        st
    } else {
        walk_from(w, k + 1, end, walk_step(w, k, st))
    }
}

/// The machine's hash and compression give digests of `DIGEST_SIZE` elements.
pub open spec fn digests_fit(
    hash: spec_fn(Seq<Seq<int>>) -> Seq<Seq<int>>,
    compress: spec_fn(Seq<Seq<int>>, Seq<Seq<int>>) -> Seq<Seq<int>>,
) -> bool {
    &&& forall|x: Seq<Seq<int>>| #[trigger] hash(x).len() == DIGEST_SIZE
    &&& forall|x: Seq<Seq<int>>, y: Seq<Seq<int>>| #[trigger] compress(x, y).len() == DIGEST_SIZE
}

/// The walk environment of a state, for the given arrays.
pub open spec fn walk_env(
    t: MachineState,
    m0: spec_fn(int) -> Seq<int>,
    dims: ArrayModel<Dimensions>,
    opened: ArrayModel<ArrayModel<Ext>>,
    index_bits: ArrayModel<Var>,
    proof: ArrayModel<ArrayModel<Felt>>,
    d: nat,
) -> WalkEnv {
    WalkEnv {
        hash: t.hash,
        compress: t.compress,
        mem: m0,
        dims_len: dims->Dyn_1,
        len_value: usize_value(t.env, dims->Dyn_1),
        dbase: scalar(t, dims->Dyn_0.address),
        obase: scalar(t, opened->Dyn_0.address),
        pbase: scalar(t, proof->Dyn_0.address),
        bbase: scalar(t, index_bits->Dyn_0.address),
        d,
    }
}

/// The variables a path step works with were handed out under counters `c`, and those
/// it changes are apart from those it reads.
pub open spec fn walk_vars(
    index: Var,
    dims: ArrayModel<Dimensions>,
    ch: Var,
    opened: ArrayModel<ArrayModel<Ext>>,
    root: ArrayModel<Felt>,
    index_bits: ArrayModel<Var>,
    proof: ArrayModel<ArrayModel<Felt>>,
    c: Counts,
) -> bool {
    &&& root matches ArrayModel::Dyn(rp, Usize::Var(rl)) && {
        let changed = set![index.id, rp.address.id, rl.id, ch.id];
        &&& c.has(Slot::V(rp.address.id)) && c.has(Slot::V(rl.id))
        &&& rp.address.id != rl.id
        &&& index.id != rp.address.id && index.id != rl.id && index.id != ch.id
        &&& ch.id != rp.address.id && ch.id != rl.id
        &&& dims matches ArrayModel::Dyn(dp, dl) && c.has(Slot::V(dp.address.id)) && !changed.contains(
            dp.address.id,
        ) && (dl matches Usize::Var(v) ==> c.has(Slot::V(v.id)) && !changed.contains(v.id))
        &&& opened matches ArrayModel::Dyn(op, _) && c.has(Slot::V(op.address.id)) && !changed.contains(
            op.address.id,
        )
        &&& index_bits matches ArrayModel::Dyn(bp, _) && c.has(Slot::V(bp.address.id)) && !changed.contains(
            bp.address.id,
        )
        &&& proof matches ArrayModel::Dyn(pp, _) && c.has(Slot::V(pp.address.id)) && !changed.contains(
            pp.address.id,
        )
    }
    &&& c.has(Slot::V(index.id))
    &&& c.has(Slot::V(ch.id))
}

/// What a path walk reads lies below `h0`: the tables' heights and rows, and, for the
/// siblings up to `n`, their descriptions, their cells and the index bits.
pub open spec fn walk_layout(w: WalkEnv, n: int, h0: int) -> bool {
    &&& forall|k: int| 0 <= k < w.len_value[0] ==> #[trigger] cell_at(w.dbase, k) < h0
    &&& forall|k: int| 0 <= k < w.len_value[0] ==> #[trigger] rows_below(w.mem, w.obase, k, h0)
    &&& forall|k: int| 0 <= k < n ==> #[trigger] rows_below(w.mem, w.pbase, k, h0)
    &&& forall|k: int| 0 <= k < n ==> #[trigger] cell_at(w.bbase, k) < h0
}

/// One step of the Merkle path, for sibling number `k`: the run always ends, moves the
/// root to fresh cells, keeps the index within the tables, and changes no other variable
/// handed out before but the height; when the free address stays below the prime, what
/// the walk reads is in place and the machine's digests fit, the root, the index and the
/// height end as one step of the walk says.
#[verifier::spinoff_prover]
#[verifier::rlimit(80)]
proof fn lemma_path_step(
    d: nat,
    index: Var,
    dims: ArrayModel<Dimensions>,
    ch: Var,
    opened: ArrayModel<ArrayModel<Ext>>,
    root: ArrayModel<Felt>,
    index_bits: ArrayModel<Var>,
    proof: ArrayModel<ArrayModel<Felt>>,
    i: Var,
    c: Counts,
    k: int,
    n: int,
    h0: int,
    m0: spec_fn(int) -> Seq<int>,
    t: MachineState,
)
    requires
        walk_vars(index, dims, ch, opened, root, index_bits, proof, c),
        c.has(Slot::V(i.id)),
        c.add(Counts::vars(10)).add(reduce_uses(d)).add(Counts::vars(2)).fits(),
        d <= 4,
        (t.env)(Slot::V(i.id)) == seq![k],
        0 <= k < n,
        walk_layout(walk_env(t, m0, dims, opened, index_bits, proof, d), n, h0),
        dims->Dyn_1 matches Usize::Var(v) ==> (t.env)(Slot::V(v.id)) == seq![length(t, dims->Dyn_1)],
        0 <= h0 <= scalar(t, root->Dyn_0.address),
        scalar(t, root->Dyn_0.address) + DIGEST_SIZE <= t.heap,
        length(t, root->Dyn_1) == DIGEST_SIZE,
        (t.env)(Slot::V(index.id)) == seq![scalar(t, index)],
        0 <= scalar(t, index) <= length(t, dims->Dyn_1) < prime(),
    ensures
        run(path_step_effect(d, index, dims, ch, opened, root, index_bits, proof, i, c).0, t) matches Some(
            t2,
        ) && {
            let rp = root->Dyn_0.address;
            &&& t.heap <= t2.heap
            &&& t2.hash == t.hash && t2.compress == t.compress
            &&& forall|x: Slot|
                c.has(x) && x != Slot::V(index.id) && x != Slot::V(rp.id) && x != Slot::V(root->Dyn_1->Var_0.id)
                    && x != Slot::V(ch.id) ==> (t2.env)(x) == (t.env)(x)
            &&& length(t2, root->Dyn_1) == DIGEST_SIZE
            &&& h0 <= scalar(t2, rp) && scalar(t2, rp) + DIGEST_SIZE <= t2.heap
            &&& (t2.env)(Slot::V(index.id)) == seq![scalar(t2, index)]
            &&& scalar(t, index) <= scalar(t2, index) <= length(t, dims->Dyn_1)
            &&& (t2.heap < prime() && same_below(t.mem, m0, h0) && digests_fit(t.hash, t.compress)) ==> {
                &&& same_below(t2.mem, m0, h0)
                &&& (digest_cells(t2.mem, scalar(t2, rp)), (t2.env)(Slot::V(index.id)), (t2.env)(
                    Slot::V(ch.id),
                )) == walk_step(
                    walk_env(t, m0, dims, opened, index_bits, proof, d),
                    k,
                    (digest_cells(t.mem, scalar(t, rp)), (t.env)(Slot::V(index.id)), (t.env)(Slot::V(ch.id))),
                )
            }
        },
{
    let dp = dims->Dyn_0;
    let op = opened->Dyn_0;
    let bp = index_bits->Dyn_0;
    let pp = proof->Dyn_0;
    let rp = root->Dyn_0;
    let rl = root->Dyn_1->Var_0;
    let w = walk_env(t, m0, dims, opened, index_bits, proof, d);
    let head = step_head_ops(index, dp, ch, root, bp, pp, i, c);
    let c6 = c.add(Counts::vars(10));
    let nh = var_at(c.v + 9);
    let br = branch_instr(
        ne_usize(index, model_len(dims)),
        seq![Instr::IfEq(nh, ch, next_tables_effect(d, index, dims, ch, opened, root, c6).0, Seq::empty())],
        Seq::empty(),
    );
    assert(path_step_effect(d, index, dims, ch, opened, root, index_bits, proof, i, c).0 == head.push(br));
    lemma_run_push(head, br, t);
    let rho = digest_cells(t.mem, scalar(t, rp.address));
    assert(walk_layout(w, n, h0));
    assert(rows_below(w.mem, w.pbase, k, h0));
    assert(cell_at(w.bbase, k) < h0);
    assert(w.mem == m0 && w.pbase == scalar(t, pp.address) && w.bbase == scalar(t, bp.address));
    lemma_step_head(index, dp, ch, root, bp, pp, i, c, k, h0, m0, rho, t);
    let u = run(head, t).unwrap();
    lemma_run_one(br, u);
    assert(c.has(Slot::V(dp.address.id)) && c.has(Slot::V(op.address.id)));
    assert(scalar(u, dp.address) == w.dbase);
    assert(scalar(u, op.address) == w.obase);
    assert((u.env)(Slot::V(index.id)) == (t.env)(Slot::V(index.id)));
    assert(usize_value(u.env, dims->Dyn_1) == usize_value(t.env, dims->Dyn_1)) by {
        if let Usize::Var(v) = dims->Dyn_1 {
            assert(c.has(Slot::V(v.id)));
        }
    }
    let len = length(t, dims->Dyn_1);
    assert forall|kk: int| 0 <= kk < length(u, model_len(dims)) implies #[trigger] cell_at(scalar(u, dp.address), kk)
        < h0 by {
        assert(cell_at(w.dbase, kk) < h0);
    }
    assert forall|kk: int| 0 <= kk < length(u, model_len(dims)) implies #[trigger] rows_below(
        m0,
        scalar(u, op.address),
        kk,
        h0,
    ) by {
        assert(rows_below(w.mem, w.obase, kk, h0));
    }
    lemma_step_tail(d, index, dims, ch, opened, root, nh, c6, h0, m0, u);
    let t2 = step(br, u).unwrap();
    assert forall|x: Slot|
        c.has(x) && x != Slot::V(index.id) && x != Slot::V(rp.address.id) && x != Slot::V(rl.id) && x != Slot::V(
            ch.id,
        ) implies (t2.env)(x) == (t.env)(x) by {
        assert(c6.has(x));
    }
    if t2.heap < prime() && same_below(t.mem, m0, h0) && digests_fit(t.hash, t.compress) {
        let sib = sibling_cells(m0, scalar(t, pp.address), k);
        assert((t.compress)(sib, rho).len() == DIGEST_SIZE);
        assert((t.compress)(rho, sib).len() == DIGEST_SIZE);
        assert(u.heap < prime());
        assert forall|b: int| 0 <= b < h0 implies #[trigger] (u.mem)(b) == m0(b) by {
            assert((u.mem)(b) == (t.mem)(b));
        }
        assert forall|b: int| 0 <= b < h0 implies #[trigger] (t2.mem)(b) == m0(b) by {
            assert((t2.mem)(b) == (u.mem)(b));
        }
        let r1 = compressed(t.compress, m0, scalar(t, pp.address), scalar(t, bp.address), k, rho);
        assert(digest_cells(u.mem, scalar(u, rp.address)) == r1);
        let st = (rho, (t.env)(Slot::V(index.id)), (t.env)(Slot::V(ch.id)));
        let h1 = halved(st.2);
        assert((u.env)(Slot::V(ch.id)) == h1);
        assert(c6.has(Slot::V(ch.id)));
        assert((t2.env)(Slot::V(ch.id)) == h1);
        assert(w.compress == t.compress && w.hash == t.hash && u.hash == t.hash && u.compress == t.compress);
        assert(w.len_value[0] == length(u, model_len(dims)));
        let ws = walk_step(w, k, st);
        assert(ws.0 == digest_cells(t2.mem, scalar(t2, rp.address)));
        assert(ws.1 == (t2.env)(Slot::V(index.id)));
        assert(ws.2 == (t2.env)(Slot::V(ch.id)));
    }
}

/// The Merkle path from sibling `k` up to `n`: the run always ends, keeps the root in
/// fresh cells and the index within the tables, and changes no other variable handed out
/// before but the height; when the free address stays below the prime, what the walk
/// reads is in place and the machine's digests fit, the root, the index and the height
/// end as the walk from `k` up to `n` says.
#[verifier::spinoff_prover]
#[verifier::rlimit(60)]
proof fn lemma_path_walk(
    d: nat,
    index: Var,
    dims: ArrayModel<Dimensions>,
    ch: Var,
    opened: ArrayModel<ArrayModel<Ext>>,
    root: ArrayModel<Felt>,
    index_bits: ArrayModel<Var>,
    proof: ArrayModel<ArrayModel<Felt>>,
    c4: Counts,
    k: int,
    n: int,
    h0: int,
    m0: spec_fn(int) -> Seq<int>,
    w: WalkEnv,
    t: MachineState,
)
    requires
        walk_vars(index, dims, ch, opened, root, index_bits, proof, c4),
        c4.add(Counts::vars(11)).add(reduce_uses(d)).add(Counts::vars(2)).fits(),
        d <= 4,
        0 <= k,
        w == walk_env(t, m0, dims, opened, index_bits, proof, d),
        walk_layout(w, n, h0),
        dims->Dyn_1 matches Usize::Var(v) ==> (t.env)(Slot::V(v.id)) == seq![length(t, dims->Dyn_1)],
        0 <= h0 <= scalar(t, root->Dyn_0.address),
        scalar(t, root->Dyn_0.address) + DIGEST_SIZE <= t.heap,
        length(t, root->Dyn_1) == DIGEST_SIZE,
        (t.env)(Slot::V(index.id)) == seq![scalar(t, index)],
        0 <= scalar(t, index) <= length(t, dims->Dyn_1) < prime(),
    ensures
        ({
            let c5 = c4.add(Counts::vars(1));
            let i = var_at(c4.v);
            let body = path_step_effect(d, index, dims, ch, opened, root, index_bits, proof, i, c5).0;
            let rp = root->Dyn_0.address;
            run_loop(body, i, k, n, 1, t) matches Some(t2) && {
                &&& t.heap <= t2.heap
                &&& t2.hash == t.hash && t2.compress == t.compress
                &&& forall|x: Slot|
                    c4.has(x) && x != Slot::V(index.id) && x != Slot::V(rp.id) && x != Slot::V(
                        root->Dyn_1->Var_0.id,
                    ) && x != Slot::V(ch.id) ==> (t2.env)(x) == (t.env)(x)
                &&& length(t2, root->Dyn_1) == DIGEST_SIZE
                &&& h0 <= scalar(t2, rp) && scalar(t2, rp) + DIGEST_SIZE <= t2.heap
                &&& (t2.env)(Slot::V(index.id)) == seq![scalar(t2, index)]
                &&& scalar(t, index) <= scalar(t2, index) <= length(t, dims->Dyn_1)
                &&& (t2.heap < prime() && same_below(t.mem, m0, h0) && digests_fit(t.hash, t.compress)) ==> {
                    &&& same_below(t2.mem, m0, h0)
                    &&& (digest_cells(t2.mem, scalar(t2, rp)), (t2.env)(Slot::V(index.id)), (t2.env)(
                        Slot::V(ch.id),
                    )) == walk_from(
                        w,
                        k,
                        n,
                        (digest_cells(t.mem, scalar(t, rp)), (t.env)(Slot::V(index.id)), (t.env)(
                            Slot::V(ch.id),
                        )),
                    )
                }
            }
        }),
    decreases distance(k, n),
{
    let c5 = c4.add(Counts::vars(1));
    let i = var_at(c4.v);
    let body = path_step_effect(d, index, dims, ch, opened, root, index_bits, proof, i, c5).0;
    let rp = root->Dyn_0.address;
    let rl = root->Dyn_1->Var_0;
    if k < n {
        let t0 = with_var(t, Slot::V(i.id), seq![k]);
        assert(walk_vars(index, dims, ch, opened, root, index_bits, proof, c5));
        assert(!c4.has(Slot::V(i.id)));
        assert(walk_env(t0, m0, dims, opened, index_bits, proof, d) == w);
        lemma_path_step(d, index, dims, ch, opened, root, index_bits, proof, i, c5, k, n, h0, m0, t0);
        let t1 = run(body, t0).unwrap();
        assert(walk_env(t1, m0, dims, opened, index_bits, proof, d) == w) by {
            assert(c5.has(Slot::V(dims->Dyn_0.address.id)));
            assert(c5.has(Slot::V(opened->Dyn_0.address.id)));
            assert(c5.has(Slot::V(index_bits->Dyn_0.address.id)));
            assert(c5.has(Slot::V(proof->Dyn_0.address.id)));
            if let Usize::Var(v) = dims->Dyn_1 {
                assert(c5.has(Slot::V(v.id)));
            }
        }
        assert(length(t1, dims->Dyn_1) == length(t, dims->Dyn_1));
        lemma_path_walk(d, index, dims, ch, opened, root, index_bits, proof, c4, k + 1, n, h0, m0, w, t1);
        let t2 = run_loop(body, i, k + 1, n, 1, t1).unwrap();
        assert forall|x: Slot|
            c4.has(x) && x != Slot::V(index.id) && x != Slot::V(rp.id) && x != Slot::V(rl.id) && x != Slot::V(
                ch.id,
            ) implies (t2.env)(x) == (t.env)(x) by {
            assert(c5.has(x));
            assert(x != Slot::V(i.id));
        }
        if t2.heap < prime() && same_below(t.mem, m0, h0) && digests_fit(t.hash, t.compress) {
            assert(t1.heap < prime());
            assert(t0.mem == t.mem);
        }
    }
}

/// The walk's starting state for a batch opening: the digest of the tables of the height
/// of table 0, the index past them, and that height.
pub open spec fn walk_start(w: WalkEnv) -> (Seq<Seq<int>>, Seq<int>, Seq<int>) {
    let h = (w.mem)(cell_at(w.dbase, 0));
    let len = w.len_value[0];
    (
        (w.hash)(tables_values(w.mem, w.dbase, h, w.obase, 0, len, w.d)),
        moved_on(seq![0], matching_tables(w.mem, w.dbase, h, 0, len)),
        h,
    )
}

/// The root that a batch opening compares with the commitment is the Merkle walk's: the
/// program up to its last loop always runs to the end, and, when what the walk reads (the
/// tables' heights and rows, the siblings and the index bits) lies below the first free
/// address, the free address stays below the prime and the machine's digests have
/// `DIGEST_SIZE` elements, the root's cells then hold the root that the walk over all the
/// siblings gives from the digest of the tallest tables: each sibling compressed in on
/// the side its bit says, and, at each height reached, the digest of the tables of that
/// height compressed in too.
pub proof fn law_verify_batch_root(
    d: nat,
    commit: ArrayModel<Felt>,
    dims: ArrayModel<Dimensions>,
    index_bits: ArrayModel<Var>,
    opened: ArrayModel<ArrayModel<Ext>>,
    proof: ArrayModel<ArrayModel<Felt>>,
    c: Counts,
    s: MachineState,
)
    requires
        dims matches ArrayModel::Dyn(dp, dl) && c.has(Slot::V(dp.address.id)) && (dl matches Usize::Var(
            v,
        ) ==> c.has(Slot::V(v.id)) && (s.env)(Slot::V(v.id)) == seq![length(s, dl)]),
        opened matches ArrayModel::Dyn(op, _) && c.has(Slot::V(op.address.id)),
        index_bits matches ArrayModel::Dyn(bp, _) && c.has(Slot::V(bp.address.id)),
        proof matches ArrayModel::Dyn(pp, pl) && c.has(Slot::V(pp.address.id)) && (pl matches Usize::Var(
            v,
        ) ==> c.has(Slot::V(v.id))),
        c.add(verify_batch_uses(d)).fits(),
        d <= 4,
        0 <= s.heap,
        0 <= length(s, dims->Dyn_1) < prime(),
        walk_layout(
            walk_env(s, s.mem, dims, opened, index_bits, proof, d),
            length(s, proof->Dyn_1),
            s.heap,
        ),
    ensures
        ({
            let ops = verify_batch_effect(d, commit, dims, index_bits, opened, proof, c, Seq::empty()).1;
            let w = walk_env(s, s.mem, dims, opened, index_bits, proof, d);
            let root = crate::laws::batch_root(d, dims, opened, c);
            run(ops.drop_last(), s) matches Some(s1) && {
                &&& forall|x: Slot| c.has(x) ==> (s1.env)(x) == (s.env)(x)
                &&& (s1.heap < prime() && digests_fit(s.hash, s.compress)) ==> {
                    &&& same_below(s1.mem, s.mem, s.heap)
                    &&& digest_cells(s1.mem, scalar(s1, root->Dyn_0.address)) == walk_from(
                        w,
                        0,
                        length(s, proof->Dyn_1),
                        walk_start(w),
                    ).0
                }
            }
        }),
{
    let dp = dims->Dyn_0;
    let dl = dims->Dyn_1;
    let w = walk_env(s, s.mem, dims, opened, index_bits, proof, d);
    let e = verify_batch_effect(d, commit, dims, index_bits, opened, proof, c, Seq::empty());
    let index = var_at(c.v);
    let c1 = c.add(Counts::vars(1));
    let ch = var_at(c1.v);
    let c2 = c1.add(Counts::vars(1));
    let im = Instr::ImmV(index, 0);
    let ix = MemIndex { index: Usize::Var(index), offset: 0, size: 1 };
    let hl = Instr::Load(Slot::V(ch.id), dp, ix);
    assert(index_plus(ix, 0) == ix);
    let o2 = seq![im, hl];
    assert(Seq::<Instr>::empty().push(im) + get_ops::<Dimensions>(dp, Usize::Var(index), c1) =~= o2);
    let (root, c3, o3) = reduce_effect(d, index, dims, ch, opened, c2, o2);
    let rops = reduce_effect(d, index, dims, ch, opened, c2, Seq::empty()).2;
    assert(o3 =~= o2 + rops);
    let one = var_at(c3.v);
    let c4 = c3.add(Counts::vars(1));
    let imo = Instr::ImmV(one, 1);
    let o4 = o3.push(imo);
    let i = var_at(c4.v);
    let c5 = c4.add(Counts::vars(1));
    let body = path_step_effect(d, index, dims, ch, opened, root, index_bits, proof, i, c5).0;
    let fo = Instr::For(Usize::Const(0), proof->Dyn_1, 1, i, body);
    let o5 = o4.push(fo);
    assert(e.1.drop_last() =~= o5);
    lemma_run_push(o4, fo, s);
    lemma_run_push(o3, imo, s);
    crate::semantics::lemma_run_append(o2, rops, s);
    lemma_run_push(seq![im], hl, s);
    assert(seq![im].push(hl) =~= o2);
    lemma_run_one(im, s);
    let sa = step(im, s).unwrap();
    let sb = step(hl, sa).unwrap();
    let dbase = scalar(s, dp.address);
    let len = length(s, dl);
    lemma_small_mod(0, prime() as nat);
    assert(address(sa, dp, ix) == cell_at(dbase, 0));
    let hh = (s.mem)(cell_at(dbase, 0));
    assert((sb.env)(Slot::V(ch.id)) == hh);
    assert forall|x: Slot| c.has(x) implies (sb.env)(x) == (s.env)(x) by {
        assert(x != Slot::V(index.id) && x != Slot::V(ch.id));
    }
    assert(scalar(sb, dp.address) == dbase);
    assert(length(sb, dl) == len);
    assert(walk_layout(w, length(s, proof->Dyn_1), s.heap));
    assert forall|k: int| scalar(sb, index) <= k < length(sb, model_len(dims)) implies #[trigger] cell_at(
        scalar(sb, dims->Dyn_0.address),
        k,
    ) < sb.heap by {
        assert(cell_at(w.dbase, k) < s.heap);
    }
    law_reduce(d, index, dims, ch, opened, c2, sb);
    let sc = run(rops, sb).unwrap();
    let sd = step(imo, sc).unwrap();
    let rp = root->Dyn_0;
    let rl = root->Dyn_1;
    assert(c3 == c2.add(reduce_uses(d)));
    assert(rl is Var);
    assert(c4.has(Slot::V(rp.address.id)) && c4.has(Slot::V(rl->Var_0.id)));
    assert(rp.address.id >= c2.v && rl->Var_0.id >= c2.v);
    assert(walk_vars(index, dims, ch, opened, root, index_bits, proof, c4));
    crate::digest::lemma_run_keeps_hash(rops, sb);
    assert(sd.hash == s.hash && sd.compress == s.compress);
    assert forall|x: Slot| c.has(x) implies (sd.env)(x) == (s.env)(x) by {
        assert(c2.has(x));
        assert(x != Slot::V(index.id));
        assert(x != Slot::V(one.id));
    }
    assert(walk_env(sd, s.mem, dims, opened, index_bits, proof, d) == w) by {
        if let Usize::Var(v) = dims->Dyn_1 {
            assert(c.has(Slot::V(v.id)));
        }
    }
    assert((sb.env)(Slot::V(index.id)) == seq![scalar(sb, index)]);
    assert((sd.env)(Slot::V(index.id)) == (sc.env)(Slot::V(index.id)));
    assert(c2.has(Slot::V(ch.id)));
    assert((sd.env)(Slot::V(ch.id)) == hh);
    let n = length(s, proof->Dyn_1);
    assert(length(sd, proof->Dyn_1) == n) by {
        if let Usize::Var(v) = proof->Dyn_1 {
            assert(c.has(Slot::V(v.id)));
        }
    }
    lemma_path_walk(d, index, dims, ch, opened, root, index_bits, proof, c4, 0, n, s.heap, s.mem, w, sd);
    assert(length(sd, Usize::Const(0)) == 0);
    assert(step(fo, sd) == run_loop(body, i, 0, n, 1, sd));
    let sf = step(fo, sd).unwrap();
    assert forall|x: Slot| c.has(x) implies (sf.env)(x) == (s.env)(x) by {
        assert(c4.has(x));
        assert(x != Slot::V(index.id) && x != Slot::V(ch.id));
        assert(x != Slot::V(rp.address.id) && x != Slot::V(rl->Var_0.id));
    }
    if sf.heap < prime() && digests_fit(s.hash, s.compress) {
        assert(sc.heap < prime());
        assert forall|x: Seq<Seq<int>>| #[trigger] (sb.hash)(x).len() <= DIGEST_SIZE by {
            assert((s.hash)(x).len() == DIGEST_SIZE);
        }
        assert(same_below(sd.mem, s.mem, s.heap));
        let ob = scalar(s, opened->Dyn_0.address);
        assert(scalar(sb, opened->Dyn_0.address) == ob);
        assert forall|k: int| 0 <= k < len implies #[trigger] row_cells_below(sb.mem, dbase, hh, ob, k, sb.heap) by {
            assert(rows_below(w.mem, w.obase, k, s.heap));
        }
        let f = tables_values(s.mem, dbase, hh, ob, 0, len, d);
        assert((s.hash)(f).len() == DIGEST_SIZE);
        let rv = scalar(sc, rp.address);
        assert forall|m: int| 0 <= m < DIGEST_SIZE implies #[trigger] digest_cells(sd.mem, rv)[m] == (s.hash)(f)[m] by {
            assert((sc.mem)(cell_at(rv, m)) == (s.hash)(f)[m]);
        }
        assert(digest_cells(sd.mem, rv) =~= (s.hash)(f));
        assert(walk_start(w) == (digest_cells(sd.mem, scalar(sd, rp.address)), (sd.env)(Slot::V(index.id)), (
        sd.env)(Slot::V(ch.id))));
    }
}

/// A batch opening is accepted exactly when the commitment is the Merkle walk's root:
/// when what the walk reads and the commitment (of at most `DIGEST_SIZE` elements) lie
/// below the first free address, the free address stays below the prime and the
/// machine's digests have `DIGEST_SIZE` elements, the built program runs to the end
/// exactly when every element of the commitment equals the element of the walk's root at
/// the same index.
pub proof fn law_verify_batch(
    d: nat,
    commit: ArrayModel<Felt>,
    dims: ArrayModel<Dimensions>,
    index_bits: ArrayModel<Var>,
    opened: ArrayModel<ArrayModel<Ext>>,
    proof: ArrayModel<ArrayModel<Felt>>,
    c: Counts,
    s: MachineState,
)
    requires
        commit matches ArrayModel::Dyn(cp, cl) && c.has(Slot::V(cp.address.id)) && (cl matches Usize::Var(
            v,
        ) ==> c.has(Slot::V(v.id))),
        0 <= length(s, commit->Dyn_1) <= DIGEST_SIZE,
        forall|j: int|
            0 <= j < length(s, commit->Dyn_1) ==> #[trigger] cell_at(scalar(s, commit->Dyn_0.address), j)
                < s.heap,
        dims matches ArrayModel::Dyn(dp, dl) && c.has(Slot::V(dp.address.id)) && (dl matches Usize::Var(
            v,
        ) ==> c.has(Slot::V(v.id)) && (s.env)(Slot::V(v.id)) == seq![length(s, dl)]),
        opened matches ArrayModel::Dyn(op, _) && c.has(Slot::V(op.address.id)),
        index_bits matches ArrayModel::Dyn(bp, _) && c.has(Slot::V(bp.address.id)),
        proof matches ArrayModel::Dyn(pp, pl) && c.has(Slot::V(pp.address.id)) && (pl matches Usize::Var(
            v,
        ) ==> c.has(Slot::V(v.id))),
        c.add(verify_batch_uses(d)).fits(),
        d <= 4,
        0 <= s.heap,
        0 <= length(s, dims->Dyn_1) < prime(),
        walk_layout(
            walk_env(s, s.mem, dims, opened, index_bits, proof, d),
            length(s, proof->Dyn_1),
            s.heap,
        ),
    ensures
        ({
            let ops = verify_batch_effect(d, commit, dims, index_bits, opened, proof, c, Seq::empty()).1;
            let w = walk_env(s, s.mem, dims, opened, index_bits, proof, d);
            let r = walk_from(w, 0, length(s, proof->Dyn_1), walk_start(w)).0;
            run(ops.drop_last(), s) matches Some(s1) && ((s1.heap < prime() && digests_fit(s.hash, s.compress))
                ==> (run(ops, s) is Some <==> forall|j: int|
                0 <= j < length(s, commit->Dyn_1) ==> (s.mem)(cell_at(scalar(s, commit->Dyn_0.address), j))
                    == #[trigger] r[j]))
        }),
{
    let ops = verify_batch_effect(d, commit, dims, index_bits, opened, proof, c, Seq::empty()).1;
    let w = walk_env(s, s.mem, dims, opened, index_bits, proof, d);
    let r = walk_from(w, 0, length(s, proof->Dyn_1), walk_start(w)).0;
    let root = crate::laws::batch_root(d, dims, opened, c);
    law_verify_batch_root(d, commit, dims, index_bits, opened, proof, c, s);
    assert(c.add(crate::fri::verify_batch_uses(d)).fits());
    crate::laws::law_verify_batch_accepts(d, commit, dims, index_bits, opened, proof, c, s);
    let s1 = run(ops.drop_last(), s).unwrap();
    if s1.heap < prime() && digests_fit(s.hash, s.compress) {
        let cpv = scalar(s, commit->Dyn_0.address);
        let rv = scalar(s1, root->Dyn_0.address);
        assert(scalar(s1, commit->Dyn_0.address) == cpv);
        assert(length(s1, commit->Dyn_1) == length(s, commit->Dyn_1)) by {
            if let Usize::Var(v) = commit->Dyn_1 {
                assert(c.has(Slot::V(v.id)));
            }
        }
        assert forall|j: int|
            #![trigger crate::laws::pair_holds(s1, commit->Dyn_0, root->Dyn_0, j, true)]
            #![trigger r[j]]
            0 <= j < length(s, commit->Dyn_1) implies crate::laws::pair_holds(
            s1,
            commit->Dyn_0,
            root->Dyn_0,
            j,
            true,
        ) == ((s.mem)(cell_at(cpv, j)) == r[j]) by {
            assert(cell_at(cpv, j) < s.heap);
            assert(0 <= cell_at(cpv, j));
            assert((s1.mem)(cell_at(cpv, j)) == (s.mem)(cell_at(cpv, j)));
            assert(digest_cells(s1.mem, rv)[j] == r[j]);
        }
        assert((forall|j: int| 0 <= j < length(s1, commit->Dyn_1) ==> #[trigger] crate::laws::pair_holds(
            s1,
            commit->Dyn_0,
            root->Dyn_0,
            j,
            true,
        )) <==> (forall|j: int| 0 <= j < length(s, commit->Dyn_1) ==> (s.mem)(cell_at(cpv, j)) == #[trigger] r[j]));
    }
}

} // verus!
