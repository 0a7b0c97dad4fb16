//! The parts of the FRI verifier that open a batch of committed tables: hashing the rows
//! of equal height, and walking a Merkle path to the commitment.

use vstd::prelude::*;
use crate::collections::{Array, ArrayModel, dyn_array_effect, get_ops, set_ops, model_len};
use crate::field::{felt_from_usize, felt_half, half};
use crate::ir::{
    Builder, Cond, Counts, DslIr, Instr, Ext, Felt, MemIndex, Ptr, Slot, Usize, Var, branch_instr,
    var_at, assign_usize_op, usize_felt,
};
use crate::semantics::{MachineState, lemma_run_one};
use crate::variable::MemVariable;

verus! {

/// The number of base-field elements of a Poseidon2 digest.
pub const DIGEST_SIZE: usize = 8;

/// The number of base-field cells reserved for the rows of the tables of one height.
pub const FLATTENED_CAPACITY: usize = 8192;

/// The height of a committed table.
#[derive(Clone, Copy, PartialEq, Eq, Debug)]
pub struct Dimensions {
    pub height: Var,
}

/// A Merkle commitment: the base-field elements of a digest.
pub type Commitment = Array<Felt>;

impl View for Dimensions {
    type V = Dimensions;

    open spec fn view(&self) -> Dimensions {
        *self
    }
}

impl MemVariable for Dimensions {
    open spec fn width() -> Counts {
        Counts::vars(1)
    }

    open spec fn fresh_at(c: Counts) -> Dimensions {
        Dimensions { height: var_at(c.v) }
    }

    open spec fn slots_of(m: Dimensions) -> Seq<Slot> {
        seq![Slot::V(m.height.id)]
    }

    open spec fn is_mem(m: Dimensions) -> bool {
        true
    }

    open spec fn spec_size_of() -> nat {
        1
    }

    open spec fn copyable(m: Dimensions) -> bool {
        true
    }

    open spec fn assign_ops(dst: Dimensions, src: Dimensions) -> Seq<Instr> {
        seq![Instr::Copy(Slot::V(dst.height.id), Slot::V(src.height.id))]
    }

    open spec fn eq_ok(lhs: Dimensions, rhs: Dimensions) -> bool {
        true
    }

    open spec fn eq_uses(lhs: Dimensions, rhs: Dimensions) -> Counts {
        Counts::zero()
    }

    open spec fn eq_ops(lhs: Dimensions, rhs: Dimensions, c: Counts) -> Seq<Instr> {
        seq![Instr::AssertEq(Slot::V(lhs.height.id), Slot::V(rhs.height.id))]
    }

    open spec fn ne_ok(lhs: Dimensions, rhs: Dimensions) -> bool {
        true
    }

    open spec fn ne_uses(lhs: Dimensions, rhs: Dimensions) -> Counts {
        Counts::zero()
    }

    open spec fn ne_ops(lhs: Dimensions, rhs: Dimensions, c: Counts) -> Seq<Instr> {
        seq![Instr::AssertNe(Slot::V(lhs.height.id), Slot::V(rhs.height.id))]
    }

    open spec fn fresh_eq_uses() -> Counts {
        Counts::zero()
    }

    open spec fn fresh_ne_uses() -> Counts {
        Counts::zero()
    }

    proof fn lemma_fresh_pair(c1: Counts, c2: Counts) {
    }

    proof fn lemma_fresh(c: Counts) {
    }

    proof fn lemma_size_fits() {
    }

    proof fn lemma_mem_slots(m: Self::V) {
    }

    open spec fn copy_value(src: Dimensions, env: spec_fn(Slot) -> Seq<int>) -> Seq<Seq<int>> {
        seq![env(Slot::V(src.height.id))]
    }

    open spec fn reads_below(src: Dimensions, c: Counts) -> bool {
        c.has(Slot::V(src.height.id))
    }

    proof fn lemma_reads_below_mono(src: Dimensions, c1: Counts, c2: Counts) {
    }

    proof fn lemma_copy_value_frame(
        src: Dimensions,
        c: Counts,
        env1: spec_fn(Slot) -> Seq<int>,
        env2: spec_fn(Slot) -> Seq<int>,
    ) {
        assert(env1(Slot::V(src.height.id)) == env2(Slot::V(src.height.id)));
    }

    proof fn lemma_copy_run(src: Dimensions, c: Counts, s: MachineState) {
        lemma_run_one(Self::assign_ops(Self::fresh_at(c), src)[0], s);
        assert(Self::assign_ops(Self::fresh_at(c), src) =~= seq![
            Self::assign_ops(Self::fresh_at(c), src)[0],
        ]);
    }

    fn size_of() -> (r: usize) {
        1
    }

    fn uninit(b: &mut Builder) -> (r: Dimensions) {
        let height = b.uninit_var();
        Dimensions { height }
    }

    fn load(&self, src: Ptr, index: MemIndex, b: &mut Builder) {
        self.height.load(src, index, b);
    }

    fn store(&self, dst: Ptr, index: MemIndex, b: &mut Builder) {
        self.height.store(dst, index, b);
    }

    fn assign(&self, src: &Dimensions, b: &mut Builder) {
        self.height.assign(&src.height, b);
    }

    fn duplicate(&self) -> (r: Dimensions) {
        *self
    }

    fn assert_eq(lhs: &Dimensions, rhs: &Dimensions, b: &mut Builder) {
        Var::assert_eq(&lhs.height, &rhs.height, b);
    }

    fn assert_ne(lhs: &Dimensions, rhs: &Dimensions, b: &mut Builder) {
        Var::assert_ne(&lhs.height, &rhs.height, b);
    }
}

/// A fresh array of `n` base-field elements and what building it does.
pub open spec fn felts_effect(n: usize, c: Counts, ops: Seq<Instr>) -> (
    ArrayModel<Felt>,
    Counts,
    Seq<Instr>,
) {
    dyn_array_effect::<Felt>(Usize::Const(n), c, ops)
}

impl Builder {
    /// The four base-field coefficients of an extension variable, in a fresh array.
    pub fn ext2felt(&mut self, value: Ext) -> (r: Array<Felt>)
        requires
            old(self).room(Counts::vars(2)),
        ensures
            ({
                let (d, c1, ops1) = felts_effect(4, old(self).counts(), old(self).ops());
                &&& r@ == d
                &&& final(self).counts() == c1
                &&& final(self).ops() == ops1.push(Instr::Ext2Felt(d->Dyn_0, d->Dyn_1, value))
            }),
    {
        let result: Array<Felt> = self.dyn_array(Usize::Const(4));
        match &result {
            Array::Dyn(p, l) => {
                self.push(DslIr::Ext2Felt(*p, *l, value));
            },
            Array::Fixed(_) => {
                proof {
                    assert(false);
                }
            },
        }
        result
    }

    /// The Poseidon2 hash of an array in memory, in a fresh array of `DIGEST_SIZE` elements.
    pub fn poseidon2_hash(&mut self, array: &Array<Felt>) -> (r: Array<Felt>)
        requires
            array@ is Dyn,
            old(self).room(Counts::vars(2)),
        ensures
            ({
                let (d, c1, ops1) = felts_effect(DIGEST_SIZE, old(self).counts(), old(self).ops());
                &&& r@ == d
                &&& final(self).counts() == c1
                &&& final(self).ops() == ops1.push(
                    Instr::Poseidon2Hash(d->Dyn_0, d->Dyn_1, array@->Dyn_0, array@->Dyn_1),
                )
            }),
    {
        let output: Array<Felt> = self.dyn_array(Usize::Const(DIGEST_SIZE));
        match (&output, array) {
            (Array::Dyn(op, ol), Array::Dyn(ip, il)) => {
                self.push(DslIr::Poseidon2Hash(*op, *ol, *ip, *il));
            },
            _ => {
                proof {
                    assert(false);
                }
            },
        }
        output
    }

    /// The Poseidon2 compression of two arrays in memory, in a fresh array of
    /// `DIGEST_SIZE` elements.
    pub fn poseidon2_compress(&mut self, left: &Array<Felt>, right: &Array<Felt>) -> (r: Array<
        Felt,
    >)
        requires
            left@ is Dyn,
            right@ is Dyn,
            old(self).room(Counts::vars(2)),
        ensures
            ({
                let (d, c1, ops1) = felts_effect(DIGEST_SIZE, old(self).counts(), old(self).ops());
                &&& r@ == d
                &&& final(self).counts() == c1
                &&& final(self).ops() == ops1.push(
                    Instr::Poseidon2Compress(
                        d->Dyn_0,
                        d->Dyn_1,
                        left@->Dyn_0,
                        left@->Dyn_1,
                        right@->Dyn_0,
                        right@->Dyn_1,
                    ),
                )
            }),
    {
        let output: Array<Felt> = self.dyn_array(Usize::Const(DIGEST_SIZE));
        match (&output, left, right) {
            (Array::Dyn(op, ol), Array::Dyn(lp, ll), Array::Dyn(rp, rl)) => {
                self.push(DslIr::Poseidon2Compress(*op, *ol, *lp, *ll, *rp, *rl));
            },
            _ => {
                proof {
                    assert(false);
                }
            },
        }
        output
    }
}


/// `n` base-field variables.
pub open spec fn felts(n: nat) -> Counts {
    Counts { v: 0, f: n, e: 0 }
}

/// Copies the first `k` elements of the array at `src` to the array at `dst`, from the
/// element numbered by `nb` on, advancing `nb` after each.
pub open spec fn unpack_ops(src: Ptr, dst: Ptr, nb: Var, c: Counts, k: nat) -> Seq<Instr>
    decreases k,
{
    if k == 0 {
        Seq::empty()
    } else {
        let ck = c.add(felts(2 * (k - 1) as nat));
        unpack_ops(src, dst, nb, c, (k - 1) as nat) + get_ops::<Felt>(
            src,
            Usize::Const((k - 1) as usize),
            ck,
        ) + set_ops::<Felt>(dst, Usize::Var(nb), Felt::fresh_at(ck), ck.add(felts(1))) + seq![
            Instr::AddVI(nb, nb, 1),
        ]
    }
}

/// The variables that `reduce` hands out.
pub open spec fn reduce_uses(d: nat) -> Counts {
    Counts { v: 13, f: 2 * d, e: 1 }
}

/// What `reduce` builds: the digest array, counters and program after it.
pub open spec fn reduce_effect(
    d: nat,
    dim_idx: Var,
    dims: ArrayModel<Dimensions>,
    curr: Var,
    opened: ArrayModel<ArrayModel<Ext>>,
    c: Counts,
    ops: Seq<Instr>,
) -> (ArrayModel<Felt>, Counts, Seq<Instr>) {
    let nb = var_at(c.v);
    let c1 = c.add(Counts::vars(1));
    let (flat, c2, o2) = felts_effect(FLATTENED_CAPACITY, c1, ops.push(Instr::ImmV(nb, 0)));
    let start = var_at(c2.v);
    let c3 = c2.add(Counts::vars(1));
    let o3 = o2.push(Instr::Copy(Slot::V(start.id), Slot::V(dim_idx.id)));
    let i = var_at(c3.v);
    let c4 = c3.add(Counts::vars(1));
    let height = var_at(c4.v);
    let c5 = c4.add(Counts::vars(1));
    let ov = Array::<Ext>::fresh_at(c5);
    let c6 = c5.add(Counts::vars(2));
    let j = var_at(c6.v);
    let c7 = c6.add(Counts::vars(1));
    let e = Ext::fresh_at(c7);
    let c8 = c7.add(Ext::width());
    let (fe, c9, o9) = felts_effect(4, c8, get_ops::<Ext>(ov->Dyn_0, Usize::Var(j), c7));
    let inner = o9.push(Instr::Ext2Felt(fe->Dyn_0, fe->Dyn_1, e)) + unpack_ops(
        fe->Dyn_0,
        flat->Dyn_0,
        nb,
        c9,
        d,
    );
    let c10 = c9.add(felts(2 * d));
    let then_ops = get_ops::<Array<Ext>>(opened->Dyn_0, Usize::Var(i), c5).push(
        Instr::For(Usize::Const(0), ov->Dyn_1, 1, j, inner),
    ).push(Instr::AddVI(dim_idx, dim_idx, 1));
    let body = get_ops::<Dimensions>(dims->Dyn_0, Usize::Var(i), c4).push(
        Instr::IfEq(height, curr, then_ops, Seq::empty()),
    );
    let o4 = o3.push(Instr::For(Usize::Var(start), model_len(dims), 1, i, body));
    let o5 = o4.push(assign_usize_op(flat->Dyn_1->Var_0, Usize::Var(nb)));
    let (out, c11, o6) = felts_effect(DIGEST_SIZE, c10, o5);
    (out, c11, o6.push(Instr::Poseidon2Hash(out->Dyn_0, out->Dyn_1, flat->Dyn_0, flat->Dyn_1)))
}

/// Hashes the rows of all tables from `dim_idx` on whose height is `curr_height_padded`:
/// their opened values, flattened to base-field elements, go into one array in turn, and
/// `dim_idx` moves past each such table. The tables are sorted tallest first.
pub fn reduce<const D: usize>(
    builder: &mut Builder,
    dim_idx: Var,
    dims: &Array<Dimensions>,
    curr_height_padded: Var,
    opened_values: &Array<Array<Ext>>,
) -> (r: Array<Felt>)
    requires
        dims@ is Dyn,
        opened_values@ is Dyn,
        old(builder).room(reduce_uses(D as nat)),
    ensures
        (r@, final(builder).counts(), final(builder).ops()) == reduce_effect(
            D as nat,
            dim_idx,
            dims@,
            curr_height_padded,
            opened_values@,
            old(builder).counts(),
            old(builder).ops(),
        ),
{
    let ghost c = builder.counts();
    let nb_opened_values = builder.eval_const_var(0);
    let mut flattened_opened_values: Array<Felt> = builder.dyn_array(
        Usize::Const(FLATTENED_CAPACITY),
    );
    let start_dim_idx: Var = builder.eval(&dim_idx);
    let i = builder.uninit_var();
    let mut body = builder.sub_builder();
    let dim: Dimensions = body.get(dims, Usize::Var(i));
    let height = dim.height;
    let mut then_body = body.sub_builder();
    let opened_row: Array<Ext> = then_body.get(opened_values, Usize::Var(i));
    let j = then_body.uninit_var();
    let mut inner = then_body.sub_builder();
    let opened_value: Ext = inner.get(&opened_row, Usize::Var(j));
    let opened_value_flat = inner.ext2felt(opened_value);
    let ghost c9 = inner.counts();
    let ghost base_ops = inner.ops();
    let ghost fe = opened_value_flat@;
    let ghost flat = flattened_opened_values@;
    let mut k: usize = 0;
    while k < D
        invariant
            k <= D,
            c9.add(felts(2 * D as nat)).fits(),
            inner.counts() == c9.add(felts(2 * k as nat)),
            inner.ops() == base_ops + unpack_ops(fe->Dyn_0, flat->Dyn_0, nb_opened_values, c9, k as nat),
            opened_value_flat@ == fe,
            fe is Dyn,
            flattened_opened_values@ == flat,
            flat is Dyn,
        decreases D - k,
    {
        let ghost before = inner.ops();
        let base: Felt = inner.get(&opened_value_flat, Usize::Const(k));
        inner.set(&mut flattened_opened_values, Usize::Var(nb_opened_values), &base);
        inner.push(DslIr::AddVI(nb_opened_values, nb_opened_values, 1));
        proof {
            assert(inner.ops() =~= base_ops + unpack_ops(
                fe->Dyn_0,
                flat->Dyn_0,
                nb_opened_values,
                c9,
                (k + 1) as nat,
            ));
        }
        k = k + 1;
    }
    then_body.close_loop(Usize::Const(0), opened_row.len(), j, inner);
    then_body.push(DslIr::AddVI(dim_idx, dim_idx, 1));
    let else_body = then_body.sub_builder();
    body.close_if(Cond::Eq(height, curr_height_padded), then_body, else_body);
    builder.close_loop(Usize::Var(start_dim_idx), dims.len(), i, body);
    flattened_opened_values.truncate(builder, Usize::Var(nb_opened_values));
    let r = builder.poseidon2_hash(&flattened_opened_values);
    proof {
        let e = reduce_effect(
            D as nat,
            dim_idx,
            dims@,
            curr_height_padded,
            opened_values@,
            c,
            old(builder).ops(),
        );
        assert(r@ == e.0);
        assert(builder.counts() == e.1);
        assert(builder.ops() =~= e.2);
    }
    r
}


/// The condition that a native variable differs from a length.
pub open spec fn ne_usize(v: Var, u: Usize) -> Cond {
    match u {
        Usize::Const(n) => Cond::NeI(v, usize_felt(n)),
        Usize::Var(w) => Cond::Ne(v, w),
    }
}

impl Builder {
    /// The condition that `v` differs from the length `u`.
    pub fn cond_ne_usize(&self, v: Var, u: Usize) -> (r: Cond)
        ensures
            r == ne_usize(v, u),
    {
        match u {
            Usize::Const(n) => Cond::NeI(v, felt_from_usize(n)),
            Usize::Var(w) => Cond::Ne(v, w),
        }
    }
}

/// The variables that `verify_batch` hands out.
pub open spec fn verify_batch_uses(d: nat) -> Counts {
    Counts { v: 43, f: 4 * d + 2, e: 2 }
}

/// The program that hashes the next tables into the root when they have the height just
/// reached, built under counters `c`, and the counters after it.
pub open spec fn next_tables_effect(
    d: nat,
    index: Var,
    dims: ArrayModel<Dimensions>,
    ch: Var,
    opened: ArrayModel<ArrayModel<Ext>>,
    root: ArrayModel<Felt>,
    c: Counts,
) -> (Seq<Instr>, Counts) {
    let (dg, c1, t1) = reduce_effect(d, index, dims, ch, opened, c, Seq::empty());
    let (nr, c2, t2) = felts_effect(DIGEST_SIZE, c1, t1);
    let t3 = t2.push(
        Instr::Poseidon2Compress(nr->Dyn_0, nr->Dyn_1, root->Dyn_0, root->Dyn_1, dg->Dyn_0, dg->Dyn_1),
    );
    (t3 + Array::<Felt>::assign_ops(root, nr), c2)
}

/// One step of the Merkle path, for sibling number `i`, built under counters `c`, and the
/// counters after it.
pub open spec fn path_step_effect(
    d: nat,
    index: Var,
    dims: ArrayModel<Dimensions>,
    ch: Var,
    opened: ArrayModel<ArrayModel<Ext>>,
    root: ArrayModel<Felt>,
    index_bits: ArrayModel<Var>,
    proof: ArrayModel<ArrayModel<Felt>>,
    i: Var,
    c: Counts,
) -> (Seq<Instr>, Counts) {
    let sibling = Array::<Felt>::fresh_at(c);
    let c1 = c.add(Counts::vars(2));
    let bit = var_at(c1.v);
    let c2 = c1.add(Counts::vars(1));
    let left = Array::<Felt>::fresh_at(c2);
    let c3 = c2.add(Counts::vars(2));
    let right = Array::<Felt>::fresh_at(c3);
    let c4 = c3.add(Counts::vars(2));
    let then_ops = Array::<Felt>::assign_ops(left, sibling) + Array::<Felt>::assign_ops(right, root);
    let else_ops = Array::<Felt>::assign_ops(left, root) + Array::<Felt>::assign_ops(right, sibling);
    let b2 = get_ops::<Array<Felt>>(proof->Dyn_0, Usize::Var(i), c) + get_ops::<Var>(
        index_bits->Dyn_0,
        Usize::Var(i),
        c1,
    );
    let b3 = b2.push(Instr::IfEqI(bit, 1, then_ops, else_ops));
    let (nr, c5, b4) = felts_effect(DIGEST_SIZE, c4, b3);
    let b5 = b4.push(
        Instr::Poseidon2Compress(
            nr->Dyn_0,
            nr->Dyn_1,
            left->Dyn_0,
            left->Dyn_1,
            right->Dyn_0,
            right->Dyn_1,
        ),
    ) + Array::<Felt>::assign_ops(root, nr);
    let b6 = b5.push(Instr::MulVI(ch, ch, half()));
    let nh = var_at(c5.v);
    let c6 = c5.add(Counts::vars(1));
    let b7 = b6 + get_ops::<Dimensions>(dims->Dyn_0, Usize::Var(index), c5);
    let (t, c7) = next_tables_effect(d, index, dims, ch, opened, root, c6);
    let inner = seq![Instr::IfEq(nh, ch, t, Seq::empty())];
    (b7.push(branch_instr(ne_usize(index, model_len(dims)), inner, Seq::empty())), c7)
}

/// What `verify_batch` builds: the counters and program after it.
pub open spec fn verify_batch_effect(
    d: nat,
    commit: ArrayModel<Felt>,
    dims: ArrayModel<Dimensions>,
    index_bits: ArrayModel<Var>,
    opened: ArrayModel<ArrayModel<Ext>>,
    proof: ArrayModel<ArrayModel<Felt>>,
    c: Counts,
    ops: Seq<Instr>,
) -> (Counts, Seq<Instr>) {
    let index = var_at(c.v);
    let c1 = c.add(Counts::vars(1));
    let o1 = ops.push(Instr::ImmV(index, 0));
    let ch = var_at(c1.v);
    let c2 = c1.add(Counts::vars(1));
    let o2 = o1 + get_ops::<Dimensions>(dims->Dyn_0, Usize::Var(index), c1);
    let (root, c3, o3) = reduce_effect(d, index, dims, ch, opened, c2, o2);
    let one = var_at(c3.v);
    let c4 = c3.add(Counts::vars(1));
    let o4 = o3.push(Instr::ImmV(one, 1));
    let i = var_at(c4.v);
    let c5 = c4.add(Counts::vars(1));
    let (body, c6) = path_step_effect(d, index, dims, ch, opened, root, index_bits, proof, i, c5);
    let o5 = o4.push(Instr::For(Usize::Const(0), model_len(proof), 1, i, body));
    let j = var_at(c6.v);
    let c7 = c6.add(Counts::vars(1));
    let c8 = c7.add(felts(1));
    let fb = get_ops::<Felt>(commit->Dyn_0, Usize::Var(j), c7) + get_ops::<Felt>(
        root->Dyn_0,
        Usize::Var(j),
        c8,
    ) + seq![Instr::AssertEq(Slot::F(c7.f as u32), Slot::F(c8.f as u32))];
    (c8.add(felts(1)), o5.push(Instr::For(Usize::Const(0), model_len(commit), 1, j, fb)))
}

/// Builds, in a fresh loop body, one step of the Merkle path for sibling number `i`.
#[verifier::rlimit(50)]
fn path_step<const D: usize>(
    builder: &Builder,
    index: Var,
    dimensions: &Array<Dimensions>,
    current_height: Var,
    opened_values: &Array<Array<Ext>>,
    root: &Array<Felt>,
    index_bits: &Array<Var>,
    proof: &Array<Commitment>,
    i: Var,
) -> (body: Builder)
    requires
        dimensions@ is Dyn,
        index_bits@ is Dyn,
        opened_values@ is Dyn,
        proof@ is Dyn,
        root@ matches ArrayModel::Dyn(_, Usize::Var(_)),
        builder.room(Counts { v: 25, f: 2 * D as nat, e: 1 }),
    ensures
        (body.ops(), body.counts()) == path_step_effect(
            D as nat,
            index,
            dimensions@,
            current_height,
            opened_values@,
            root@,
            index_bits@,
            proof@,
            i,
            builder.counts(),
        ),
{
    let mut body = builder.sub_builder();
    let ghost c5 = body.counts();
    let sibling: Commitment = body.get(proof, Usize::Var(i));
    let bit: Var = body.get(&index_bits, Usize::Var(i));
    let left: Array<Felt> = Array::<Felt>::uninit(&mut body);
    let right: Array<Felt> = Array::<Felt>::uninit(&mut body);
    let mut then_body = body.sub_builder();
    left.assign(&sibling, &mut then_body);
    right.assign(&root, &mut then_body);
    let mut else_body = then_body.sub_builder();
    left.assign(&root, &mut else_body);
    right.assign(&sibling, &mut else_body);
    body.close_if(Cond::EqI(bit, 1), then_body, else_body);
    let new_root = body.poseidon2_compress(&left, &right);
    root.assign(&new_root, &mut body);
    let half = felt_half();
    body.push(DslIr::MulVI(current_height, current_height, half));
    let next_height = body.get(&dimensions, Usize::Var(index)).height;
    let mut outer = body.sub_builder();
    let mut inner = outer.sub_builder();
    let ghost c6 = inner.counts();
    let digest = reduce::<D>(&mut inner, index, &dimensions, current_height, &opened_values);
    let next_root = inner.poseidon2_compress(&root, &digest);
    root.assign(&next_root, &mut inner);
    proof {
        let (t, c7) = next_tables_effect(
            D as nat,
            index,
            dimensions@,
            current_height,
            opened_values@,
            root@,
            c6,
        );
        assert(inner.ops() =~= t);
    }
    let inner_else = inner.sub_builder();
    outer.close_if(Cond::Eq(next_height, current_height), inner, inner_else);
    let outer_else = outer.sub_builder();
    let cond = body.cond_ne_usize(index, dimensions.len());
    body.close_if(cond, outer, outer_else);
    proof {
        let (b, c7) = path_step_effect(
            D as nat,
            index,
            dimensions@,
            current_height,
            opened_values@,
            root@,
            index_bits@,
            proof@,
            i,
            c5,
        );
        assert(body.ops() =~= b);
        assert(body.counts() == c7);
    }
    body
}

/// Verifies a batch opening against a Merkle commitment: the rows of the tallest tables
/// are hashed into a root; for each sibling of the path, the root is compressed with the
/// sibling (on the side that the index bit tells), the height halves, and the rows of the
/// tables of that height, if any, are compressed in; at the end, the root must equal the
/// commitment. The dimensions are sorted tallest first.
#[verifier::rlimit(60)]
pub fn verify_batch<const D: usize>(
    builder: &mut Builder,
    commit: &Commitment,
    dimensions: Array<Dimensions>,
    index_bits: Array<Var>,
    opened_values: Array<Array<Ext>>,
    proof: &Array<Commitment>,
)
    requires
        commit@ is Dyn,
        dimensions@ is Dyn,
        index_bits@ is Dyn,
        opened_values@ is Dyn,
        proof@ is Dyn,
        old(builder).room(verify_batch_uses(D as nat)),
    ensures
        (final(builder).counts(), final(builder).ops()) == verify_batch_effect(
            D as nat,
            commit@,
            dimensions@,
            index_bits@,
            opened_values@,
            proof@,
            old(builder).counts(),
            old(builder).ops(),
        ),
{
    let ghost c0 = builder.counts();
    let ghost o0 = builder.ops();
    let index: Var = builder.eval_const_var(0);
    let current_height = builder.get(&dimensions, Usize::Var(index)).height;
    let ghost c2 = builder.counts();
    let ghost o2 = builder.ops();
    let root = reduce::<D>(builder, index, &dimensions, current_height, &opened_values);
    let ghost c3 = builder.counts();
    let ghost o3 = builder.ops();
    let _one: Var = builder.eval_const_var(1);
    let i = builder.uninit_var();
    let ghost c5 = builder.counts();
    let ghost o4 = builder.ops();
    let body = path_step::<D>(
        builder,
        index,
        &dimensions,
        current_height,
        &opened_values,
        &root,
        &index_bits,
        proof,
        i,
    );
    let ghost step = path_step_effect(
        D as nat,
        index,
        dimensions@,
        current_height,
        opened_values@,
        root@,
        index_bits@,
        proof@,
        i,
        c5,
    );
    builder.close_loop(Usize::Const(0), proof.len(), i, body);
    let ghost c6 = builder.counts();
    let ghost o5 = builder.ops();
    assert(c6 == step.1);
    assert(o5 == o4.push(Instr::For(Usize::Const(0), model_len(proof@), 1, i, step.0)));
    let j = builder.uninit_var();
    let mut check = builder.sub_builder();
    let e1: Felt = check.get(commit, Usize::Var(j));
    let e2: Felt = check.get(&root, Usize::Var(j));
    check.push(DslIr::AssertEq(Slot::F(e1.id), Slot::F(e2.id)));
    let ghost fb = check.ops();
    builder.close_loop(Usize::Const(0), commit.len(), j, check);
    proof {
        let (root_s, c3s, o3s) = reduce_effect(
            D as nat,
            index,
            dimensions@,
            current_height,
            opened_values@,
            c2,
            o2,
        );
        assert(root@ == root_s && c3 == c3s && o3 == o3s);
        assert(index == var_at(c0.v));
        assert(current_height == var_at(c0.v + 1));
        assert(o2 == o0.push(Instr::ImmV(index, 0)) + get_ops::<Dimensions>(
            dimensions@->Dyn_0,
            Usize::Var(index),
            c0.add(Counts::vars(1)),
        ));
        assert(o4 == o3.push(Instr::ImmV(var_at(c3.v), 1)));
        assert(c5 == c3.add(Counts::vars(1)).add(Counts::vars(1)));
        assert(i == var_at(c3.v + 1));
        assert(j == var_at(c6.v));
        let c7 = c6.add(Counts::vars(1));
        let c8 = c7.add(felts(1));
        assert(fb =~= get_ops::<Felt>(commit@->Dyn_0, Usize::Var(j), c7) + get_ops::<Felt>(
            root@->Dyn_0,
            Usize::Var(j),
            c8,
        ) + seq![Instr::AssertEq(Slot::F(c7.f as u32), Slot::F(c8.f as u32))]);
        let e = verify_batch_effect(
            D as nat,
            commit@,
            dimensions@,
            index_bits@,
            opened_values@,
            proof@,
            c0,
            o0,
        );
        assert(builder.counts() == e.0);
        assert(builder.ops() =~= e.1);
    }
}

} // verus!
