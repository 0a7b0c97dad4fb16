//! Arrays of variables: either a vector known while building, or a pointer and a length
//! into the memory of the executing machine.

use vstd::prelude::*;
use crate::field::{felt_from_usize, felt_of_nat};
use crate::semantics::{MachineState, step, usize_value, prime, lemma_run_append, lemma_run_one};
use crate::ir::{
    Builder, Counts, DslIr, Instr, MemIndex, Ptr, Slot, Usize, Var, materialize_effect,
    assign_usize_op, var_at,
};
use crate::variable::{FromConstant, MemVariable, load_ops, store_ops, index_plus};

verus! {

/// An array of variables.
pub enum Array<T> {
    /// Elements known while building.
    Fixed(Vec<T>),
    /// Elements in memory: a pointer to the first and the number of elements.
    Dyn(Ptr, Usize),
}

/// The model of an array: the models of its elements, or its pointer and length.
pub enum ArrayModel<M> {
    Fixed(Seq<M>),
    Dyn(Ptr, Usize),
}

impl<T: View> View for Array<T> {
    type V = ArrayModel<T::V>;

    open spec fn view(&self) -> ArrayModel<T::V> {
        match self {
            Array::Fixed(v) => ArrayModel::Fixed(v@.map_values(|x: T| x@)),
            Array::Dyn(p, l) => ArrayModel::Dyn(*p, *l),
        }
    }
}

/// The length of an array: the number of elements of a fixed one, else its length.
pub open spec fn model_len<M>(m: ArrayModel<M>) -> Usize {
    match m {
        ArrayModel::Fixed(s) => Usize::Const(s.len() as usize),
        ArrayModel::Dyn(_, l) => l,
    }
}

/// The place of element `index` of an array of `T`.
pub open spec fn elem_index<T: MemVariable>(index: Usize) -> MemIndex {
    MemIndex { index, offset: 0, size: T::spec_size_of() as usize }
}

/// The instructions that read element `index` into the fresh variable of counters `c`.
pub open spec fn get_ops<T: MemVariable>(ptr: Ptr, index: Usize, c: Counts) -> Seq<Instr> {
    load_ops(T::slots_of(T::fresh_at(c)), ptr, elem_index::<T>(index))
}

/// The instructions that copy `value` into the fresh variable of counters `c` and store
/// it as element `index`.
pub open spec fn set_ops<T: MemVariable>(ptr: Ptr, index: Usize, value: T::V, c: Counts) -> Seq<
    Instr,
> {
    T::assign_ops(T::fresh_at(c), value) + store_ops(
        T::slots_of(T::fresh_at(c)),
        ptr,
        elem_index::<T>(index),
    )
}

/// The instructions that store `vals[i]` as element `i`, for each `i` in turn.
pub open spec fn fill_ops<T: MemVariable>(ptr: Ptr, vals: Seq<T::V>, c: Counts) -> Seq<Instr>
    decreases vals.len(),
{
    if vals.len() == 0 {
        Seq::empty()
    } else {
        let k = (vals.len() - 1) as nat;
        fill_ops::<T>(ptr, vals.drop_last(), c) + set_ops::<T>(
            ptr,
            Usize::Const(k as usize),
            vals.last(),
            c.add(T::width().times(k)),
        )
    }
}

/// What allocating an array of `len` elements does: the array, counters and program after.
pub open spec fn dyn_array_effect<T: MemVariable>(len: Usize, c: Counts, ops: Seq<Instr>) -> (
    ArrayModel<T::V>,
    Counts,
    Seq<Instr>,
) {
    let (l, c1, ops1) = materialize_effect(len, c, ops);
    let p = Ptr { address: var_at(c1.v) };
    (
        ArrayModel::Dyn(p, Usize::Var(l)),
        c1.add(Counts::vars(1)),
        ops1.push(Instr::Alloc(p, Usize::Var(l), T::spec_size_of() as usize)),
    )
}

/// What shifting an array in memory by `shift` elements does.
pub open spec fn shift_effect<M>(m: ArrayModel<M>, shift: Var, c: Counts, ops: Seq<Instr>) -> (
    ArrayModel<M>,
    Counts,
    Seq<Instr>,
) {
    match m {
        ArrayModel::Dyn(ptr, len) => {
            let a = var_at(c.v);
            let c1 = c.add(Counts::vars(1));
            let ops1 = ops.push(Instr::AddV(a, ptr.address, shift));
            let (lv, c2, ops2) = materialize_effect(len, c1, ops1);
            let n = var_at(c2.v);
            (
                ArrayModel::Dyn(Ptr { address: a }, Usize::Var(n)),
                c2.add(Counts::vars(1)),
                ops2.push(Instr::SubV(n, lv, shift)),
            )
        },
        ArrayModel::Fixed(_) => (m, c, ops),
    }
}

/// The variables that materializing a length hands out.
pub open spec fn materialize_uses(u: Usize) -> Counts {
    match u {
        Usize::Const(_) => Counts::vars(1),
        Usize::Var(_) => Counts::zero(),
    }
}

/// The variables handed out by the element-wise equality assertions of two fixed arrays.
pub open spec fn fixed_eq_uses<T: MemVariable>(a: Seq<T::V>, b: Seq<T::V>) -> Counts
    decreases a.len(),
{
    if a.len() == 0 {
        Counts::zero()
    } else {
        fixed_eq_uses::<T>(a.drop_last(), b.drop_last()).add(
            T::eq_uses(a.last(), b[a.len() - 1]),
        )
    }
}

/// The element-wise equality assertions of two fixed arrays, in order.
pub open spec fn fixed_eq_ops<T: MemVariable>(a: Seq<T::V>, b: Seq<T::V>, c: Counts) -> Seq<Instr>
    decreases a.len(),
{
    if a.len() == 0 {
        Seq::empty()
    } else {
        fixed_eq_ops::<T>(a.drop_last(), b.drop_last(), c) + T::eq_ops(
            a.last(),
            b[a.len() - 1],
            c.add(fixed_eq_uses::<T>(a.drop_last(), b.drop_last())),
        )
    }
}

/// The variables handed out by the element-wise inequality assertions of two fixed arrays.
pub open spec fn fixed_ne_uses<T: MemVariable>(a: Seq<T::V>, b: Seq<T::V>) -> Counts
    decreases a.len(),
{
    if a.len() == 0 {
        Counts::zero()
    } else {
        fixed_ne_uses::<T>(a.drop_last(), b.drop_last()).add(
            T::ne_uses(a.last(), b[a.len() - 1]),
        )
    }
}

/// The element-wise inequality assertions of two fixed arrays, in order.
pub open spec fn fixed_ne_ops<T: MemVariable>(a: Seq<T::V>, b: Seq<T::V>, c: Counts) -> Seq<Instr>
    decreases a.len(),
{
    if a.len() == 0 {
        Seq::empty()
    } else {
        fixed_ne_ops::<T>(a.drop_last(), b.drop_last(), c) + T::ne_ops(
            a.last(),
            b[a.len() - 1],
            c.add(fixed_ne_uses::<T>(a.drop_last(), b.drop_last())),
        )
    }
}

/// The body of the loop that compares element `i` of two arrays in memory: both elements
/// are read into fresh variables, then compared (equality if `eq`, else inequality).
pub open spec fn compare_body<T: MemVariable>(
    lp: Ptr,
    rp: Ptr,
    i: Var,
    c: Counts,
    eq: bool,
) -> Seq<Instr> {
    let c1 = c.add(T::width());
    let c2 = c1.add(T::width());
    get_ops::<T>(lp, Usize::Var(i), c) + get_ops::<T>(rp, Usize::Var(i), c1) + if eq {
        T::eq_ops(T::fresh_at(c), T::fresh_at(c1), c2)
    } else {
        T::ne_ops(T::fresh_at(c), T::fresh_at(c1), c2)
    }
}

/// The equality assertion of two arrays in memory, built under counters `c`.
pub open spec fn dyn_eq_ops<T: MemVariable>(lp: Ptr, ll: Usize, rp: Ptr, rl: Usize, c: Counts) -> Seq<
    Instr,
> {
    let (lv, c1, o1) = materialize_effect(ll, c, Seq::empty());
    let (rv, c2, o2) = materialize_effect(rl, c1, o1);
    let i = var_at(c2.v);
    let c3 = c2.add(Counts::vars(1));
    o2.push(Instr::AssertEq(Slot::V(lv.id), Slot::V(rv.id))).push(
        Instr::For(Usize::Const(0), ll, 1, i, compare_body::<T>(lp, rp, i, c3, true)),
    )
}

/// The instructions that assert two lengths equal; none when both are constants.
pub open spec fn usize_eq_ops(l: Usize, r: Usize) -> Seq<Instr> {
    match (l, r) {
        (Usize::Const(_), Usize::Const(_)) => Seq::empty(),
        (Usize::Const(a), Usize::Var(v)) => seq![Instr::AssertEqVI(v, crate::ir::usize_felt(a))],
        (Usize::Var(v), Usize::Const(a)) => seq![Instr::AssertEqVI(v, crate::ir::usize_felt(a))],
        (Usize::Var(a), Usize::Var(b)) => seq![Instr::AssertEq(Slot::V(a.id), Slot::V(b.id))],
    }
}

/// The inequality assertion of two arrays in memory, built under counters `c`: their
/// lengths are asserted equal, then every pair of elements unequal.
pub open spec fn dyn_ne_ops<T: MemVariable>(lp: Ptr, ll: Usize, rp: Ptr, rl: Usize, c: Counts) -> Seq<
    Instr,
> {
    let i = var_at(c.v);
    let c1 = c.add(Counts::vars(1));
    usize_eq_ops(ll, rl).push(
        Instr::For(Usize::Const(0), ll, 1, i, compare_body::<T>(lp, rp, i, c1, false)),
    )
}

/// The uses of a fixed-array assertion grow with its prefix.
pub proof fn lemma_fixed_uses_prefix<T: MemVariable>(a: Seq<T::V>, b: Seq<T::V>, i: int)
    requires
        0 <= i <= a.len(),
        a.len() == b.len(),
    ensures
        fixed_eq_uses::<T>(a.take(i), b.take(i)).le(fixed_eq_uses::<T>(a, b)),
        fixed_ne_uses::<T>(a.take(i), b.take(i)).le(fixed_ne_uses::<T>(a, b)),
    decreases a.len(),
{
    if i < a.len() {
        lemma_fixed_uses_prefix::<T>(a.drop_last(), b.drop_last(), i);
        assert(a.drop_last().take(i) =~= a.take(i));
        assert(b.drop_last().take(i) =~= b.take(i));
    } else {
        assert(a.take(i) =~= a);
        assert(b.take(i) =~= b);
    }
}

/// `times` grows with its factor.
pub proof fn lemma_times_mono(w: Counts, i: nat, n: nat)
    requires
        i <= n,
    ensures
        w.times(i).le(w.times(n)),
    decreases n,
{
    if i < n {
        lemma_times_mono(w, i, (n - 1) as nat);
    }
}

impl<T: MemVariable> Array<T> {
    /// The length: the number of elements of a fixed array, else the stored length.
    pub fn len(&self) -> (r: Usize)
        ensures
            r == model_len(self@),
    {
        match self {
            Array::Fixed(vec) => Usize::Const(vec.len()),
            Array::Dyn(_, len) => *len,
        }
    }

    /// The array in memory that starts `shift` elements later and is `shift` elements shorter.
    pub fn shift(&self, builder: &mut Builder, shift: Var) -> (r: Array<T>)
        requires
            self@ is Dyn,
            old(builder).room(Counts::vars(3)),
        ensures
            (r@, final(builder).counts(), final(builder).ops()) == shift_effect(
                self@,
                shift,
                old(builder).counts(),
                old(builder).ops(),
            ),
    {
        match self {
            Array::Fixed(_) => {
                proof {
                    assert(false);
                }
                Array::Fixed(Vec::new())
            },
            Array::Dyn(ptr, len) => {
                let new_address = builder.eval_add(ptr.address, shift);
                let new_ptr = Ptr { address: new_address };
                let len_var = builder.materialize(*len);
                let new_length = builder.eval_sub(len_var, shift);
                Array::Dyn(new_ptr, Usize::Var(new_length))
            },
        }
    }

    /// Sets the stored length of an array in memory to `len`.
    pub fn truncate(&self, builder: &mut Builder, len: Usize)
        requires
            self@ matches ArrayModel::Dyn(_, Usize::Var(_)),
        ensures
            final(builder).counts() == old(builder).counts(),
            self@ matches ArrayModel::Dyn(_, Usize::Var(old_len)) ==> final(builder).ops()
                == old(builder).ops().push(assign_usize_op(old_len, len)),
    {
        match self {
            Array::Dyn(_, Usize::Var(old_len)) => {
                builder.assign_usize(*old_len, len);
            },
            _ => {
                proof {
                    assert(false);
                }
            },
        }
    }
}


impl<T: MemVariable> MemVariable for Array<T> {
    open spec fn width() -> Counts {
        Counts::vars(2)
    }

    open spec fn fresh_at(c: Counts) -> ArrayModel<T::V> {
        ArrayModel::Dyn(Ptr { address: var_at(c.v) }, Usize::Var(var_at(c.v + 1)))
    }

    open spec fn slots_of(m: ArrayModel<T::V>) -> Seq<Slot> {
        match m {
            ArrayModel::Dyn(p, Usize::Var(l)) => seq![Slot::V(p.address.id), Slot::V(l.id)],
            _ => Seq::empty(),
        }
    }

    open spec fn is_mem(m: ArrayModel<T::V>) -> bool {
        m matches ArrayModel::Dyn(_, Usize::Var(_))
    }

    open spec fn spec_size_of() -> nat {
        2
    }

    open spec fn copyable(m: ArrayModel<T::V>) -> bool {
        m is Dyn
    }

    open spec fn assign_ops(dst: ArrayModel<T::V>, src: ArrayModel<T::V>) -> Seq<Instr> {
        match (dst, src) {
            (ArrayModel::Dyn(lp, Usize::Var(ll)), ArrayModel::Dyn(rp, rl)) => seq![
                Instr::Copy(Slot::V(lp.address.id), Slot::V(rp.address.id)),
                assign_usize_op(ll, rl),
            ],
            _ => Seq::empty(),
        }
    }

    open spec fn eq_ok(lhs: ArrayModel<T::V>, rhs: ArrayModel<T::V>) -> bool {
        match (lhs, rhs) {
            (ArrayModel::Fixed(a), ArrayModel::Fixed(b)) => {
                &&& a.len() == b.len()
                &&& forall|i: int| 0 <= i < a.len() ==> T::eq_ok(#[trigger] a[i], b[i])
            },
            (ArrayModel::Dyn(_, _), ArrayModel::Dyn(_, _)) => true,
            _ => false,
        }
    }

    open spec fn eq_uses(lhs: ArrayModel<T::V>, rhs: ArrayModel<T::V>) -> Counts {
        match (lhs, rhs) {
            (ArrayModel::Fixed(a), ArrayModel::Fixed(b)) => fixed_eq_uses::<T>(a, b),
            (ArrayModel::Dyn(_, ll), ArrayModel::Dyn(_, rl)) => materialize_uses(ll).add(
                materialize_uses(rl),
            ).add(Self::fresh_eq_uses()),
            _ => Counts::zero(),
        }
    }

    open spec fn eq_ops(lhs: ArrayModel<T::V>, rhs: ArrayModel<T::V>, c: Counts) -> Seq<Instr> {
        match (lhs, rhs) {
            (ArrayModel::Fixed(a), ArrayModel::Fixed(b)) => fixed_eq_ops::<T>(a, b, c),
            (ArrayModel::Dyn(lp, ll), ArrayModel::Dyn(rp, rl)) => dyn_eq_ops::<T>(lp, ll, rp, rl, c),
            _ => Seq::empty(),
        }
    }

    open spec fn ne_ok(lhs: ArrayModel<T::V>, rhs: ArrayModel<T::V>) -> bool {
        match (lhs, rhs) {
            (ArrayModel::Fixed(a), ArrayModel::Fixed(b)) => {
                &&& a.len() == b.len()
                &&& forall|i: int| 0 <= i < a.len() ==> T::ne_ok(#[trigger] a[i], b[i])
            },
            (ArrayModel::Dyn(_, ll), ArrayModel::Dyn(_, rl)) => match (ll, rl) {
                (Usize::Const(a), Usize::Const(b)) => a == b,
                _ => true,
            },
            _ => false,
        }
    }

    open spec fn ne_uses(lhs: ArrayModel<T::V>, rhs: ArrayModel<T::V>) -> Counts {
        match (lhs, rhs) {
            (ArrayModel::Fixed(a), ArrayModel::Fixed(b)) => fixed_ne_uses::<T>(a, b),
            (ArrayModel::Dyn(_, _), ArrayModel::Dyn(_, _)) => Self::fresh_ne_uses(),
            _ => Counts::zero(),
        }
    }

    open spec fn ne_ops(lhs: ArrayModel<T::V>, rhs: ArrayModel<T::V>, c: Counts) -> Seq<Instr> {
        match (lhs, rhs) {
            (ArrayModel::Fixed(a), ArrayModel::Fixed(b)) => fixed_ne_ops::<T>(a, b, c),
            (ArrayModel::Dyn(lp, ll), ArrayModel::Dyn(rp, rl)) => dyn_ne_ops::<T>(lp, ll, rp, rl, c),
            _ => Seq::empty(),
        }
    }

    open spec fn fresh_eq_uses() -> Counts {
        Counts::vars(1).add(T::width()).add(T::width()).add(T::fresh_eq_uses())
    }

    open spec fn fresh_ne_uses() -> Counts {
        Counts::vars(1).add(T::width()).add(T::width()).add(T::fresh_ne_uses())
    }

    proof fn lemma_fresh_pair(c1: Counts, c2: Counts) {
    }

    proof fn lemma_fresh(c: Counts) {
        let s = Self::slots_of(Self::fresh_at(c));
        assert(s[0] == Slot::V(c.v as u32));
        assert(s[1] == Slot::V((c.v + 1) as u32));
    }

    open spec fn copy_value(src: ArrayModel<T::V>, env: spec_fn(Slot) -> Seq<int>) -> Seq<Seq<int>> {
        match src {
            ArrayModel::Dyn(p, l) => seq![env(Slot::V(p.address.id)), usize_value(env, l)],
            ArrayModel::Fixed(_) => Seq::empty(),
        }
    }

    open spec fn reads_below(src: ArrayModel<T::V>, c: Counts) -> bool {
        match src {
            ArrayModel::Dyn(p, l) => {
                &&& c.has(Slot::V(p.address.id))
                &&& l matches Usize::Var(v) ==> c.has(Slot::V(v.id))
            },
            ArrayModel::Fixed(_) => true,
        }
    }

    proof fn lemma_size_fits() {
    }

    proof fn lemma_mem_slots(m: Self::V) {
    }

    proof fn lemma_reads_below_mono(src: ArrayModel<T::V>, c1: Counts, c2: Counts) {
    }

    proof fn lemma_copy_value_frame(
        src: ArrayModel<T::V>,
        c: Counts,
        env1: spec_fn(Slot) -> Seq<int>,
        env2: spec_fn(Slot) -> Seq<int>,
    ) {
        if let ArrayModel::Dyn(p, l) = src {
            assert(env1(Slot::V(p.address.id)) == env2(Slot::V(p.address.id)));
            if let Usize::Var(v) = l {
                assert(env1(Slot::V(v.id)) == env2(Slot::V(v.id)));
            }
            assert(Self::copy_value(src, env1) =~= Self::copy_value(src, env2));
        }
    }

    proof fn lemma_copy_run(src: ArrayModel<T::V>, c: Counts, s: MachineState) {
        let d = Self::fresh_at(c);
        let ops = Self::assign_ops(d, src);
        let i0 = ops[0];
        let i1 = ops[1];
        assert(ops =~= seq![i0] + seq![i1]);
        lemma_run_append(seq![i0], seq![i1], s);
        lemma_run_one(i0, s);
        let s1 = step(i0, s).unwrap();
        lemma_run_one(i1, s1);
        let s2 = step(i1, s1).unwrap();
        let slots = Self::slots_of(d);
        assert(slots[0] == Slot::V(c.v as u32));
        assert(slots[1] == Slot::V((c.v + 1) as u32));
        if let ArrayModel::Dyn(p, l) = src {
            if let Usize::Const(n) = l {
                assert(felt_of_nat(n as nat) as int == (n as int) % prime());
            }
        }
    }

    fn size_of() -> (r: usize) {
        2
    }

    fn uninit(b: &mut Builder) -> (r: Array<T>) {
        let address = b.uninit_var();
        let len = b.uninit_var();
        Array::Dyn(Ptr { address }, Usize::Var(len))
    }

    fn load(&self, src: Ptr, index: MemIndex, b: &mut Builder) {
        match self {
            Array::Dyn(dst, Usize::Var(len)) => {
                let mut idx = index;
                dst.address.load(src, idx, b);
                idx.offset = idx.offset + 1;
                len.load(src, idx, b);
                assert(idx == index_plus(index, 1));
                assert(b.ops() =~= old(b).ops() + load_ops(Self::slots_of(self@), src, index));
            },
            _ => {
                proof {
                    assert(false);
                }
            },
        }
    }

    fn store(&self, dst: Ptr, index: MemIndex, b: &mut Builder) {
        match self {
            Array::Dyn(src, Usize::Var(len)) => {
                let mut idx = index;
                src.address.store(dst, idx, b);
                idx.offset = idx.offset + 1;
                len.store(dst, idx, b);
                assert(idx == index_plus(index, 1));
                assert(b.ops() =~= old(b).ops() + store_ops(Self::slots_of(self@), dst, index));
            },
            _ => {
                proof {
                    assert(false);
                }
            },
        }
    }

    fn assign(&self, src: &Array<T>, b: &mut Builder) {
        match (self, src) {
            (Array::Dyn(lhs_ptr, Usize::Var(lhs_len)), Array::Dyn(rhs_ptr, rhs_len)) => {
                lhs_ptr.address.assign(&rhs_ptr.address, b);
                b.assign_usize(*lhs_len, *rhs_len);
                assert(b.ops() =~= old(b).ops() + Self::assign_ops(self@, src@));
            },
            _ => {
                proof {
                    assert(false);
                }
            },
        }
    }

    fn duplicate(&self) -> (r: Array<T>) {
        match self {
            Array::Fixed(v) => {
                let n = v.len();
                let mut w: Vec<T> = Vec::new();
                let mut i: usize = 0;
                while i < n
                    invariant
                        n == v.len(),
                        i <= n,
                        w@.len() == i,
                        forall|j: int| 0 <= j < i ==> #[trigger] w@[j]@ == v@[j]@,
                    decreases n - i,
                {
                    w.push(v[i].duplicate());
                    i = i + 1;
                }
                assert(w@.map_values(|x: T| x@) =~= v@.map_values(|x: T| x@));
                Array::Fixed(w)
            },
            Array::Dyn(p, l) => Array::Dyn(*p, *l),
        }
    }

    fn assert_eq(lhs: &Array<T>, rhs: &Array<T>, b: &mut Builder) {
        match (lhs, rhs) {
            (Array::Fixed(l), Array::Fixed(r)) => {
                let ghost sa = lhs@->Fixed_0;
                let ghost sb = rhs@->Fixed_0;
                let ghost c0 = b.counts();
                let ghost ops0 = b.ops();
                let n = l.len();
                let mut i: usize = 0;
                while i < n
                    invariant
                        n == l.len(),
                        n == r.len(),
                        sa == l@.map_values(|x: T| x@),
                        sb == r@.map_values(|x: T| x@),
                        forall|j: int| 0 <= j < sa.len() ==> T::eq_ok(#[trigger] sa[j], sb[j]),
                        c0.add(fixed_eq_uses::<T>(sa, sb)).fits(),
                        i <= n,
                        b.counts() == c0.add(fixed_eq_uses::<T>(sa.take(i as int), sb.take(i as int))),
                        b.ops() == ops0 + fixed_eq_ops::<T>(sa.take(i as int), sb.take(i as int), c0),
                    decreases n - i,
                {
                    proof {
                        lemma_fixed_uses_prefix::<T>(sa, sb, i + 1);
                        assert(sa.take(i + 1).drop_last() =~= sa.take(i as int));
                        assert(sb.take(i + 1).drop_last() =~= sb.take(i as int));
                        assert(sa[i as int] == l@[i as int]@);
                        assert(sb[i as int] == r@[i as int]@);
                        assert(T::eq_ok(sa[i as int], sb[i as int]));
                    }
                    let ghost before = b.ops();
                    T::assert_eq(&l[i], &r[i], b);
                    proof {
                        let ta = sa.take(i as int);
                        let tb = sb.take(i as int);
                        let x = T::eq_ops(sa[i as int], sb[i as int], c0.add(fixed_eq_uses::<T>(ta, tb)));
                        assert(fixed_eq_ops::<T>(sa.take(i + 1), sb.take(i + 1), c0)
                            == fixed_eq_ops::<T>(ta, tb, c0) + x);
                        assert(b.ops() =~= ops0 + fixed_eq_ops::<T>(sa.take(i + 1), sb.take(i + 1), c0));
                    }
                    i = i + 1;
                }
                proof {
                    assert(sa.take(n as int) =~= sa);
                    assert(sb.take(n as int) =~= sb);
                }
            },
            (Array::Dyn(lp, ll), Array::Dyn(rp, rl)) => {
                let ghost c0 = b.counts();
                let ghost ops0 = b.ops();
                let lhs_len_var = b.materialize(*ll);
                let rhs_len_var = b.materialize(*rl);
                b.push(DslIr::AssertEq(Slot::V(lhs_len_var.id), Slot::V(rhs_len_var.id)));
                let i = b.uninit_var();
                let mut body = b.sub_builder();
                let ghost c3 = body.counts();
                proof {
                    T::lemma_fresh_pair(c3, c3.add(T::width()));
                }
                let x = body.get(lhs, Usize::Var(i));
                let y = body.get(rhs, Usize::Var(i));
                T::assert_eq(&x, &y, &mut body);
                proof {
                    assert(body.ops() =~= compare_body::<T>(*lp, *rp, i, c3, true));
                }
                b.close_loop(Usize::Const(0), *ll, i, body);
                proof {
                    let (lv, c1, o1) = materialize_effect(*ll, c0, Seq::empty());
                    let (rv, c2, o2) = materialize_effect(*rl, c1, o1);
                    assert(lv == lhs_len_var);
                    assert(rv == rhs_len_var);
                    assert(b.ops() =~= ops0 + Self::eq_ops(lhs@, rhs@, c0));
                }
            },
            _ => {
                proof {
                    assert(false);
                }
            },
        }
    }

    fn assert_ne(lhs: &Array<T>, rhs: &Array<T>, b: &mut Builder) {
        match (lhs, rhs) {
            (Array::Fixed(l), Array::Fixed(r)) => {
                let ghost sa = lhs@->Fixed_0;
                let ghost sb = rhs@->Fixed_0;
                let ghost c0 = b.counts();
                let ghost ops0 = b.ops();
                let n = l.len();
                let mut i: usize = 0;
                while i < n
                    invariant
                        n == l.len(),
                        n == r.len(),
                        sa == l@.map_values(|x: T| x@),
                        sb == r@.map_values(|x: T| x@),
                        forall|j: int| 0 <= j < sa.len() ==> T::ne_ok(#[trigger] sa[j], sb[j]),
                        c0.add(fixed_ne_uses::<T>(sa, sb)).fits(),
                        i <= n,
                        b.counts() == c0.add(fixed_ne_uses::<T>(sa.take(i as int), sb.take(i as int))),
                        b.ops() == ops0 + fixed_ne_ops::<T>(sa.take(i as int), sb.take(i as int), c0),
                    decreases n - i,
                {
                    proof {
                        lemma_fixed_uses_prefix::<T>(sa, sb, i + 1);
                        assert(sa.take(i + 1).drop_last() =~= sa.take(i as int));
                        assert(sb.take(i + 1).drop_last() =~= sb.take(i as int));
                        assert(sa[i as int] == l@[i as int]@);
                        assert(sb[i as int] == r@[i as int]@);
                        assert(T::ne_ok(sa[i as int], sb[i as int]));
                    }
                    T::assert_ne(&l[i], &r[i], b);
                    proof {
                        let ta = sa.take(i as int);
                        let tb = sb.take(i as int);
                        let x = T::ne_ops(sa[i as int], sb[i as int], c0.add(fixed_ne_uses::<T>(ta, tb)));
                        assert(fixed_ne_ops::<T>(sa.take(i + 1), sb.take(i + 1), c0)
                            == fixed_ne_ops::<T>(ta, tb, c0) + x);
                        assert(b.ops() =~= ops0 + fixed_ne_ops::<T>(sa.take(i + 1), sb.take(i + 1), c0));
                    }
                    i = i + 1;
                }
                proof {
                    assert(sa.take(n as int) =~= sa);
                    assert(sb.take(n as int) =~= sb);
                }
            },
            (Array::Dyn(lp, ll), Array::Dyn(rp, rl)) => {
                let ghost c0 = b.counts();
                let ghost ops0 = b.ops();
                b.assert_usize_eq(*ll, *rl);
                let i = b.uninit_var();
                let mut body = b.sub_builder();
                let ghost c1 = body.counts();
                proof {
                    T::lemma_fresh_pair(c1, c1.add(T::width()));
                }
                let x = body.get(lhs, Usize::Var(i));
                let y = body.get(rhs, Usize::Var(i));
                T::assert_ne(&x, &y, &mut body);
                proof {
                    assert(body.ops() =~= compare_body::<T>(*lp, *rp, i, c1, false));
                }
                b.close_loop(Usize::Const(0), *ll, i, body);
                proof {
                    assert(b.ops() =~= ops0 + Self::ne_ops(lhs@, rhs@, c0));
                }
            },
            _ => {
                proof {
                    assert(false);
                }
            },
        }
    }
}

/// The variables handed out while building each of the constants and storing it.
pub open spec fn consts_uses<V: FromConstant>(k: Seq<<V::Constant as DeepView>::V>) -> Counts
    decreases k.len(),
{
    if k.len() == 0 {
        Counts::zero()
    } else {
        consts_uses::<V>(k.drop_last()).add(V::const_uses(k.last())).add(V::width())
    }
}

/// The instructions that build each constant and store it as the element of its index.
pub open spec fn consts_fill_ops<V: FromConstant>(
    ptr: Ptr,
    k: Seq<<V::Constant as DeepView>::V>,
    c: Counts,
) -> Seq<Instr>
    decreases k.len(),
{
    if k.len() == 0 {
        Seq::empty()
    } else {
        let n = (k.len() - 1) as nat;
        let ci = c.add(consts_uses::<V>(k.drop_last()));
        consts_fill_ops::<V>(ptr, k.drop_last(), c) + V::const_ops(k.last(), ci) + set_ops::<V>(
            ptr,
            Usize::Const(n as usize),
            V::const_result(k.last(), ci),
            ci.add(V::const_uses(k.last())),
        )
    }
}

/// The uses of building constants grow with their prefix.
pub proof fn lemma_consts_uses_prefix<V: FromConstant>(k: Seq<<V::Constant as DeepView>::V>, i: int)
    requires
        0 <= i <= k.len(),
    ensures
        consts_uses::<V>(k.take(i)).le(consts_uses::<V>(k)),
    decreases k.len(),
{
    if i < k.len() {
        lemma_consts_uses_prefix::<V>(k.drop_last(), i);
        assert(k.drop_last().take(i) =~= k.take(i));
    } else {
        assert(k.take(i) =~= k);
    }
}

impl<V: FromConstant> FromConstant for Array<V> {
    type Constant = Vec<V::Constant>;

    open spec fn const_ok(k: Seq<<V::Constant as DeepView>::V>) -> bool {
        forall|i: int| 0 <= i < k.len() ==> V::const_ok(#[trigger] k[i])
    }

    open spec fn const_uses(k: Seq<<V::Constant as DeepView>::V>) -> Counts {
        Counts::vars(2).add(consts_uses::<V>(k))
    }

    open spec fn const_ops(k: Seq<<V::Constant as DeepView>::V>, c: Counts) -> Seq<Instr> {
        let (d, c1, o1) = dyn_array_effect::<V>(Usize::Const(k.len() as usize), c, Seq::empty());
        o1 + consts_fill_ops::<V>(d->Dyn_0, k, c1)
    }

    open spec fn const_result(k: Seq<<V::Constant as DeepView>::V>, c: Counts) -> ArrayModel<V::V> {
        dyn_array_effect::<V>(Usize::Const(k.len() as usize), c, Seq::empty()).0
    }

    proof fn lemma_const_copyable(k: Seq<<V::Constant as DeepView>::V>, c: Counts) {
    }

    fn eval_const(value: &Vec<V::Constant>, b: &mut Builder) -> (r: Array<V>) {
        let ghost k = value.deep_view();
        let ghost c0 = b.counts();
        let ghost ops0 = b.ops();
        let n = value.len();
        let mut array: Array<V> = b.dyn_array(Usize::Const(n));
        let ghost d = array@;
        let ghost p = d->Dyn_0;
        let ghost c1 = b.counts();
        let ghost o1 = dyn_array_effect::<V>(Usize::Const(n), c0, Seq::empty()).2;
        assert(b.ops() =~= ops0 + o1);
        let mut i: usize = 0;
        while i < n
            invariant
                n == value.len(),
                k == value.deep_view(),
                k.len() == n,
                forall|j: int| 0 <= j < k.len() ==> V::const_ok(#[trigger] k[j]),
                c1 == c0.add(Counts::vars(2)),
                c1.add(consts_uses::<V>(k)).fits(),
                i <= n,
                array@ == d,
                d == ArrayModel::<V::V>::Dyn(p, d->Dyn_1),
                b.counts() == c1.add(consts_uses::<V>(k.take(i as int))),
                b.ops() == ops0 + o1 + consts_fill_ops::<V>(p, k.take(i as int), c1),
            decreases n - i,
        {
            let ghost ci = b.counts();
            let ghost before = b.ops();
            proof {
                lemma_consts_uses_prefix::<V>(k, i + 1);
                assert(k.take(i + 1).drop_last() =~= k.take(i as int));
                assert(k.take(i + 1).last() == k[i as int]);
                assert(k[i as int] == value@[i as int].deep_view());
            }
            let val = V::eval_const(&value[i], b);
            proof {
                V::lemma_const_copyable(k[i as int], ci);
            }
            b.set(&mut array, Usize::Const(i), &val);
            proof {
                assert(b.ops() =~= ops0 + o1 + consts_fill_ops::<V>(p, k.take(i + 1), c1));
            }
            i = i + 1;
        }
        proof {
            assert(k.take(n as int) =~= k);
            assert(b.ops() =~= ops0 + Self::const_ops(k, c0));
        }
        array
    }
}

impl Builder {
    /// Asserts that two lengths are equal; two constants are compared while building.
    pub fn assert_usize_eq(&mut self, lhs: Usize, rhs: Usize)
        requires
            (lhs, rhs) matches (Usize::Const(a), Usize::Const(b)) ==> a == b,
        ensures
            final(self).counts() == old(self).counts(),
            final(self).ops() == old(self).ops() + usize_eq_ops(lhs, rhs),
    {
        match (lhs, rhs) {
            (Usize::Const(_), Usize::Const(_)) => {
                assert(self.ops() =~= old(self).ops() + usize_eq_ops(lhs, rhs));
            },
            (Usize::Const(a), Usize::Var(v)) => {
                let c = felt_from_usize(a);
                self.push(DslIr::AssertEqVI(v, c));
                assert(self.ops() =~= old(self).ops() + usize_eq_ops(lhs, rhs));
            },
            (Usize::Var(v), Usize::Const(a)) => {
                let c = felt_from_usize(a);
                self.push(DslIr::AssertEqVI(v, c));
                assert(self.ops() =~= old(self).ops() + usize_eq_ops(lhs, rhs));
            },
            (Usize::Var(l), Usize::Var(r)) => {
                self.push(DslIr::AssertEq(Slot::V(l.id), Slot::V(r.id)));
                assert(self.ops() =~= old(self).ops() + usize_eq_ops(lhs, rhs));
            },
        }
    }

    /// An array of `len` elements in memory. The entries are uninitialized.
    pub fn array<V: MemVariable>(&mut self, len: Usize) -> (r: Array<V>)
        requires
            old(self).room(Counts::vars(2)),
        ensures
            (r@, final(self).counts(), final(self).ops()) == dyn_array_effect::<V>(
                len,
                old(self).counts(),
                old(self).ops(),
            ),
    {
        self.dyn_array(len)
    }

    /// An array of `len` elements in memory: its length in a native variable, and a
    /// fresh region of `len` elements of `V::size_of()` cells each.
    pub fn dyn_array<V: MemVariable>(&mut self, len: Usize) -> (r: Array<V>)
        requires
            old(self).room(Counts::vars(2)),
        ensures
            (r@, final(self).counts(), final(self).ops()) == dyn_array_effect::<V>(
                len,
                old(self).counts(),
                old(self).ops(),
            ),
    {
        let len = self.materialize(len);
        let len = Usize::Var(len);
        let size = V::size_of();
        let ptr = self.allocate(len, size);
        Array::Dyn(ptr, len)
    }

    /// Reads element `index`: the element itself from a fixed array, else a load into a
    /// fresh variable.
    pub fn get<V: MemVariable>(&mut self, slice: &Array<V>, index: Usize) -> (r: V)
        requires
            match slice@ {
                ArrayModel::Fixed(s) => index matches Usize::Const(i) && i < s.len(),
                ArrayModel::Dyn(_, _) => old(self).room(V::width()),
            },
        ensures
            match slice@ {
                ArrayModel::Fixed(s) => {
                    &&& index matches Usize::Const(i) && r@ == s[i as int]
                    &&& final(self).counts() == old(self).counts()
                    &&& final(self).ops() == old(self).ops()
                },
                ArrayModel::Dyn(ptr, _) => {
                    &&& r@ == V::fresh_at(old(self).counts())
                    &&& final(self).counts() == old(self).counts().add(V::width())
                    &&& final(self).ops() == old(self).ops() + get_ops::<V>(
                        ptr,
                        index,
                        old(self).counts(),
                    )
                },
            },
    {
        match slice {
            Array::Fixed(slice) => {
                match index {
                    Usize::Const(idx) => slice[idx].duplicate(),
                    Usize::Var(_) => {
                        proof {
                            assert(false);
                        }
                        slice[0].duplicate()
                    },
                }
            },
            Array::Dyn(ptr, _) => {
                let index = MemIndex { index, offset: 0, size: V::size_of() };
                proof {
                    V::lemma_fresh(self.counts());
                }
                let var: V = V::uninit(self);
                var.load(*ptr, index, self);
                var
            },
        }
    }

    /// Writes `value` as element `index` of an array in memory, through a fresh copy.
    pub fn set<V: MemVariable>(&mut self, slice: &mut Array<V>, index: Usize, value: &V)
        requires
            old(slice)@ is Dyn,
            V::copyable(value@),
            old(self).room(V::width()),
        ensures
            final(slice)@ == old(slice)@,
            final(self).counts() == old(self).counts().add(V::width()),
            old(slice)@ matches ArrayModel::Dyn(ptr, _) ==> final(self).ops() == old(self).ops()
                + set_ops::<V>(ptr, index, value@, old(self).counts()),
    {
        match slice {
            Array::Fixed(_) => {
                proof {
                    assert(false);
                }
            },
            Array::Dyn(ptr, _) => {
                let index = MemIndex { index, offset: 0, size: V::size_of() };
                proof {
                    V::lemma_fresh(self.counts());
                }
                let copy: V = self.eval(value);
                copy.store(*ptr, index, self);
                assert(self.ops() =~= old(self).ops() + set_ops::<V>(
                    *ptr,
                    index.index,
                    value@,
                    old(self).counts(),
                ));
            },
        }
    }

    /// The same array in memory: a fixed array is copied element by element into a new
    /// one, an array in memory is returned as it is.
    pub fn array_to_dyn<V: MemVariable>(&mut self, array: Array<V>) -> (r: Array<V>)
        requires
            match array@ {
                ArrayModel::Fixed(s) => {
                    &&& forall|i: int| 0 <= i < s.len() ==> V::copyable(#[trigger] s[i])
                    &&& old(self).room(Counts::vars(2).add(V::width().times(s.len())))
                },
                ArrayModel::Dyn(_, _) => true,
            },
        ensures
            match array@ {
                ArrayModel::Fixed(s) => {
                    let (d, c1, ops1) = dyn_array_effect::<V>(
                        Usize::Const(s.len() as usize),
                        old(self).counts(),
                        old(self).ops(),
                    );
                    &&& r@ == d
                    &&& final(self).counts() == c1.add(V::width().times(s.len()))
                    &&& d matches ArrayModel::Dyn(p, _) && final(self).ops() == ops1 + fill_ops::<V>(
                        p,
                        s,
                        c1,
                    )
                },
                ArrayModel::Dyn(_, _) => {
                    &&& r@ == array@
                    &&& final(self).counts() == old(self).counts()
                    &&& final(self).ops() == old(self).ops()
                },
            },
    {
        match array {
            Array::Fixed(v) => {
                let ghost s = array@->Fixed_0;
                let n = v.len();
                let mut dyn_array: Array<V> = self.dyn_array(Usize::Const(n));
                let ghost d = dyn_array@;
                let ghost c1 = self.counts();
                let ghost ops1 = self.ops();
                let ghost p = d->Dyn_0;
                let mut i: usize = 0;
                while i < n
                    invariant
                        n == v.len(),
                        s == v@.map_values(|x: V| x@),
                        forall|j: int| 0 <= j < s.len() ==> V::copyable(#[trigger] s[j]),
                        i <= n,
                        dyn_array@ == d,
                        d == ArrayModel::<V::V>::Dyn(p, d->Dyn_1),
                        c1.add(V::width().times(n as nat)).fits(),
                        self.counts() == c1.add(V::width().times(i as nat)),
                        self.ops() == ops1 + fill_ops::<V>(p, s.take(i as int), c1),
                    decreases n - i,
                {
                    proof {
                        lemma_times_mono(V::width(), (i + 1) as nat, n as nat);
                        assert(s.take(i + 1).drop_last() =~= s.take(i as int));
                        assert(s[i as int] == v@[i as int]@);
                        assert(V::copyable(s[i as int]));
                    }
                    self.set(&mut dyn_array, Usize::Const(i), &v[i]);
                    i = i + 1;
                }
                proof {
                    assert(s.take(n as int) =~= s);
                }
                dyn_array
            },
            Array::Dyn(ptr, len) => Array::Dyn(ptr, len),
        }
    }
}

} // verus!
