//! Variables that can be created, copied, compared and moved to and from memory.

use vstd::prelude::*;
use crate::ir::{Builder, Counts, DslIr, Instr, Ext, Felt, MemIndex, Ptr, Slot, Var, var_at};
use crate::field::BABYBEAR_P;
use crate::semantics::{MachineState, run, lemma_run_one};

verus! {

/// The place `k` cells further than `index`.
pub open spec fn index_plus(index: MemIndex, k: nat) -> MemIndex {
    MemIndex { index: index.index, offset: (index.offset + k) as usize, size: index.size }
}

/// One load per slot, the `k`-th from `k` cells past the place.
pub open spec fn load_ops(slots: Seq<Slot>, ptr: Ptr, index: MemIndex) -> Seq<Instr> {
    Seq::new(slots.len(), |k: int| Instr::Load(slots[k], ptr, index_plus(index, k as nat)))
}

/// One store per slot, the `k`-th to `k` cells past the place.
pub open spec fn store_ops(slots: Seq<Slot>, ptr: Ptr, index: MemIndex) -> Seq<Instr> {
    Seq::new(slots.len(), |k: int| Instr::Store(ptr, index_plus(index, k as nat), slots[k]))
}

/// Slots handed out between two counter states: absent before, present after.
pub open spec fn fresh_between(slots: Seq<Slot>, before: Counts, after: Counts) -> bool {
    forall|k: int| 0 <= k < slots.len() ==> !before.has(#[trigger] slots[k]) && after.has(slots[k])
}

/// No slot occurs twice.
pub open spec fn distinct_slots(slots: Seq<Slot>) -> bool {
    forall|i: int, j: int| 0 <= i < slots.len() && 0 <= j < slots.len() && i != j ==> slots[i] != slots[j]
}

/// A variable of the intermediate representation, described through its model `Self::V`.
pub trait MemVariable: View + Sized {
    /// How many variables of each kind a fresh one takes.
    spec fn width() -> Counts;

    /// The fresh variable that a builder with counters `c` hands out.
    spec fn fresh_at(c: Counts) -> Self::V;

    /// The places that hold the variable, in the order they are laid out in memory.
    spec fn slots_of(m: Self::V) -> Seq<Slot>;

    /// Whether the variable can be moved to and from memory.
    spec fn is_mem(m: Self::V) -> bool;

    /// The number of memory cells the variable takes.
    spec fn spec_size_of() -> nat;

    /// Whether the variable can be copied into a fresh one.
    spec fn copyable(m: Self::V) -> bool;

    /// The instructions that copy `src` into `dst`.
    spec fn assign_ops(dst: Self::V, src: Self::V) -> Seq<Instr>;

    /// Whether asserting equality of the two variables can be built.
    spec fn eq_ok(lhs: Self::V, rhs: Self::V) -> bool;

    /// The variables an equality assertion hands out.
    spec fn eq_uses(lhs: Self::V, rhs: Self::V) -> Counts;

    /// The instructions of an equality assertion built under counters `c`.
    spec fn eq_ops(lhs: Self::V, rhs: Self::V, c: Counts) -> Seq<Instr>;

    /// Whether asserting inequality of the two variables can be built.
    spec fn ne_ok(lhs: Self::V, rhs: Self::V) -> bool;

    /// The variables an inequality assertion hands out.
    spec fn ne_uses(lhs: Self::V, rhs: Self::V) -> Counts;

    /// The instructions of an inequality assertion built under counters `c`.
    spec fn ne_ops(lhs: Self::V, rhs: Self::V, c: Counts) -> Seq<Instr>;

    /// The variables an equality assertion between two fresh variables hands out.
    spec fn fresh_eq_uses() -> Counts;

    /// The variables an inequality assertion between two fresh variables hands out.
    spec fn fresh_ne_uses() -> Counts;

    /// Two fresh variables can always be compared, at a cost that does not depend on them.
    proof fn lemma_fresh_pair(c1: Counts, c2: Counts)
        ensures
            Self::eq_ok(Self::fresh_at(c1), Self::fresh_at(c2)),
            Self::ne_ok(Self::fresh_at(c1), Self::fresh_at(c2)),
            Self::eq_uses(Self::fresh_at(c1), Self::fresh_at(c2)) == Self::fresh_eq_uses(),
            Self::ne_uses(Self::fresh_at(c1), Self::fresh_at(c2)) == Self::fresh_ne_uses(),
    ;

    /// A fresh variable lies in memory, takes `size_of` distinct cells, and its places
    /// are exactly the ones handed out for it.
    proof fn lemma_fresh(c: Counts)
        requires
            c.add(Self::width()).fits(),
        ensures
            Self::is_mem(Self::fresh_at(c)),
            Self::slots_of(Self::fresh_at(c)).len() == Self::spec_size_of(),
            fresh_between(Self::slots_of(Self::fresh_at(c)), c, c.add(Self::width())),
            distinct_slots(Self::slots_of(Self::fresh_at(c))),
    ;

    /// The values that a copy of `src` holds, one per slot, when the variables hold `env`.
    spec fn copy_value(src: Self::V, env: spec_fn(Slot) -> Seq<int>) -> Seq<Seq<int>>;

    /// Every place that copying `src` reads was handed out under counters `c`.
    spec fn reads_below(src: Self::V, c: Counts) -> bool;

    /// What is handed out under counters `c` is handed out under larger ones.
    proof fn lemma_reads_below_mono(src: Self::V, c1: Counts, c2: Counts)
        requires
            Self::reads_below(src, c1),
            c1.le(c2),
        ensures
            Self::reads_below(src, c2),
    ;

    /// The value a copy of `src` takes depends only on the places `src` reads.
    proof fn lemma_copy_value_frame(
        src: Self::V,
        c: Counts,
        env1: spec_fn(Slot) -> Seq<int>,
        env2: spec_fn(Slot) -> Seq<int>,
    )
        requires
            Self::reads_below(src, c),
            forall|x: Slot| c.has(x) ==> env1(x) == env2(x),
        ensures
            Self::copy_value(src, env1) == Self::copy_value(src, env2),
    ;

    /// Running a copy of `src` into the fresh variable of counters `c` sets that variable's
    /// places to `copy_value(src)` and leaves memory and every older variable as they were.
    proof fn lemma_copy_run(src: Self::V, c: Counts, s: MachineState)
        requires
            Self::copyable(src),
            Self::reads_below(src, c),
            c.add(Self::width()).fits(),
        ensures
            run(Self::assign_ops(Self::fresh_at(c), src), s) matches Some(s2) && {
                &&& s2.mem == s.mem
                &&& s2.heap == s.heap
                &&& forall|x: Slot| c.has(x) ==> (s2.env)(x) == (s.env)(x)
                &&& Self::copy_value(src, s.env).len() == Self::spec_size_of()
                &&& forall|k: int|
                    0 <= k < Self::spec_size_of() ==> (s2.env)(
                        #[trigger] Self::slots_of(Self::fresh_at(c))[k],
                    ) == Self::copy_value(src, s.env)[k]
            },
    ;

    /// A variable in memory has one place per cell.
    proof fn lemma_mem_slots(m: Self::V)
        requires
            Self::is_mem(m),
        ensures
            Self::slots_of(m).len() == Self::spec_size_of(),
    ;

    /// The number of cells a variable takes fits in a `usize`.
    proof fn lemma_size_fits()
        ensures
            Self::spec_size_of() <= usize::MAX,
    ;

    /// The number of memory cells the variable takes.
    fn size_of() -> (r: usize)
        ensures
            r == Self::spec_size_of(),
    ;

    /// A fresh variable.
    fn uninit(b: &mut Builder) -> (r: Self)
        requires
            old(b).room(Self::width()),
        ensures
            r@ == Self::fresh_at(old(b).counts()),
            final(b).counts() == old(b).counts().add(Self::width()),
            final(b).ops() == old(b).ops(),
    ;

    /// Loads the variable from the place `index` past `src`.
    fn load(&self, src: Ptr, index: MemIndex, b: &mut Builder)
        requires
            Self::is_mem(self@),
            index.offset + Self::spec_size_of() <= usize::MAX,
        ensures
            final(b).ops() == old(b).ops() + load_ops(Self::slots_of(self@), src, index),
            final(b).counts() == old(b).counts(),
    ;

    /// Stores the variable to the place `index` past `dst`.
    fn store(&self, dst: Ptr, index: MemIndex, b: &mut Builder)
        requires
            Self::is_mem(self@),
            index.offset + Self::spec_size_of() <= usize::MAX,
        ensures
            final(b).ops() == old(b).ops() + store_ops(Self::slots_of(self@), dst, index),
            final(b).counts() == old(b).counts(),
    ;

    /// Copies `src` into this variable.
    fn assign(&self, src: &Self, b: &mut Builder)
        requires
            Self::is_mem(self@),
            Self::copyable(src@),
        ensures
            final(b).ops() == old(b).ops() + Self::assign_ops(self@, src@),
            final(b).counts() == old(b).counts(),
    ;

    /// The same variable, as a value of its own.
    fn duplicate(&self) -> (r: Self)
        ensures
            r@ == self@,
    ;

    /// Asserts that the two variables hold equal values.
    fn assert_eq(lhs: &Self, rhs: &Self, b: &mut Builder)
        requires
            Self::eq_ok(lhs@, rhs@),
            old(b).room(Self::eq_uses(lhs@, rhs@)),
        ensures
            final(b).ops() == old(b).ops() + Self::eq_ops(lhs@, rhs@, old(b).counts()),
            final(b).counts() == old(b).counts().add(Self::eq_uses(lhs@, rhs@)),
    ;

    /// Asserts that the two variables hold different values.
    fn assert_ne(lhs: &Self, rhs: &Self, b: &mut Builder)
        requires
            Self::ne_ok(lhs@, rhs@),
            old(b).room(Self::ne_uses(lhs@, rhs@)),
        ensures
            final(b).ops() == old(b).ops() + Self::ne_ops(lhs@, rhs@, old(b).counts()),
            final(b).counts() == old(b).counts().add(Self::ne_uses(lhs@, rhs@)),
    ;
}

impl View for Var {
    type V = Var;

    open spec fn view(&self) -> Var {
        *self
    }
}

impl View for Felt {
    type V = Felt;

    open spec fn view(&self) -> Felt {
        *self
    }
}

impl View for Ext {
    type V = Ext;

    open spec fn view(&self) -> Ext {
        *self
    }
}

impl MemVariable for Var {
    open spec fn width() -> Counts {
        Counts::vars(1)
    }

    open spec fn fresh_at(c: Counts) -> Var {
        var_at(c.v)
    }

    open spec fn slots_of(m: Var) -> Seq<Slot> {
        seq![Slot::V(m.id)]
    }

    open spec fn is_mem(m: Var) -> bool {
        true
    }

    open spec fn spec_size_of() -> nat {
        1
    }

    open spec fn copyable(m: Var) -> bool {
        true
    }

    open spec fn assign_ops(dst: Var, src: Var) -> Seq<Instr> {
        seq![Instr::Copy(Slot::V(dst.id), Slot::V(src.id))]
    }

    open spec fn eq_ok(lhs: Var, rhs: Var) -> bool {
        true
    }

    open spec fn eq_uses(lhs: Var, rhs: Var) -> Counts {
        Counts::zero()
    }

    open spec fn eq_ops(lhs: Var, rhs: Var, c: Counts) -> Seq<Instr> {
        seq![Instr::AssertEq(Slot::V(lhs.id), Slot::V(rhs.id))]
    }

    open spec fn ne_ok(lhs: Var, rhs: Var) -> bool {
        true
    }

    open spec fn ne_uses(lhs: Var, rhs: Var) -> Counts {
        Counts::zero()
    }

    open spec fn ne_ops(lhs: Var, rhs: Var, c: Counts) -> Seq<Instr> {
        seq![Instr::AssertNe(Slot::V(lhs.id), Slot::V(rhs.id))]
    }

    open spec fn fresh_eq_uses() -> Counts {
        Counts::zero()
    }

    open spec fn fresh_ne_uses() -> Counts {
        Counts::zero()
    }

    proof fn lemma_fresh_pair(c1: Counts, c2: Counts) {
    }

    proof fn lemma_fresh(c: Counts) {
    }

    proof fn lemma_size_fits() {
    }

    proof fn lemma_mem_slots(m: Self::V) {
    }

    open spec fn copy_value(src: Var, env: spec_fn(Slot) -> Seq<int>) -> Seq<Seq<int>> {
        seq![env(Slot::V(src.id))]
    }

    open spec fn reads_below(src: Var, c: Counts) -> bool {
        c.has(Slot::V(src.id))
    }

    proof fn lemma_reads_below_mono(src: Var, c1: Counts, c2: Counts) {
    }

    proof fn lemma_copy_value_frame(
        src: Var,
        c: Counts,
        env1: spec_fn(Slot) -> Seq<int>,
        env2: spec_fn(Slot) -> Seq<int>,
    ) {
        assert(env1(Slot::V(src.id)) == env2(Slot::V(src.id)));
    }

    proof fn lemma_copy_run(src: Var, c: Counts, s: MachineState) {
        lemma_run_one(Self::assign_ops(Self::fresh_at(c), src)[0], s);
        assert(Self::assign_ops(Self::fresh_at(c), src) =~= seq![
            Self::assign_ops(Self::fresh_at(c), src)[0],
        ]);
    }

    fn size_of() -> (r: usize) {
        1
    }

    fn uninit(b: &mut Builder) -> (r: Var) {
        b.uninit_var()
    }

    fn load(&self, src: Ptr, index: MemIndex, b: &mut Builder) {
        b.push(DslIr::Load(Slot::V(self.id), src, index));
        assert(index_plus(index, 0) == index);
        assert(b.ops() =~= old(b).ops() + load_ops(Self::slots_of(self@), src, index));
    }

    fn store(&self, dst: Ptr, index: MemIndex, b: &mut Builder) {
        b.push(DslIr::Store(dst, index, Slot::V(self.id)));
        assert(index_plus(index, 0) == index);
        assert(b.ops() =~= old(b).ops() + store_ops(Self::slots_of(self@), dst, index));
    }

    fn assign(&self, src: &Var, b: &mut Builder) {
        b.push(DslIr::Copy(Slot::V(self.id), Slot::V(src.id)));
        assert(b.ops() =~= old(b).ops() + Self::assign_ops(self@, src@));
    }

    fn duplicate(&self) -> (r: Var) {
        *self
    }

    fn assert_eq(lhs: &Var, rhs: &Var, b: &mut Builder) {
        b.push(DslIr::AssertEq(Slot::V(lhs.id), Slot::V(rhs.id)));
        assert(b.ops() =~= old(b).ops() + Self::eq_ops(lhs@, rhs@, old(b).counts()));
    }

    fn assert_ne(lhs: &Var, rhs: &Var, b: &mut Builder) {
        b.push(DslIr::AssertNe(Slot::V(lhs.id), Slot::V(rhs.id)));
        assert(b.ops() =~= old(b).ops() + Self::ne_ops(lhs@, rhs@, old(b).counts()));
    }
}

impl MemVariable for Felt {
    open spec fn width() -> Counts {
        Counts { v: 0, f: 1, e: 0 }
    }

    open spec fn fresh_at(c: Counts) -> Felt {
        Felt { id: c.f as u32 }
    }

    open spec fn slots_of(m: Felt) -> Seq<Slot> {
        seq![Slot::F(m.id)]
    }

    open spec fn is_mem(m: Felt) -> bool {
        true
    }

    open spec fn spec_size_of() -> nat {
        1
    }

    open spec fn copyable(m: Felt) -> bool {
        true
    }

    open spec fn assign_ops(dst: Felt, src: Felt) -> Seq<Instr> {
        seq![Instr::Copy(Slot::F(dst.id), Slot::F(src.id))]
    }

    open spec fn eq_ok(lhs: Felt, rhs: Felt) -> bool {
        true
    }

    open spec fn eq_uses(lhs: Felt, rhs: Felt) -> Counts {
        Counts::zero()
    }

    open spec fn eq_ops(lhs: Felt, rhs: Felt, c: Counts) -> Seq<Instr> {
        seq![Instr::AssertEq(Slot::F(lhs.id), Slot::F(rhs.id))]
    }

    open spec fn ne_ok(lhs: Felt, rhs: Felt) -> bool {
        true
    }

    open spec fn ne_uses(lhs: Felt, rhs: Felt) -> Counts {
        Counts::zero()
    }

    open spec fn ne_ops(lhs: Felt, rhs: Felt, c: Counts) -> Seq<Instr> {
        seq![Instr::AssertNe(Slot::F(lhs.id), Slot::F(rhs.id))]
    }

    open spec fn fresh_eq_uses() -> Counts {
        Counts::zero()
    }

    open spec fn fresh_ne_uses() -> Counts {
        Counts::zero()
    }

    proof fn lemma_fresh_pair(c1: Counts, c2: Counts) {
    }

    proof fn lemma_fresh(c: Counts) {
    }

    proof fn lemma_size_fits() {
    }

    proof fn lemma_mem_slots(m: Self::V) {
    }

    open spec fn copy_value(src: Felt, env: spec_fn(Slot) -> Seq<int>) -> Seq<Seq<int>> {
        seq![env(Slot::F(src.id))]
    }

    open spec fn reads_below(src: Felt, c: Counts) -> bool {
        c.has(Slot::F(src.id))
    }

    proof fn lemma_reads_below_mono(src: Felt, c1: Counts, c2: Counts) {
    }

    proof fn lemma_copy_value_frame(
        src: Felt,
        c: Counts,
        env1: spec_fn(Slot) -> Seq<int>,
        env2: spec_fn(Slot) -> Seq<int>,
    ) {
        assert(env1(Slot::F(src.id)) == env2(Slot::F(src.id)));
    }

    proof fn lemma_copy_run(src: Felt, c: Counts, s: MachineState) {
        lemma_run_one(Self::assign_ops(Self::fresh_at(c), src)[0], s);
        assert(Self::assign_ops(Self::fresh_at(c), src) =~= seq![
            Self::assign_ops(Self::fresh_at(c), src)[0],
        ]);
    }

    fn size_of() -> (r: usize) {
        1
    }

    fn uninit(b: &mut Builder) -> (r: Felt) {
        b.uninit_felt()
    }

    fn load(&self, src: Ptr, index: MemIndex, b: &mut Builder) {
        b.push(DslIr::Load(Slot::F(self.id), src, index));
        assert(index_plus(index, 0) == index);
        assert(b.ops() =~= old(b).ops() + load_ops(Self::slots_of(self@), src, index));
    }

    fn store(&self, dst: Ptr, index: MemIndex, b: &mut Builder) {
        b.push(DslIr::Store(dst, index, Slot::F(self.id)));
        assert(index_plus(index, 0) == index);
        assert(b.ops() =~= old(b).ops() + store_ops(Self::slots_of(self@), dst, index));
    }

    fn assign(&self, src: &Felt, b: &mut Builder) {
        b.push(DslIr::Copy(Slot::F(self.id), Slot::F(src.id)));
        assert(b.ops() =~= old(b).ops() + Self::assign_ops(self@, src@));
    }

    fn duplicate(&self) -> (r: Felt) {
        *self
    }

    fn assert_eq(lhs: &Felt, rhs: &Felt, b: &mut Builder) {
        b.push(DslIr::AssertEq(Slot::F(lhs.id), Slot::F(rhs.id)));
        assert(b.ops() =~= old(b).ops() + Self::eq_ops(lhs@, rhs@, old(b).counts()));
    }

    fn assert_ne(lhs: &Felt, rhs: &Felt, b: &mut Builder) {
        b.push(DslIr::AssertNe(Slot::F(lhs.id), Slot::F(rhs.id)));
        assert(b.ops() =~= old(b).ops() + Self::ne_ops(lhs@, rhs@, old(b).counts()));
    }
}

impl MemVariable for Ext {
    open spec fn width() -> Counts {
        Counts { v: 0, f: 0, e: 1 }
    }

    open spec fn fresh_at(c: Counts) -> Ext {
        Ext { id: c.e as u32 }
    }

    open spec fn slots_of(m: Ext) -> Seq<Slot> {
        seq![Slot::E(m.id)]
    }

    open spec fn is_mem(m: Ext) -> bool {
        true
    }

    open spec fn spec_size_of() -> nat {
        1
    }

    open spec fn copyable(m: Ext) -> bool {
        true
    }

    open spec fn assign_ops(dst: Ext, src: Ext) -> Seq<Instr> {
        seq![Instr::Copy(Slot::E(dst.id), Slot::E(src.id))]
    }

    open spec fn eq_ok(lhs: Ext, rhs: Ext) -> bool {
        true
    }

    open spec fn eq_uses(lhs: Ext, rhs: Ext) -> Counts {
        Counts::zero()
    }

    open spec fn eq_ops(lhs: Ext, rhs: Ext, c: Counts) -> Seq<Instr> {
        seq![Instr::AssertEq(Slot::E(lhs.id), Slot::E(rhs.id))]
    }

    open spec fn ne_ok(lhs: Ext, rhs: Ext) -> bool {
        true
    }

    open spec fn ne_uses(lhs: Ext, rhs: Ext) -> Counts {
        Counts::zero()
    }

    open spec fn ne_ops(lhs: Ext, rhs: Ext, c: Counts) -> Seq<Instr> {
        seq![Instr::AssertNe(Slot::E(lhs.id), Slot::E(rhs.id))]
    }

    open spec fn fresh_eq_uses() -> Counts {
        Counts::zero()
    }

    open spec fn fresh_ne_uses() -> Counts {
        Counts::zero()
    }

    proof fn lemma_fresh_pair(c1: Counts, c2: Counts) {
    }

    proof fn lemma_fresh(c: Counts) {
    }

    proof fn lemma_size_fits() {
    }

    proof fn lemma_mem_slots(m: Self::V) {
    }

    open spec fn copy_value(src: Ext, env: spec_fn(Slot) -> Seq<int>) -> Seq<Seq<int>> {
        seq![env(Slot::E(src.id))]
    }

    open spec fn reads_below(src: Ext, c: Counts) -> bool {
        c.has(Slot::E(src.id))
    }

    proof fn lemma_reads_below_mono(src: Ext, c1: Counts, c2: Counts) {
    }

    proof fn lemma_copy_value_frame(
        src: Ext,
        c: Counts,
        env1: spec_fn(Slot) -> Seq<int>,
        env2: spec_fn(Slot) -> Seq<int>,
    ) {
        assert(env1(Slot::E(src.id)) == env2(Slot::E(src.id)));
    }

    proof fn lemma_copy_run(src: Ext, c: Counts, s: MachineState) {
        lemma_run_one(Self::assign_ops(Self::fresh_at(c), src)[0], s);
        assert(Self::assign_ops(Self::fresh_at(c), src) =~= seq![
            Self::assign_ops(Self::fresh_at(c), src)[0],
        ]);
    }

    fn size_of() -> (r: usize) {
        1
    }

    fn uninit(b: &mut Builder) -> (r: Ext) {
        b.uninit_ext()
    }

    fn load(&self, src: Ptr, index: MemIndex, b: &mut Builder) {
        b.push(DslIr::Load(Slot::E(self.id), src, index));
        assert(index_plus(index, 0) == index);
        assert(b.ops() =~= old(b).ops() + load_ops(Self::slots_of(self@), src, index));
    }

    fn store(&self, dst: Ptr, index: MemIndex, b: &mut Builder) {
        b.push(DslIr::Store(dst, index, Slot::E(self.id)));
        assert(index_plus(index, 0) == index);
        assert(b.ops() =~= old(b).ops() + store_ops(Self::slots_of(self@), dst, index));
    }

    fn assign(&self, src: &Ext, b: &mut Builder) {
        b.push(DslIr::Copy(Slot::E(self.id), Slot::E(src.id)));
        assert(b.ops() =~= old(b).ops() + Self::assign_ops(self@, src@));
    }

    fn duplicate(&self) -> (r: Ext) {
        *self
    }

    fn assert_eq(lhs: &Ext, rhs: &Ext, b: &mut Builder) {
        b.push(DslIr::AssertEq(Slot::E(lhs.id), Slot::E(rhs.id)));
        assert(b.ops() =~= old(b).ops() + Self::eq_ops(lhs@, rhs@, old(b).counts()));
    }

    fn assert_ne(lhs: &Ext, rhs: &Ext, b: &mut Builder) {
        b.push(DslIr::AssertNe(Slot::E(lhs.id), Slot::E(rhs.id)));
        assert(b.ops() =~= old(b).ops() + Self::ne_ops(lhs@, rhs@, old(b).counts()));
    }
}

impl Builder {
    /// A fresh variable holding a copy of `value`.
    pub fn eval<V: MemVariable>(&mut self, value: &V) -> (r: V)
        requires
            old(self).room(V::width()),
            V::copyable(value@),
        ensures
            r@ == V::fresh_at(old(self).counts()),
            final(self).counts() == old(self).counts().add(V::width()),
            final(self).ops() == old(self).ops() + V::assign_ops(r@, value@),
    {
        proof {
            V::lemma_fresh(self.counts());
        }
        let r = V::uninit(self);
        r.assign(value, self);
        r
    }
}

} // verus!

verus! {

/// A variable that can be built from a constant known while building.
pub trait FromConstant: MemVariable {
    type Constant: DeepView;

    /// Whether the constant is a valid value (field elements in canonical form).
    spec fn const_ok(k: <Self::Constant as DeepView>::V) -> bool;

    /// The variables that building the constant hands out.
    spec fn const_uses(k: <Self::Constant as DeepView>::V) -> Counts;

    /// The instructions that build the constant under counters `c`.
    spec fn const_ops(k: <Self::Constant as DeepView>::V, c: Counts) -> Seq<Instr>;

    /// The variable that holds the constant built under counters `c`.
    spec fn const_result(k: <Self::Constant as DeepView>::V, c: Counts) -> Self::V;

    /// A variable built from a constant can be copied.
    proof fn lemma_const_copyable(k: <Self::Constant as DeepView>::V, c: Counts)
        requires
            Self::const_ok(k),
        ensures
            Self::copyable(Self::const_result(k, c)),
    ;

    /// A fresh variable that holds `value`.
    fn eval_const(value: &Self::Constant, b: &mut Builder) -> (r: Self)
        requires
            Self::const_ok(value.deep_view()),
            old(b).room(Self::const_uses(value.deep_view())),
        ensures
            r@ == Self::const_result(value.deep_view(), old(b).counts()),
            final(b).counts() == old(b).counts().add(Self::const_uses(value.deep_view())),
            final(b).ops() == old(b).ops() + Self::const_ops(value.deep_view(), old(b).counts()),
    ;
}

impl FromConstant for Var {
    type Constant = u32;

    open spec fn const_ok(k: u32) -> bool {
        k < BABYBEAR_P
    }

    open spec fn const_uses(k: u32) -> Counts {
        Counts::vars(1)
    }

    open spec fn const_ops(k: u32, c: Counts) -> Seq<Instr> {
        seq![Instr::ImmV(var_at(c.v), k)]
    }

    open spec fn const_result(k: u32, c: Counts) -> Var {
        var_at(c.v)
    }

    proof fn lemma_const_copyable(k: u32, c: Counts) {
    }

    fn eval_const(value: &u32, b: &mut Builder) -> (r: Var) {
        let r = b.eval_const_var(*value);
        assert(b.ops() =~= old(b).ops() + Self::const_ops(value.deep_view(), old(b).counts()));
        r
    }
}

impl FromConstant for Felt {
    type Constant = u32;

    open spec fn const_ok(k: u32) -> bool {
        k < BABYBEAR_P
    }

    open spec fn const_uses(k: u32) -> Counts {
        Counts { v: 0, f: 1, e: 0 }
    }

    open spec fn const_ops(k: u32, c: Counts) -> Seq<Instr> {
        seq![Instr::ImmF(Felt { id: c.f as u32 }, k)]
    }

    open spec fn const_result(k: u32, c: Counts) -> Felt {
        Felt { id: c.f as u32 }
    }

    proof fn lemma_const_copyable(k: u32, c: Counts) {
    }

    fn eval_const(value: &u32, b: &mut Builder) -> (r: Felt) {
        let r = b.uninit_felt();
        b.push(DslIr::ImmF(r, *value));
        assert(b.ops() =~= old(b).ops() + Self::const_ops(value.deep_view(), old(b).counts()));
        r
    }
}

impl FromConstant for Ext {
    type Constant = [u32; 4];

    open spec fn const_ok(k: Seq<u32>) -> bool {
        forall|i: int| 0 <= i < k.len() ==> #[trigger] k[i] < BABYBEAR_P
    }

    open spec fn const_uses(k: Seq<u32>) -> Counts {
        Counts { v: 0, f: 0, e: 1 }
    }

    open spec fn const_ops(k: Seq<u32>, c: Counts) -> Seq<Instr> {
        seq![Instr::ImmE(Ext { id: c.e as u32 }, k)]
    }

    open spec fn const_result(k: Seq<u32>, c: Counts) -> Ext {
        Ext { id: c.e as u32 }
    }

    proof fn lemma_const_copyable(k: Seq<u32>, c: Counts) {
    }

    fn eval_const(value: &[u32; 4], b: &mut Builder) -> (r: Ext) {
        let r = b.uninit_ext();
        b.push(DslIr::ImmE(r, *value));
        assert(value.deep_view() =~= value@);
        assert(b.ops() =~= old(b).ops() + Self::const_ops(value.deep_view(), old(b).counts()));
        r
    }
}

} // verus!
