//! What the programs built for arrays do when they run.

use vstd::prelude::*;
use vstd::arithmetic::div_mod::{lemma_sub_mod_noop, lemma_small_mod};
use crate::ir::{Counts, Instr, MemIndex, Ptr, Slot, Usize, Var, assign_usize_op, materialize_effect};
use crate::semantics::{
    MachineState, run, run_loop, step, address, prime, scalar, length, usize_value, with_var,
    distance, lemma_run_append, lemma_run_one,
};
use crate::variable::{MemVariable, load_ops, store_ops, index_plus, distinct_slots};
use crate::collections::{
    ArrayModel, get_ops, set_ops, elem_index, dyn_array_effect, shift_effect, compare_body,
    dyn_eq_ops, dyn_ne_ops, usize_eq_ops, fill_ops, consts_fill_ops, consts_uses,
};
use crate::variable::FromConstant;
use crate::collections::Array;
use crate::digest::{cell_at, row_start, row_len, lemma_run_push};

verus! {

/// Two places less than the prime apart have different addresses.
pub proof fn lemma_mod_distinct(a: int, k1: int, k2: int)
    requires
        0 <= k1 < k2 < prime(),
    ensures
        (a + k1) % prime() != (a + k2) % prime(),
{
    lemma_sub_mod_noop(a + k2, a + k1, prime());
    lemma_small_mod((k2 - k1) as nat, prime() as nat);
}

/// The address of the place `k` cells further is `k` more, in the field.
pub proof fn lemma_address_plus(s: MachineState, ptr: Ptr, idx: MemIndex, k: nat)
    requires
        idx.offset + k <= usize::MAX,
    ensures
        address(s, ptr, index_plus(idx, k)) == (scalar(s, ptr.address) + length(s, idx.index)
            * idx.size + idx.offset + k) % prime(),
{
}

/// The cells `k` and `j` places past the same place are different when `k != j`.
pub proof fn lemma_addresses_distinct(s: MachineState, ptr: Ptr, idx: MemIndex, k: nat, j: nat)
    requires
        idx.offset + k <= usize::MAX,
        idx.offset + j <= usize::MAX,
        k < prime(),
        j < prime(),
        k != j,
    ensures
        address(s, ptr, index_plus(idx, k)) != address(s, ptr, index_plus(idx, j)),
{
    let b = scalar(s, ptr.address) + length(s, idx.index) * idx.size + idx.offset;
    lemma_address_plus(s, ptr, idx, k);
    lemma_address_plus(s, ptr, idx, j);
    if k < j {
        lemma_mod_distinct(b, k as int, j as int);
    } else {
        lemma_mod_distinct(b, j as int, k as int);
    }
}

/// Storing a sequence of places writes each one's value to its own cell, and changes
/// neither the variables nor the free address.
pub proof fn lemma_run_stores(slots: Seq<Slot>, ptr: Ptr, idx: MemIndex, s: MachineState)
    requires
        idx.offset + slots.len() <= usize::MAX,
        slots.len() <= prime(),
    ensures
        run(store_ops(slots, ptr, idx), s) matches Some(s2) && {
            &&& s2.env == s.env
            &&& s2.heap == s.heap
            &&& forall|k: int|
                0 <= k < slots.len() ==> (s2.mem)(address(s, ptr, index_plus(idx, k as nat)))
                    == (s.env)(#[trigger] slots[k])
        },
    decreases slots.len(),
{
    if slots.len() == 0 {
        assert(store_ops(slots, ptr, idx) =~= Seq::<Instr>::empty());
    } else {
        let n = slots.len() - 1;
        let front = slots.drop_last();
        lemma_run_stores(front, ptr, idx, s);
        let last = Instr::Store(ptr, index_plus(idx, n as nat), slots[n]);
        assert(store_ops(slots, ptr, idx) =~= store_ops(front, ptr, idx) + seq![last]);
        lemma_run_append(store_ops(front, ptr, idx), seq![last], s);
        let s1 = run(store_ops(front, ptr, idx), s).unwrap();
        lemma_run_one(last, s1);
        let s2 = step(last, s1).unwrap();
        assert forall|k: int| 0 <= k < slots.len() implies (s2.mem)(
            address(s, ptr, index_plus(idx, k as nat)),
        ) == (s.env)(#[trigger] slots[k]) by {
            if k < n {
                lemma_addresses_distinct(s, ptr, idx, k as nat, n as nat);
                assert(front[k] == slots[k]);
            }
        }
    }
}

/// Loading a sequence of distinct places, none of which the address depends on, sets each
/// to the content of its own cell and changes nothing else.
pub proof fn lemma_run_loads(slots: Seq<Slot>, ptr: Ptr, idx: MemIndex, s: MachineState)
    requires
        idx.offset + slots.len() <= usize::MAX,
        slots.len() <= prime(),
        distinct_slots(slots),
        !slots.contains(Slot::V(ptr.address.id)),
        idx.index matches Usize::Var(v) ==> !slots.contains(Slot::V(v.id)),
    ensures
        run(load_ops(slots, ptr, idx), s) matches Some(s2) && {
            &&& s2.mem == s.mem
            &&& s2.heap == s.heap
            &&& forall|k: int|
                0 <= k < slots.len() ==> (s2.env)(#[trigger] slots[k]) == (s.mem)(
                    address(s, ptr, index_plus(idx, k as nat)),
                )
            &&& forall|x: Slot| !slots.contains(x) ==> (s2.env)(x) == (s.env)(x)
        },
    decreases slots.len(),
{
    if slots.len() == 0 {
        assert(load_ops(slots, ptr, idx) =~= Seq::<Instr>::empty());
    } else {
        let n = slots.len() - 1;
        let front = slots.drop_last();
        assert forall|x: Slot| front.contains(x) implies slots.contains(x) by {
            let j = choose|j: int| 0 <= j < front.len() && front[j] == x;
            assert(slots[j] == x);
        }
        lemma_run_loads(front, ptr, idx, s);
        let last = Instr::Load(slots[n], ptr, index_plus(idx, n as nat));
        assert(load_ops(slots, ptr, idx) =~= load_ops(front, ptr, idx) + seq![last]);
        lemma_run_append(load_ops(front, ptr, idx), seq![last], s);
        let s1 = run(load_ops(front, ptr, idx), s).unwrap();
        lemma_run_one(last, s1);
        let s2 = step(last, s1).unwrap();
        assert(!front.contains(slots[n])) by {
            if front.contains(slots[n]) {
                let j = choose|j: int| 0 <= j < front.len() && front[j] == slots[n];
                assert(slots[j] == slots[n]);
            }
        }
        assert(!front.contains(Slot::V(ptr.address.id)));
        assert(address(s1, ptr, index_plus(idx, n as nat)) == address(s, ptr, index_plus(idx, n as nat)));
        assert forall|k: int| 0 <= k < slots.len() implies (s2.env)(#[trigger] slots[k]) == (s.mem)(
            address(s, ptr, index_plus(idx, k as nat)),
        ) by {
            if k < n {
                assert(front[k] == slots[k]);
                assert(slots[k] != slots[n]);
            }
        }
        assert forall|x: Slot| !slots.contains(x) implies (s2.env)(x) == (s.env)(x) by {
            assert(x != slots[n]);
            if front.contains(x) {
                let j = choose|j: int| 0 <= j < front.len() && front[j] == x;
                assert(slots[j] == x);
            }
        }
    }
}

/// Cells the same number of cells past two places with the same address coincide.
proof fn lemma_same_place_cells(s: MachineState, p1: Ptr, i1: MemIndex, p2: Ptr, i2: MemIndex, k: nat)
    requires
        address(s, p1, i1) == address(s, p2, i2),
        i1.offset + k <= usize::MAX,
        i2.offset + k <= usize::MAX,
    ensures
        address(s, p1, index_plus(i1, k)) == address(s, p2, index_plus(i2, k)),
{
    let b1 = scalar(s, p1.address) + length(s, i1.index) * i1.size + i1.offset;
    let b2 = scalar(s, p2.address) + length(s, i2.index) * i2.size + i2.offset;
    lemma_address_plus(s, p1, i1, k);
    lemma_address_plus(s, p2, i2, k);
    lemma_address_plus(s, p1, i1, 0);
    lemma_address_plus(s, p2, i2, 0);
    vstd::arithmetic::div_mod::lemma_add_mod_noop(b1, k as int, prime());
    vstd::arithmetic::div_mod::lemma_add_mod_noop(b2, k as int, prime());
}

/// A write through one array and a read through another that addresses the same cells:
/// after `set(a, i1, value)` and then `get(b, i2)` (built under counters `c`), where element
/// `i1` of `a` and element `i2` of `b` have the same address, the variable that `get`
/// returns holds, slot by slot, the value that a copy of `value` held when `set` ran.
pub proof fn law_set_then_get_same_cell<T: MemVariable>(
    p1: Ptr,
    i1: Usize,
    p2: Ptr,
    i2: Usize,
    value: T::V,
    c: Counts,
    s: MachineState,
)
    requires
        T::copyable(value),
        T::reads_below(value, c),
        c.has(Slot::V(p1.address.id)),
        c.has(Slot::V(p2.address.id)),
        i1 matches Usize::Var(v) ==> c.has(Slot::V(v.id)),
        i2 matches Usize::Var(v) ==> c.has(Slot::V(v.id)),
        c.add(T::width()).add(T::width()).fits(),
        T::spec_size_of() < prime(),
        address(s, p1, elem_index::<T>(i1)) == address(s, p2, elem_index::<T>(i2)),
    ensures
        run(set_ops::<T>(p1, i1, value, c) + get_ops::<T>(p2, i2, c.add(T::width())), s) matches Some(s3) &&
            forall|k: int|
            0 <= k < T::spec_size_of() ==> (s3.env)(
                #[trigger] T::slots_of(T::fresh_at(c.add(T::width())))[k],
            ) == T::copy_value(value, s.env)[k],
{
    T::lemma_size_fits();
    let c1 = c.add(T::width());
    let d1 = T::fresh_at(c);
    let d2 = T::fresh_at(c1);
    let sl1 = T::slots_of(d1);
    let sl2 = T::slots_of(d2);
    let idx1 = elem_index::<T>(i1);
    let idx2 = elem_index::<T>(i2);
    T::lemma_fresh(c);
    T::lemma_fresh(c1);
    let copy = T::assign_ops(d1, value);
    let stores = store_ops(sl1, p1, idx1);
    let loads = load_ops(sl2, p2, idx2);
    assert(set_ops::<T>(p1, i1, value, c) + get_ops::<T>(p2, i2, c1) =~= copy + (stores + loads));
    lemma_run_append(copy, stores + loads, s);
    lemma_run_append(stores, loads, run(copy, s).unwrap());
    T::lemma_copy_run(value, c, s);
    let s1 = run(copy, s).unwrap();
    lemma_run_stores(sl1, p1, idx1, s1);
    let s2 = run(stores, s1).unwrap();
    assert(!sl2.contains(Slot::V(p2.address.id))) by {
        if sl2.contains(Slot::V(p2.address.id)) {
            let j = choose|j: int| 0 <= j < sl2.len() && sl2[j] == Slot::V(p2.address.id);
            assert(!c1.has(sl2[j]));
        }
    }
    if let Usize::Var(v) = i2 {
        assert(!sl2.contains(Slot::V(v.id))) by {
            if sl2.contains(Slot::V(v.id)) {
                let j = choose|j: int| 0 <= j < sl2.len() && sl2[j] == Slot::V(v.id);
                assert(!c1.has(sl2[j]));
            }
        }
        assert((s1.env)(Slot::V(v.id)) == (s.env)(Slot::V(v.id)));
    }
    if let Usize::Var(v) = i1 {
        assert((s1.env)(Slot::V(v.id)) == (s.env)(Slot::V(v.id)));
    }
    lemma_run_loads(sl2, p2, idx2, s2);
    let s3 = run(loads, s2).unwrap();
    assert((s1.env)(Slot::V(p1.address.id)) == (s.env)(Slot::V(p1.address.id)));
    assert((s1.env)(Slot::V(p2.address.id)) == (s.env)(Slot::V(p2.address.id)));
    assert(address(s1, p1, idx1) == address(s1, p2, idx2));
    assert forall|k: int| 0 <= k < T::spec_size_of() implies (s3.env)(#[trigger] sl2[k])
        == T::copy_value(value, s.env)[k] by {
        lemma_same_place_cells(s1, p1, idx1, p2, idx2, k as nat);
        assert((s3.env)(sl2[k]) == (s2.mem)(address(s2, p2, index_plus(idx2, k as nat))));
        assert((s2.mem)(address(s1, p1, index_plus(idx1, k as nat))) == (s1.env)(sl1[k]));
    }
}

/// Reading an element of an array in memory gives back what was last written to it: after
/// `set(array, index, value)` and then `get(array, index)` (built under counters `c`), the
/// variable that `get` returns holds, slot by slot, the value that a copy of `value` held
/// when `set` ran.
pub proof fn law_get_after_set<T: MemVariable>(
    ptr: Ptr,
    index: Usize,
    value: T::V,
    c: Counts,
    s: MachineState,
)
    requires
        T::copyable(value),
        T::reads_below(value, c),
        c.has(Slot::V(ptr.address.id)),
        index matches Usize::Var(v) ==> c.has(Slot::V(v.id)),
        c.add(T::width()).add(T::width()).fits(),
        T::spec_size_of() < prime(),
    ensures
        run(set_ops::<T>(ptr, index, value, c) + get_ops::<T>(ptr, index, c.add(T::width())), s) matches Some(s3) &&
            forall|k: int|
            0 <= k < T::spec_size_of() ==> (s3.env)(
                #[trigger] T::slots_of(T::fresh_at(c.add(T::width())))[k],
            ) == T::copy_value(value, s.env)[k],
{
    law_set_then_get_same_cell::<T>(ptr, index, ptr, index, value, c, s);
}

/// Loading reads back what storing wrote: after `a.store(dst, index)` and then
/// `b.load(dst, index)`, every place of `b` holds what the place of `a` in the same
/// position held. For arrays this is the pointer at `index.offset` and the length one cell
/// further; `b` must be held in distinct places, none of which the address depends on.
pub proof fn law_load_after_store<T: MemVariable>(
    a: T::V,
    b: T::V,
    dst: Ptr,
    index: MemIndex,
    s: MachineState,
)
    requires
        T::is_mem(a),
        T::is_mem(b),
        distinct_slots(T::slots_of(b)),
        !T::slots_of(b).contains(Slot::V(dst.address.id)),
        index.index matches Usize::Var(v) ==> !T::slots_of(b).contains(Slot::V(v.id)),
        index.offset + T::spec_size_of() <= usize::MAX,
        T::spec_size_of() < prime(),
    ensures
        run(store_ops(T::slots_of(a), dst, index) + load_ops(T::slots_of(b), dst, index), s) matches Some(s2) &&
            forall|k: int|
            0 <= k < T::spec_size_of() ==> (s2.env)(#[trigger] T::slots_of(b)[k]) == (s.env)(
                T::slots_of(a)[k],
            ),
{
    T::lemma_mem_slots(a);
    T::lemma_mem_slots(b);
    let sa = T::slots_of(a);
    let sb = T::slots_of(b);
    lemma_run_append(store_ops(sa, dst, index), load_ops(sb, dst, index), s);
    lemma_run_stores(sa, dst, index, s);
    let s1 = run(store_ops(sa, dst, index), s).unwrap();
    lemma_run_loads(sb, dst, index, s1);
    assert forall|k: int| 0 <= k < T::spec_size_of() implies (
        run(store_ops(sa, dst, index) + load_ops(sb, dst, index), s).unwrap().env)(
        #[trigger] sb[k],
    ) == (s.env)(sa[k]) by {
        assert(address(s1, dst, index_plus(index, k as nat)) == address(s, dst, index_plus(index, k as nat)));
    }
}

/// Materializing a length gives a variable that holds its value, and changes nothing that
/// was there before.
pub proof fn lemma_run_materialize(u: Usize, c: Counts, s: MachineState)
    requires
        c.add(Counts::vars(1)).fits(),
    ensures
        ({
            let (v, c1, ops) = materialize_effect(u, c, Seq::empty());
            run(ops, s) matches Some(s1) && {
                &&& s1.mem == s.mem
                &&& s1.heap == s.heap
                &&& (u matches Usize::Var(w) ==> c.has(Slot::V(w.id))) ==> (s1.env)(Slot::V(v.id))
                    == usize_value(s.env, u)
                &&& forall|x: Slot| c.has(x) ==> (s1.env)(x) == (s.env)(x)
                &&& c.le(c1) && c1.le(c.add(Counts::vars(1)))
                &&& (u is Const ==> !c.has(Slot::V(v.id)) && c1.has(Slot::V(v.id)))
                &&& (u matches Usize::Var(w) ==> v == w)
            }
        }),
{
    let (v, c1, ops) = materialize_effect(u, c, Seq::empty());
    match u {
        Usize::Const(n) => {
            assert(ops =~= seq![Instr::ImmV(v, crate::ir::usize_felt(n))]);
            lemma_run_one(Instr::ImmV(v, crate::ir::usize_felt(n)), s);
            assert(crate::field::felt_of_nat(n as nat) as int == (n as int) % prime());
        },
        Usize::Var(_) => {
            assert(ops =~= Seq::<Instr>::empty());
        },
    }
}

/// A new array in memory starts at the first free address, holds `len` in its length, and
/// takes `len * size_of` cells of memory, which is left as it was.
pub proof fn law_dyn_array<T: MemVariable>(len: Usize, c: Counts, s: MachineState)
    requires
        c.add(Counts::vars(2)).fits(),
        len matches Usize::Var(v) ==> c.has(Slot::V(v.id)),
    ensures
        ({
            let (d, c2, ops) = dyn_array_effect::<T>(len, c, Seq::empty());
            run(ops, s) matches Some(s2) && d matches ArrayModel::Dyn(p, l) && {
                &&& length(s2, l) == length(s, len)
                &&& scalar(s2, p.address) == s.heap
                &&& s2.heap == s.heap + length(s, len) * T::spec_size_of()
                &&& s2.mem == s.mem
                &&& forall|x: Slot| c.has(x) ==> (s2.env)(x) == (s.env)(x)
            }
        }),
{
    T::lemma_size_fits();
    let (v, c1, ops1) = materialize_effect(len, c, Seq::empty());
    let (d, c2, ops) = dyn_array_effect::<T>(len, c, Seq::empty());
    lemma_run_materialize(len, c, s);
    let s1 = run(ops1, s).unwrap();
    let p = Ptr { address: crate::ir::var_at(c1.v) };
    let alloc = Instr::Alloc(p, Usize::Var(v), T::spec_size_of() as usize);
    assert(ops =~= ops1 + seq![alloc]);
    lemma_run_append(ops1, seq![alloc], s);
    lemma_run_one(alloc, s1);
    let s2 = step(alloc, s1).unwrap();
    assert(Slot::V(p.address.id) != Slot::V(v.id));
    assert forall|x: Slot| c.has(x) implies (s2.env)(x) == (s.env)(x) by {
        assert(x != Slot::V(p.address.id));
    }
}

/// Shifting an array in memory by `shift` moves its pointer `shift` cells on and shortens
/// its length by `shift`; for elements of one cell, element `j` of the shifted array is
/// element `j + shift` of the array it was shifted from.
pub proof fn law_shift<T: MemVariable>(
    ptr: Ptr,
    len: Usize,
    shift: Var,
    j: usize,
    c: Counts,
    s: MachineState,
)
    requires
        c.add(Counts::vars(3)).fits(),
        c.has(Slot::V(ptr.address.id)),
        c.has(Slot::V(shift.id)),
        len matches Usize::Var(v) ==> c.has(Slot::V(v.id)),
    ensures
        ({
            let (d, c3, ops) = shift_effect::<T::V>(ArrayModel::Dyn(ptr, len), shift, c, Seq::empty());
            run(ops, s) matches Some(s3) && d matches ArrayModel::Dyn(p2, l2) && {
                &&& scalar(s3, p2.address) == (scalar(s, ptr.address) + scalar(s, shift)) % prime()
                &&& length(s3, l2) == (length(s, len) - scalar(s, shift)) % prime()
                &&& s3.mem == s.mem
                &&& s3.heap == s.heap
                &&& T::spec_size_of() == 1 ==> address(s3, p2, elem_index::<T>(Usize::Const(j)))
                    == (scalar(s, ptr.address) + (j + scalar(s, shift)) % prime()) % prime()
                &&& forall|x: Slot| c.has(x) ==> (s3.env)(x) == (s.env)(x)
                &&& c.le(c3) && c3.has(Slot::V(p2.address.id))
                &&& l2 matches Usize::Var(n) && c3.has(Slot::V(n.id))
                &&& scalar(s, shift) == 0 && 0 <= scalar(s, ptr.address) < prime() ==> scalar(
                    s3,
                    p2.address,
                ) == scalar(s, ptr.address)
                &&& scalar(s, shift) == 0 && 0 <= length(s, len) < prime() ==> length(s3, l2)
                    == length(s, len)
            }
        }),
{
    let a = crate::ir::var_at(c.v);
    let c1 = c.add(Counts::vars(1));
    let add = Instr::AddV(a, ptr.address, shift);
    let (lv, c2, ops2) = materialize_effect(len, c1, Seq::empty());
    let n = crate::ir::var_at(c2.v);
    let sub = Instr::SubV(n, lv, shift);
    let (d, c3, ops) = shift_effect::<T::V>(ArrayModel::Dyn(ptr, len), shift, c, Seq::empty());
    assert(ops =~= seq![add] + (ops2 + seq![sub]));
    lemma_run_append(seq![add], ops2 + seq![sub], s);
    lemma_run_one(add, s);
    let s1 = step(add, s).unwrap();
    lemma_run_append(ops2, seq![sub], s1);
    lemma_run_materialize(len, c1, s1);
    let s2 = run(ops2, s1).unwrap();
    lemma_run_one(sub, s2);
    let s3 = step(sub, s2).unwrap();
    assert(c1.has(Slot::V(a.id)));
    assert(c1.has(Slot::V(shift.id)));
    assert(Slot::V(shift.id) != Slot::V(a.id));
    assert(Slot::V(n.id) != Slot::V(a.id));
    assert(scalar(s2, a) == scalar(s1, a));
    assert(scalar(s1, shift) == scalar(s, shift));
    assert(scalar(s2, shift) == scalar(s, shift));
    if let Usize::Var(w) = len {
        assert(scalar(s1, w) == scalar(s, w));
    }
    assert forall|x: Slot| c.has(x) implies (s3.env)(x) == (s.env)(x) by {
        assert(x != Slot::V(a.id));
        assert(c1.has(x));
        assert(x != Slot::V(n.id));
    }
    if scalar(s, shift) == 0 && 0 <= scalar(s, ptr.address) < prime() {
        lemma_small_mod(scalar(s, ptr.address) as nat, prime() as nat);
    }
    if scalar(s, shift) == 0 && 0 <= length(s, len) < prime() {
        lemma_small_mod(length(s, len) as nat, prime() as nat);
    }
    if T::spec_size_of() == 1 {
        let p2 = Ptr { address: a };
        let ix = elem_index::<T>(Usize::Const(j));
        assert(ix.size == 1 && ix.offset == 0);
        lemma_shifted_address(s3, p2, ix, scalar(s, ptr.address), scalar(s, shift), j);
    }
}

/// The address of element `j` of elements of one cell, past a pointer that holds
/// `(x + y) mod p`, is the address of element `j + y` past `x`.
proof fn lemma_shifted_address(s: MachineState, p: Ptr, ix: MemIndex, x: int, y: int, j: usize)
    requires
        ix.size == 1,
        ix.offset == 0,
        ix.index == Usize::Const(j),
        scalar(s, p.address) == (x + y) % prime(),
    ensures
        address(s, p, ix) == (x + (j + y) % prime()) % prime(),
{
    let l = length(s, ix.index);
    assert(l == (j as int) % prime());
    assert(l * ix.size == l) by (nonlinear_arith)
        requires
            ix.size == 1,
    ;
    assert(address(s, p, ix) == ((x + y) % prime() + (j as int) % prime()) % prime());
    vstd::arithmetic::div_mod::lemma_add_mod_noop(x + y, j as int, prime());
    vstd::arithmetic::div_mod::lemma_add_mod_noop(x, y + j, prime());
    vstd::arithmetic::div_mod::lemma_mod_twice(x, prime());
}

/// Truncating an array in memory stores the new length in its length variable, and leaves
/// memory and every other variable as they were.
pub proof fn law_truncate(old_len: Var, len: Usize, s: MachineState)
    ensures
        run(seq![assign_usize_op(old_len, len)], s) matches Some(s1) && {
            &&& (len matches Usize::Var(w) ==> w != old_len) ==> scalar(s1, old_len) == length(s, len)
            &&& s1.mem == s.mem
            &&& forall|x: Slot| x != Slot::V(old_len.id) ==> #[trigger] (s1.env)(x) == (s.env)(x)
        },
{
    lemma_run_one(assign_usize_op(old_len, len), s);
    if let Usize::Const(n) = len {
        assert(crate::field::felt_of_nat(n as nat) as int == (n as int) % prime());
    }
}


/// The address of element `i` of an array of one-cell elements that starts at `p`.
pub open spec fn cell_address(s: MachineState, p: Ptr, i: int) -> int {
    (scalar(s, p.address) + i) % prime()
}

/// Element `i` of two arrays of native variables holds the same value.
pub open spec fn same_element(s: MachineState, lp: Ptr, rp: Ptr, i: int) -> bool {
    (s.mem)(cell_address(s, lp, i)) == (s.mem)(cell_address(s, rp, i))
}

/// Element `i` of two arrays of native variables holds the same value if `eq`, else
/// different values.
pub open spec fn pair_holds(s: MachineState, lp: Ptr, rp: Ptr, i: int, eq: bool) -> bool {
    if eq {
        same_element(s, lp, rp, i)
    } else {
        !same_element(s, lp, rp, i)
    }
}

/// Variables of kind `T` take one place and one cell, and are compared by one assertion on
/// that place: native, base-field and extension variables, and dimensions.
pub open spec fn one_slot<T: MemVariable>() -> bool {
    &&& T::spec_size_of() == 1
    &&& forall|a: T::V, b: T::V, c: Counts|
        #[trigger] T::eq_ops(a, b, c) == seq![Instr::AssertEq(T::slots_of(a)[0], T::slots_of(b)[0])]
    &&& forall|a: T::V, b: T::V, c: Counts|
        #[trigger] T::ne_ops(a, b, c) == seq![Instr::AssertNe(T::slots_of(a)[0], T::slots_of(b)[0])]
}

/// Native, base-field and extension variables and dimensions take one place each.
pub proof fn lemma_one_slot_kinds()
    ensures
        one_slot::<Var>(),
        one_slot::<crate::ir::Felt>(),
        one_slot::<crate::ir::Ext>(),
        one_slot::<crate::fri::Dimensions>(),
{
}

/// One pass of the comparison loop of two arrays of one-slot variables: it succeeds exactly
/// when element `k` of both compares as asked, and it changes only its own variables.
proof fn lemma_compare_body_run<T: MemVariable>(
    lp: Ptr,
    rp: Ptr,
    i: Var,
    c: Counts,
    k: int,
    t: MachineState,
    eq: bool,
)
    requires
        one_slot::<T>(),
        c.add(T::width()).add(T::width()).fits(),
        c.has(Slot::V(lp.address.id)),
        c.has(Slot::V(rp.address.id)),
        (t.env)(Slot::V(i.id)) == seq![k],
        c.has(Slot::V(i.id)),
    ensures
        run(compare_body::<T>(lp, rp, i, c, eq), t) is Some <==> pair_holds(t, lp, rp, k, eq),
        run(compare_body::<T>(lp, rp, i, c, eq), t) matches Some(t2) ==> {
            &&& t2.mem == t.mem
            &&& t2.heap == t.heap
            &&& forall|x: Slot| c.has(x) ==> (t2.env)(x) == (t.env)(x)
        },
{
    let c1 = c.add(T::width());
    T::lemma_fresh(c);
    T::lemma_fresh(c1);
    let fa = T::fresh_at(c);
    let fb = T::fresh_at(c1);
    let sa = T::slots_of(fa)[0];
    let sb = T::slots_of(fb)[0];
    assert(!c.has(sa) && c1.has(sa));
    assert(!c1.has(sb));
    let ix = MemIndex { index: Usize::Var(i), offset: 0, size: 1 };
    assert(elem_index::<T>(Usize::Var(i)) == ix);
    assert(index_plus(ix, 0) == ix);
    let l1 = Instr::Load(sa, lp, ix);
    let l2 = Instr::Load(sb, rp, ix);
    let e = if eq {
        Instr::AssertEq(sa, sb)
    } else {
        Instr::AssertNe(sa, sb)
    };
    let body = compare_body::<T>(lp, rp, i, c, eq);
    assert(get_ops::<T>(lp, Usize::Var(i), c) =~= seq![l1]);
    assert(get_ops::<T>(rp, Usize::Var(i), c1) =~= seq![l2]);
    assert(body =~= seq![l1] + (seq![l2] + seq![e]));
    lemma_run_append(seq![l1], seq![l2] + seq![e], t);
    lemma_run_one(l1, t);
    let t1 = step(l1, t).unwrap();
    lemma_run_append(seq![l2], seq![e], t1);
    lemma_run_one(l2, t1);
    let t2 = step(l2, t1).unwrap();
    lemma_run_one(e, t2);
    assert(sa != Slot::V(i.id));
    assert(sb != Slot::V(i.id));
    assert(sa != sb);
    assert(sa != Slot::V(lp.address.id));
    assert(sa != Slot::V(rp.address.id));
    assert(length(t, ix.index) == k);
    assert(length(t1, ix.index) == k);
    assert(k * 1 == k) by (nonlinear_arith);
    assert(address(t, lp, ix) == cell_address(t, lp, k));
    assert(address(t1, rp, ix) == cell_address(t, rp, k));
    assert forall|x: Slot| c.has(x) implies (t2.env)(x) == (t.env)(x) by {
        assert(x != sa);
        assert(x != sb);
    }
}

/// The comparison loop from `k` on succeeds exactly when every element from `k` up to
/// `end` compares as asked.
proof fn lemma_compare_loop_run<T: MemVariable>(
    lp: Ptr,
    rp: Ptr,
    i: Var,
    c: Counts,
    k: int,
    end: int,
    t: MachineState,
    eq: bool,
)
    requires
        one_slot::<T>(),
        c.add(T::width()).add(T::width()).fits(),
        c.has(Slot::V(lp.address.id)),
        c.has(Slot::V(rp.address.id)),
        c.has(Slot::V(i.id)),
        Slot::V(i.id) != Slot::V(lp.address.id),
        Slot::V(i.id) != Slot::V(rp.address.id),
    ensures
        run_loop(compare_body::<T>(lp, rp, i, c, eq), i, k, end, 1, t) is Some <==> (forall|j: int|
            k <= j < end ==> #[trigger] pair_holds(t, lp, rp, j, eq)),
    decreases distance(k, end),
{
    let body = compare_body::<T>(lp, rp, i, c, eq);
    if k < end {
        let t0 = with_var(t, Slot::V(i.id), seq![k]);
        lemma_compare_body_run::<T>(lp, rp, i, c, k, t0, eq);
        assert(pair_holds(t0, lp, rp, k, eq) == pair_holds(t, lp, rp, k, eq));
        match run(body, t0) {
            Some(t1) => {
                lemma_compare_loop_run::<T>(lp, rp, i, c, k + 1, end, t1, eq);
                assert forall|j: int| k + 1 <= j < end implies pair_holds(t1, lp, rp, j, eq)
                    == pair_holds(t, lp, rp, j, eq) by {
                    assert((t1.env)(Slot::V(lp.address.id)) == (t0.env)(Slot::V(lp.address.id)));
                    assert((t1.env)(Slot::V(rp.address.id)) == (t0.env)(Slot::V(rp.address.id)));
                }
                if !pair_holds(t, lp, rp, k, eq) {
                } else {
                    assert((forall|j: int| k <= j < end ==> #[trigger] pair_holds(t, lp, rp, j, eq))
                        <==> (forall|j: int| k + 1 <= j < end ==> #[trigger] pair_holds(t, lp, rp, j, eq)));
                }
            },
            None => {
                assert(!pair_holds(t, lp, rp, k, eq));
            },
        }
    }
}

/// Asserting two arrays in memory of one-slot variables (native, base-field or extension
/// variables, or dimensions) equal builds a program that runs to the end exactly when both
/// lengths hold the same value and every element below that length holds the same value
/// in both arrays.
pub proof fn law_assert_eq_dyn<T: MemVariable>(
    lp: Ptr,
    ll: Usize,
    rp: Ptr,
    rl: Usize,
    c: Counts,
    s: MachineState,
)
    requires
        one_slot::<T>(),
        c.add(Counts::vars(3)).add(T::width()).add(T::width()).fits(),
        c.has(Slot::V(lp.address.id)),
        c.has(Slot::V(rp.address.id)),
        ll matches Usize::Var(v) ==> c.has(Slot::V(v.id)),
        rl matches Usize::Var(v) ==> c.has(Slot::V(v.id)),
    ensures
        run(Array::<T>::eq_ops(ArrayModel::Dyn(lp, ll), ArrayModel::Dyn(rp, rl), c), s) is Some <==> {
            &&& usize_value(s.env, ll) == usize_value(s.env, rl)
            &&& forall|j: int| 0 <= j < length(s, ll) ==> #[trigger] pair_holds(s, lp, rp, j, true)
        },
{
    let (lv, c1, o1) = materialize_effect(ll, c, Seq::empty());
    let (rv, c2, o2) = materialize_effect(rl, c1, o1);
    let (rv_alone, c2b, o2b) = materialize_effect(rl, c1, Seq::empty());
    assert(o2 =~= o1 + o2b);
    let i = crate::ir::var_at(c2.v);
    let c3 = c2.add(Counts::vars(1));
    let body = compare_body::<T>(lp, rp, i, c3, true);
    let eq = Instr::AssertEq(Slot::V(lv.id), Slot::V(rv.id));
    let lp_ = Instr::For(Usize::Const(0), ll, 1, i, body);
    let ops = dyn_eq_ops::<T>(lp, ll, rp, rl, c);
    assert(ops =~= o1 + (o2b + (seq![eq] + seq![lp_])));
    lemma_run_append(o1, o2b + (seq![eq] + seq![lp_]), s);
    lemma_run_materialize(ll, c, s);
    let s1 = run(o1, s).unwrap();
    lemma_run_append(o2b, seq![eq] + seq![lp_], s1);
    lemma_run_materialize(rl, c1, s1);
    let s2 = run(o2b, s1).unwrap();
    lemma_run_append(seq![eq], seq![lp_], s2);
    lemma_run_one(eq, s2);
    assert(c1.has(Slot::V(lv.id)));
    assert((s2.env)(Slot::V(lv.id)) == (s1.env)(Slot::V(lv.id)));
    assert((s2.env)(Slot::V(lv.id)) == usize_value(s.env, ll));
    assert((s2.env)(Slot::V(rv.id)) == usize_value(s.env, rl)) by {
        if let Usize::Var(v) = rl {
            assert(c.has(Slot::V(v.id)));
            assert(c1.has(Slot::V(v.id)));
            assert((s1.env)(Slot::V(v.id)) == (s.env)(Slot::V(v.id)));
        }
    }
    if usize_value(s.env, ll) == usize_value(s.env, rl) {
        lemma_run_one(lp_, s2);
        assert(c.le(c2));
        assert(c2.has(Slot::V(lp.address.id)));
        assert(c2.has(Slot::V(rp.address.id)));
        assert(c3.has(Slot::V(lp.address.id)));
        assert(c3.has(Slot::V(rp.address.id)));
        assert(c3.has(Slot::V(i.id)));
        lemma_compare_loop_run::<T>(lp, rp, i, c3, 0, length(s2, ll), s2, true);
        assert(0int % prime() == 0) by {
            lemma_small_mod(0, prime() as nat);
        }
        assert(length(s2, Usize::Const(0)) == 0);
        assert(length(s2, ll) == length(s, ll)) by {
            if let Usize::Var(v) = ll {
                assert(c1.has(Slot::V(v.id)));
            }
        }
        assert forall|j: int| 0 <= j < length(s, ll) implies pair_holds(s2, lp, rp, j, true)
            == pair_holds(s, lp, rp, j, true) by {
            assert(c1.has(Slot::V(lp.address.id)));
            assert(c1.has(Slot::V(rp.address.id)));
        }
        assert((forall|j: int| 0 <= j < length(s, ll) ==> #[trigger] pair_holds(s, lp, rp, j, true))
            <==> (forall|j: int| 0 <= j < length(s2, ll) ==> #[trigger] pair_holds(s2, lp, rp, j, true)));
    }
}


/// Two lengths hold the same field value: whole values when both are variables, the first
/// element against a constant, and the numbers themselves for two constants.
pub open spec fn lengths_agree(s: MachineState, l: Usize, r: Usize) -> bool {
    match (l, r) {
        (Usize::Var(a), Usize::Var(b)) => (s.env)(Slot::V(a.id)) == (s.env)(Slot::V(b.id)),
        (Usize::Const(a), Usize::Var(v)) => scalar(s, v) == (a as int) % prime(),
        (Usize::Var(v), Usize::Const(a)) => scalar(s, v) == (a as int) % prime(),
        (Usize::Const(a), Usize::Const(b)) => a == b,
    }
}

/// The length check of two lengths succeeds exactly when they agree, and changes nothing.
proof fn lemma_usize_eq_run(l: Usize, r: Usize, s: MachineState)
    requires
        (l, r) matches (Usize::Const(a), Usize::Const(b)) ==> a == b,
    ensures
        run(usize_eq_ops(l, r), s) is Some <==> lengths_agree(s, l, r),
        run(usize_eq_ops(l, r), s) matches Some(s1) ==> s1 == s,
{
    match (l, r) {
        (Usize::Const(_), Usize::Const(_)) => {},
        _ => {
            lemma_run_one(usize_eq_ops(l, r)[0], s);
            assert(usize_eq_ops(l, r) =~= seq![usize_eq_ops(l, r)[0]]);
            if let (Usize::Const(a), Usize::Var(v)) = (l, r) {
                assert(crate::field::felt_of_nat(a as nat) as int == (a as int) % prime());
            }
            if let (Usize::Var(v), Usize::Const(a)) = (l, r) {
                assert(crate::field::felt_of_nat(a as nat) as int == (a as int) % prime());
            }
        },
    }
}

/// Asserting two lengths equal builds a program that runs to the end exactly when they
/// hold the same field value (two constants are compared while building), and that
/// changes nothing.
pub proof fn law_assert_usize_eq(l: Usize, r: Usize, s: MachineState)
    requires
        (l, r) matches (Usize::Const(a), Usize::Const(b)) ==> a == b,
    ensures
        run(usize_eq_ops(l, r), s) is Some <==> lengths_agree(s, l, r),
        run(usize_eq_ops(l, r), s) matches Some(s1) ==> s1 == s,
{
    lemma_usize_eq_run(l, r, s);
}

/// Asserting two arrays in memory of one-slot variables different builds a program that
/// runs to the end exactly when both lengths agree and every element below that length
/// holds different values in the two arrays.
pub proof fn law_assert_ne_dyn<T: MemVariable>(
    lp: Ptr,
    ll: Usize,
    rp: Ptr,
    rl: Usize,
    c: Counts,
    s: MachineState,
)
    requires
        one_slot::<T>(),
        c.add(Counts::vars(1)).add(T::width()).add(T::width()).fits(),
        c.has(Slot::V(lp.address.id)),
        c.has(Slot::V(rp.address.id)),
        ll matches Usize::Var(v) ==> c.has(Slot::V(v.id)),
        (ll, rl) matches (Usize::Const(a), Usize::Const(b)) ==> a == b,
    ensures
        run(Array::<T>::ne_ops(ArrayModel::Dyn(lp, ll), ArrayModel::Dyn(rp, rl), c), s) is Some <==> {
            &&& lengths_agree(s, ll, rl)
            &&& forall|j: int| 0 <= j < length(s, ll) ==> #[trigger] pair_holds(s, lp, rp, j, false)
        },
{
    let i = crate::ir::var_at(c.v);
    let c1 = c.add(Counts::vars(1));
    let body = compare_body::<T>(lp, rp, i, c1, false);
    let lp_ = Instr::For(Usize::Const(0), ll, 1, i, body);
    let pre = usize_eq_ops(ll, rl);
    assert(dyn_ne_ops::<T>(lp, ll, rp, rl, c) =~= pre + seq![lp_]);
    lemma_run_append(pre, seq![lp_], s);
    lemma_usize_eq_run(ll, rl, s);
    if lengths_agree(s, ll, rl) {
        lemma_run_one(lp_, s);
        assert(0int % prime() == 0) by {
            lemma_small_mod(0, prime() as nat);
        }
        assert(length(s, Usize::Const(0)) == 0);
        lemma_compare_loop_run::<T>(lp, rp, i, c1, 0, length(s, ll), s, false);
    }
}

/// The place of a one-slot variable.
pub open spec fn place_of<T: MemVariable>(m: T::V) -> Slot {
    T::slots_of(m)[0]
}

/// Asserting two fixed arrays of one-slot variables equal builds a program that runs to the
/// end exactly when every pair of elements holds the same value, and it changes nothing.
pub proof fn law_assert_eq_fixed<T: MemVariable>(a: Seq<T::V>, b: Seq<T::V>, c: Counts, s: MachineState)
    requires
        one_slot::<T>(),
        a.len() == b.len(),
    ensures
        run(crate::collections::fixed_eq_ops::<T>(a, b, c), s) is Some <==> forall|j: int|
            0 <= j < a.len() ==> (s.env)(place_of::<T>(#[trigger] a[j])) == (s.env)(
                place_of::<T>(b[j]),
            ),
        run(crate::collections::fixed_eq_ops::<T>(a, b, c), s) matches Some(s1) ==> s1 == s,
        run(Array::<T>::eq_ops(ArrayModel::Fixed(a), ArrayModel::Fixed(b), c), s) is Some <==> forall|j: int|
            0 <= j < a.len() ==> (s.env)(place_of::<T>(#[trigger] a[j])) == (s.env)(place_of::<T>(b[j])),
        run(Array::<T>::eq_ops(ArrayModel::Fixed(a), ArrayModel::Fixed(b), c), s) matches Some(s1) ==> s1 == s,
    decreases a.len(),
{
    let ops = crate::collections::fixed_eq_ops::<T>(a, b, c);
    if a.len() > 0 {
        let n = a.len() - 1;
        let cf = crate::collections::fixed_eq_uses::<T>(a.drop_last(), b.drop_last());
        let front = crate::collections::fixed_eq_ops::<T>(a.drop_last(), b.drop_last(), c);
        law_assert_eq_fixed::<T>(a.drop_last(), b.drop_last(), c, s);
        let e = Instr::AssertEq(place_of::<T>(a[n]), place_of::<T>(b[n]));
        assert(T::eq_ops(a.last(), b[n], c.add(cf)) == seq![e]);
        assert(ops =~= front + seq![e]);
        lemma_run_append(front, seq![e], s);
        lemma_run_one(e, s);
        assert forall|j: int| 0 <= j < n implies a.drop_last()[j] == a[j] && b.drop_last()[j] == b[j] by {}
        if run(ops, s) is Some {
            assert forall|j: int| 0 <= j < a.len() implies (s.env)(place_of::<T>(#[trigger] a[j]))
                == (s.env)(place_of::<T>(b[j])) by {
                if j < n {
                    assert(a.drop_last()[j] == a[j]);
                }
            }
        }
        if !(run(ops, s) is Some) && run(front, s) is None {
            let j = choose|j: int|
                0 <= j < n && !((s.env)(place_of::<T>(#[trigger] a.drop_last()[j])) == (s.env)(
                    place_of::<T>(b.drop_last()[j]),
                ));
            assert(a.drop_last()[j] == a[j]);
        }
    } else {
        assert(ops =~= Seq::<Instr>::empty());
    }
}

/// The element-wise inequality assertions of two fixed arrays of one-slot variables run
/// to the end exactly when every pair differs, and change nothing.
proof fn lemma_fixed_ne_run<T: MemVariable>(a: Seq<T::V>, b: Seq<T::V>, c: Counts, s: MachineState)
    requires
        one_slot::<T>(),
        a.len() == b.len(),
    ensures
        run(crate::collections::fixed_ne_ops::<T>(a, b, c), s) is Some <==> forall|j: int|
            0 <= j < a.len() ==> (s.env)(place_of::<T>(#[trigger] a[j])) != (s.env)(
                place_of::<T>(b[j]),
            ),
        run(crate::collections::fixed_ne_ops::<T>(a, b, c), s) matches Some(s1) ==> s1 == s,
    decreases a.len(),
{
    let ops = crate::collections::fixed_ne_ops::<T>(a, b, c);
    if a.len() > 0 {
        let n = a.len() - 1;
        let cf = crate::collections::fixed_ne_uses::<T>(a.drop_last(), b.drop_last());
        let front = crate::collections::fixed_ne_ops::<T>(a.drop_last(), b.drop_last(), c);
        lemma_fixed_ne_run::<T>(a.drop_last(), b.drop_last(), c, s);
        let e = Instr::AssertNe(place_of::<T>(a[n]), place_of::<T>(b[n]));
        assert(T::ne_ops(a.last(), b[n], c.add(cf)) == seq![e]);
        assert(ops =~= front + seq![e]);
        lemma_run_append(front, seq![e], s);
        lemma_run_one(e, s);
        assert forall|j: int| 0 <= j < n implies a.drop_last()[j] == a[j] && b.drop_last()[j] == b[j] by {}
        if run(ops, s) is Some {
            assert forall|j: int| 0 <= j < a.len() implies (s.env)(place_of::<T>(#[trigger] a[j]))
                != (s.env)(place_of::<T>(b[j])) by {
                if j < n {
                    assert(a.drop_last()[j] == a[j]);
                }
            }
        }
        if !(run(ops, s) is Some) && run(front, s) is None {
            let j = choose|j: int|
                0 <= j < n && !((s.env)(place_of::<T>(#[trigger] a.drop_last()[j])) != (s.env)(
                    place_of::<T>(b.drop_last()[j]),
                ));
            assert(a.drop_last()[j] == a[j]);
        }
    } else {
        assert(ops =~= Seq::<Instr>::empty());
    }
}

/// Asserting two fixed arrays of one-slot variables (native, base-field or extension
/// variables, or dimensions) of the same length different builds a program that runs to
/// the end exactly when, at every index, the two elements hold different values, and that
/// changes nothing.
pub proof fn law_assert_ne_fixed<T: MemVariable>(a: Seq<T::V>, b: Seq<T::V>, c: Counts, s: MachineState)
    requires
        one_slot::<T>(),
        a.len() == b.len(),
    ensures
        run(Array::<T>::ne_ops(ArrayModel::Fixed(a), ArrayModel::Fixed(b), c), s) is Some <==> forall|j: int|
            0 <= j < a.len() ==> (s.env)(place_of::<T>(#[trigger] a[j])) != (s.env)(place_of::<T>(b[j])),
        run(Array::<T>::ne_ops(ArrayModel::Fixed(a), ArrayModel::Fixed(b), c), s) matches Some(s1) ==> s1 == s,
{
    lemma_fixed_ne_run::<T>(a, b, c, s);
}

/// The address of cell `k` of element `i` of an array of `T` that starts at `p`.
pub open spec fn elem_cell<T: MemVariable>(s: MachineState, p: Ptr, i: int, k: int) -> int {
    address(s, p, index_plus(elem_index::<T>(Usize::Const(i as usize)), k as nat))
}

/// Cells of different elements, or different cells of one element, of a region that does
/// not wrap around the field have different addresses.
proof fn lemma_cells_distinct(base: int, size: int, n: int, i: int, k: int, j: int, l: int)
    requires
        0 <= base,
        1 <= size,
        base + n * size <= prime(),
        0 <= i < n,
        0 <= j < n,
        0 <= k < size,
        0 <= l < size,
        i != j || k != l,
    ensures
        (base + i * size + k) % prime() != (base + j * size + l) % prime(),
{
    assert(0 <= i * size + k < n * size) by (nonlinear_arith)
        requires
            0 <= i < n,
            0 <= k < size,
    ;
    assert(0 <= j * size + l < n * size) by (nonlinear_arith)
        requires
            0 <= j < n,
            0 <= l < size,
    ;
    assert(i * size + k != j * size + l) by (nonlinear_arith)
        requires
            0 <= k < size,
            0 <= l < size,
            i != j || k != l,
    ;
    lemma_small_mod((base + i * size + k) as nat, prime() as nat);
    lemma_small_mod((base + j * size + l) as nat, prime() as nat);
}

/// The address of cell `k` of element `i` is `p + i * size + k`, in the field.
proof fn lemma_elem_cell<T: MemVariable>(s: MachineState, p: Ptr, i: int, k: int)
    requires
        0 <= i < prime(),
        i <= usize::MAX,
        0 <= k < T::spec_size_of(),
    ensures
        elem_cell::<T>(s, p, i, k) == (scalar(s, p.address) + i * T::spec_size_of() + k) % prime(),
{
    T::lemma_size_fits();
    lemma_small_mod(i as nat, prime() as nat);
}

/// Storing each value as the element of its index, into a region that does not wrap
/// around the field, leaves element `i` holding a copy of `vals[i]`, and every variable
/// handed out before as it was.
proof fn lemma_fill_run<T: MemVariable>(p: Ptr, vals: Seq<T::V>, c1: Counts, t: MachineState)
    requires
        forall|i: int|
            0 <= i < vals.len() ==> T::copyable(#[trigger] vals[i]) && T::reads_below(vals[i], c1),
        c1.has(Slot::V(p.address.id)),
        c1.add(T::width().times(vals.len())).fits(),
        0 <= scalar(t, p.address),
        scalar(t, p.address) + vals.len() * T::spec_size_of() <= prime(),
        1 <= T::spec_size_of(),
        vals.len() <= usize::MAX,
    ensures
        run(fill_ops::<T>(p, vals, c1), t) matches Some(t2) && {
            &&& t2.heap == t.heap
            &&& forall|x: Slot| c1.has(x) ==> (t2.env)(x) == (t.env)(x)
            &&& forall|i: int, k: int|
                0 <= i < vals.len() && 0 <= k < T::spec_size_of() ==> (t2.mem)(
                    #[trigger] elem_cell::<T>(t, p, i, k),
                ) == #[trigger] T::copy_value(vals[i], t.env)[k]
        },
    decreases vals.len(),
{
    T::lemma_size_fits();
    let size = T::spec_size_of();
    let ops = fill_ops::<T>(p, vals, c1);
    if vals.len() == 0 {
        assert(ops =~= Seq::<Instr>::empty());
    } else {
        let n = (vals.len() - 1) as nat;
        let front = vals.drop_last();
        assert(size * n <= size * vals.len()) by (nonlinear_arith)
            requires
                n <= vals.len(),
                1 <= size,
        ;
        assert(n * size == size * n && vals.len() * size == size * vals.len()) by (nonlinear_arith);
        assert(size <= size * vals.len() && vals.len() <= size * vals.len()) by (nonlinear_arith)
            requires
                1 <= vals.len(),
                1 <= size,
        ;
        crate::collections::lemma_times_mono(T::width(), n, vals.len());
        lemma_fill_run::<T>(p, front, c1, t);
        let t1 = run(fill_ops::<T>(p, front, c1), t).unwrap();
        let cn = c1.add(T::width().times(n));
        let last = vals.last();
        let d = T::fresh_at(cn);
        let sl = T::slots_of(d);
        let idx = elem_index::<T>(Usize::Const(n as usize));
        let copy = T::assign_ops(d, last);
        let stores = store_ops(sl, p, idx);
        assert(ops =~= fill_ops::<T>(p, front, c1) + (copy + stores));
        lemma_run_append(fill_ops::<T>(p, front, c1), copy + stores, t);
        lemma_run_append(copy, stores, t1);
        assert(c1.le(cn));
        assert(cn.add(T::width()).le(c1.add(T::width().times(vals.len()))));
        T::lemma_reads_below_mono(last, c1, cn);
        T::lemma_copy_run(last, cn, t1);
        T::lemma_fresh(cn);
        let t1c = run(copy, t1).unwrap();
        lemma_run_stores(sl, p, idx, t1c);
        let t2 = run(stores, t1c).unwrap();
        T::lemma_copy_value_frame(last, c1, t1.env, t.env);
        assert(cn.has(Slot::V(p.address.id)));
        assert(scalar(t1c, p.address) == scalar(t, p.address));
        assert forall|x: Slot| c1.has(x) implies (t2.env)(x) == (t.env)(x) by {
            assert(cn.has(x));
        }
        assert forall|i: int, k: int|
            0 <= i < vals.len() && 0 <= k < size implies (t2.mem)(
                #[trigger] elem_cell::<T>(t, p, i, k),
            ) == #[trigger] T::copy_value(vals[i], t.env)[k] by {
            assert(elem_cell::<T>(t, p, i, k) == elem_cell::<T>(t1c, p, i, k));
            assert(elem_cell::<T>(t, p, i, k) == elem_cell::<T>(t1, p, i, k));
            lemma_elem_cell::<T>(t, p, i, k);
            if i < n {
                assert(front[i] == vals[i]);
                assert forall|m: int| 0 <= m < size implies elem_cell::<T>(t, p, i, k) != #[trigger] address(
                    t1c,
                    p,
                    index_plus(idx, m as nat),
                ) by {
                    lemma_elem_cell::<T>(t, p, n as int, m);
                    assert(address(t1c, p, index_plus(idx, m as nat)) == elem_cell::<T>(t, p, n as int, m));
                    lemma_cells_distinct(scalar(t, p.address), size as int, vals.len() as int, i, k, n as int, m);
                }
                lemma_stores_elsewhere(sl, p, idx, t1c, elem_cell::<T>(t, p, i, k));
            } else {
                assert(address(t1c, p, index_plus(idx, k as nat)) == elem_cell::<T>(t, p, i, k));
                assert((t2.mem)(address(t1c, p, index_plus(idx, k as nat))) == (t1c.env)(sl[k]));
            }
        }
    }
}

/// Storing a sequence of places leaves every cell that none of them goes to as it was.
proof fn lemma_stores_elsewhere(slots: Seq<Slot>, ptr: Ptr, idx: MemIndex, s: MachineState, a: int)
    requires
        forall|m: int| 0 <= m < slots.len() ==> a != #[trigger] address(s, ptr, index_plus(idx, m as nat)),
    ensures
        run(store_ops(slots, ptr, idx), s) matches Some(s2) && (s2.mem)(a) == (s.mem)(a),
    decreases slots.len(),
{
    if slots.len() == 0 {
        assert(store_ops(slots, ptr, idx) =~= Seq::<Instr>::empty());
    } else {
        let n = slots.len() - 1;
        let front = slots.drop_last();
        lemma_stores_elsewhere(front, ptr, idx, s, a);
        let last = Instr::Store(ptr, index_plus(idx, n as nat), slots[n]);
        assert(store_ops(slots, ptr, idx) =~= store_ops(front, ptr, idx) + seq![last]);
        lemma_run_append(store_ops(front, ptr, idx), seq![last], s);
        let s1 = run(store_ops(front, ptr, idx), s).unwrap();
        lemma_run_one(last, s1);
        lemma_stores_env(front, ptr, idx, s);
        assert(s1.env == s.env);
        assert(a != address(s, ptr, index_plus(idx, n as nat)));
        assert(address(s1, ptr, index_plus(idx, n as nat)) == address(s, ptr, index_plus(idx, n as nat)));
    }
}

/// Stores change no variable.
proof fn lemma_stores_env(slots: Seq<Slot>, ptr: Ptr, idx: MemIndex, s: MachineState)
    ensures
        run(store_ops(slots, ptr, idx), s) matches Some(s2) && s2.env == s.env && s2.heap == s.heap,
    decreases slots.len(),
{
    if slots.len() == 0 {
        assert(store_ops(slots, ptr, idx) =~= Seq::<Instr>::empty());
    } else {
        let n = slots.len() - 1;
        let front = slots.drop_last();
        lemma_stores_env(front, ptr, idx, s);
        let last = Instr::Store(ptr, index_plus(idx, n as nat), slots[n]);
        assert(store_ops(slots, ptr, idx) =~= store_ops(front, ptr, idx) + seq![last]);
        lemma_run_append(store_ops(front, ptr, idx), seq![last], s);
        lemma_run_one(last, run(store_ops(front, ptr, idx), s).unwrap());
    }
}

/// Turning a fixed array into an array in memory, when the free memory does not wrap
/// around the field, gives an array whose length holds the number of elements and whose
/// element `i` holds, cell by cell, a copy of the `i`-th element of the fixed array.
pub proof fn law_array_to_dyn<T: MemVariable>(vals: Seq<T::V>, c: Counts, s: MachineState)
    requires
        forall|i: int|
            0 <= i < vals.len() ==> T::copyable(#[trigger] vals[i]) && T::reads_below(vals[i], c),
        c.add(Counts::vars(2)).add(T::width().times(vals.len())).fits(),
        1 <= T::spec_size_of(),
        0 <= s.heap,
        s.heap + vals.len() * T::spec_size_of() <= prime(),
        vals.len() <= usize::MAX,
    ensures
        ({
            let (d, c1, o1) = dyn_array_effect::<T>(Usize::Const(vals.len() as usize), c, Seq::empty());
            d matches ArrayModel::Dyn(p, l) && run(o1 + fill_ops::<T>(p, vals, c1), s) matches Some(
                s2,
            ) && {
                &&& length(s2, l) == (vals.len() as int) % prime()
                &&& forall|i: int, k: int|
                    0 <= i < vals.len() && 0 <= k < T::spec_size_of() ==> (s2.mem)(
                        #[trigger] elem_cell::<T>(s2, p, i, k),
                    ) == #[trigger] T::copy_value(vals[i], s.env)[k]
            }
        }),
{
    let n = vals.len();
    let (d, c1, o1) = dyn_array_effect::<T>(Usize::Const(n as usize), c, Seq::empty());
    let p = d->Dyn_0;
    let l = d->Dyn_1;
    law_dyn_array::<T>(Usize::Const(n as usize), c, s);
    lemma_run_materialize(Usize::Const(n as usize), c, s);
    let s1 = run(o1, s).unwrap();
    lemma_run_append(o1, fill_ops::<T>(p, vals, c1), s);
    assert(c.le(c1));
    assert forall|i: int| 0 <= i < n implies T::reads_below(#[trigger] vals[i], c1) by {
        T::lemma_reads_below_mono(vals[i], c, c1);
    }
    assert(c1.has(Slot::V(p.address.id)));
    assert(forall|x: Slot| c.has(x) ==> (s1.env)(x) == (s.env)(x));
    lemma_fill_run::<T>(p, vals, c1, s1);
    let s2 = run(fill_ops::<T>(p, vals, c1), s1).unwrap();
    assert(c1.has(Slot::V(l->Var_0.id)));
    assert forall|i: int, k: int|
        0 <= i < n && 0 <= k < T::spec_size_of() implies (s2.mem)(
            #[trigger] elem_cell::<T>(s2, p, i, k),
        ) == #[trigger] T::copy_value(vals[i], s.env)[k] by {
        assert(elem_cell::<T>(s2, p, i, k) == elem_cell::<T>(s1, p, i, k));
        T::lemma_copy_value_frame(vals[i], c, s1.env, s.env);
    }
}


/// Constants of kind `V` are built by one instruction that sets one fresh one-slot variable
/// to `val(k)`: native, base-field and extension constants.
pub open spec fn imm_consts<V: FromConstant>(val: spec_fn(<V::Constant as DeepView>::V) -> Seq<int>) -> bool {
    &&& one_slot::<V>()
    &&& forall|k: <V::Constant as DeepView>::V| #[trigger] V::const_uses(k) == V::width()
    &&& forall|k: <V::Constant as DeepView>::V, c: Counts|
        #[trigger] V::const_result(k, c) == V::fresh_at(c)
    &&& forall|m: V::V, env: spec_fn(Slot) -> Seq<int>|
        #[trigger] V::copy_value(m, env) == seq![env(place_of::<V>(m))]
    &&& forall|m: V::V, c: Counts| c.has(place_of::<V>(m)) ==> #[trigger] V::reads_below(m, c)
    &&& forall|m: V::V| #[trigger] V::copyable(m)
    &&& forall|k: <V::Constant as DeepView>::V, c: Counts, s: MachineState|
        #[trigger] run(V::const_ops(k, c), s) == Some(
            with_var(s, place_of::<V>(V::fresh_at(c)), val(k)),
        )
}

/// Native and base-field constants hold the number itself, extension constants their four
/// coefficients.
pub proof fn lemma_imm_const_kinds()
    ensures
        imm_consts::<Var>(|k: u32| seq![k as int]),
        imm_consts::<crate::ir::Felt>(|k: u32| seq![k as int]),
        imm_consts::<crate::ir::Ext>(|k: Seq<u32>| k.map_values(|x: u32| x as int)),
{
    lemma_one_slot_kinds();
    assert forall|k: u32, c: Counts, s: MachineState|
        #[trigger] run(Var::const_ops(k, c), s) == Some(
            with_var(s, place_of::<Var>(Var::fresh_at(c)), seq![k as int]),
        ) by {
        lemma_run_one(Var::const_ops(k, c)[0], s);
        assert(Var::const_ops(k, c) =~= seq![Var::const_ops(k, c)[0]]);
    }
    assert forall|k: u32, c: Counts, s: MachineState|
        #[trigger] run(crate::ir::Felt::const_ops(k, c), s) == Some(
            with_var(s, place_of::<crate::ir::Felt>(crate::ir::Felt::fresh_at(c)), seq![k as int]),
        ) by {
        lemma_run_one(crate::ir::Felt::const_ops(k, c)[0], s);
        assert(crate::ir::Felt::const_ops(k, c) =~= seq![crate::ir::Felt::const_ops(k, c)[0]]);
    }
    assert forall|k: Seq<u32>, c: Counts, s: MachineState|
        #[trigger] run(crate::ir::Ext::const_ops(k, c), s) == Some(
            with_var(
                s,
                place_of::<crate::ir::Ext>(crate::ir::Ext::fresh_at(c)),
                k.map_values(|x: u32| x as int),
            ),
        ) by {
        lemma_run_one(crate::ir::Ext::const_ops(k, c)[0], s);
        assert(crate::ir::Ext::const_ops(k, c) =~= seq![crate::ir::Ext::const_ops(k, c)[0]]);
    }
}

/// Building constants takes two fresh variables per constant.
proof fn lemma_consts_uses_is<V: FromConstant>(k: Seq<<V::Constant as DeepView>::V>)
    requires
        forall|x: <V::Constant as DeepView>::V| #[trigger] V::const_uses(x) == V::width(),
    ensures
        consts_uses::<V>(k) == V::width().times(2 * k.len()),
    decreases k.len(),
{
    if k.len() > 0 {
        lemma_consts_uses_is::<V>(k.drop_last());
        let n = (k.len() - 1) as nat;
        assert(V::width().times(2 * n + 2) == V::width().times(2 * n + 1).add(V::width()));
        assert(V::width().times(2 * n + 1) == V::width().times(2 * n).add(V::width()));
    }
}

/// Building constants and storing each as the element of its index, into a region that
/// does not wrap around the field, leaves element `i` holding `val(k[i])`, and every
/// variable handed out before as it was.
#[verifier::spinoff_prover]
#[verifier::rlimit(60)]
proof fn lemma_consts_fill_run<V: FromConstant>(
    val: spec_fn(<V::Constant as DeepView>::V) -> Seq<int>,
    p: Ptr,
    k: Seq<<V::Constant as DeepView>::V>,
    c1: Counts,
    t: MachineState,
)
    requires
        imm_consts::<V>(val),
        c1.has(Slot::V(p.address.id)),
        c1.add(V::width().times(2 * k.len())).fits(),
        0 <= scalar(t, p.address),
        scalar(t, p.address) + k.len() <= prime(),
        k.len() <= usize::MAX,
    ensures
        run(consts_fill_ops::<V>(p, k, c1), t) matches Some(t2) && {
            &&& t2.heap == t.heap
            &&& forall|x: Slot| c1.has(x) ==> (t2.env)(x) == (t.env)(x)
            &&& forall|i: int|
                0 <= i < k.len() ==> (t2.mem)(#[trigger] elem_cell::<V>(t, p, i, 0)) == val(k[i])
            &&& forall|b: int|
                0 <= b < prime() && (b < scalar(t, p.address) || scalar(t, p.address) + k.len() <= b)
                    ==> #[trigger] (t2.mem)(b) == (t.mem)(b)
        },
    decreases k.len(),
{
    let ops = consts_fill_ops::<V>(p, k, c1);
    let w = V::width();
    if k.len() == 0 {
        assert(ops =~= Seq::<Instr>::empty());
    } else {
        let n = (k.len() - 1) as nat;
        let front = k.drop_last();
        lemma_consts_uses_is::<V>(front);
        crate::collections::lemma_times_mono(w, 2 * n, 2 * k.len());
        assert(w.times(2 * n + 2) == w.times(2 * n + 1).add(w));
        assert(w.times(2 * n + 1) == w.times(2 * n).add(w));
        lemma_consts_fill_run::<V>(val, p, front, c1, t);
        let pre = consts_fill_ops::<V>(p, front, c1);
        let t1 = run(pre, t).unwrap();
        let ci = c1.add(consts_uses::<V>(front));
        let cj = ci.add(w);
        let x = V::fresh_at(ci);
        let y = V::fresh_at(cj);
        V::lemma_fresh(ci);
        V::lemma_fresh(cj);
        let kl = k.last();
        let ix = elem_index::<V>(Usize::Const(n as usize));
        let cops = V::const_ops(kl, ci);
        let copy = V::assign_ops(y, x);
        let stores = store_ops(V::slots_of(y), p, ix);
        assert(V::const_uses(kl) == w);
        assert(V::const_result(kl, ci) == x);
        assert(ops =~= pre + (cops + (copy + stores)));
        lemma_run_append(pre, cops + (copy + stores), t);
        lemma_run_append(cops, copy + stores, t1);
        let ta = with_var(t1, place_of::<V>(x), val(kl));
        assert(run(cops, t1) == Some(ta));
        lemma_run_append(copy, stores, ta);
        assert(cj.has(place_of::<V>(x)));
        assert(V::reads_below(x, cj));
        assert(V::copyable(x));
        V::lemma_copy_run(x, cj, ta);
        let tb = run(copy, ta).unwrap();
        lemma_run_stores(V::slots_of(y), p, ix, tb);
        let t2 = run(stores, tb).unwrap();
        assert(V::copy_value(x, ta.env) == seq![(ta.env)(place_of::<V>(x))]);
        assert((tb.env)(V::slots_of(y)[0]) == val(kl));
        assert(!ci.has(place_of::<V>(x)));
        assert(place_of::<V>(x) != Slot::V(p.address.id));
        assert(ci.has(Slot::V(p.address.id)));
        assert(cj.has(Slot::V(p.address.id)));
        assert(scalar(tb, p.address) == scalar(t, p.address));
        assert forall|z: Slot| c1.has(z) implies (t2.env)(z) == (t.env)(z) by {
            assert(ci.has(z));
            assert(cj.has(z));
            assert(z != place_of::<V>(x));
        }
        assert forall|i: int| 0 <= i < k.len() implies (t2.mem)(#[trigger] elem_cell::<V>(t, p, i, 0))
            == val(k[i]) by {
            lemma_elem_cell::<V>(t, p, i, 0);
            lemma_elem_cell::<V>(t, p, n as int, 0);
            assert(address(tb, p, index_plus(ix, 0)) == elem_cell::<V>(t, p, n as int, 0));
            if i < n {
                assert(front[i] == k[i]);
                assert(elem_cell::<V>(t, p, i, 0) == elem_cell::<V>(t1, p, i, 0));
                lemma_cells_distinct(scalar(t, p.address), 1, k.len() as int, i, 0, n as int, 0);
                assert(elem_cell::<V>(t, p, i, 0) != address(tb, p, index_plus(ix, 0)));
                lemma_stores_elsewhere(V::slots_of(y), p, ix, tb, elem_cell::<V>(t, p, i, 0));
                assert((ta.mem) == (t1.mem));
            }
        }
        let pv = scalar(t, p.address);
        assert forall|b: int|
            0 <= b < prime() && (b < pv || pv + k.len() <= b) implies #[trigger] (t2.mem)(b) == (t.mem)(b) by {
            assert((t1.mem)(b) == (t.mem)(b));
            assert(ta.mem == t1.mem);
            lemma_elem_cell::<V>(t, p, n as int, 0);
            lemma_small_mod((pv + n) as nat, prime() as nat);
            assert(address(tb, p, index_plus(ix, 0)) == pv + n);
            V::lemma_mem_slots(y);
            assert forall|m: int| 0 <= m < V::slots_of(y).len() implies b != #[trigger] address(
                tb,
                p,
                index_plus(ix, m as nat),
            ) by {
                assert(m == 0);
            }
            lemma_stores_elsewhere(V::slots_of(y), p, ix, tb, b);
        }
    }
}

/// An array built from constants of one-slot kind `V` (native, base-field or extension),
/// when the free memory does not wrap around the field, holds the number of constants in
/// its length and, as element `i`, the value `val(k[i])` of constant `i`.
pub proof fn law_eval_const<V: FromConstant>(
    val: spec_fn(<V::Constant as DeepView>::V) -> Seq<int>,
    k: Seq<<V::Constant as DeepView>::V>,
    c: Counts,
    s: MachineState,
)
    requires
        imm_consts::<V>(val),
        c.add(Counts::vars(2)).add(V::width().times(2 * k.len())).fits(),
        0 <= s.heap,
        s.heap + k.len() <= prime(),
        k.len() <= usize::MAX,
    ensures
        ({
            let r = crate::collections::Array::<V>::const_result(k, c);
            r matches ArrayModel::Dyn(p, l) && run(crate::collections::Array::<V>::const_ops(k, c), s)
                matches Some(s2) && {
                &&& length(s2, l) == (k.len() as int) % prime()
                &&& forall|i: int|
                    0 <= i < k.len() ==> (s2.mem)(#[trigger] elem_cell::<V>(s2, p, i, 0)) == val(
                        k[i],
                    )
                &&& scalar(s2, p.address) == s.heap
                &&& s2.heap == s.heap + (k.len() as int) % prime()
                &&& forall|x: Slot| c.has(x) ==> (s2.env)(x) == (s.env)(x)
                &&& forall|b: int|
                    0 <= b < prime() && (b < s.heap || s.heap + k.len() <= b) ==> #[trigger] (s2.mem)(b)
                        == (s.mem)(b)
            }
        }),
{
    let n = k.len();
    let (d, c1, o1) = dyn_array_effect::<V>(Usize::Const(n as usize), c, Seq::empty());
    let p = d->Dyn_0;
    let l = d->Dyn_1;
    lemma_consts_uses_is::<V>(k);
    law_dyn_array::<V>(Usize::Const(n as usize), c, s);
    let s1 = run(o1, s).unwrap();
    assert(crate::collections::Array::<V>::const_ops(k, c) =~= o1 + consts_fill_ops::<V>(p, k, c1));
    lemma_run_append(o1, consts_fill_ops::<V>(p, k, c1), s);
    assert(n * 1 == n) by (nonlinear_arith);
    lemma_consts_fill_run::<V>(val, p, k, c1, s1);
    let s2 = run(consts_fill_ops::<V>(p, k, c1), s1).unwrap();
    assert(c1.has(Slot::V(l->Var_0.id)));
    assert(c1.has(Slot::V(p.address.id)));
    assert forall|i: int| 0 <= i < n implies (s2.mem)(#[trigger] elem_cell::<V>(s2, p, i, 0))
        == val(k[i]) by {
        assert(elem_cell::<V>(s2, p, i, 0) == elem_cell::<V>(s1, p, i, 0));
    }
    assert forall|x: Slot| c.has(x) implies (s2.env)(x) == (s.env)(x) by {
        assert(c1.has(x));
    }
    assert(s1.mem == s.mem);
}

/// Two shifts in a row are one shift by the sum: after shifting by `s1` and then the
/// result by `s2`, the pointer holds `ptr + s1 + s2` and the length `len - s1 - s2`, in
/// the field.
pub proof fn law_shift_twice<T: MemVariable>(
    ptr: Ptr,
    len: Usize,
    s1: Var,
    s2: Var,
    c: Counts,
    st: MachineState,
)
    requires
        c.add(Counts::vars(6)).fits(),
        c.has(Slot::V(ptr.address.id)),
        c.has(Slot::V(s1.id)),
        c.has(Slot::V(s2.id)),
        len matches Usize::Var(v) ==> c.has(Slot::V(v.id)),
    ensures
        ({
            let (a, ca, oa) = shift_effect::<T::V>(ArrayModel::Dyn(ptr, len), s1, c, Seq::empty());
            let (b, cb, ob) = shift_effect::<T::V>(a, s2, ca, Seq::empty());
            run(oa + ob, st) matches Some(sf) && b matches ArrayModel::Dyn(pb, lb) && {
                &&& scalar(sf, pb.address) == (scalar(st, ptr.address) + scalar(st, s1) + scalar(
                    st,
                    s2,
                )) % prime()
                &&& length(sf, lb) == (length(st, len) - scalar(st, s1) - scalar(st, s2)) % prime()
            }
        }),
{
    let (a, ca, oa) = shift_effect::<T::V>(ArrayModel::Dyn(ptr, len), s1, c, Seq::empty());
    let (b, cb, ob) = shift_effect::<T::V>(a, s2, ca, Seq::empty());
    law_shift::<T>(ptr, len, s1, 0, c, st);
    let sm = run(oa, st).unwrap();
    assert(ca.le(c.add(Counts::vars(3))));
    law_shift::<T>(a->Dyn_0, a->Dyn_1, s2, 0, ca, sm);
    lemma_run_append(oa, ob, st);
    let x = scalar(st, ptr.address);
    let y = scalar(st, s1);
    let z = scalar(st, s2);
    let l = length(st, len);
    assert(scalar(sm, s2) == z);
    vstd::arithmetic::div_mod::lemma_add_mod_noop_right(z, x + y, prime());
    vstd::arithmetic::div_mod::lemma_sub_mod_noop_right((l - y) % prime(), z, prime());
    vstd::arithmetic::div_mod::lemma_sub_mod_noop(l - y, z, prime());
}

/// A shifted array of one-cell elements shares its cells with the array it was shifted
/// from: a write through the shifted array at index `u` is read back through the unshifted array
/// at any index `w` whose value is `u + shift`, in the field. No element is copied.
pub proof fn law_shift_aliases<T: MemVariable>(
    ptr: Ptr,
    len: Usize,
    k: Var,
    u: Usize,
    w: Usize,
    value: T::V,
    c: Counts,
    s: MachineState,
)
    requires
        T::spec_size_of() == 1,
        c.add(Counts::vars(3)).add(T::width()).add(T::width()).fits(),
        c.has(Slot::V(ptr.address.id)),
        c.has(Slot::V(k.id)),
        len matches Usize::Var(v) ==> c.has(Slot::V(v.id)),
        u matches Usize::Var(v) ==> c.has(Slot::V(v.id)),
        w matches Usize::Var(v) ==> c.has(Slot::V(v.id)),
        T::copyable(value),
        T::reads_below(value, c),
        length(s, w) % prime() == (length(s, u) + scalar(s, k)) % prime(),
    ensures
        ({
            let (d, c3, ops) = shift_effect::<T::V>(ArrayModel::Dyn(ptr, len), k, c, Seq::empty());
            let c4 = c3.add(T::width());
            run(ops + (set_ops::<T>(d->Dyn_0, u, value, c3) + get_ops::<T>(ptr, w, c4)), s) matches Some(
                sf,
            ) && (sf.env)(T::slots_of(T::fresh_at(c4))[0]) == T::copy_value(value, s.env)[0]
        }),
{
    let (d, c3, ops) = shift_effect::<T::V>(ArrayModel::Dyn(ptr, len), k, c, Seq::empty());
    let c4 = c3.add(T::width());
    law_shift::<T>(ptr, len, k, 0, c, s);
    let s3 = run(ops, s).unwrap();
    let p2 = d->Dyn_0;
    assert(c3.le(c.add(Counts::vars(3))));
    T::lemma_reads_below_mono(value, c, c3);
    T::lemma_copy_value_frame(value, c, s3.env, s.env);
    let x = scalar(s, ptr.address);
    let y = scalar(s, k);
    let uu = length(s, u);
    let ww = length(s, w);
    assert(length(s3, u) == uu);
    assert(length(s3, w) == ww);
    let ixu = elem_index::<T>(u);
    let ixw = elem_index::<T>(w);
    assert(ixu.size == 1 && ixu.offset == 0 && ixw.size == 1 && ixw.offset == 0);
    assert(uu * ixu.size == uu && ww * ixw.size == ww) by (nonlinear_arith)
        requires
            ixu.size == 1,
            ixw.size == 1,
    ;
    assert(address(s3, p2, ixu) == ((x + y) % prime() + uu) % prime());
    assert(address(s3, ptr, ixw) == (x + ww) % prime());
    vstd::arithmetic::div_mod::lemma_add_mod_noop_right(uu, x + y, prime());
    vstd::arithmetic::div_mod::lemma_add_mod_noop_right(x, ww, prime());
    vstd::arithmetic::div_mod::lemma_add_mod_noop_right(x, uu + y, prime());
    assert(address(s3, p2, ixu) == address(s3, ptr, ixw));
    law_set_then_get_same_cell::<T>(p2, u, ptr, w, value, c3, s3);
    lemma_run_append(ops, set_ops::<T>(p2, u, value, c3) + get_ops::<T>(ptr, w, c4), s);
}


/// Two arrays allocated one after the other take disjoint cells: the second starts where the
/// first ends, and, while the free memory does not wrap around the field, no cell of one is
/// a cell of the other.
pub proof fn law_dyn_arrays_disjoint<T: MemVariable, U: MemVariable>(
    la: Usize,
    lb: Usize,
    c: Counts,
    s: MachineState,
)
    requires
        c.add(Counts::vars(4)).fits(),
        la matches Usize::Var(v) ==> c.has(Slot::V(v.id)),
        lb matches Usize::Var(v) ==> c.has(Slot::V(v.id)),
        1 <= T::spec_size_of(),
        1 <= U::spec_size_of(),
        0 <= s.heap,
        0 <= length(s, la),
        0 <= length(s, lb),
        s.heap + length(s, la) * T::spec_size_of() + length(s, lb) * U::spec_size_of() <= prime(),
    ensures
        ({
            let (a, ca, oa) = dyn_array_effect::<T>(la, c, Seq::empty());
            let (b, cb, ob) = dyn_array_effect::<U>(lb, ca, Seq::empty());
            run(oa + ob, s) matches Some(s2) && a matches ArrayModel::Dyn(pa, _) && b matches ArrayModel::Dyn(
                pb,
                _,
            ) && {
                &&& scalar(s2, pb.address) == scalar(s2, pa.address) + length(s, la)
                    * T::spec_size_of()
                &&& forall|i: int, k: int, j: int, m: int|
                    0 <= i < length(s, la) && 0 <= k < T::spec_size_of() && 0 <= j < length(s, lb)
                        && 0 <= m < U::spec_size_of() ==> #[trigger] elem_cell::<T>(s2, pa, i, k)
                        != #[trigger] elem_cell::<U>(s2, pb, j, m)
            }
        }),
{
    let (a, ca, oa) = dyn_array_effect::<T>(la, c, Seq::empty());
    let (b, cb, ob) = dyn_array_effect::<U>(lb, ca, Seq::empty());
    let pa = a->Dyn_0;
    let pb = b->Dyn_0;
    let na = length(s, la);
    let nb = length(s, lb);
    let st = T::spec_size_of() as int;
    let su = U::spec_size_of() as int;
    T::lemma_size_fits();
    U::lemma_size_fits();
    law_dyn_array::<T>(la, c, s);
    let sm = run(oa, s).unwrap();
    assert(c.le(ca) && ca.le(c.add(Counts::vars(2))));
    assert(length(sm, lb) == nb);
    law_dyn_array::<U>(lb, ca, sm);
    lemma_run_append(oa, ob, s);
    let s2 = run(oa + ob, s).unwrap();
    assert(ca.has(Slot::V(pa.address.id)));
    assert(scalar(s2, pa.address) == s.heap);
    assert(scalar(s2, pb.address) == s.heap + na * st);
    assert(na * st >= 0 && nb * su >= 0 && na <= na * st && nb <= nb * su) by (nonlinear_arith)
        requires
            0 <= na,
            0 <= nb,
            1 <= st,
            1 <= su,
    ;
    assert forall|i: int, k: int, j: int, m: int|
        0 <= i < na && 0 <= k < st && 0 <= j < nb && 0 <= m < su implies #[trigger] elem_cell::<
        T,
    >(s2, pa, i, k) != #[trigger] elem_cell::<U>(s2, pb, j, m) by {
        lemma_elem_cell::<T>(s2, pa, i, k);
        lemma_elem_cell::<U>(s2, pb, j, m);
        assert(0 <= i * st + k < na * st) by (nonlinear_arith)
            requires
                0 <= i < na,
                0 <= k < st,
        ;
        assert(0 <= j * su + m < nb * su) by (nonlinear_arith)
            requires
                0 <= j < nb,
                0 <= m < su,
        ;
        lemma_small_mod((s.heap + i * st + k) as nat, prime() as nat);
        lemma_small_mod((s.heap + na * st + j * su + m) as nat, prime() as nat);
    }
}


/// The root that a batch opening built under counters `c` compares with the commitment:
/// the digest of the tallest tables, as the path steps update it in place.
pub open spec fn batch_root(
    d: nat,
    dims: ArrayModel<crate::fri::Dimensions>,
    opened: ArrayModel<ArrayModel<crate::ir::Ext>>,
    c: Counts,
) -> ArrayModel<crate::ir::Felt> {
    crate::fri::reduce_effect(
        d,
        crate::ir::var_at(c.v),
        dims,
        crate::ir::var_at(c.v + 1),
        opened,
        c.add(Counts::vars(2)),
        Seq::empty(),
    ).0
}

/// A batch opening is accepted exactly when, once the Merkle path has been walked, every
/// element of the commitment equals the element of the root at the same index: the built
/// program runs to the end exactly when all of it but its last loop does, and, in the
/// state that leaves, the first `len(commit)` cells of the commitment and of the root agree.
pub proof fn law_verify_batch_accepts(
    d: nat,
    commit: ArrayModel<crate::ir::Felt>,
    dims: ArrayModel<crate::fri::Dimensions>,
    index_bits: ArrayModel<Var>,
    opened: ArrayModel<ArrayModel<crate::ir::Ext>>,
    proof: ArrayModel<ArrayModel<crate::ir::Felt>>,
    c: Counts,
    s: MachineState,
)
    requires
        commit matches ArrayModel::Dyn(cp, cl) && c.has(Slot::V(cp.address.id)) && (
        cl matches Usize::Var(v) ==> c.has(Slot::V(v.id))),
        c.add(crate::fri::verify_batch_uses(d)).fits(),
    ensures
        ({
            let ops = crate::fri::verify_batch_effect(
                d,
                commit,
                dims,
                index_bits,
                opened,
                proof,
                c,
                Seq::empty(),
            ).1;
            let root = batch_root(d, dims, opened, c);
            &&& ops.len() > 0
            &&& run(ops, s) is Some <==> (run(ops.drop_last(), s) matches Some(s1) && forall|j: int|
                0 <= j < length(s1, commit->Dyn_1) ==> #[trigger] pair_holds(
                    s1,
                    commit->Dyn_0,
                    root->Dyn_0,
                    j,
                    true,
                ))
        }),
{
    let e = crate::fri::verify_batch_effect(d, commit, dims, index_bits, opened, proof, c, Seq::empty());
    let ops = e.1;
    let root = batch_root(d, dims, opened, c);
    let index = crate::ir::var_at(c.v);
    let c1 = c.add(Counts::vars(1));
    let ch = crate::ir::var_at(c1.v);
    let c2 = c1.add(Counts::vars(1));
    let o2 = Seq::<Instr>::empty().push(Instr::ImmV(index, 0)) + get_ops::<crate::fri::Dimensions>(
        dims->Dyn_0,
        Usize::Var(index),
        c1,
    );
    let (root2, c3, o3) = crate::fri::reduce_effect(d, index, dims, ch, opened, c2, o2);
    assert(root2 == root);
    let c4 = c3.add(Counts::vars(1));
    let i = crate::ir::var_at(c4.v);
    let c5 = c4.add(Counts::vars(1));
    let (body, c6) = crate::fri::path_step_effect(d, index, dims, ch, opened, root, index_bits, proof, i, c5);
    let j = crate::ir::var_at(c6.v);
    let c7 = c6.add(Counts::vars(1));
    let c8 = c7.add(crate::fri::felts(1));
    let fb = get_ops::<crate::ir::Felt>(commit->Dyn_0, Usize::Var(j), c7) + get_ops::<crate::ir::Felt>(
        root->Dyn_0,
        Usize::Var(j),
        c8,
    ) + seq![Instr::AssertEq(Slot::F(c7.f as u32), Slot::F(c8.f as u32))];
    let last = Instr::For(Usize::Const(0), commit->Dyn_1, 1, j, fb);
    assert(ops.last() == last);
    assert(ops =~= ops.drop_last() + seq![last]);
    lemma_run_append(ops.drop_last(), seq![last], s);
    lemma_one_slot_kinds();
    assert(fb == compare_body::<crate::ir::Felt>(commit->Dyn_0, root->Dyn_0, j, c7, true));
    assert(c.le(c3));
    assert(c3.has(Slot::V(root->Dyn_0.address.id)));
    assert(c.le(c6) && c3.le(c6));
    assert(c7.has(Slot::V(j.id)));
    assert(c7.has(Slot::V(commit->Dyn_0.address.id)));
    assert(c7.has(Slot::V(root->Dyn_0.address.id)));
    assert(!c6.has(Slot::V(j.id)));
    if let Some(s1) = run(ops.drop_last(), s) {
        lemma_run_one(last, s1);
        assert(0int % prime() == 0) by {
            lemma_small_mod(0, prime() as nat);
        }
        assert(length(s1, Usize::Const(0)) == 0);
        lemma_compare_loop_run::<crate::ir::Felt>(
            commit->Dyn_0,
            root->Dyn_0,
            j,
            c7,
            0,
            length(s1, commit->Dyn_1),
            s1,
            true,
        );
    }
}

/// The comparison loop of two arrays of one-slot variables changes no memory cell, not
/// the free address, and no variable handed out before but its counter.
proof fn lemma_compare_loop_frame<T: MemVariable>(
    lp: Ptr,
    rp: Ptr,
    i: Var,
    c: Counts,
    k: int,
    end: int,
    t: MachineState,
    eq: bool,
)
    requires
        one_slot::<T>(),
        c.add(T::width()).add(T::width()).fits(),
        c.has(Slot::V(lp.address.id)),
        c.has(Slot::V(rp.address.id)),
        c.has(Slot::V(i.id)),
        Slot::V(i.id) != Slot::V(lp.address.id),
        Slot::V(i.id) != Slot::V(rp.address.id),
    ensures
        run_loop(compare_body::<T>(lp, rp, i, c, eq), i, k, end, 1, t) matches Some(t2) ==> {
            &&& t2.mem == t.mem
            &&& t2.heap == t.heap
            &&& forall|x: Slot| c.has(x) && x != Slot::V(i.id) ==> (t2.env)(x) == (t.env)(x)
        },
    decreases distance(k, end),
{
    let body = compare_body::<T>(lp, rp, i, c, eq);
    if k < end {
        let t0 = with_var(t, Slot::V(i.id), seq![k]);
        lemma_compare_body_run::<T>(lp, rp, i, c, k, t0, eq);
        if let Some(t1) = run(body, t0) {
            lemma_compare_loop_frame::<T>(lp, rp, i, c, k + 1, end, t1, eq);
        }
    }
}

/// The two cells `m` places past `a` and past `b` hold the same value if `eq`, else
/// different values.
pub open spec fn cells_pair(mem: spec_fn(int) -> Seq<int>, a: int, b: int, m: int, eq: bool) -> bool {
    if eq {
        mem(cell_at(a, m)) == mem(cell_at(b, m))
    } else {
        mem(cell_at(a, m)) != mem(cell_at(b, m))
    }
}

/// Row `j` of two arrays of arrays, whose row descriptions (address, then length) start at
/// `lb` and `rb`: both rows have the same length, and their elements compare as asked
/// (equal if `eq`, else different), place by place.
pub open spec fn rows_hold(mem: spec_fn(int) -> Seq<int>, lb: int, rb: int, j: int, eq: bool) -> bool {
    &&& mem(cell_at(lb, 2 * j + 1)) == mem(cell_at(rb, 2 * j + 1))
    &&& forall|m: int|
        0 <= m < row_len(mem, lb, j) ==> #[trigger] cells_pair(mem, row_start(mem, lb, j), row_start(mem, rb, j), m, eq)
}

/// One pass of the comparison loop of two arrays of arrays: it succeeds exactly when row
/// `k` of both compares as asked, and it changes only its own variables.
proof fn lemma_nested_body_run<T: MemVariable>(
    lp: Ptr,
    rp: Ptr,
    i: Var,
    c: Counts,
    k: int,
    t: MachineState,
    eq: bool,
)
    requires
        one_slot::<T>(),
        c.add(Counts::vars(5)).add(T::width()).add(T::width()).fits(),
        c.has(Slot::V(lp.address.id)),
        c.has(Slot::V(rp.address.id)),
        c.has(Slot::V(i.id)),
        (t.env)(Slot::V(i.id)) == seq![k],
    ensures
        run(compare_body::<Array<T>>(lp, rp, i, c, eq), t) is Some <==> rows_hold(
            t.mem,
            scalar(t, lp.address),
            scalar(t, rp.address),
            k,
            eq,
        ),
        run(compare_body::<Array<T>>(lp, rp, i, c, eq), t) matches Some(t2) ==> {
            &&& t2.mem == t.mem
            &&& t2.heap == t.heap
            &&& forall|x: Slot| c.has(x) ==> (t2.env)(x) == (t.env)(x)
        },
{
    let c1 = c.add(Counts::vars(2));
    let c2 = c1.add(Counts::vars(2));
    let pa = Ptr { address: crate::ir::var_at(c.v) };
    let la = crate::ir::var_at(c.v + 1);
    let pb = Ptr { address: crate::ir::var_at(c1.v) };
    let lb = crate::ir::var_at(c1.v + 1);
    let i2 = crate::ir::var_at(c2.v);
    let c3 = c2.add(Counts::vars(1));
    let inner = compare_body::<T>(pa, pb, i2, c3, eq);
    let ix2 = MemIndex { index: Usize::Var(i), offset: 0, size: 2 };
    let l1 = Instr::Load(Slot::V(pa.address.id), lp, ix2);
    let l2 = Instr::Load(Slot::V(la.id), lp, index_plus(ix2, 1));
    let l3 = Instr::Load(Slot::V(pb.address.id), rp, ix2);
    let l4 = Instr::Load(Slot::V(lb.id), rp, index_plus(ix2, 1));
    let ae = Instr::AssertEq(Slot::V(la.id), Slot::V(lb.id));
    let fo = Instr::For(Usize::Const(0), Usize::Var(la), 1, i2, inner);
    assert(index_plus(ix2, 0) == ix2);
    assert(get_ops::<Array<T>>(lp, Usize::Var(i), c) =~= seq![l1, l2]);
    assert(get_ops::<Array<T>>(rp, Usize::Var(i), c1) =~= seq![l3, l4]);
    if eq {
        assert(Array::<T>::eq_ops(Array::<T>::fresh_at(c), Array::<T>::fresh_at(c1), c2) =~= seq![ae, fo]);
    } else {
        assert(Array::<T>::ne_ops(Array::<T>::fresh_at(c), Array::<T>::fresh_at(c1), c2) =~= seq![ae, fo]);
    }
    let body = compare_body::<Array<T>>(lp, rp, i, c, eq);
    let p0 = seq![l1];
    assert(body =~= p0.push(l2).push(l3).push(l4).push(ae).push(fo));
    lemma_run_push(p0.push(l2).push(l3).push(l4).push(ae), fo, t);
    lemma_run_push(p0.push(l2).push(l3).push(l4), ae, t);
    lemma_run_push(p0.push(l2).push(l3), l4, t);
    lemma_run_push(p0.push(l2), l3, t);
    lemma_run_push(p0, l2, t);
    lemma_run_one(l1, t);
    let t1 = step(l1, t).unwrap();
    let t2 = step(l2, t1).unwrap();
    let t3 = step(l3, t2).unwrap();
    let t4 = step(l4, t3).unwrap();
    let lbase = scalar(t, lp.address);
    let rbase = scalar(t, rp.address);
    assert(k * 2 == 2 * k) by (nonlinear_arith);
    assert(address(t, lp, ix2) == cell_at(lbase, 2 * k));
    assert(address(t1, lp, index_plus(ix2, 1)) == cell_at(lbase, 2 * k + 1));
    assert(address(t2, rp, ix2) == cell_at(rbase, 2 * k));
    assert(address(t3, rp, index_plus(ix2, 1)) == cell_at(rbase, 2 * k + 1));
    assert(t4.mem == t.mem && t4.heap == t.heap);
    assert forall|x: Slot| c.has(x) implies (t4.env)(x) == (t.env)(x) by {
        assert(x != Slot::V(pa.address.id) && x != Slot::V(la.id));
        assert(x != Slot::V(pb.address.id) && x != Slot::V(lb.id));
    }
    assert((t4.env)(Slot::V(la.id)) == (t.mem)(cell_at(lbase, 2 * k + 1)));
    assert((t4.env)(Slot::V(lb.id)) == (t.mem)(cell_at(rbase, 2 * k + 1)));
    assert(scalar(t4, pa.address) == row_start(t.mem, lbase, k));
    assert(scalar(t4, pb.address) == row_start(t.mem, rbase, k));
    if (t4.env)(Slot::V(la.id)) == (t4.env)(Slot::V(lb.id)) {
        let t5 = step(ae, t4).unwrap();
        assert(t5 == t4);
        lemma_small_mod(0, prime() as nat);
        assert(length(t5, Usize::Const(0)) == 0);
        let end = length(t5, Usize::Var(la));
        assert(end == row_len(t.mem, lbase, k));
        assert(step(fo, t5) == run_loop(inner, i2, 0, end, 1, t5));
        lemma_compare_loop_run::<T>(pa, pb, i2, c3, 0, end, t5, eq);
        lemma_compare_loop_frame::<T>(pa, pb, i2, c3, 0, end, t5, eq);
        assert forall|m: int|
            #![trigger pair_holds(t5, pa, pb, m, eq)]
            #![trigger cells_pair(t.mem, row_start(t.mem, lbase, k), row_start(t.mem, rbase, k), m, eq)]
            0 <= m < end implies pair_holds(t5, pa, pb, m, eq) == cells_pair(
            t.mem,
            row_start(t.mem, lbase, k),
            row_start(t.mem, rbase, k),
            m,
            eq,
        ) by {
            assert(cell_address(t5, pa, m) == cell_at(row_start(t.mem, lbase, k), m));
            assert(cell_address(t5, pb, m) == cell_at(row_start(t.mem, rbase, k), m));
        }
        assert((forall|m: int| 0 <= m < end ==> #[trigger] pair_holds(t5, pa, pb, m, eq)) <==> (forall|m: int|
            0 <= m < end ==> #[trigger] cells_pair(
                t.mem,
                row_start(t.mem, lbase, k),
                row_start(t.mem, rbase, k),
                m,
                eq,
            )));
        if let Some(t6) = step(fo, t5) {
            assert forall|x: Slot| c.has(x) implies (t6.env)(x) == (t.env)(x) by {
                assert(c3.has(x));
                assert(x != Slot::V(i2.id));
            }
        }
    }
}

/// The comparison loop of two arrays of arrays from row `k` on succeeds exactly when every
/// row from `k` up to `end` compares as asked.
proof fn lemma_nested_loop_run<T: MemVariable>(
    lp: Ptr,
    rp: Ptr,
    i: Var,
    c: Counts,
    k: int,
    end: int,
    t: MachineState,
    eq: bool,
)
    requires
        one_slot::<T>(),
        c.add(Counts::vars(5)).add(T::width()).add(T::width()).fits(),
        c.has(Slot::V(lp.address.id)),
        c.has(Slot::V(rp.address.id)),
        c.has(Slot::V(i.id)),
        Slot::V(i.id) != Slot::V(lp.address.id),
        Slot::V(i.id) != Slot::V(rp.address.id),
    ensures
        run_loop(compare_body::<Array<T>>(lp, rp, i, c, eq), i, k, end, 1, t) is Some <==> (forall|j: int|
            k <= j < end ==> #[trigger] rows_hold(t.mem, scalar(t, lp.address), scalar(t, rp.address), j, eq)),
    decreases distance(k, end),
{
    let body = compare_body::<Array<T>>(lp, rp, i, c, eq);
    let lb = scalar(t, lp.address);
    let rb = scalar(t, rp.address);
    if k < end {
        let t0 = with_var(t, Slot::V(i.id), seq![k]);
        lemma_nested_body_run::<T>(lp, rp, i, c, k, t0, eq);
        assert(scalar(t0, lp.address) == lb && scalar(t0, rp.address) == rb);
        match run(body, t0) {
            Some(t1) => {
                lemma_nested_loop_run::<T>(lp, rp, i, c, k + 1, end, t1, eq);
                assert(scalar(t1, lp.address) == lb && scalar(t1, rp.address) == rb);
                assert(t1.mem == t.mem);
                assert((forall|j: int| k <= j < end ==> #[trigger] rows_hold(t.mem, lb, rb, j, eq)) <==> (
                forall|j: int| k + 1 <= j < end ==> #[trigger] rows_hold(t.mem, lb, rb, j, eq)));
            },
            None => {
                assert(!rows_hold(t.mem, lb, rb, k, eq));
            },
        }
    }
}

/// Asserting two arrays in memory of arrays of one-slot variables equal builds a program
/// that runs to the end exactly when both lengths hold the same value and, below that
/// length, every two rows at the same place have the same length and the same elements.
pub proof fn law_assert_eq_nested<T: MemVariable>(
    lp: Ptr,
    ll: Usize,
    rp: Ptr,
    rl: Usize,
    c: Counts,
    s: MachineState,
)
    requires
        one_slot::<T>(),
        c.add(Counts::vars(8)).add(T::width()).add(T::width()).fits(),
        c.has(Slot::V(lp.address.id)),
        c.has(Slot::V(rp.address.id)),
        ll matches Usize::Var(v) ==> c.has(Slot::V(v.id)),
        rl matches Usize::Var(v) ==> c.has(Slot::V(v.id)),
    ensures
        run(Array::<Array<T>>::eq_ops(ArrayModel::Dyn(lp, ll), ArrayModel::Dyn(rp, rl), c), s) is Some <==> {
            &&& usize_value(s.env, ll) == usize_value(s.env, rl)
            &&& forall|j: int|
                0 <= j < length(s, ll) ==> #[trigger] rows_hold(
                    s.mem,
                    scalar(s, lp.address),
                    scalar(s, rp.address),
                    j,
                    true,
                )
        },
{
    let (lv, c1, o1) = materialize_effect(ll, c, Seq::empty());
    let (rv, c2, o2) = materialize_effect(rl, c1, o1);
    let (rv_alone, c2b, o2b) = materialize_effect(rl, c1, Seq::empty());
    assert(o2 =~= o1 + o2b);
    let i = crate::ir::var_at(c2.v);
    let c3 = c2.add(Counts::vars(1));
    let body = compare_body::<Array<T>>(lp, rp, i, c3, true);
    let eq = Instr::AssertEq(Slot::V(lv.id), Slot::V(rv.id));
    let lp_ = Instr::For(Usize::Const(0), ll, 1, i, body);
    let ops = dyn_eq_ops::<Array<T>>(lp, ll, rp, rl, c);
    assert(ops =~= o1 + (o2b + (seq![eq] + seq![lp_])));
    lemma_run_append(o1, o2b + (seq![eq] + seq![lp_]), s);
    lemma_run_materialize(ll, c, s);
    let s1 = run(o1, s).unwrap();
    lemma_run_append(o2b, seq![eq] + seq![lp_], s1);
    lemma_run_materialize(rl, c1, s1);
    let s2 = run(o2b, s1).unwrap();
    lemma_run_append(seq![eq], seq![lp_], s2);
    lemma_run_one(eq, s2);
    assert(c1.has(Slot::V(lv.id)));
    assert((s2.env)(Slot::V(lv.id)) == (s1.env)(Slot::V(lv.id)));
    assert((s2.env)(Slot::V(lv.id)) == usize_value(s.env, ll));
    assert((s2.env)(Slot::V(rv.id)) == usize_value(s.env, rl)) by {
        if let Usize::Var(v) = rl {
            assert(c.has(Slot::V(v.id)));
            assert(c1.has(Slot::V(v.id)));
            assert((s1.env)(Slot::V(v.id)) == (s.env)(Slot::V(v.id)));
        }
    }
    if usize_value(s.env, ll) == usize_value(s.env, rl) {
        lemma_run_one(lp_, s2);
        assert(c.le(c2));
        assert(c3.has(Slot::V(lp.address.id)));
        assert(c3.has(Slot::V(rp.address.id)));
        assert(c3.has(Slot::V(i.id)));
        lemma_nested_loop_run::<T>(lp, rp, i, c3, 0, length(s2, ll), s2, true);
        assert(0int % prime() == 0) by {
            lemma_small_mod(0, prime() as nat);
        }
        assert(length(s2, Usize::Const(0)) == 0);
        assert(length(s2, ll) == length(s, ll)) by {
            if let Usize::Var(v) = ll {
                assert(c1.has(Slot::V(v.id)));
            }
        }
        assert(c1.has(Slot::V(lp.address.id)) && c1.has(Slot::V(rp.address.id)));
        assert(scalar(s2, lp.address) == scalar(s, lp.address));
        assert(scalar(s2, rp.address) == scalar(s, rp.address));
        assert(s2.mem == s.mem);
    }
}

/// Asserting two arrays in memory of arrays of one-slot variables different builds a
/// program that runs to the end exactly when both lengths agree and, below that length,
/// every two rows at the same place have the same length and differ at every place.
pub proof fn law_assert_ne_nested<T: MemVariable>(
    lp: Ptr,
    ll: Usize,
    rp: Ptr,
    rl: Usize,
    c: Counts,
    s: MachineState,
)
    requires
        one_slot::<T>(),
        c.add(Counts::vars(6)).add(T::width()).add(T::width()).fits(),
        c.has(Slot::V(lp.address.id)),
        c.has(Slot::V(rp.address.id)),
        ll matches Usize::Var(v) ==> c.has(Slot::V(v.id)),
        (ll, rl) matches (Usize::Const(a), Usize::Const(b)) ==> a == b,
    ensures
        run(Array::<Array<T>>::ne_ops(ArrayModel::Dyn(lp, ll), ArrayModel::Dyn(rp, rl), c), s) is Some <==> {
            &&& lengths_agree(s, ll, rl)
            &&& forall|j: int|
                0 <= j < length(s, ll) ==> #[trigger] rows_hold(
                    s.mem,
                    scalar(s, lp.address),
                    scalar(s, rp.address),
                    j,
                    false,
                )
        },
{
    let i = crate::ir::var_at(c.v);
    let c1 = c.add(Counts::vars(1));
    let body = compare_body::<Array<T>>(lp, rp, i, c1, false);
    let lp_ = Instr::For(Usize::Const(0), ll, 1, i, body);
    let pre = usize_eq_ops(ll, rl);
    assert(dyn_ne_ops::<Array<T>>(lp, ll, rp, rl, c) =~= pre + seq![lp_]);
    lemma_run_append(pre, seq![lp_], s);
    lemma_usize_eq_run(ll, rl, s);
    if lengths_agree(s, ll, rl) {
        lemma_run_one(lp_, s);
        assert(0int % prime() == 0) by {
            lemma_small_mod(0, prime() as nat);
        }
        assert(length(s, Usize::Const(0)) == 0);
        lemma_nested_loop_run::<T>(lp, rp, i, c1, 0, length(s, ll), s, false);
    }
}

/// The number of elements of all the rows of `k` together.
pub open spec fn total_len<A>(k: Seq<Seq<A>>) -> nat
    decreases k.len(),
{
    if k.len() == 0 {
        0
    } else {
        total_len(k.drop_last()) + k.last().len()
    }
}

/// The rows before row `i` and row `i` itself take no more elements than all the rows.
proof fn lemma_total_take<A>(k: Seq<Seq<A>>, i: int)
    requires
        0 <= i < k.len(),
    ensures
        total_len(k.take(i)) + k[i].len() <= total_len(k),
    decreases k.len(),
{
    let dl = k.drop_last();
    if i == k.len() - 1 {
        assert(k.take(i) =~= dl);
    } else {
        lemma_total_take(dl, i);
        assert(dl.take(i) =~= k.take(i));
        assert(dl[i] == k[i]);
    }
}

/// Building arrays of constants of one-slot kind `W` and storing each as the row of its
/// index, into the row descriptions from `p` on (below the free address), builds row `i`
/// at the free address moved on by the lengths of the rows before it, stores its address
/// and length as row description `i`, and leaves every other cell and every variable
/// handed out before as it was.
#[verifier::spinoff_prover]
#[verifier::rlimit(60)]
proof fn lemma_nested_fill_run<W: FromConstant>(
    val: spec_fn(<W::Constant as DeepView>::V) -> Seq<int>,
    p: Ptr,
    k: Seq<Seq<<W::Constant as DeepView>::V>>,
    c1: Counts,
    t: MachineState,
)
    requires
        imm_consts::<W>(val),
        c1.has(Slot::V(p.address.id)),
        c1.add(consts_uses::<Array<W>>(k)).fits(),
        0 <= scalar(t, p.address),
        scalar(t, p.address) + 2 * k.len() <= t.heap,
        t.heap + total_len(k) < prime(),
        2 * k.len() <= usize::MAX,
    ensures
        run(consts_fill_ops::<Array<W>>(p, k, c1), t) matches Some(t2) && {
            &&& t2.heap == t.heap + total_len(k)
            &&& forall|x: Slot| c1.has(x) ==> (t2.env)(x) == (t.env)(x)
            &&& forall|b: int|
                0 <= b < prime() && (b < scalar(t, p.address) || (scalar(t, p.address) + 2 * k.len() <= b
                    < t.heap) || t.heap + total_len(k) <= b) ==> #[trigger] (t2.mem)(b) == (t.mem)(b)
            &&& forall|i: int|
                0 <= i < k.len() ==> {
                    &&& #[trigger] row_start(t2.mem, scalar(t, p.address), i) == t.heap + total_len(
                        k.take(i),
                    )
                    &&& row_len(t2.mem, scalar(t, p.address), i) == (k[i].len() as int) % prime()
                    &&& forall|m: int|
                        0 <= m < k[i].len() ==> (t2.mem)(cell_at(t.heap + total_len(k.take(i)), m))
                            == val(#[trigger] k[i][m])
                }
        },
    decreases k.len(),
{
    let ops = consts_fill_ops::<Array<W>>(p, k, c1);
    let pv = scalar(t, p.address);
    if k.len() == 0 {
        assert(ops =~= Seq::<Instr>::empty());
    } else {
        let n = (k.len() - 1) as nat;
        let front = k.drop_last();
        let kl = k.last();
        let ci = c1.add(consts_uses::<Array<W>>(front));
        let cj = ci.add(Array::<W>::const_uses(kl));
        let r = Array::<W>::const_result(kl, ci);
        let cops = Array::<W>::const_ops(kl, ci);
        let y = Array::<W>::fresh_at(cj);
        let ix = elem_index::<Array<W>>(Usize::Const(n as usize));
        let copy = Array::<W>::assign_ops(y, r);
        let stores = store_ops(Array::<W>::slots_of(y), p, ix);
        assert(consts_uses::<Array<W>>(k) == consts_uses::<Array<W>>(front).add(
            Array::<W>::const_uses(kl),
        ).add(Array::<W>::width()));
        assert(ops =~= consts_fill_ops::<Array<W>>(p, front, c1) + (cops + (copy + stores)));
        // The rows before the last one.
        assert(total_len(k) == total_len(front) + kl.len());
        lemma_nested_fill_run::<W>(val, p, front, c1, t);
        let pre = consts_fill_ops::<Array<W>>(p, front, c1);
        let t1 = run(pre, t).unwrap();
        lemma_run_append(pre, cops + (copy + stores), t);
        // The last row, at the free address.
        lemma_consts_uses_is::<W>(kl);
        assert(Array::<W>::const_uses(kl) == Counts::vars(2).add(W::width().times(2 * kl.len())));
        law_eval_const::<W>(val, kl, ci, t1);
        let ta = run(cops, t1).unwrap();
        lemma_run_append(cops, copy + stores, t1);
        let pi = r->Dyn_0;
        let li = r->Dyn_1;
        lemma_small_mod(kl.len() as nat, prime() as nat);
        assert(ta.heap == t1.heap + kl.len());
        assert(scalar(ta, pi.address) == t1.heap);
        // Its description, copied and stored.
        assert(c1.le(ci) && ci.le(cj));
        assert(cj.has(Slot::V(pi.address.id)));
        assert(li matches Usize::Var(v) && cj.has(Slot::V(v.id)));
        Array::<W>::lemma_copy_run(r, cj, ta);
        let tb = run(copy, ta).unwrap();
        lemma_run_append(copy, stores, ta);
        let sl = Array::<W>::slots_of(y);
        assert(sl.len() == 2);
        lemma_run_stores(sl, p, ix, tb);
        let t2 = run(stores, tb).unwrap();
        assert(c1.has(Slot::V(p.address.id)) && ci.has(Slot::V(p.address.id)) && cj.has(
            Slot::V(p.address.id),
        ));
        assert(scalar(tb, p.address) == pv);
        lemma_small_mod(n, prime() as nat);
        assert(n * 2 == 2 * n) by (nonlinear_arith);
        assert(address(tb, p, index_plus(ix, 0)) == cell_at(pv, 2 * n as int));
        assert(address(tb, p, index_plus(ix, 1)) == cell_at(pv, 2 * n as int + 1));
        lemma_small_mod((pv + 2 * n) as nat, prime() as nat);
        lemma_small_mod((pv + 2 * n + 1) as nat, prime() as nat);
        assert(cell_at(pv, 2 * n as int) == pv + 2 * n);
        assert(cell_at(pv, 2 * n as int + 1) == pv + 2 * n + 1);
        assert((t2.mem)(pv + 2 * n) == (tb.env)(sl[0]));
        assert((t2.mem)(pv + 2 * n + 1) == (tb.env)(sl[1]));
        assert(Array::<W>::copy_value(r, ta.env) == seq![(ta.env)(Slot::V(pi.address.id)), (ta.env)(Slot::V(li->Var_0.id))]);
        // Every cell that the last row's building does not write keeps its content.
        assert forall|b: int| 0 <= b < prime() && b != pv + 2 * n && b != pv + 2 * n + 1 implies #[trigger] (t2.mem)(b)
            == (tb.mem)(b) by {
            assert forall|m: int| 0 <= m < sl.len() implies b != #[trigger] address(
                tb,
                p,
                index_plus(ix, m as nat),
            ) by {
                if m == 0 {
                } else {
                    assert(m == 1);
                }
            }
            lemma_stores_elsewhere(sl, p, ix, tb, b);
        }
        assert(t2.heap == t.heap + total_len(k));
        assert forall|x: Slot| c1.has(x) implies (t2.env)(x) == (t.env)(x) by {
            assert(ci.has(x) && cj.has(x));
        }
        assert forall|b: int|
            0 <= b < prime() && (b < pv || (pv + 2 * k.len() <= b < t.heap) || t.heap + total_len(k) <= b)
                implies #[trigger] (t2.mem)(b) == (t.mem)(b) by {
            assert((t1.mem)(b) == (t.mem)(b));
            assert((ta.mem)(b) == (t1.mem)(b));
        }
        assert forall|i: int| 0 <= i < k.len() implies {
            &&& #[trigger] row_start(t2.mem, pv, i) == t.heap + total_len(k.take(i))
            &&& row_len(t2.mem, pv, i) == (k[i].len() as int) % prime()
            &&& forall|m: int|
                0 <= m < k[i].len() ==> (t2.mem)(cell_at(t.heap + total_len(k.take(i)), m)) == val(
                    #[trigger] k[i][m],
                )
        } by {
            let base = t.heap + total_len(k.take(i));
            if i < n {
                assert(k.take(i) =~= front.take(i));
                assert(front[i] == k[i]);
                lemma_total_take(front, i);
                assert(total_len(front.take(i)) + front[i].len() <= total_len(front));
                assert(row_start(t1.mem, pv, i) == t.heap + total_len(front.take(i)));
                assert(row_len(t1.mem, pv, i) == (front[i].len() as int) % prime());
                lemma_small_mod((pv + 2 * i) as nat, prime() as nat);
                lemma_small_mod((pv + 2 * i + 1) as nat, prime() as nat);
                assert((t2.mem)(cell_at(pv, 2 * i)) == (t1.mem)(cell_at(pv, 2 * i)));
                assert((t2.mem)(cell_at(pv, 2 * i + 1)) == (t1.mem)(cell_at(pv, 2 * i + 1)));
                assert forall|m: int| 0 <= m < k[i].len() implies (t2.mem)(cell_at(base, m)) == val(
                    #[trigger] k[i][m],
                ) by {
                    lemma_small_mod((base + m) as nat, prime() as nat);
                    assert(front[i][m] == k[i][m]);
                    assert((t1.mem)(cell_at(base, m)) == val(front[i][m]));
                    assert((ta.mem)(base + m) == (t1.mem)(base + m));
                }
            } else {
                assert(i == n);
                assert(k.take(i) =~= front);
                assert(base == t1.heap);
                assert((tb.env)(sl[0]) == Array::<W>::copy_value(r, ta.env)[0]);
                assert((tb.env)(sl[1]) == Array::<W>::copy_value(r, ta.env)[1]);
                assert(row_start(t2.mem, pv, i) == scalar(ta, pi.address));
                assert(row_len(t2.mem, pv, i) == length(ta, li));
                assert forall|m: int| 0 <= m < k[i].len() implies (t2.mem)(cell_at(base, m)) == val(
                    #[trigger] k[i][m],
                ) by {
                    lemma_small_mod((base + m) as nat, prime() as nat);
                    lemma_elem_cell::<W>(ta, pi, m, 0);
                    assert(m * 1 == m) by (nonlinear_arith);
                    assert(elem_cell::<W>(ta, pi, m, 0) == cell_at(base, m));
                    assert((ta.mem)(elem_cell::<W>(ta, pi, m, 0)) == val(kl[m]));
                }
            }
        }
    }
}

/// An array of arrays built from constants of one-slot kind `W` (native, base-field or
/// extension), when the free memory does not wrap around the field, starts at the first
/// free address and holds the number of rows in its length; its row descriptions come
/// first, then the rows one after the other: row `i` starts after the rows before it,
/// its description holds its address and length, and its element `m` holds the value
/// `val(k[i][m])` of constant `m` of row `i`.
pub proof fn law_eval_const_nested<W: FromConstant>(
    val: spec_fn(<W::Constant as DeepView>::V) -> Seq<int>,
    k: Seq<Seq<<W::Constant as DeepView>::V>>,
    c: Counts,
    s: MachineState,
)
    requires
        imm_consts::<W>(val),
        c.add(Counts::vars(2)).add(consts_uses::<Array<W>>(k)).fits(),
        0 <= s.heap,
        s.heap + 2 * k.len() + total_len(k) < prime(),
        2 * k.len() <= usize::MAX,
    ensures
        ({
            let r = Array::<Array<W>>::const_result(k, c);
            r matches ArrayModel::Dyn(p, l) && run(Array::<Array<W>>::const_ops(k, c), s) matches Some(
                s2,
            ) && {
                &&& length(s2, l) == k.len()
                &&& scalar(s2, p.address) == s.heap
                &&& forall|i: int|
                    0 <= i < k.len() ==> {
                        &&& #[trigger] row_start(s2.mem, s.heap, i) == s.heap + 2 * k.len() + total_len(
                            k.take(i),
                        )
                        &&& row_len(s2.mem, s.heap, i) == (k[i].len() as int) % prime()
                        &&& forall|m: int|
                            0 <= m < k[i].len() ==> (s2.mem)(cell_at(row_start(s2.mem, s.heap, i), m))
                                == val(#[trigger] k[i][m])
                    }
            }
        }),
{
    let n = k.len();
    let (d, c1, o1) = dyn_array_effect::<Array<W>>(Usize::Const(n as usize), c, Seq::empty());
    let p = d->Dyn_0;
    let l = d->Dyn_1;
    law_dyn_array::<Array<W>>(Usize::Const(n as usize), c, s);
    let s1 = run(o1, s).unwrap();
    lemma_small_mod(n, prime() as nat);
    assert(length(s, Usize::Const(n as usize)) == n);
    assert(s1.heap == s.heap + 2 * n);
    assert(c1 == c.add(Counts::vars(2)));
    let f = consts_fill_ops::<Array<W>>(p, k, c1);
    assert(Array::<Array<W>>::const_ops(k, c) =~= o1 + f);
    lemma_run_append(o1, f, s);
    lemma_nested_fill_run::<W>(val, p, k, c1, s1);
    let s2 = run(f, s1).unwrap();
    assert(c1.has(Slot::V(l->Var_0.id)));
    assert(c1.has(Slot::V(p.address.id)));
    assert(scalar(s2, p.address) == s.heap);
    assert forall|i: int| 0 <= i < n implies {
        &&& #[trigger] row_start(s2.mem, s.heap, i) == s.heap + 2 * k.len() + total_len(k.take(i))
        &&& row_len(s2.mem, s.heap, i) == (k[i].len() as int) % prime()
        &&& forall|m: int|
            0 <= m < k[i].len() ==> (s2.mem)(cell_at(row_start(s2.mem, s.heap, i), m)) == val(
                #[trigger] k[i][m],
            )
    } by {
        assert(row_start(s2.mem, scalar(s1, p.address), i) == s1.heap + total_len(k.take(i)));
    }
}

} // verus!
