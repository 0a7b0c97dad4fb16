use sp1_recursion_collections::collections::Array;
use sp1_recursion_collections::ir::{Builder, DslIr, Ext, Felt, MemIndex, Ptr, Slot, Usize, Var};
use sp1_recursion_collections::variable::{FromConstant, MemVariable};

fn v(id: u32) -> Var {
    Var { id }
}

fn ptr(id: u32) -> Ptr {
    Ptr { address: v(id) }
}

fn idx(index: Usize, size: usize) -> MemIndex {
    MemIndex { index, offset: 0, size }
}

fn counts(b: &Builder) -> (u32, u32, u32) {
    (b.var_count, b.felt_count, b.ext_count)
}

#[test]
fn len_of_fixed_and_dyn() {
    let fixed: Array<Var> = Array::Fixed(vec![v(0), v(1), v(2)]);
    assert_eq!(fixed.len(), Usize::Const(3));
    let dynamic: Array<Var> = Array::Dyn(ptr(4), Usize::Var(v(5)));
    assert_eq!(dynamic.len(), Usize::Var(v(5)));
    let dynamic_const: Array<Var> = Array::Dyn(ptr(4), Usize::Const(7));
    assert_eq!(dynamic_const.len(), Usize::Const(7));
}

#[test]
fn dyn_array_with_constant_length() {
    let mut b = Builder::new();
    let a: Array<Var> = b.dyn_array(Usize::Const(3));
    assert!(matches!(a, Array::Dyn(p, Usize::Var(l)) if p == ptr(1) && l == v(0)));
    assert_eq!(
        b.operations,
        vec![DslIr::ImmV(v(0), 3), DslIr::Alloc(ptr(1), Usize::Var(v(0)), 1)]
    );
    assert_eq!(counts(&b), (2, 0, 0));
}

#[test]
fn dyn_array_length_is_reduced_modulo_the_prime() {
    let mut b = Builder::new();
    let p = 0x7800_0001usize;
    let _a: Array<Felt> = b.dyn_array(Usize::Const(p + 5));
    assert_eq!(b.operations[0], DslIr::ImmV(v(0), 5));
    let mut b = Builder::new();
    let _a: Array<Felt> = b.dyn_array(Usize::Const(p));
    assert_eq!(b.operations[0], DslIr::ImmV(v(0), 0));
}

#[test]
fn dyn_array_with_variable_length() {
    let mut b = Builder::new();
    let len = b.uninit_var();
    let a: Array<Array<Var>> = b.array(Usize::Var(len));
    assert!(matches!(a, Array::Dyn(p, Usize::Var(l)) if p == ptr(1) && l == len));
    assert_eq!(b.operations, vec![DslIr::Alloc(ptr(1), Usize::Var(len), 2)]);
    assert_eq!(counts(&b), (2, 0, 0));
}

#[test]
fn get_from_fixed_array_returns_the_element() {
    let mut b = Builder::new();
    let a: Array<Ext> = Array::Fixed(vec![Ext { id: 7 }, Ext { id: 9 }]);
    let e = b.get(&a, Usize::Const(1));
    assert_eq!(e, Ext { id: 9 });
    assert!(b.operations.is_empty());
    assert_eq!(counts(&b), (0, 0, 0));
}

#[test]
fn get_from_dyn_array_loads_into_a_fresh_variable() {
    let mut b = Builder::new();
    let a: Array<Felt> = b.dyn_array(Usize::Const(4));
    let i = b.uninit_var();
    let x = b.get(&a, Usize::Var(i));
    assert_eq!(x, Felt { id: 0 });
    assert_eq!(b.operations[2], DslIr::Load(Slot::F(0), ptr(1), idx(Usize::Var(i), 1)));
    assert_eq!(b.operations.len(), 3);
    assert_eq!(counts(&b), (3, 1, 0));
}

#[test]
fn set_copies_the_value_then_stores_it() {
    let mut b = Builder::new();
    let mut a: Array<Var> = b.dyn_array(Usize::Const(4));
    let value = b.eval_const_var(42);
    b.set(&mut a, Usize::Const(2), &value);
    assert_eq!(
        &b.operations[3..],
        &vec![
            DslIr::Copy(Slot::V(3), Slot::V(2)),
            DslIr::Store(ptr(1), idx(Usize::Const(2), 1), Slot::V(3)),
        ][..]
    );
    assert_eq!(counts(&b), (4, 0, 0));
}

#[test]
fn set_then_get_use_the_same_place() {
    let mut b = Builder::new();
    let mut a: Array<Ext> = b.dyn_array(Usize::Const(2));
    let value = Ext::eval_const(&[1, 2, 3, 4], &mut b);
    b.set(&mut a, Usize::Const(1), &value);
    let read = b.get(&a, Usize::Const(1));
    let n = b.operations.len();
    assert_eq!(
        &b.operations[n - 3..],
        &vec![
            DslIr::Copy(Slot::E(1), Slot::E(0)),
            DslIr::Store(ptr(1), idx(Usize::Const(1), 1), Slot::E(1)),
            DslIr::Load(Slot::E(2), ptr(1), idx(Usize::Const(1), 1)),
        ][..]
    );
    assert_eq!(read, Ext { id: 2 });
}

#[test]
fn set_array_of_arrays_copies_pointer_and_length() {
    let mut b = Builder::new();
    let mut outer: Array<Array<Var>> = b.dyn_array(Usize::Const(2));
    let inner: Array<Var> = Array::Dyn(ptr(9), Usize::Const(5));
    b.set(&mut outer, Usize::Const(0), &inner);
    assert_eq!(
        &b.operations[2..],
        &vec![
            DslIr::Copy(Slot::V(2), Slot::V(9)),
            DslIr::ImmV(v(3), 5),
            DslIr::Store(ptr(1), idx(Usize::Const(0), 2), Slot::V(2)),
            DslIr::Store(ptr(1), MemIndex { index: Usize::Const(0), offset: 1, size: 2 }, Slot::V(3)),
        ][..]
    );
}

#[test]
fn shift_moves_pointer_and_shortens_length() {
    let mut b = Builder::new();
    let a: Array<Var> = b.dyn_array(Usize::Const(8));
    let s = b.eval_const_var(3);
    let shifted = a.shift(&mut b, s);
    assert!(matches!(shifted, Array::Dyn(p, Usize::Var(l)) if p == ptr(3) && l == v(4)));
    assert_eq!(
        &b.operations[3..],
        &vec![DslIr::AddV(v(3), v(1), v(2)), DslIr::SubV(v(4), v(0), v(2))][..]
    );
}

#[test]
fn shift_of_constant_length_materializes_it() {
    let mut b = Builder::new();
    let s = b.uninit_var();
    let a: Array<Var> = Array::Dyn(ptr(7), Usize::Const(10));
    let _shifted = a.shift(&mut b, s);
    assert_eq!(
        b.operations,
        vec![DslIr::AddV(v(1), v(7), v(0)), DslIr::ImmV(v(2), 10), DslIr::SubV(v(3), v(2), v(0))]
    );
    assert_eq!(counts(&b), (4, 0, 0));
}

#[test]
fn truncate_assigns_the_length() {
    let mut b = Builder::new();
    let a: Array<Var> = b.dyn_array(Usize::Const(8));
    a.truncate(&mut b, Usize::Const(5));
    let n = b.uninit_var();
    a.truncate(&mut b, Usize::Var(n));
    assert_eq!(
        &b.operations[2..],
        &vec![DslIr::ImmV(v(0), 5), DslIr::Copy(Slot::V(0), Slot::V(2))][..]
    );
}

#[test]
fn array_to_dyn_copies_a_fixed_array() {
    let mut b = Builder::new();
    let x = b.eval_const_var(10);
    let y = b.eval_const_var(20);
    let fixed: Array<Var> = Array::Fixed(vec![x, y]);
    let d = b.array_to_dyn(fixed);
    assert!(matches!(d, Array::Dyn(p, Usize::Var(l)) if p == ptr(3) && l == v(2)));
    assert_eq!(
        &b.operations[2..],
        &vec![
            DslIr::ImmV(v(2), 2),
            DslIr::Alloc(ptr(3), Usize::Var(v(2)), 1),
            DslIr::Copy(Slot::V(4), Slot::V(0)),
            DslIr::Store(ptr(3), idx(Usize::Const(0), 1), Slot::V(4)),
            DslIr::Copy(Slot::V(5), Slot::V(1)),
            DslIr::Store(ptr(3), idx(Usize::Const(1), 1), Slot::V(5)),
        ][..]
    );
}

#[test]
fn array_to_dyn_keeps_a_dyn_array() {
    let mut b = Builder::new();
    let a: Array<Var> = Array::Dyn(ptr(3), Usize::Var(v(4)));
    let d = b.array_to_dyn(a);
    assert!(matches!(d, Array::Dyn(p, Usize::Var(l)) if p == ptr(3) && l == v(4)));
    assert!(b.operations.is_empty());
}

#[test]
fn assert_eq_of_fixed_arrays_compares_pairs() {
    let mut b = Builder::new();
    let l: Array<Var> = Array::Fixed(vec![v(0), v(1)]);
    let r: Array<Var> = Array::Fixed(vec![v(2), v(3)]);
    Array::<Var>::assert_eq(&l, &r, &mut b);
    assert_eq!(
        b.operations,
        vec![
            DslIr::AssertEq(Slot::V(0), Slot::V(2)),
            DslIr::AssertEq(Slot::V(1), Slot::V(3)),
        ]
    );
}

#[test]
fn assert_eq_of_dyn_arrays_checks_lengths_then_loops() {
    let mut b = Builder::new();
    let l: Array<Felt> = b.dyn_array(Usize::Const(2));
    let r: Array<Felt> = b.dyn_array(Usize::Const(2));
    Array::<Felt>::assert_eq(&l, &r, &mut b);
    assert_eq!(
        &b.operations[4..],
        &vec![
            DslIr::AssertEq(Slot::V(0), Slot::V(2)),
            DslIr::For(
                Usize::Const(0),
                Usize::Var(v(0)),
                1,
                v(4),
                vec![
                    DslIr::Load(Slot::F(0), ptr(1), idx(Usize::Var(v(4)), 1)),
                    DslIr::Load(Slot::F(1), ptr(3), idx(Usize::Var(v(4)), 1)),
                    DslIr::AssertEq(Slot::F(0), Slot::F(1)),
                ]
            ),
        ][..]
    );
    assert_eq!(counts(&b), (5, 2, 0));
}

#[test]
fn assert_eq_of_constant_lengths_materializes_both() {
    let mut b = Builder::new();
    let l: Array<Var> = Array::Dyn(ptr(10), Usize::Const(3));
    let r: Array<Var> = Array::Dyn(ptr(11), Usize::Const(4));
    Array::<Var>::assert_eq(&l, &r, &mut b);
    assert_eq!(b.operations[0], DslIr::ImmV(v(0), 3));
    assert_eq!(b.operations[1], DslIr::ImmV(v(1), 4));
    assert_eq!(b.operations[2], DslIr::AssertEq(Slot::V(0), Slot::V(1)));
    assert_eq!(b.operations.len(), 4);
}

#[test]
fn assert_ne_of_dyn_arrays_asserts_lengths_equal_and_elements_different() {
    let mut b = Builder::new();
    let n = b.uninit_var();
    let l: Array<Var> = Array::Dyn(ptr(10), Usize::Var(n));
    let r: Array<Var> = Array::Dyn(ptr(11), Usize::Const(4));
    Array::<Var>::assert_ne(&l, &r, &mut b);
    assert_eq!(
        b.operations,
        vec![
            DslIr::AssertEqVI(n, 4),
            DslIr::For(
                Usize::Const(0),
                Usize::Var(n),
                1,
                v(1),
                vec![
                    DslIr::Load(Slot::V(2), ptr(10), idx(Usize::Var(v(1)), 1)),
                    DslIr::Load(Slot::V(3), ptr(11), idx(Usize::Var(v(1)), 1)),
                    DslIr::AssertNe(Slot::V(2), Slot::V(3)),
                ]
            ),
        ]
    );
}

#[test]
fn assert_ne_of_equal_constant_lengths_emits_no_length_check() {
    let mut b = Builder::new();
    let l: Array<Var> = Array::Dyn(ptr(10), Usize::Const(4));
    let r: Array<Var> = Array::Dyn(ptr(11), Usize::Const(4));
    Array::<Var>::assert_ne(&l, &r, &mut b);
    assert_eq!(b.operations.len(), 1);
    assert!(matches!(b.operations[0], DslIr::For(..)));
}

#[test]
fn assert_ne_of_fixed_arrays_compares_pairs() {
    let mut b = Builder::new();
    let l: Array<Ext> = Array::Fixed(vec![Ext { id: 0 }]);
    let r: Array<Ext> = Array::Fixed(vec![Ext { id: 1 }]);
    Array::<Ext>::assert_ne(&l, &r, &mut b);
    assert_eq!(b.operations, vec![DslIr::AssertNe(Slot::E(0), Slot::E(1))]);
}

#[test]
fn nested_dyn_arrays_compare_inner_arrays_in_the_loop() {
    let mut b = Builder::new();
    let l: Array<Array<Var>> = Array::Dyn(ptr(0), Usize::Var(v(1)));
    let r: Array<Array<Var>> = Array::Dyn(ptr(2), Usize::Var(v(3)));
    b.var_count = 4;
    Array::<Array<Var>>::assert_eq(&l, &r, &mut b);
    match &b.operations[1] {
        DslIr::For(_, _, _, i, body) => {
            assert_eq!(*i, v(4));
            assert_eq!(body[0], DslIr::Load(Slot::V(5), ptr(0), idx(Usize::Var(v(4)), 2)));
            assert_eq!(
                body[1],
                DslIr::Load(Slot::V(6), ptr(0), MemIndex { index: Usize::Var(v(4)), offset: 1, size: 2 })
            );
            assert!(matches!(body[5], DslIr::For(..)));
        }
        other => panic!("expected a loop, found {:?}", other),
    }
}

#[test]
fn array_load_and_store_move_pointer_and_length() {
    let mut b = Builder::new();
    let a: Array<Var> = Array::Dyn(ptr(1), Usize::Var(v(2)));
    let index = MemIndex { index: Usize::Const(3), offset: 0, size: 2 };
    a.store(ptr(0), index, &mut b);
    a.load(ptr(0), index, &mut b);
    let next = MemIndex { offset: 1, ..index };
    assert_eq!(
        b.operations,
        vec![
            DslIr::Store(ptr(0), index, Slot::V(1)),
            DslIr::Store(ptr(0), next, Slot::V(2)),
            DslIr::Load(Slot::V(1), ptr(0), index),
            DslIr::Load(Slot::V(2), ptr(0), next),
        ]
    );
    assert_eq!(<Array<Var> as MemVariable>::size_of(), 2);
}

#[test]
fn uninit_array_takes_two_variables() {
    let mut b = Builder::new();
    let a = <Array<Felt> as MemVariable>::uninit(&mut b);
    assert!(matches!(a, Array::Dyn(p, Usize::Var(l)) if p == ptr(0) && l == v(1)));
    assert_eq!(counts(&b), (2, 0, 0));
}

#[test]
fn eval_const_builds_each_element() {
    let mut b = Builder::new();
    let a = <Array<Var> as FromConstant>::eval_const(&vec![7, 8], &mut b);
    assert!(matches!(a, Array::Dyn(p, Usize::Var(l)) if p == ptr(1) && l == v(0)));
    assert_eq!(
        b.operations,
        vec![
            DslIr::ImmV(v(0), 2),
            DslIr::Alloc(ptr(1), Usize::Var(v(0)), 1),
            DslIr::ImmV(v(2), 7),
            DslIr::Copy(Slot::V(3), Slot::V(2)),
            DslIr::Store(ptr(1), idx(Usize::Const(0), 1), Slot::V(3)),
            DslIr::ImmV(v(4), 8),
            DslIr::Copy(Slot::V(5), Slot::V(4)),
            DslIr::Store(ptr(1), idx(Usize::Const(1), 1), Slot::V(5)),
        ]
    );
}

#[test]
fn eval_const_of_rows_builds_each_row_after_the_descriptions() {
    let mut b = Builder::new();
    let a = <Array<Array<Var>> as FromConstant>::eval_const(&vec![vec![7], vec![8, 9]], &mut b);
    assert!(matches!(a, Array::Dyn(p, Usize::Var(l)) if p == ptr(1) && l == v(0)));
    let second = MemIndex { index: Usize::Const(0), offset: 1, size: 2 };
    let second_of_row_1 = MemIndex { index: Usize::Const(1), offset: 1, size: 2 };
    assert_eq!(
        b.operations,
        vec![
            DslIr::ImmV(v(0), 2),
            DslIr::Alloc(ptr(1), Usize::Var(v(0)), 2),
            DslIr::ImmV(v(2), 1),
            DslIr::Alloc(ptr(3), Usize::Var(v(2)), 1),
            DslIr::ImmV(v(4), 7),
            DslIr::Copy(Slot::V(5), Slot::V(4)),
            DslIr::Store(ptr(3), idx(Usize::Const(0), 1), Slot::V(5)),
            DslIr::Copy(Slot::V(6), Slot::V(3)),
            DslIr::Copy(Slot::V(7), Slot::V(2)),
            DslIr::Store(ptr(1), idx(Usize::Const(0), 2), Slot::V(6)),
            DslIr::Store(ptr(1), second, Slot::V(7)),
            DslIr::ImmV(v(8), 2),
            DslIr::Alloc(ptr(9), Usize::Var(v(8)), 1),
            DslIr::ImmV(v(10), 8),
            DslIr::Copy(Slot::V(11), Slot::V(10)),
            DslIr::Store(ptr(9), idx(Usize::Const(0), 1), Slot::V(11)),
            DslIr::ImmV(v(12), 9),
            DslIr::Copy(Slot::V(13), Slot::V(12)),
            DslIr::Store(ptr(9), idx(Usize::Const(1), 1), Slot::V(13)),
            DslIr::Copy(Slot::V(14), Slot::V(9)),
            DslIr::Copy(Slot::V(15), Slot::V(8)),
            DslIr::Store(ptr(1), idx(Usize::Const(1), 2), Slot::V(14)),
            DslIr::Store(ptr(1), second_of_row_1, Slot::V(15)),
        ]
    );
    assert_eq!(counts(&b), (16, 0, 0));
}

#[test]
fn duplicate_of_fixed_array_is_equal_elementwise() {
    let a: Array<Var> = Array::Fixed(vec![v(3), v(4)]);
    match a.duplicate() {
        Array::Fixed(d) => assert_eq!(d, vec![v(3), v(4)]),
        Array::Dyn(..) => panic!("expected a fixed array"),
    }
}

#[test]
fn materialize_and_assign_usize() {
    let mut b = Builder::new();
    let x = b.materialize(Usize::Const(12));
    assert_eq!(x, v(0));
    let y = b.materialize(Usize::Var(v(7)));
    assert_eq!(y, v(7));
    b.assert_usize_eq(Usize::Var(v(0)), Usize::Var(v(7)));
    assert_eq!(
        b.operations,
        vec![DslIr::ImmV(v(0), 12), DslIr::AssertEq(Slot::V(0), Slot::V(7))]
    );
}
