use sp1_recursion_collections::collections::Array;
use sp1_recursion_collections::fri::{reduce, verify_batch, Dimensions, DIGEST_SIZE};
use sp1_recursion_collections::ir::{Builder, DslIr, Ext, Felt, MemIndex, Ptr, Slot, Usize, Var};

fn v(id: u32) -> Var {
    Var { id }
}

fn ptr(id: u32) -> Ptr {
    Ptr { address: v(id) }
}

fn idx(index: Usize, size: usize) -> MemIndex {
    MemIndex { index, offset: 0, size }
}

#[test]
fn ext2felt_writes_four_coefficients_to_a_fresh_array() {
    let mut b = Builder::new();
    let e = b.uninit_ext();
    let a = b.ext2felt(e);
    assert!(matches!(a, Array::Dyn(p, Usize::Var(l)) if p == ptr(1) && l == v(0)));
    assert_eq!(
        b.operations,
        vec![
            DslIr::ImmV(v(0), 4),
            DslIr::Alloc(ptr(1), Usize::Var(v(0)), 1),
            DslIr::Ext2Felt(ptr(1), Usize::Var(v(0)), e),
        ]
    );
}

#[test]
fn poseidon2_hash_and_compress_write_a_digest() {
    let mut b = Builder::new();
    let input: Array<Felt> = Array::Dyn(ptr(20), Usize::Var(v(21)));
    let other: Array<Felt> = Array::Dyn(ptr(22), Usize::Const(8));
    let h = b.poseidon2_hash(&input);
    let c = b.poseidon2_compress(&h, &other);
    assert_eq!(DIGEST_SIZE, 8);
    assert_eq!(
        b.operations,
        vec![
            DslIr::ImmV(v(0), 8),
            DslIr::Alloc(ptr(1), Usize::Var(v(0)), 1),
            DslIr::Poseidon2Hash(ptr(1), Usize::Var(v(0)), ptr(20), Usize::Var(v(21))),
            DslIr::ImmV(v(2), 8),
            DslIr::Alloc(ptr(3), Usize::Var(v(2)), 1),
            DslIr::Poseidon2Compress(
                ptr(3),
                Usize::Var(v(2)),
                ptr(1),
                Usize::Var(v(0)),
                ptr(22),
                Usize::Const(8)
            ),
        ]
    );
    assert!(matches!(c, Array::Dyn(p, _) if p == ptr(3)));
}

#[test]
fn reduce_flattens_rows_of_the_current_height_then_hashes() {
    let mut b = Builder::new();
    b.var_count = 10;
    let dims: Array<Dimensions> = Array::Dyn(ptr(0), Usize::Var(v(1)));
    let opened: Array<Array<Ext>> = Array::Dyn(ptr(2), Usize::Var(v(3)));
    let digest = reduce::<4>(&mut b, v(4), &dims, v(5), &opened);
    assert_eq!((b.var_count, b.felt_count, b.ext_count), (23, 8, 1));
    assert!(matches!(digest, Array::Dyn(p, Usize::Var(l)) if p == ptr(22) && l == v(21)));
    let ops = &b.operations;
    assert_eq!(ops[0], DslIr::ImmV(v(10), 0));
    assert_eq!(ops[1], DslIr::ImmV(v(11), 8192));
    assert_eq!(ops[2], DslIr::Alloc(ptr(12), Usize::Var(v(11)), 1));
    assert_eq!(ops[3], DslIr::Copy(Slot::V(13), Slot::V(4)));
    match &ops[4] {
        DslIr::For(start, end, step, i, body) => {
            assert_eq!((*start, *end, *step, *i), (Usize::Var(v(13)), Usize::Var(v(1)), 1, v(14)));
            assert_eq!(body[0], DslIr::Load(Slot::V(15), ptr(0), idx(Usize::Var(v(14)), 1)));
            match &body[1] {
                DslIr::IfEq(h, curr, then_ops, else_ops) => {
                    assert_eq!((*h, *curr), (v(15), v(5)));
                    assert!(else_ops.is_empty());
                    assert_eq!(then_ops.len(), 4);
                    assert_eq!(then_ops[3], DslIr::AddVI(v(4), v(4), 1));
                    match &then_ops[2] {
                        DslIr::For(_, end, _, j, inner) => {
                            assert_eq!((*end, *j), (Usize::Var(v(17)), v(18)));
                            // one load, the four-cell array and its filling, then four
                            // get / copy / store / advance groups
                            assert_eq!(inner.len(), 4 + 4 * 4);
                            assert_eq!(inner[4], DslIr::Load(Slot::F(0), ptr(20), idx(Usize::Const(0), 1)));
                            assert_eq!(inner[5], DslIr::Copy(Slot::F(1), Slot::F(0)));
                            assert_eq!(
                                inner[6],
                                DslIr::Store(ptr(12), idx(Usize::Var(v(10)), 1), Slot::F(1))
                            );
                            assert_eq!(inner[7], DslIr::AddVI(v(10), v(10), 1));
                        }
                        other => panic!("expected a loop, found {:?}", other),
                    }
                }
                other => panic!("expected a branch, found {:?}", other),
            }
        }
        other => panic!("expected a loop, found {:?}", other),
    }
    assert_eq!(ops[5], DslIr::Copy(Slot::V(11), Slot::V(10)));
    assert_eq!(
        ops[8],
        DslIr::Poseidon2Hash(ptr(22), Usize::Var(v(21)), ptr(12), Usize::Var(v(11)))
    );
    assert_eq!(ops.len(), 9);
}

#[test]
fn verify_batch_walks_the_path_and_checks_the_commitment() {
    let mut b = Builder::new();
    b.var_count = 10;
    let commit: Array<Felt> = Array::Dyn(ptr(0), Usize::Const(8));
    let dims: Array<Dimensions> = Array::Dyn(ptr(1), Usize::Var(v(2)));
    let bits: Array<Var> = Array::Dyn(ptr(3), Usize::Var(v(4)));
    let opened: Array<Array<Ext>> = Array::Dyn(ptr(5), Usize::Var(v(6)));
    let proof: Array<Array<Felt>> = Array::Dyn(ptr(7), Usize::Var(v(8)));
    verify_batch::<4>(&mut b, &commit, dims, bits, opened, &proof);
    assert_eq!((b.var_count, b.felt_count, b.ext_count), (53, 18, 2));
    let ops = &b.operations;
    assert_eq!(ops[0], DslIr::ImmV(v(10), 0));
    assert_eq!(ops[1], DslIr::Load(Slot::V(11), ptr(1), idx(Usize::Var(v(10)), 1)));
    // the root is hashed from the tallest tables, then `one` is set
    assert!(matches!(ops[10], DslIr::Poseidon2Hash(..)));
    assert_eq!(ops[11], DslIr::ImmV(v(25), 1));
    match &ops[12] {
        DslIr::For(start, end, _, i, body) => {
            assert_eq!((*start, *end, *i), (Usize::Const(0), Usize::Var(v(8)), v(26)));
            assert!(matches!(body[3], DslIr::IfEqI(bit, 1, _, _) if bit == v(29)));
            assert!(body.iter().any(|op| *op == DslIr::MulVI(v(11), v(11), 1006632961)));
            assert!(matches!(body.last(), Some(DslIr::IfNe(x, len, _, _)) if *x == v(10) && *len == v(2)));
        }
        other => panic!("expected a loop, found {:?}", other),
    }
    match &ops[13] {
        DslIr::For(start, end, _, j, body) => {
            assert_eq!((*start, *end), (Usize::Const(0), Usize::Const(8)));
            assert_eq!(*j, v(52));
            assert_eq!(body[2], DslIr::AssertEq(Slot::F(16), Slot::F(17)));
        }
        other => panic!("expected a loop, found {:?}", other),
    }
    assert_eq!(ops.len(), 14);
}
