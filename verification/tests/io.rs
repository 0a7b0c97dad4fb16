use sp1_recursion_collections::io::{hint_slice, write_slice, SyscallWrite, SyscallWriter, FD_HINT, FD_IO};

#[test]
fn write_slice_makes_one_call_to_the_output() {
    let calls = write_slice(b"hello");
    assert_eq!(calls, vec![SyscallWrite { fd: FD_IO, bytes: b"hello".to_vec() }]);
    assert_eq!(FD_IO, 3);
}

#[test]
fn hint_slice_makes_one_call_to_the_hint_stream() {
    let calls = hint_slice(&[1, 2, 3]);
    assert_eq!(calls, vec![SyscallWrite { fd: FD_HINT, bytes: vec![1, 2, 3] }]);
    assert_eq!(FD_HINT, 4);
}

#[test]
fn empty_slices_make_no_call() {
    assert!(write_slice(&[]).is_empty());
    assert!(hint_slice(&[]).is_empty());
}

#[test]
fn writer_reports_every_byte_written() {
    let mut w = SyscallWriter::new(9);
    let (call, n) = w.write(&[5, 6]);
    assert_eq!(n, 2);
    assert_eq!(call, SyscallWrite { fd: 9, bytes: vec![5, 6] });
    assert_eq!(w.fd(), 9);
    w.flush();
    assert_eq!(w.fd(), 9);
    let calls = w.write_all(&[1]);
    assert_eq!(calls, vec![SyscallWrite { fd: 9, bytes: vec![1] }]);
}
