//! Output of a guest program: which bytes go to which host file descriptor, in which
//! `syscall_write` calls. The calls themselves are made by the caller.

use vstd::prelude::*;

verus! {

/// The descriptor of the program's public output.
pub const FD_IO: u32 = 3;

/// The descriptor of the hint stream.
pub const FD_HINT: u32 = 4;

/// One `syscall_write(fd, bytes.as_ptr(), bytes.len())`.
#[derive(Debug, PartialEq, Eq)]
pub struct SyscallWrite {
    pub fd: u32,
    pub bytes: Vec<u8>,
}

impl View for SyscallWrite {
    type V = (u32, Seq<u8>);

    open spec fn view(&self) -> (u32, Seq<u8>) {
        (self.fd, self.bytes@)
    }
}

/// A writer to a host file descriptor.
pub struct SyscallWriter {
    fd: u32,
}

/// The calls that writing all of `buf` to `fd` makes: none for an empty buffer, else a
/// single call with the whole buffer.
pub open spec fn write_all_calls(fd: u32, buf: Seq<u8>) -> Seq<(u32, Seq<u8>)> {
    if buf.len() == 0 {
        Seq::empty()
    } else {
        seq![(fd, buf)]
    }
}

/// The bytes of a sequence of calls, one call after the other.
pub open spec fn sent_bytes(calls: Seq<(u32, Seq<u8>)>) -> Seq<u8>
    decreases calls.len(),
{
    if calls.len() == 0 {
        Seq::empty()
    } else {
        sent_bytes(calls.drop_last()) + calls.last().1
    }
}

/// Writing all of a buffer sends exactly its bytes, in order, every call to the writer's
/// descriptor and none of them empty.
pub proof fn law_write_all_sends_the_buffer(fd: u32, buf: Seq<u8>)
    ensures
        sent_bytes(write_all_calls(fd, buf)) == buf,
        forall|k: int| 0 <= k < write_all_calls(fd, buf).len() ==> (#[trigger] write_all_calls(fd, buf)[k]).0 == fd,
        forall|k: int| 0 <= k < write_all_calls(fd, buf).len() ==> (#[trigger] write_all_calls(fd, buf)[k]).1.len() > 0,
{
    let calls = write_all_calls(fd, buf);
    if buf.len() == 0 {
        assert(sent_bytes(calls) =~= buf);
    } else {
        assert(calls.drop_last() =~= Seq::<(u32, Seq<u8>)>::empty());
        assert(sent_bytes(calls.drop_last()) =~= Seq::<u8>::empty());
        assert(sent_bytes(calls) =~= buf);
    }
}

/// The models of a sequence of calls.
pub open spec fn calls_view(calls: Seq<SyscallWrite>) -> Seq<(u32, Seq<u8>)> {
    calls.map_values(|c: SyscallWrite| c@)
}

impl SyscallWriter {
    pub closed spec fn spec_fd(&self) -> u32 {
        self.fd
    }

    /// A writer to descriptor `fd`.
    pub fn new(fd: u32) -> (r: SyscallWriter)
        ensures
            r.spec_fd() == fd,
    {
        SyscallWriter { fd }
    }

    /// The descriptor written to.
    pub fn fd(&self) -> (r: u32)
        ensures
            r == self.spec_fd(),
    {
        self.fd
    }

    /// Writes `buf` with one call, and reports every byte as written.
    pub fn write(&mut self, buf: &[u8]) -> (r: (SyscallWrite, usize))
        ensures
            r.0@ == (old(self).spec_fd(), buf@),
            r.1 == buf@.len(),
            final(self).spec_fd() == old(self).spec_fd(),
    {
        let nbytes = buf.len();
        let call = SyscallWrite { fd: self.fd, bytes: vstd::slice::slice_to_vec(buf) };
        (call, nbytes)
    }

    /// Nothing is buffered, so there is nothing to flush.
    pub fn flush(&mut self)
        ensures
            final(self).spec_fd() == old(self).spec_fd(),
    {
    }

    /// Writes all of `buf`: calls `write` on what is left until nothing is.
    pub fn write_all(&mut self, buf: &[u8]) -> (r: Vec<SyscallWrite>)
        ensures
            calls_view(r@) == write_all_calls(old(self).spec_fd(), buf@),
            sent_bytes(calls_view(r@)) == buf@,
            forall|k: int| 0 <= k < r@.len() ==> (#[trigger] r@[k]).fd == old(self).spec_fd(),
            final(self).spec_fd() == old(self).spec_fd(),
    {
        let ghost fd = self.spec_fd();
        let len = buf.len();
        let mut pos: usize = 0;
        let mut calls: Vec<SyscallWrite> = Vec::new();
        while pos < len
            invariant
                len == buf@.len(),
                self.spec_fd() == fd,
                pos == 0 || pos == len,
                pos == 0 ==> calls@.len() == 0,
                pos == len && len > 0 ==> calls_view(calls@) == seq![(fd, buf@)],
            decreases len - pos,
        {
            let rest = &buf[pos..len];
            let (call, n) = self.write(rest);
            assert(rest@ =~= buf@);
            calls.push(call);
            assert(calls_view(calls@) =~= seq![(fd, buf@)]);
            pos = pos + n;
        }
        proof {
            if len == 0 {
                assert(calls_view(calls@) =~= Seq::<(u32, Seq<u8>)>::empty());
            }
            law_write_all_sends_the_buffer(fd, buf@);
            assert forall|k: int| 0 <= k < calls@.len() implies (#[trigger] calls@[k]).fd == fd by {
                assert(calls_view(calls@)[k] == calls@[k]@);
            }
        }
        calls
    }
}

/// The calls that commit `buf` to the public output.
pub fn write_slice(buf: &[u8]) -> (r: Vec<SyscallWrite>)
    ensures
        calls_view(r@) == write_all_calls(FD_IO, buf@),
        sent_bytes(calls_view(r@)) == buf@,
        forall|k: int| 0 <= k < r@.len() ==> (#[trigger] r@[k]).fd == FD_IO,
{
    let mut my_writer = SyscallWriter::new(FD_IO);
    my_writer.write_all(buf)
}

/// The calls that pass `buf` to the hint stream.
pub fn hint_slice(buf: &[u8]) -> (r: Vec<SyscallWrite>)
    ensures
        calls_view(r@) == write_all_calls(FD_HINT, buf@),
        sent_bytes(calls_view(r@)) == buf@,
        forall|k: int| 0 <= k < r@.len() ==> (#[trigger] r@[k]).fd == FD_HINT,
{
    let mut my_writer = SyscallWriter::new(FD_HINT);
    my_writer.write_all(buf)
}

} // verus!
