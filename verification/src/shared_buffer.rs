//! Safe access to memory that is shared with an untrusted party.
//!
//! A `SharedBuffer` is a view into a region of memory to which another
//! process has access. Each byte of that memory is an `AtomicU8`, so the
//! memory can be read and written through shared references while the other
//! party changes it at any moment; no Rust reference to the bytes as plain
//! data is ever formed. Since the other party may write at any time, nothing
//! that was written can be assumed to be read back. The contracts below say
//! how many bytes are copied and which cell each one is loaded from or stored
//! to (through `load_byte` and `store_byte`), never what a cell holds later.
use std::sync::atomic::AtomicU8;
use std::sync::atomic::Ordering;
use vstd::prelude::*;

verus! {

/// How many of `want` bytes starting at `offset` fit in `avail` bytes
/// (for `offset <= avail`).
pub open spec fn span_len(offset: nat, want: nat, avail: nat) -> nat {
    if offset + want <= avail {
        want
    } else {
        (avail - offset) as nat
    }
}

/// Verifies that `offset` is in range of `range_len` (`offset <= range_len`),
/// and returns the amount of overlap between a copy of length `copy_len`
/// starting at `offset` and a buffer of length `range_len`. The number it
/// returns is at most `range_len`, and at most `range_len - offset`. It is
/// correct for any three `usize` values.
pub fn overlap(offset: usize, copy_len: usize, range_len: usize) -> (r: Option<usize>)
    ensures
        r is None <==> offset > range_len,
        r matches Some(n) ==> n == span_len(offset as nat, copy_len as nat, range_len as nat),
        r matches Some(n) ==> n <= range_len && offset + n <= range_len && n <= copy_len,
{
    if offset > range_len {
        None
    } else if match offset.checked_add(copy_len) {
        // if `offset + copy_len` overflows, then it exceeds `range_len`
        Some(sum) => sum <= range_len,
        None => false,
    } {
        Some(copy_len)
    } else {
        Some(range_len - offset)
    }
}

/// Where a buffer lies in the memory it views: `len` bytes from `start`.
pub struct BufferView {
    pub start: nat,
    pub len: nat,
}

impl BufferView {
    /// The part `[from, to)` of this view.
    pub open spec fn sub_view(self, from: nat, to: nat) -> BufferView {
        BufferView { start: self.start + from, len: (to - from) as nat }
    }
}

/// A shared region of memory.
///
/// Since the buffer is shared by an untrusted process, it is never valid to
/// assume that a given region of the buffer will not change in between
/// method calls. Even if no thread in this process wrote anything to the
/// buffer, the other process might have.
pub struct SharedBuffer<'a> {
    mem: &'a [AtomicU8],
    start: usize,
    len: usize,
}

impl<'a> View for SharedBuffer<'a> {
    type V = BufferView;

    closed spec fn view(&self) -> BufferView {
        BufferView { start: self.start as nat, len: self.len as nat }
    }
}

impl<'a> SharedBuffer<'a> {
    #[verifier::type_invariant]
    spec fn inside_memory(self) -> bool {
        self.start + self.len <= self.mem@.len()
    }

    /// The whole memory that this buffer is a view into.
    pub closed spec fn memory(&self) -> Seq<AtomicU8> {
        self.mem@
    }

    proof fn lemma_memory_fits(&self)
        ensures
            self.mem@.len() <= usize::MAX,
    {
        broadcast use vstd::slice::group_slice_axioms;

        assert(self.mem@.len() == vstd::slice::spec_slice_len(self.mem));
    }

    /// Creates a `SharedBuffer` that views all of `mem`.
    ///
    /// The lifetime ties the buffer to the memory, so that it does not live
    /// beyond the point at which the memory is unmapped or returned to the
    /// other process.
    pub fn new(mem: &'a [AtomicU8]) -> (b: SharedBuffer<'a>)
        ensures
            b.memory() == mem@,
            b@.start == 0,
            b@.len == mem@.len(),
    {
        SharedBuffer { mem, start: 0, len: mem.len() }
    }

    /// Read bytes from the buffer.
    ///
    /// Reads up to `dst.len()` bytes from the start of the buffer, returning
    /// how many bytes were read. The only thing that can cause fewer bytes to
    /// be read than requested is if `dst` is larger than the buffer itself.
    pub fn read(&self, dst: &mut [u8]) -> (n: usize)
        ensures
            n == span_len(0, old(dst)@.len(), self@.len),
            final(dst)@.len() == old(dst)@.len(),
            forall|k: int|
                0 <= k < n ==> call_ensures(
                    load_byte,
                    (&self.memory()[self@.start + k],),
                    #[trigger] final(dst)@[k],
                ),
            final(dst)@.subrange(n as int, old(dst)@.len() as int) == old(dst)@.subrange(
                n as int,
                old(dst)@.len() as int,
            ),
    {
        self.read_at(0, dst)
    }

    /// Read bytes from the buffer at an offset.
    ///
    /// Reads up to `dst.len()` bytes starting at `offset` into the buffer,
    /// returning how many bytes were read. The only thing that can cause
    /// fewer bytes to be read than requested is if there are fewer than
    /// `dst.len()` bytes available starting at `offset` within the buffer.
    /// Byte `k` of `dst` is what was loaded from byte `offset + k` of the
    /// buffer; the bytes of `dst` past those read are left as they were.
    pub fn read_at(&self, offset: usize, dst: &mut [u8]) -> (n: usize)
        requires
            offset <= self@.len,
        ensures
            n == span_len(offset as nat, old(dst)@.len(), self@.len),
            final(dst)@.len() == old(dst)@.len(),
            forall|k: int|
                0 <= k < n ==> call_ensures(
                    load_byte,
                    (&self.memory()[self@.start + offset + k],),
                    #[trigger] final(dst)@[k],
                ),
            final(dst)@.subrange(n as int, old(dst)@.len() as int) == old(dst)@.subrange(
                n as int,
                old(dst)@.len() as int,
            ),
    {
        proof {
            use_type_invariant(self);
            self.lemma_memory_fits();
        }
        let to_copy = overlap(offset, dst.len(), self.len).unwrap();
        // `offset + to_copy <= self.len`, so the copy stays inside the memory.
        let base = offset_from(self.start, offset);
        let ghost old_dst = dst@;
        let mut i: usize = 0;
        while i < to_copy
            invariant
                to_copy <= dst@.len(),
                base + to_copy <= self.mem@.len(),
                self.mem@.len() <= usize::MAX,
                i <= to_copy,
                dst@.len() == old_dst.len(),
                base == self.start + offset,
                forall|j: int| to_copy <= j < old_dst.len() ==> dst@[j] == old_dst[j],
                forall|k: int|
                    0 <= k < i ==> call_ensures(load_byte, (&self.mem@[base + k],), #[trigger] dst@[k]),
            decreases to_copy - i,
        {
            dst[i] = load_byte(&self.mem[base + i]);
            i = i + 1;
        }
        assert(dst@.subrange(to_copy as int, old_dst.len() as int) =~= old_dst.subrange(
            to_copy as int,
            old_dst.len() as int,
        ));
        to_copy
    }

    /// Write bytes to the buffer.
    ///
    /// Writes up to `src.len()` bytes to the start of the buffer, returning
    /// how many bytes were written. The only thing that can cause fewer bytes
    /// to be written than requested is if `src` is larger than the buffer
    /// itself.
    ///
    /// A call to `write` is only guaranteed to happen before an operation in
    /// another thread or process if the mechanism used to signal the other
    /// process has well-defined memory ordering semantics. Otherwise,
    /// `release_writes` must be called after `write` and before signalling
    /// the other process.
    pub fn write(&self, src: &[u8]) -> (n: usize)
        ensures
            n == span_len(0, src@.len(), self@.len),
            forall|k: int|
                0 <= k < n ==> call_ensures(
                    store_byte,
                    (&self.memory()[self@.start + k], #[trigger] src@[k]),
                    (),
                ),
    {
        self.write_at(0, src)
    }

    /// Write bytes to the buffer at an offset.
    ///
    /// Writes up to `src.len()` bytes starting at `offset` into the buffer,
    /// returning how many bytes were written. The only thing that can cause
    /// fewer bytes to be written than requested is if there are fewer than
    /// `src.len()` bytes available starting at `offset` within the buffer.
    ///
    /// Byte `k` of `src` is stored to byte `offset + k` of the buffer. As for
    /// `write`, `release_writes` orders these writes before a signal to the
    /// other process.
    pub fn write_at(&self, offset: usize, src: &[u8]) -> (n: usize)
        requires
            offset <= self@.len,
        ensures
            n == span_len(offset as nat, src@.len(), self@.len),
            forall|k: int|
                0 <= k < n ==> call_ensures(
                    store_byte,
                    (&self.memory()[self@.start + offset + k], #[trigger] src@[k]),
                    (),
                ),
    {
        proof {
            use_type_invariant(self);
            self.lemma_memory_fits();
        }
        let to_copy = overlap(offset, src.len(), self.len).unwrap();
        // `offset + to_copy <= self.len`, so the copy stays inside the memory.
        let base = offset_from(self.start, offset);
        let mut i: usize = 0;
        while i < to_copy
            invariant
                to_copy <= src@.len(),
                base + to_copy <= self.mem@.len(),
                self.mem@.len() <= usize::MAX,
                i <= to_copy,
                base == self.start + offset,
                forall|k: int|
                    0 <= k < i ==> call_ensures(store_byte, (&self.mem@[base + k], #[trigger] src@[k]), ()),
            decreases to_copy - i,
        {
            store_byte(&self.mem[base + i], src[i]);
            i = i + 1;
        }
        to_copy
    }

    /// Atomically release all writes performed so far.
    ///
    /// On systems where the mechanism used to signal the other process that
    /// memory is readable has no well-defined synchronization semantics, this
    /// method must be called before such signalling, or else writes performed
    /// before that signal are not guaranteed to be observed by the other
    /// process.
    pub fn release_writes(&self) {
        release_fence();
    }

    /// Create a slice of this `SharedBuffer`.
    ///
    /// Just like the slicing operation on array and slice references, `slice`
    /// constructs a new `SharedBuffer` which points to the same memory as the
    /// parent, but starting at index `from` (inclusive) and ending at index
    /// `to` (exclusive).
    pub fn slice(&self, from: usize, to: usize) -> (s: SharedBuffer<'a>)
        requires
            to <= self@.len,
            from <= to,
        ensures
            s.memory() == self.memory(),
            s@ == self@.sub_view(from as nat, to as nat),
    {
        proof {
            use_type_invariant(self);
            self.lemma_memory_fits();
        }
        let len = to - from;
        let start = offset_from(self.start, from);
        SharedBuffer { mem: self.mem, start, len }
    }

    /// The number of bytes in this `SharedBuffer`.
    pub fn len(&self) -> (n: usize)
        ensures
            n == self@.len,
    {
        self.len
    }
}

impl<'a> Clone for SharedBuffer<'a> {
    /// Another view of the same bytes of the same memory.
    fn clone(&self) -> (c: Self)
        ensures
            c.memory() == self.memory(),
            c@ == self@,
    {
        proof {
            use_type_invariant(self);
            self.lemma_memory_fits();
        }
        SharedBuffer { mem: self.mem, start: self.start, len: self.len }
    }
}

/// Index `start + offset`, which must not overflow.
fn offset_from(start: usize, offset: usize) -> (r: usize)
    requires
        start + offset <= usize::MAX,
    ensures
        r == start + offset,
{
    start.checked_add(offset).unwrap()
}

/// The byte that `cell` holds now. The memory is shared with another party
/// that may write it at any moment, so any `u8` may come back: no contract
/// can name the value (vstd gives `AtomicU8::load` none either).
pub fn load_byte(cell: &AtomicU8) -> u8 {
    cell.load(Ordering::Relaxed)
}

/// Stores `b` into `cell`. The other party may overwrite it at any moment,
/// so nothing is promised of what `cell` holds afterwards.
pub fn store_byte(cell: &AtomicU8, b: u8) {
    cell.store(b, Ordering::Relaxed)
}

/// Calls `std::sync::atomic::fence` with `Ordering::Release`: every write made
/// by this thread before the call happens before any write made after it, as
/// seen by a thread that synchronizes with a later acquire. It changes no
/// value and returns nothing, so there is nothing for a contract to state.
#[verifier::external_body]
fn release_fence() {
    std::sync::atomic::fence(Ordering::Release);
}

/// A copy moves as many bytes as fit: all that are asked for, or all up to
/// the end of the buffer, never more.
pub proof fn lemma_span_len_fits(offset: nat, want: nat, avail: nat)
    requires
        offset <= avail,
    ensures
        span_len(offset, want, avail) <= want,
        offset + span_len(offset, want, avail) <= avail,
        span_len(offset, want, avail) == want || offset + span_len(offset, want, avail) == avail,
{
}

/// Slicing twice views the same bytes as slicing once.
pub proof fn lemma_slice_of_slice(v: BufferView, a: nat, b: nat, c: nat, d: nat)
    requires
        a <= b <= v.len,
        c <= d <= b - a,
    ensures
        v.sub_view(a, b).sub_view(c, d) == v.sub_view(a + c, a + d),
{
}

} // verus!
