use vstd::prelude::*;

use super::binary::Binary;
use super::copy_range;
use super::bt::{read_available, read_outcome, Bt};

verus! {

/// Once the buffer holds this many bytes, consumed bytes at its front may be
/// dropped by moving the unread ones down.
pub const RESORT_MEMORY_SIZE: usize = 102400;

/// The spare capacity of a vector.
///
/// Calls `Vec::capacity`; as its documentation says, the capacity is at least
/// the length.
#[verifier::external_body]
fn vec_capacity(v: &Vec<u8>) -> (res: usize)
    ensures
        res >= v@.len(),
{
    v.capacity()
}

/// A growable byte buffer with a read cursor: bytes are appended at the write
/// position and consumed from the cursor.
pub struct BinaryMut {
    vec: Vec<u8>,
    cursor: usize,
    wpos: usize,
    mark: usize,
    resort: usize,
}

impl View for BinaryMut {
    type V = Seq<u8>;

    /// The unread bytes.
    open spec fn view(&self) -> Seq<u8> {
        self.written().subrange(self.spec_cursor() as int, self.written().len() as int)
    }
}

impl BinaryMut {
    /// All bytes written and still kept, read or not.
    pub closed spec fn written(&self) -> Seq<u8> {
        self.vec@.subrange(0, self.wpos as int)
    }

    /// Position of the read cursor within `written`.
    pub closed spec fn spec_cursor(&self) -> usize {
        self.cursor
    }

    /// How many bytes the buffer keeps storage filled for, at least the
    /// bytes written.
    pub closed spec fn spec_stored(&self) -> nat {
        self.vec@.len()
    }

    /// Whether `try_resort_memory` moves the unread bytes to the front: the
    /// storage has reached the resort size, the cursor half of it, and at
    /// most half of the storage is unread.
    pub open spec fn resorts(&self) -> bool {
        &&& self.spec_stored() >= self.spec_resort()
        &&& self.spec_cursor() >= self.spec_resort() / 2
        &&& 2 * self@.len() <= self.spec_stored()
    }

    /// The remembered cursor position, `usize::MAX` when none.
    pub closed spec fn spec_mark(&self) -> usize {
        self.mark
    }

    /// The size from which consumed bytes may be dropped.
    pub closed spec fn spec_resort(&self) -> usize {
        self.resort
    }

    /// Internal consistency.
    pub closed spec fn wf(&self) -> bool {
        &&& self.cursor <= self.wpos
        &&& self.wpos <= self.vec@.len()
    }

    /// Facts of every well-formed buffer.
    pub proof fn lemma_wf(&self)
        requires
            self.wf(),
        ensures
            self.spec_cursor() <= self.written().len(),
            self@.len() == self.written().len() - self.spec_cursor(),
    {
    }

    /// An empty buffer with room for `n` bytes.
    pub fn with_capacity(n: usize) -> (res: BinaryMut)
        ensures
            res.wf(),
            res@ == Seq::<u8>::empty(),
            res.written() == Seq::<u8>::empty(),
            res.spec_stored() == 0,
            res.spec_cursor() == 0,
            res.spec_mark() == usize::MAX,
            res.spec_resort() == RESORT_MEMORY_SIZE,
    {
        BinaryMut::from_vec(Vec::with_capacity(n))
    }

    /// An empty buffer.
    pub fn new() -> (res: BinaryMut)
        ensures
            res.wf(),
            res@ == Seq::<u8>::empty(),
            res.written() == Seq::<u8>::empty(),
            res.spec_stored() == 0,
            res.spec_cursor() == 0,
            res.spec_mark() == usize::MAX,
            res.spec_resort() == RESORT_MEMORY_SIZE,
    {
        BinaryMut::with_capacity(0)
    }

    /// A buffer whose unread bytes are those of `vec`.
    pub fn from_vec(vec: Vec<u8>) -> (res: BinaryMut)
        ensures
            res.wf(),
            res@ == vec@,
            res.written() == vec@,
            res.spec_stored() == vec@.len(),
            res.spec_cursor() == 0,
            res.spec_mark() == usize::MAX,
            res.spec_resort() == RESORT_MEMORY_SIZE,
    {
        let res = BinaryMut { wpos: vec.len(), vec, cursor: 0, mark: usize::MAX, resort: RESORT_MEMORY_SIZE };
        proof {
            assert(res.written() =~= vec@);
            assert(res@ =~= vec@);
        }
        res
    }

    /// The unread bytes, copied out.
    pub fn into_slice_all(self) -> (res: Vec<u8>)
        requires
            self.wf(),
        ensures
            res@ == self@,
    {
        let res = copy_range(self.vec.as_slice(), self.cursor, self.wpos);
        proof {
            assert(res@ =~= self@);
        }
        res
    }

    /// The unread bytes.
    pub fn as_slice(&self) -> (res: &[u8])
        requires
            self.wf(),
        ensures
            res@ == self@,
    {
        let s = self.vec.as_slice();
        let res = &s[self.cursor..self.wpos];
        proof {
            assert(res@ =~= self@);
        }
        res
    }

    /// Consumes `by` unread bytes.
    fn inc_start(&mut self, by: usize)
        requires
            old(self).wf(),
            by <= old(self)@.len(),
        ensures
            final(self).wf(),
            final(self).written() == old(self).written(),
            final(self).spec_cursor() == old(self).spec_cursor() + by,
            final(self).spec_mark() == old(self).spec_mark(),
            final(self).spec_resort() == old(self).spec_resort(),
            final(self)@ == old(self)@.subrange(by as int, old(self)@.len() as int),
    {
        self.cursor = self.cursor + by;
        proof {
            assert(self@ =~= old(self)@.subrange(by as int, old(self)@.len() as int));
        }
    }

    /// Number of unread bytes.
    pub fn len(&self) -> (res: usize)
        requires
            self.wf(),
        ensures
            res == self@.len(),
    {
        self.wpos - self.cursor
    }

    /// Position of the read cursor.
    pub fn cursor(&self) -> (res: usize)
        ensures
            res == self.spec_cursor(),
    {
        self.cursor
    }

    /// Drops every byte.
    pub fn clear(&mut self)
        requires
            old(self).wf(),
        ensures
            final(self).wf(),
            final(self)@ == Seq::<u8>::empty(),
            final(self).written() == Seq::<u8>::empty(),
            final(self).spec_cursor() == 0,
            final(self).spec_mark() == old(self).spec_mark(),
            final(self).spec_resort() == old(self).spec_resort(),
    {
        self.cursor = 0;
        self.wpos = 0;
        proof {
            assert(self.written() =~= Seq::<u8>::empty());
            assert(self@ =~= Seq::<u8>::empty());
        }
    }

    /// Whether no byte is left to read.
    pub fn is_empty(&self) -> (res: bool)
        requires
            self.wf(),
        ensures
            res == (self@.len() == 0),
    {
        self.len() == 0
    }

    /// The room the buffer has without growing.
    pub fn capacity(&self) -> (res: usize)
        requires
            self.wf(),
        ensures
            res >= self.written().len(),
    {
        vec_capacity(&self.vec)
    }

    /// Makes room for at least `additional` more bytes.
    pub fn reserve(&mut self, additional: usize)
        requires
            old(self).wf(),
        ensures
            final(self).wf(),
            final(self)@ == old(self)@,
            final(self).written() == old(self).written(),
            final(self).spec_cursor() == old(self).spec_cursor(),
            final(self).spec_mark() == old(self).spec_mark(),
            final(self).spec_resort() == old(self).spec_resort(),
            final(self).spec_stored() == old(self).spec_stored(),
    {
        let len = self.vec.len();
        let cap = vec_capacity(&self.vec);
        if cap - len >= additional {
            return;
        }
        self.vec.reserve(additional);
    }

    /// Appends the bytes of `buf` and gives their number.
    pub fn write(&mut self, buf: &[u8]) -> (res: Result<usize, std::io::Error>)
        requires
            old(self).wf(),
            old(self).written().len() + buf@.len() <= usize::MAX,
        ensures
            final(self).wf(),
            final(self)@ == old(self)@ + buf@,
            final(self).written().len() <= old(self).written().len() + buf@.len(),
            final(self).spec_resort() == old(self).spec_resort(),
            res == Ok::<usize, std::io::Error>(buf@.len() as usize),
    {
        Ok(self.put_slice(buf))
    }

    /// Nothing is held back, so nothing is done.
    pub fn flush(&mut self) -> (res: Result<(), std::io::Error>)
        ensures
            *final(self) == *old(self),
            res is Ok,
    {
        Ok(())
    }

    /// Appends every byte left in the reader `src`.
    pub fn put<T: Bt>(&mut self, src: T)
        requires
            old(self).wf(),
            src.valid(),
            old(self).written().len() + src.unread().len() <= usize::MAX,
        ensures
            final(self).wf(),
            final(self)@ == old(self)@ + src.unread(),
            final(self).spec_resort() == old(self).spec_resort(),
    {
        let ghost whole = src.unread();
        let mut src = src;
        while src.has_remaining()
            invariant
                self.wf(),
                src.valid(),
                src.unread().len() <= whole.len(),
                whole.skip(whole.len() - src.unread().len()) == src.unread(),
                self@ == old(self)@ + whole.take(whole.len() - src.unread().len()),
                self.written().len() + src.unread().len() <= usize::MAX,
                self.spec_resort() == old(self).spec_resort(),
            decreases src.unread().len(),
        {
            let ghost before = src.unread();
            let s = src.chunk();
            let l = s.len();
            self.extend_from_slice(s);
            src.advance(l);
            proof {
                let k = whole.len() - before.len();
                assert(whole.take(k + l) =~= whole.take(k) + before);
                assert(whole.skip(k + l) =~= src.unread());
            }
        }
        proof {
            assert(whole.take(whole.len() as int) =~= whole);
        }
    }

    /// Appends the bytes of `src`; gives the number appended.
    pub fn put_slice(&mut self, src: &[u8]) -> (res: usize)
        requires
            old(self).wf(),
            old(self).written().len() + src@.len() <= usize::MAX,
        ensures
            final(self).wf(),
            final(self)@ == old(self)@ + src@,
            final(self).written().len() <= old(self).written().len() + src@.len(),
            final(self).spec_resort() == old(self).spec_resort(),
            final(self).spec_mark() == old(self).spec_mark() || final(self).spec_mark() == usize::MAX,
            old(self).spec_stored() < old(self).spec_resort()
                && old(self).written().len() + src@.len() < old(self).spec_resort() ==> {
                &&& final(self).written() == old(self).written() + src@
                &&& final(self).spec_cursor() == old(self).spec_cursor()
                &&& final(self).spec_mark() == old(self).spec_mark()
            },
            res == src@.len(),
    {
        self.extend_from_slice(src);
        src.len()
    }

    /// Appends the bytes of `extend`.
    pub fn extend_from_slice(&mut self, extend: &[u8])
        requires
            old(self).wf(),
            old(self).written().len() + extend@.len() <= usize::MAX,
        ensures
            final(self).wf(),
            final(self)@ == old(self)@ + extend@,
            final(self).written().len() <= old(self).written().len() + extend@.len(),
            final(self).spec_resort() == old(self).spec_resort(),
            final(self).spec_mark() == old(self).spec_mark() || final(self).spec_mark() == usize::MAX,
            old(self).spec_stored() < old(self).spec_resort()
                && old(self).written().len() + extend@.len() < old(self).spec_resort() ==> {
                &&& final(self).written() == old(self).written() + extend@
                &&& final(self).spec_cursor() == old(self).spec_cursor()
                &&& final(self).spec_mark() == old(self).spec_mark()
            },
    {
        let cnt = extend.len();
        self.reserve(cnt);
        let ghost w0 = self.written();
        let mut i: usize = 0;
        while i < cnt
            invariant
                self.wf(),
                cnt == extend@.len(),
                i <= cnt,
                self.cursor == old(self).spec_cursor(),
                self.mark == old(self).spec_mark(),
                self.resort == old(self).spec_resort(),
                w0 == old(self).written(),
                w0.len() + cnt <= usize::MAX,
                self.written() == w0 + extend@.subrange(0, i as int),
                self.wpos == w0.len() + i,
                self.vec@.len() == if old(self).spec_stored() > self.wpos { old(self).spec_stored() } else { self.wpos as nat },
            decreases cnt - i,
        {
            let b = extend[i];
            let ghost before = self.vec@;
            let ghost w = self.wpos as int;
            if self.wpos < self.vec.len() {
                self.vec.set(self.wpos, b);
            } else {
                self.vec.push(b);
            }
            self.wpos = self.wpos + 1;
            i = i + 1;
            proof {
                assert(self.vec@.subrange(0, w) =~= before.subrange(0, w));
                assert(self.vec@[w] == b);
                assert(self.written() =~= w0 + extend@.subrange(0, i as int));
            }
        }
        proof {
            assert(extend@.subrange(0, cnt as int) =~= extend@);
            assert(self@ =~= old(self)@ + extend@);
        }
        self.try_resort_memory();
    }

    /// The size from which consumed bytes may be dropped.
    pub fn get_resort(&self) -> (res: usize)
        ensures
            res == self.spec_resort(),
    {
        self.resort
    }

    /// Sets the size from which consumed bytes may be dropped.
    pub fn set_resort(&mut self, resort: usize)
        requires
            old(self).wf(),
        ensures
            final(self).wf(),
            final(self)@ == old(self)@,
            final(self).written() == old(self).written(),
            final(self).spec_cursor() == old(self).spec_cursor(),
            final(self).spec_mark() == old(self).spec_mark(),
            final(self).spec_resort() == resort,
    {
        self.resort = resort;
    }

    /// Remembers the current cursor position.
    pub fn mark(&mut self)
        requires
            old(self).wf(),
        ensures
            final(self).wf(),
            final(self)@ == old(self)@,
            final(self).written() == old(self).written(),
            final(self).spec_cursor() == old(self).spec_cursor(),
            final(self).spec_mark() == old(self).spec_cursor(),
            final(self).spec_resort() == old(self).spec_resort(),
    {
        self.mark = self.cursor;
    }

    /// Forgets the remembered cursor position.
    pub fn clear_mark(&mut self)
        requires
            old(self).wf(),
        ensures
            final(self).wf(),
            final(self)@ == old(self)@,
            final(self).written() == old(self).written(),
            final(self).spec_cursor() == old(self).spec_cursor(),
            final(self).spec_mark() == usize::MAX,
            final(self).spec_resort() == old(self).spec_resort(),
    {
        self.mark = usize::MAX;
    }

    /// Moves the cursor back to the remembered position.  Gives `false`, and
    /// forgets the mark if it lies past the written bytes, when that is not
    /// possible.
    pub fn rewind_mark(&mut self) -> (res: bool)
        requires
            old(self).wf(),
        ensures
            final(self).wf(),
            final(self).written() == old(self).written(),
            final(self).spec_resort() == old(self).spec_resort(),
            res == (old(self).spec_mark() != usize::MAX && old(self).spec_mark() <= old(self).written().len()),
            res ==> final(self).spec_cursor() == old(self).spec_mark()
                && final(self).spec_mark() == old(self).spec_mark()
                && final(self)@ == old(self).written().subrange(old(self).spec_mark() as int, old(self).written().len() as int),
            !res ==> final(self)@ == old(self)@ && final(self).spec_cursor() == old(self).spec_cursor(),
            !res && old(self).spec_mark() != usize::MAX ==> final(self).spec_mark() == usize::MAX,
            !res && old(self).spec_mark() == usize::MAX ==> final(self).spec_mark() == usize::MAX,
    {
        if self.mark == usize::MAX {
            false
        } else {
            if self.mark > self.wpos {
                self.clear_mark();
                false
            } else {
                self.cursor = self.mark;
                true
            }
        }
    }

    /// Drops consumed bytes by moving the unread ones to the front, once the
    /// buffer is large, mostly consumed and at least half of it is read.
    pub fn try_resort_memory(&mut self)
        requires
            old(self).wf(),
        ensures
            final(self).wf(),
            final(self)@ == old(self)@,
            final(self).written().len() <= old(self).written().len(),
            final(self).spec_resort() == old(self).spec_resort(),
            final(self).spec_mark() == old(self).spec_mark() || final(self).spec_mark() == usize::MAX,
            old(self).resorts() ==> {
                &&& final(self).spec_cursor() == 0
                &&& final(self).written() == old(self)@
                &&& final(self).spec_mark() == if old(self)@.len() == 0 {
                    old(self).spec_mark()
                } else {
                    usize::MAX
                }
            },
            !old(self).resorts() ==> *final(self) == *old(self),
    {
        if self.vec.len() < self.resort || self.cursor < self.resort / 2 {
            return;
        }
        let left = self.wpos - self.cursor;
        if left > self.vec.len() / 2 {
            return;
        }
        if left == 0 {
            self.clear();
        } else {
            let ghost unread = self@;
            let ghost c = self.cursor as int;
            let mut i: usize = 0;
            while i < left
                invariant
                    self.wf(),
                    left == self.wpos - self.cursor,
                    c == self.cursor,
                    unread.len() == left,
                    i <= left,
                    self.mark == old(self).spec_mark(),
                    self.resort == old(self).spec_resort(),
                    forall|j: int| i <= j < left ==> #[trigger] self.vec@[c + j] == unread[j],
                    forall|j: int| 0 <= j < i ==> #[trigger] self.vec@[j] == unread[j],
                decreases left - i,
            {
                let b = self.vec[self.cursor + i];
                self.vec.set(i, b);
                i = i + 1;
            }
            self.cursor = 0;
            self.wpos = left;
            self.clear_mark();
            proof {
                assert(self@ =~= unread);
            }
        }
    }

    /// Bytes left to read.
    pub fn remaining(&self) -> (res: usize)
        requires
            self.wf(),
        ensures
            res == self@.len(),
    {
        let w = if self.wpos < self.vec.len() { self.wpos } else { self.vec.len() };
        w - self.cursor
    }

    /// The unread bytes.
    pub fn chunk(&self) -> (res: &[u8])
        requires
            self.wf(),
        ensures
            res@ == self@,
    {
        self.as_slice()
    }

    /// Consumes `n` bytes.
    pub fn advance(&mut self, n: usize)
        requires
            old(self).wf(),
            n <= old(self)@.len(),
        ensures
            final(self).wf(),
            final(self)@ == old(self)@.subrange(n as int, old(self)@.len() as int),
            final(self).written() == old(self).written(),
            final(self).spec_cursor() == old(self).spec_cursor() + n,
            final(self).spec_mark() == old(self).spec_mark(),
            final(self).spec_resort() == old(self).spec_resort(),
    {
        self.inc_start(n);
    }

    /// Consumes every unread byte.
    pub fn advance_all(&mut self)
        requires
            old(self).wf(),
        ensures
            final(self).wf(),
            final(self)@ == Seq::<u8>::empty(),
            final(self).written() == old(self).written(),
            final(self).spec_mark() == old(self).spec_mark(),
            final(self).spec_resort() == old(self).spec_resort(),
    {
        let n = self.remaining();
        self.inc_start(n);
    }

    /// Consumes `n` bytes and gives them.
    pub fn advance_chunk(&mut self, n: usize) -> (res: &[u8])
        requires
            old(self).wf(),
            n <= old(self)@.len(),
        ensures
            res@ == old(self)@.subrange(0, n as int),
            final(self).wf(),
            final(self)@ == old(self)@.subrange(n as int, old(self)@.len() as int),
    {
        let cursor = self.cursor;
        self.inc_start(n);
        let s = self.vec.as_slice();
        let res = &s[cursor..cursor + n];
        proof {
            assert(res@ =~= old(self)@.subrange(0, n as int));
        }
        res
    }

    /// Moves unread bytes into the front of `buf`, as many as both hold,
    /// and gives their number; an error where either side is empty.
    pub fn read(&mut self, buf: &mut [u8]) -> (res: Result<usize, std::io::Error>)
        requires
            old(self).wf(),
        ensures
            final(self).wf(),
            read_outcome(old(self)@, final(self)@, old(buf)@, final(buf)@, res),
    {
        read_available(self, buf)
    }

    /// The next unread byte, consumed.
    pub fn get_next(&mut self) -> (res: Option<u8>)
        requires
            old(self).wf(),
        ensures
            final(self).wf(),
            old(self)@.len() == 0 ==> res is None && final(self)@ == old(self)@,
            old(self)@.len() > 0 ==> res == Some(old(self)@[0]) && final(self)@ == old(self)@.drop_first(),
    {
        if self.cursor >= self.wpos {
            return None;
        }
        let b = self.vec[self.cursor];
        self.inc_start(1);
        proof {
            assert(old(self)@.subrange(1, old(self)@.len() as int) =~= old(self)@.drop_first());
        }
        Some(b)
    }

    /// The unread bytes as a shared buffer.
    pub fn freeze(self) -> (res: Binary)
        requires
            self.wf(),
        ensures
            res.wf(),
            res@ == self@,
    {
        Binary::from_vec(self.into_slice_all())
    }

    /// The unread bytes as a shared buffer.
    pub fn into_binary(self) -> (res: Binary)
        requires
            self.wf(),
        ensures
            res.wf(),
            res@ == self@,
    {
        self.freeze()
    }

    /// Copies the unread bytes into a shared buffer and consumes them.
    pub fn copy_to_binary(&mut self) -> (res: Binary)
        requires
            old(self).wf(),
        ensures
            res.wf(),
            res@ == old(self)@,
            final(self).wf(),
            final(self)@ == Seq::<u8>::empty(),
    {
        let v = copy_range(self.vec.as_slice(), self.cursor, self.wpos);
        let binary = Binary::from_vec(v);
        self.advance_all();
        proof {
            assert(v@ =~= old(self)@);
        }
        binary
    }
}

} // verus!
