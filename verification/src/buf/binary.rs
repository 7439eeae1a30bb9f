use std::rc::Rc;
use vstd::prelude::*;
use vstd::string::StringSliceAdditionalSpecFns;

use super::copy_range;
use super::bt::{read_available, read_outcome};

verus! {

/// Number of handles that share the allocation of `r`.
///
/// Calls `Rc::strong_count`; the count depends on how many clones are alive,
/// so only what holds of every outcome is stated: it is at least one, for `r`
/// itself.
#[verifier::external_body]
fn rc_count(r: &Rc<Vec<u8>>) -> (res: usize)
    ensures
        res >= 1,
{
    Rc::strong_count(r)
}

/// Another handle to the allocation of `r` (`Rc::clone`); by its
/// documentation it points to the same allocation, so it holds the same
/// bytes.
#[verifier::external_body]
fn rc_share(r: &Rc<Vec<u8>>) -> (res: Rc<Vec<u8>>)
    ensures
        res == *r,
{
    Rc::clone(r)
}

/// An immutable byte buffer with a read cursor.  Buffers made from owned
/// bytes share them between clones and count the clones; buffers made from
/// static bytes count nothing.
pub struct Binary {
    data: Rc<Vec<u8>>,
    shared: bool,
    cursor: usize,
    mark: usize,
    len: usize,
}

impl Clone for Binary {
    /// Another buffer over the same bytes, with the same cursor and mark;
    /// owned bytes are shared, not copied.
    fn clone(&self) -> (res: Self)
        ensures
            res == *self,
    {
        Binary { data: rc_share(&self.data), shared: self.shared, cursor: self.cursor, mark: self.mark, len: self.len }
    }
}

impl View for Binary {
    type V = Seq<u8>;

    /// The unread bytes.
    open spec fn view(&self) -> Seq<u8> {
        self.all().subrange(self.spec_cursor() as int, self.all().len() as int)
    }
}

impl Binary {
    /// All bytes of the buffer, read or not.
    pub closed spec fn all(&self) -> Seq<u8> {
        (*self.data)@.subrange(0, self.cursor + self.len)
    }

    /// Position of the read cursor within `all`.
    pub closed spec fn spec_cursor(&self) -> usize {
        self.cursor
    }

    /// Whether the bytes are owned and shared between clones.
    pub closed spec fn spec_shared(&self) -> bool {
        self.shared
    }

    /// Internal consistency.
    pub closed spec fn wf(&self) -> bool {
        &&& self.cursor + self.len <= (*self.data)@.len()
        &&& (*self.data)@.len() <= usize::MAX
        &&& self.mark <= self.cursor
    }

    /// An empty buffer.
    pub fn new() -> (res: Binary)
        ensures
            res.wf(),
            res@ == Seq::<u8>::empty(),
            res.all() == Seq::<u8>::empty(),
            res.spec_cursor() == 0,
            !res.spec_shared(),
    {
        let res = Binary { data: Rc::new(Vec::new()), shared: false, cursor: 0, mark: 0, len: 0 };
        proof {
            assert(res.all() =~= Seq::<u8>::empty());
            assert(res@ =~= Seq::<u8>::empty());
        }
        res
    }

    /// A buffer over static bytes.
    pub fn from_static(val: &'static [u8]) -> (res: Binary)
        ensures
            res.wf(),
            res@ == val@,
            res.all() == val@,
            res.spec_cursor() == 0,
            !res.spec_shared(),
    {
        let v = copy_range(val, 0, val.len());
        proof {
            assert(val@.subrange(0, val@.len() as int) =~= val@);
        }
        let len = v.len();
        let res = Binary { data: Rc::new(v), shared: false, cursor: 0, mark: 0, len };
        proof {
            assert(res.all() =~= val@);
            assert(res@ =~= val@);
        }
        res
    }

    /// A buffer owning the bytes of `value`; empty input gives `new()`.
    pub fn from_vec(value: Vec<u8>) -> (res: Binary)
        ensures
            res.wf(),
            res@ == value@,
            res.all() == value@,
            res.spec_cursor() == 0,
            res.spec_shared() == (value@.len() > 0),
    {
        if value.len() == 0 {
            let res = Binary::new();
            proof {
                assert(res.all() =~= value@);
            }
            return res;
        }
        let len = value.len();
        let res = Binary { data: Rc::new(value), shared: true, cursor: 0, mark: 0, len };
        proof {
            assert(res.all() =~= value@);
            assert(res@ =~= value@);
        }
        res
    }

    /// A buffer over the bytes of a static string.
    pub fn from_str(value: &'static str) -> (res: Binary)
        ensures
            res.wf(),
            res@ == value.spec_bytes(),
            !res.spec_shared(),
    {
        Binary::from_static(value.as_bytes())
    }

    /// Number of unread bytes.
    pub fn len(&self) -> (res: usize)
        requires
            self.wf(),
        ensures
            res == self@.len(),
    {
        self.len
    }

    /// Whether no byte is left to read.
    pub fn is_empty(&self) -> (res: bool)
        requires
            self.wf(),
        ensures
            res == (self@.len() == 0),
    {
        self.len == 0
    }

    /// The unread bytes, copied out.
    pub fn to_vec(&self) -> (res: Vec<u8>)
        requires
            self.wf(),
        ensures
            res@ == self@,
    {
        let res = copy_range((*self.data).as_slice(), self.cursor, self.cursor + self.len);
        proof {
            assert(res@ =~= self@);
        }
        res
    }

    /// Number of live handles on owned bytes; 0 for static bytes.
    pub fn get_refs(&self) -> (res: usize)
        ensures
            !self.spec_shared() ==> res == 0,
            self.spec_shared() ==> res >= 1,
    {
        if self.shared {
            rc_count(&self.data)
        } else {
            0
        }
    }

    /// The unread bytes.
    fn as_slice(&self) -> (res: &[u8])
        requires
            self.wf(),
        ensures
            res@ == self@,
    {
        let s = (*self.data).as_slice();
        let res = &s[self.cursor..self.cursor + self.len];
        proof {
            assert(res@ =~= self@);
        }
        res
    }

    /// Consumes `by` unread bytes.
    fn inc_start(&mut self, by: usize)
        requires
            old(self).wf(),
            by <= old(self)@.len(),
        ensures
            final(self).wf(),
            final(self).all() == old(self).all(),
            final(self).spec_cursor() == old(self).spec_cursor() + by,
            final(self).spec_shared() == old(self).spec_shared(),
            final(self)@ == old(self)@.subrange(by as int, old(self)@.len() as int),
    {
        if by == 0 {
            proof {
                assert(self@ =~= old(self)@.subrange(0, old(self)@.len() as int));
            }
            return;
        }
        self.len = self.len - by;
        self.cursor = self.cursor + by;
        proof {
            assert(self.all() =~= old(self).all());
            assert(self@ =~= old(self)@.subrange(by as int, old(self)@.len() as int));
        }
    }

    /// Moves the cursor back to the first byte.
    pub fn clear(&mut self)
        requires
            old(self).wf(),
        ensures
            final(self).wf(),
            final(self).all() == old(self).all(),
            final(self).spec_cursor() == 0,
            final(self)@ == old(self).all(),
            final(self).spec_shared() == old(self).spec_shared(),
    {
        let by = self.cursor;
        self.len = self.len + by;
        self.cursor = 0;
        self.mark = 0;
        proof {
            assert(self.all() =~= old(self).all());
            assert(self@ =~= old(self).all());
        }
    }

    /// A shared buffer holding a copy of `data`.
    pub fn copy_from_slice(data: &[u8]) -> (res: Self)
        ensures
            res.wf(),
            res@ == data@,
    {
        let v = copy_range(data, 0, data.len());
        proof {
            assert(data@.subrange(0, data@.len() as int) =~= data@);
        }
        Binary::from_vec(v)
    }

    /// The unread bytes, copied out.
    pub fn into_slice_all(&self) -> (res: Vec<u8>)
        requires
            self.wf(),
        ensures
            res@ == self@,
    {
        self.to_vec()
    }

    /// The unread bytes, copied out; the cursor must be at the first byte.
    pub fn into_slice(&self) -> (res: Vec<u8>)
        requires
            self.wf(),
            self.spec_cursor() == 0,
        ensures
            res@ == self@,
    {
        let v = self.to_vec();
        copy_range(v.as_slice(), self.cursor, self.cursor + self.len)
    }

    /// Bytes left to read.
    pub fn remaining(&self) -> (res: usize)
        requires
            self.wf(),
        ensures
            res == self@.len(),
    {
        self.len
    }

    /// The unread bytes.
    pub fn chunk(&self) -> (res: &[u8])
        requires
            self.wf(),
        ensures
            res@ == self@,
    {
        self.as_slice()
    }

    /// Consumes `n` bytes.
    pub fn advance(&mut self, n: usize)
        requires
            old(self).wf(),
            n <= old(self)@.len(),
        ensures
            final(self).wf(),
            final(self)@ == old(self)@.subrange(n as int, old(self)@.len() as int),
            final(self).all() == old(self).all(),
            final(self).spec_shared() == old(self).spec_shared(),
    {
        self.inc_start(n);
    }

    /// Consumes `n` bytes and gives them.
    pub fn advance_chunk(&mut self, n: usize) -> (res: &[u8])
        requires
            old(self).wf(),
            n <= old(self)@.len(),
        ensures
            res@ == old(self)@.subrange(0, n as int),
            final(self).wf(),
            final(self)@ == old(self)@.subrange(n as int, old(self)@.len() as int),
    {
        let cursor = self.cursor;
        self.inc_start(n);
        let s = (*self.data).as_slice();
        let res = &s[cursor..cursor + n];
        proof {
            assert(res@ =~= old(self)@.subrange(0, n as int));
        }
        res
    }

    /// Moves unread bytes into the front of `buf`, as many as both hold,
    /// and gives their number; an error where either side is empty.
    pub fn read(&mut self, buf: &mut [u8]) -> (res: Result<usize, std::io::Error>)
        requires
            old(self).wf(),
        ensures
            final(self).wf(),
            read_outcome(old(self)@, final(self)@, old(buf)@, final(buf)@, res),
    {
        read_available(self, buf)
    }

    /// The next unread byte, consumed.
    pub fn get_next(&mut self) -> (res: Option<u8>)
        requires
            old(self).wf(),
        ensures
            final(self).wf(),
            old(self)@.len() == 0 ==> res is None && final(self)@ == old(self)@,
            old(self)@.len() > 0 ==> res == Some(old(self)@[0]) && final(self)@ == old(self)@.drop_first(),
    {
        if self.len == 0 {
            return None;
        }
        let b = (*self.data)[self.cursor];
        self.inc_start(1);
        proof {
            assert(old(self)@.subrange(1, old(self)@.len() as int) =~= old(self)@.drop_first());
        }
        Some(b)
    }
}

} // verus!
