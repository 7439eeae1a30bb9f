use vstd::prelude::*;
use vstd::string::StringSliceAdditionalSpecFns;

use super::binary::Binary;
use super::copy_range;
use super::bt::{read_available, read_outcome};

verus! {

/// A read cursor over borrowed bytes.
pub struct BinaryRef<'a> {
    data: &'a [u8],
    cursor: usize,
    mark: usize,
    len: usize,
}

impl<'a> View for BinaryRef<'a> {
    type V = Seq<u8>;

    /// The unread bytes.
    open spec fn view(&self) -> Seq<u8> {
        self.all().subrange(self.spec_cursor() as int, self.all().len() as int)
    }
}

impl<'a> BinaryRef<'a> {
    /// All bytes, read or not.
    pub closed spec fn all(&self) -> Seq<u8> {
        self.data@.subrange(0, self.cursor + self.len)
    }

    /// Position of the read cursor within `all`.
    pub closed spec fn spec_cursor(&self) -> usize {
        self.cursor
    }

    /// Internal consistency.
    pub closed spec fn wf(&self) -> bool {
        &&& self.cursor + self.len <= self.data@.len()
        &&& self.data@.len() <= usize::MAX
    }

    /// A cursor over no bytes.
    pub fn new() -> (res: BinaryRef<'a>)
        ensures
            res.wf(),
            res@ == Seq::<u8>::empty(),
    {
        let empty: &'a [u8] = &[];
        let res = BinaryRef::from_slice(empty);
        proof {
            assert(res@ =~= Seq::<u8>::empty());
        }
        res
    }

    /// A cursor over the bytes of `value`.
    pub fn from_slice(value: &'a [u8]) -> (res: BinaryRef<'a>)
        ensures
            res.wf(),
            res@ == value@,
            res.all() == value@,
            res.spec_cursor() == 0,
    {
        let res = BinaryRef { data: value, cursor: 0, mark: 0, len: value.len() };
        proof {
            assert(res.all() =~= value@);
            assert(res@ =~= value@);
        }
        res
    }

    /// A cursor over the bytes of `value`.
    pub fn from_str(value: &'a str) -> (res: BinaryRef<'a>)
        ensures
            res.wf(),
            res@ == value.spec_bytes(),
    {
        BinaryRef::from_slice(value.as_bytes())
    }

    /// Number of unread bytes.
    pub fn len(&self) -> (res: usize)
        requires
            self.wf(),
        ensures
            res == self@.len(),
    {
        self.len
    }

    /// Whether no byte is left to read.
    pub fn is_empty(&self) -> (res: bool)
        requires
            self.wf(),
        ensures
            res == (self@.len() == 0),
    {
        self.len == 0
    }

    /// The unread bytes, copied out.
    pub fn to_vec(&self) -> (res: Vec<u8>)
        requires
            self.wf(),
        ensures
            res@ == self@,
    {
        let res = copy_range(self.data, self.cursor, self.cursor + self.len);
        proof {
            assert(res@ =~= self@);
        }
        res
    }

    /// A cursor over the bytes of `data`.
    pub fn copy_from_slice(data: &'a [u8]) -> (res: Self)
        ensures
            res.wf(),
            res@ == data@,
    {
        BinaryRef::from_slice(data)
    }

    /// The unread bytes, copied out.
    pub fn into_slice_all(&self) -> (res: Vec<u8>)
        requires
            self.wf(),
        ensures
            res@ == self@,
    {
        self.to_vec()
    }

    /// Consumes `by` unread bytes.
    fn inc_start(&mut self, by: usize)
        requires
            old(self).wf(),
            by <= old(self)@.len(),
        ensures
            final(self).wf(),
            final(self).all() == old(self).all(),
            final(self).spec_cursor() == old(self).spec_cursor() + by,
            final(self)@ == old(self)@.subrange(by as int, old(self)@.len() as int),
    {
        if by == 0 {
            proof {
                assert(self@ =~= old(self)@.subrange(0, old(self)@.len() as int));
            }
            return;
        }
        self.len = self.len - by;
        self.cursor = self.cursor + by;
        proof {
            assert(self.all() =~= old(self).all());
            assert(self@ =~= old(self)@.subrange(by as int, old(self)@.len() as int));
        }
    }

    /// Bytes left to read.
    pub fn remaining(&self) -> (res: usize)
        requires
            self.wf(),
        ensures
            res == self@.len(),
    {
        self.len
    }

    /// The unread bytes.
    pub fn chunk(&self) -> (res: &[u8])
        requires
            self.wf(),
        ensures
            res@ == self@,
    {
        let res = &self.data[self.cursor..self.cursor + self.len];
        proof {
            assert(res@ =~= self@);
        }
        res
    }

    /// Consumes `n` bytes.
    pub fn advance(&mut self, n: usize)
        requires
            old(self).wf(),
            n <= old(self)@.len(),
        ensures
            final(self).wf(),
            final(self)@ == old(self)@.subrange(n as int, old(self)@.len() as int),
            final(self).all() == old(self).all(),
    {
        self.inc_start(n);
    }

    /// Consumes `n` bytes and gives them.
    pub fn advance_chunk(&mut self, n: usize) -> (res: &'a [u8])
        requires
            old(self).wf(),
            n <= old(self)@.len(),
        ensures
            res@ == old(self)@.subrange(0, n as int),
            final(self).wf(),
            final(self)@ == old(self)@.subrange(n as int, old(self)@.len() as int),
    {
        let cursor = self.cursor;
        let data = self.data;
        self.inc_start(n);
        let res = &data[cursor..cursor + n];
        proof {
            assert(res@ =~= old(self)@.subrange(0, n as int));
        }
        res
    }

    /// Moves unread bytes into the front of `buf`, as many as both hold,
    /// and gives their number; an error where either side is empty.
    pub fn read(&mut self, buf: &mut [u8]) -> (res: Result<usize, std::io::Error>)
        requires
            old(self).wf(),
        ensures
            final(self).wf(),
            read_outcome(old(self)@, final(self)@, old(buf)@, final(buf)@, res),
    {
        read_available(self, buf)
    }

    /// The next unread byte, consumed.
    pub fn get_next(&mut self) -> (res: Option<u8>)
        requires
            old(self).wf(),
        ensures
            final(self).wf(),
            old(self)@.len() == 0 ==> res is None && final(self)@ == old(self)@,
            old(self)@.len() > 0 ==> res == Some(old(self)@[0]) && final(self)@ == old(self)@.drop_first(),
    {
        if self.len == 0 {
            return None;
        }
        let b = self.data[self.cursor];
        self.inc_start(1);
        proof {
            assert(old(self)@.subrange(1, old(self)@.len() as int) =~= old(self)@.drop_first());
        }
        Some(b)
    }

    /// The unread bytes as a shared buffer.
    pub fn into_binary(self) -> (res: Binary)
        requires
            self.wf(),
        ensures
            res.wf(),
            res@ == self@,
    {
        Binary::from_vec(self.to_vec())
    }
}

} // verus!
