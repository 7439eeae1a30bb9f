use vstd::prelude::*;

use super::binary::Binary;
use super::binary_mut::BinaryMut;
use super::binary_ref::BinaryRef;

verus! {

#[verifier::external_type_specification]
#[verifier::external_body]
pub struct ExIoError(std::io::Error);

/// The error of a read that finds fewer bytes left than it needs.
///
/// Calls `std::io::Error::new` with the kind `UnexpectedEof`; nothing is
/// stated of the value, which the library only hands on.
#[verifier::external_body]
fn not_enough() -> std::io::Error {
    std::io::Error::new(std::io::ErrorKind::UnexpectedEof, "not enough")
}

/// 256 to the power `n`: one more than the largest value that `n` bytes hold.
pub open spec fn pow256(n: nat) -> nat
    decreases n,
{
    if n == 0 {
        1
    } else {
        256 * pow256((n - 1) as nat)
    }
}

/// The number that the bytes `s` write, most significant byte first.
pub open spec fn be_value(s: Seq<u8>) -> nat
    decreases s.len(),
{
    if s.len() == 0 {
        0
    } else {
        (be_value(s.drop_last()) * 256 + s.last()) as nat
    }
}

/// The number that the bytes `s` write, least significant byte first.
pub open spec fn le_value(s: Seq<u8>) -> nat
    decreases s.len(),
{
    if s.len() == 0 {
        0
    } else {
        (s[0] + 256 * le_value(s.drop_first())) as nat
    }
}

/// `v`, a value of `n` bytes, read as a two's complement signed number.
pub open spec fn signed(v: nat, n: nat) -> int {
    if 2 * v < pow256(n) {
        v as int
    } else {
        v - pow256(n)
    }
}

proof fn lemma_pow256_values()
    ensures
        pow256(1) == 0x100,
        pow256(2) == 0x1_0000,
        pow256(4) == 0x1_0000_0000,
        pow256(8) == 0x1_0000_0000_0000_0000,
        pow256(16) == 0x1_0000_0000_0000_0000_0000_0000_0000_0000,
{
    reveal_with_fuel(pow256, 17);
}

proof fn lemma_pow256_grows(i: nat, j: nat)
    requires
        i <= j,
    ensures
        pow256(i) <= pow256(j),
    decreases j,
{
    if i < j {
        lemma_pow256_grows(i, (j - 1) as nat);
    }
}

proof fn lemma_be_bound(s: Seq<u8>)
    ensures
        be_value(s) < pow256(s.len()),
    decreases s.len(),
{
    if s.len() > 0 {
        lemma_be_bound(s.drop_last());
        let v = be_value(s.drop_last());
        let p = pow256((s.len() - 1) as nat);
        let b = s.last();
        assert(v * 256 + b < 256 * p) by (nonlinear_arith)
            requires
                v < p,
                b < 256,
        ;
    }
}

proof fn lemma_le_bound(s: Seq<u8>)
    ensures
        le_value(s) < pow256(s.len()),
    decreases s.len(),
{
    if s.len() > 0 {
        lemma_le_bound(s.drop_first());
        let v = le_value(s.drop_first());
        let p = pow256((s.len() - 1) as nat);
        let b = s[0];
        assert(b + 256 * v < 256 * p) by (nonlinear_arith)
            requires
                v < p,
                b < 256,
        ;
    }
}

/// The first `n` bytes of `src`, most significant first.
fn read_be(src: &[u8], n: usize) -> (res: u128)
    requires
        n <= 16,
        n <= src@.len(),
    ensures
        res == be_value(src@.take(n as int)),
        res < pow256(n as nat),
{
    let mut acc: u128 = 0;
    let mut i: usize = 0;
    while i < n
        invariant
            i <= n,
            n <= 16,
            n <= src@.len(),
            acc == be_value(src@.take(i as int)),
            acc < pow256(i as nat),
        decreases n - i,
    {
        proof {
            assert(src@.take(i + 1).drop_last() =~= src@.take(i as int));
            lemma_be_bound(src@.take(i + 1));
            lemma_pow256_grows((i + 1) as nat, 16);
            lemma_pow256_values();
        }
        acc = acc * 256 + src[i] as u128;
        i = i + 1;
    }
    acc
}

/// The first `n` bytes of `src`, least significant first.
fn read_le(src: &[u8], n: usize) -> (res: u128)
    requires
        n <= 16,
        n <= src@.len(),
    ensures
        res == le_value(src@.take(n as int)),
        res < pow256(n as nat),
{
    let mut acc: u128 = 0;
    let mut i: usize = n;
    proof {
        assert(src@.subrange(n as int, n as int) =~= Seq::<u8>::empty());
    }
    while i > 0
        invariant
            i <= n,
            n <= 16,
            n <= src@.len(),
            acc == le_value(src@.subrange(i as int, n as int)),
            acc < pow256((n - i) as nat),
        decreases i,
    {
        proof {
            assert(src@.subrange(i - 1, n as int).drop_first() =~= src@.subrange(i as int, n as int));
            lemma_le_bound(src@.subrange(i - 1, n as int));
            lemma_pow256_grows((n - i + 1) as nat, 16);
            lemma_pow256_values();
        }
        acc = acc * 256 + src[i - 1] as u128;
        i = i - 1;
    }
    proof {
        assert(src@.subrange(0, n as int) =~= src@.take(n as int));
    }
    acc
}

/// `v`, a value below `2 * half`, read as a two's complement signed number.
fn to_signed(v: u128, half: u128) -> (res: i128)
    requires
        0 < half <= 0x8000_0000_0000_0000_0000_0000_0000_0000,
        v < 2 * half,
    ensures
        res == (if v < half {
            v as int
        } else {
            v - 2 * half
        }),
{
    if v < half {
        v as i128
    } else {
        let top: u128 = (half - 1) + half;
        -((top - v) as i128) - 1
    }
}

/// `u16::from_ne_bytes`: two bytes read in the byte order of the machine,
/// which is either most or least significant first.
#[verifier::external_body]
fn native_u16(bytes: [u8; 2]) -> (res: u16)
    ensures
        res == be_value(bytes@) || res == le_value(bytes@),
{
    u16::from_ne_bytes(bytes)
}

/// Whether the machine stores the most significant byte first.
fn big_endian_host() -> bool {
    native_u16([0u8, 1u8]) == 1
}

/// The error of a read that finds nothing to read or no room to read into.
///
/// Calls `std::io::Error::new` with the kind `WouldBlock`; nothing is stated
/// of the value, which the library only hands on.
#[verifier::external_body]
fn would_block() -> std::io::Error {
    std::io::Error::new(std::io::ErrorKind::WouldBlock, "")
}

/// What a read from bytes `before` into a buffer `buf_before` gives, leaving
/// `after` unread and the buffer as `buf_after`: an error, with nothing
/// moved, where either side is empty; otherwise as many bytes as both hold,
/// moved from the front of the bytes to the front of the buffer, and their
/// number.
pub open spec fn read_outcome(
    before: Seq<u8>,
    after: Seq<u8>,
    buf_before: Seq<u8>,
    buf_after: Seq<u8>,
    res: Result<usize, std::io::Error>,
) -> bool {
    if before.len() == 0 || buf_before.len() == 0 {
        res is Err && after == before && buf_after == buf_before
    } else {
        let n = if before.len() < buf_before.len() {
            before.len()
        } else {
            buf_before.len()
        };
        &&& res == Ok::<usize, std::io::Error>(n as usize)
        &&& after == before.skip(n as int)
        &&& buf_after == before.take(n as int) + buf_before.skip(n as int)
    }
}

/// Reads from `src` into `buf` as `read_outcome` says.
pub(crate) fn read_available<B: Bt>(src: &mut B, buf: &mut [u8]) -> (res: Result<
    usize,
    std::io::Error,
>)
    requires
        old(src).valid(),
    ensures
        final(src).valid(),
        read_outcome(old(src).unread(), final(src).unread(), old(buf)@, final(buf)@, res),
{
    let left = src.remaining();
    let len = buf.len();
    if left == 0 || len == 0 {
        return Err(would_block());
    }
    let read = if left < len {
        left
    } else {
        len
    };
    let chunk = src.chunk();
    let mut i: usize = 0;
    while i < read
        invariant
            i <= read,
            read <= chunk@.len(),
            read <= len,
            len == buf@.len(),
            buf@.len() == old(buf)@.len(),
            forall|k: int| 0 <= k < i ==> buf@[k] == chunk@[k],
            forall|k: int| read <= k < len ==> buf@[k] == old(buf)@[k],
        decreases read - i,
    {
        buf[i] = chunk[i];
        i = i + 1;
    }
    proof {
        assert(buf@ =~= old(src).unread().take(read as int) + old(buf)@.skip(read as int));
    }
    src.advance(read);
    Ok(read)
}

/// A reader over bytes: it keeps the bytes not yet read and consumes them
/// from the front.
pub trait Bt: Sized {
    /// Whether the reader is in a consistent state.
    spec fn valid(&self) -> bool;

    /// The bytes not yet read.
    spec fn unread(&self) -> Seq<u8>;

    /// Number of bytes left to read.
    fn remaining(&self) -> (res: usize)
        requires
            self.valid(),
        ensures
            res == self.unread().len(),
    ;

    /// The bytes left to read.
    fn chunk(&self) -> (res: &[u8])
        requires
            self.valid(),
        ensures
            res@ == self.unread(),
    ;

    /// Consumes `n` bytes.
    fn advance(&mut self, n: usize)
        requires
            old(self).valid(),
            n <= old(self).unread().len(),
        ensures
            final(self).valid(),
            final(self).unread() == old(self).unread().skip(n as int),
    ;

    /// Consumes `n` bytes and gives them.
    fn advance_chunk(&mut self, n: usize) -> (res: &[u8])
        requires
            old(self).valid(),
            n <= old(self).unread().len(),
        ensures
            res@ == old(self).unread().take(n as int),
            final(self).valid(),
            final(self).unread() == old(self).unread().skip(n as int),
    ;

    /// The bytes left to read, as a shared buffer.
    fn into_binary(self) -> (res: Binary)
        requires
            self.valid(),
        ensures
            res.wf(),
            res@ == self.unread(),
    ;

    /// Consumes every byte left.
    fn advance_all(&mut self)
        requires
            old(self).valid(),
        ensures
            final(self).valid(),
            final(self).unread() == Seq::<u8>::empty(),
    {
        let n = self.remaining();
        self.advance(n);
        proof {
            assert(final(self).unread() =~= Seq::<u8>::empty());
        }
    }

    /// The next byte, not consumed.
    fn peek(&self) -> (res: Option<u8>)
        requires
            self.valid(),
        ensures
            res == (if self.unread().len() > 0 {
                Some(self.unread()[0])
            } else {
                None::<u8>
            }),
    {
        if self.has_remaining() {
            Some(self.chunk()[0])
        } else {
            None
        }
    }

    /// Whether any byte is left.
    fn has_remaining(&self) -> (res: bool)
        requires
            self.valid(),
        ensures
            res == (self.unread().len() > 0),
    {
        self.remaining() > 0
    }

    /// The next byte, consumed.
    fn get_next(&mut self) -> (res: Option<u8>)
        requires
            old(self).valid(),
        ensures
            final(self).valid(),
            old(self).unread().len() == 0 ==> res is None && final(self).unread() == old(self).unread(),
            old(self).unread().len() > 0 ==> res == Some(old(self).unread()[0])
                && final(self).unread() == old(self).unread().drop_first(),
    {
        if self.has_remaining() {
            let val = self.chunk()[0];
            self.advance(1);
            proof {
                assert(old(self).unread().skip(1) =~= old(self).unread().drop_first());
            }
            Some(val)
        } else {
            None
        }
    }

    /// Copies the next `dst.len()` bytes into `dst` and consumes them; gives
    /// their number.
    fn copy_to_slice(&mut self, dst: &mut [u8]) -> (res: usize)
        requires
            old(self).valid(),
            old(dst)@.len() <= old(self).unread().len(),
        ensures
            res == old(dst)@.len(),
            final(dst)@ == old(self).unread().take(res as int),
            final(self).valid(),
            final(self).unread() == old(self).unread().skip(res as int),
    {
        let n = self.peek_to_slice(dst);
        self.advance(n);
        n
    }

    /// Copies the next `dst.len()` bytes into `dst` without consuming them;
    /// gives their number.
    fn peek_to_slice(&mut self, dst: &mut [u8]) -> (res: usize)
        requires
            old(self).valid(),
            old(dst)@.len() <= old(self).unread().len(),
        ensures
            res == old(dst)@.len(),
            final(dst)@ == old(self).unread().take(res as int),
            *final(self) == *old(self),
    {
        let n = dst.len();
        let src = self.chunk();
        let mut i: usize = 0;
        while i < n
            invariant
                i <= n,
                n == dst@.len(),
                n <= src@.len(),
                forall|k: int| 0 <= k < i ==> dst@[k] == src@[k],
            decreases n - i,
        {
            dst[i] = src[i];
            i = i + 1;
        }
        proof {
            assert(dst@ =~= src@.take(n as int));
        }
        n
    }

    /// The next byte, consumed.
    fn get_u8(&mut self) -> (res: u8)
        requires
            old(self).valid(),
            old(self).unread().len() >= 1,
        ensures
            res == old(self).unread()[0],
            final(self).valid(),
            final(self).unread() == old(self).unread().skip(1),
    {
        let ret = self.chunk()[0];
        self.advance(1);
        ret
    }

    /// The next byte, not consumed.
    fn peek_u8(&mut self) -> (res: u8)
        requires
            old(self).valid(),
            old(self).unread().len() >= 1,
        ensures
            res == old(self).unread()[0],
            *final(self) == *old(self),
    {
        self.chunk()[0]
    }

    /// The next byte, consumed, or an error where none is left.
    fn try_get_u8(&mut self) -> (res: Result<u8, std::io::Error>)
        requires
            old(self).valid(),
        ensures
            final(self).valid(),
            old(self).unread().len() < 1 ==> res is Err && *final(self) == *old(self),
            old(self).unread().len() >= 1 ==> res == Ok::<u8, std::io::Error>(old(self).unread()[0])
                && final(self).unread() == old(self).unread().skip(1),
    {
        if self.remaining() < 1 {
            return Err(not_enough());
        }
        Ok(self.get_u8())
    }

    /// The next byte as a signed number, consumed.
    fn get_i8(&mut self) -> (res: i8)
        requires
            old(self).valid(),
            old(self).unread().len() >= 1,
        ensures
            res == signed(old(self).unread()[0] as nat, 1),
            final(self).valid(),
            final(self).unread() == old(self).unread().skip(1),
    {
        let v = self.get_u8();
        proof {
            lemma_pow256_values();
        }
        to_signed(v as u128, 0x80) as i8
    }

    /// The next byte as a signed number, not consumed.
    fn peek_i8(&mut self) -> (res: i8)
        requires
            old(self).valid(),
            old(self).unread().len() >= 1,
        ensures
            res == signed(old(self).unread()[0] as nat, 1),
            *final(self) == *old(self),
    {
        let v = self.peek_u8();
        proof {
            lemma_pow256_values();
        }
        to_signed(v as u128, 0x80) as i8
    }

    /// The next byte as a signed number, consumed, or an error where none is
    /// left.
    fn try_get_i8(&mut self) -> (res: Result<i8, std::io::Error>)
        requires
            old(self).valid(),
        ensures
            final(self).valid(),
            old(self).unread().len() < 1 ==> res is Err && *final(self) == *old(self),
            old(self).unread().len() >= 1 ==> (res matches Ok(v) && v == signed(old(self).unread()[0] as nat, 1))
                && final(self).unread() == old(self).unread().skip(1),
    {
        if self.remaining() < 1 {
            return Err(not_enough());
        }
        Ok(self.get_i8())
    }

    /// The next two bytes as an unsigned number, most significant first; consumed.
    fn get_u16(&mut self) -> (res: u16)
        requires
            old(self).valid(),
            old(self).unread().len() >= 2,
        ensures
            res == be_value(old(self).unread().take(2)),
            final(self).valid(),
            final(self).unread() == old(self).unread().skip(2),
    {
        let v = read_be(self.chunk(), 2);
        self.advance(2);
        proof {
            lemma_pow256_values();
        }
        v as u16
    }

    /// Reads as `get_u16` does: the bytes are consumed.
    fn peek_u16(&mut self) -> (res: u16)
        requires
            old(self).valid(),
            old(self).unread().len() >= 2,
        ensures
            res == be_value(old(self).unread().take(2)),
            final(self).valid(),
            final(self).unread() == old(self).unread().skip(2),
    {
        self.get_u16()
    }

    /// Reads as `get_u16` does, or gives an error where fewer than two bytes
    /// are left.
    fn try_get_u16(&mut self) -> (res: Result<u16, std::io::Error>)
        requires
            old(self).valid(),
        ensures
            final(self).valid(),
            old(self).unread().len() < 2 ==> res is Err && *final(self) == *old(self),
            old(self).unread().len() >= 2 ==> (res matches Ok(v) && v == be_value(old(self).unread().take(2)))
                && final(self).unread() == old(self).unread().skip(2),
    {
        if self.remaining() < 2 {
            return Err(not_enough());
        }
        Ok(self.get_u16())
    }

    /// The next two bytes as a signed number, most significant first; consumed.
    fn get_i16(&mut self) -> (res: i16)
        requires
            old(self).valid(),
            old(self).unread().len() >= 2,
        ensures
            res == signed(be_value(old(self).unread().take(2)), 2),
            final(self).valid(),
            final(self).unread() == old(self).unread().skip(2),
    {
        let v = read_be(self.chunk(), 2);
        self.advance(2);
        proof {
            lemma_pow256_values();
        }
        to_signed(v, 0x8000) as i16
    }

    /// Reads as `get_i16` does: the bytes are consumed.
    fn peek_i16(&mut self) -> (res: i16)
        requires
            old(self).valid(),
            old(self).unread().len() >= 2,
        ensures
            res == signed(be_value(old(self).unread().take(2)), 2),
            final(self).valid(),
            final(self).unread() == old(self).unread().skip(2),
    {
        self.get_i16()
    }

    /// Reads as `get_i16` does, or gives an error where fewer than two bytes
    /// are left.
    fn try_get_i16(&mut self) -> (res: Result<i16, std::io::Error>)
        requires
            old(self).valid(),
        ensures
            final(self).valid(),
            old(self).unread().len() < 2 ==> res is Err && *final(self) == *old(self),
            old(self).unread().len() >= 2 ==> (res matches Ok(v) && v == signed(be_value(old(self).unread().take(2)), 2))
                && final(self).unread() == old(self).unread().skip(2),
    {
        if self.remaining() < 2 {
            return Err(not_enough());
        }
        Ok(self.get_i16())
    }

    /// The next two bytes as an unsigned number, least significant first; consumed.
    fn get_u16_le(&mut self) -> (res: u16)
        requires
            old(self).valid(),
            old(self).unread().len() >= 2,
        ensures
            res == le_value(old(self).unread().take(2)),
            final(self).valid(),
            final(self).unread() == old(self).unread().skip(2),
    {
        let v = read_le(self.chunk(), 2);
        self.advance(2);
        proof {
            lemma_pow256_values();
        }
        v as u16
    }

    /// Reads as `get_u16_le` does: the bytes are consumed.
    fn peek_u16_le(&mut self) -> (res: u16)
        requires
            old(self).valid(),
            old(self).unread().len() >= 2,
        ensures
            res == le_value(old(self).unread().take(2)),
            final(self).valid(),
            final(self).unread() == old(self).unread().skip(2),
    {
        self.get_u16_le()
    }

    /// Reads as `get_u16_le` does, or gives an error where fewer than two bytes
    /// are left.
    fn try_get_u16_le(&mut self) -> (res: Result<u16, std::io::Error>)
        requires
            old(self).valid(),
        ensures
            final(self).valid(),
            old(self).unread().len() < 2 ==> res is Err && *final(self) == *old(self),
            old(self).unread().len() >= 2 ==> (res matches Ok(v) && v == le_value(old(self).unread().take(2)))
                && final(self).unread() == old(self).unread().skip(2),
    {
        if self.remaining() < 2 {
            return Err(not_enough());
        }
        Ok(self.get_u16_le())
    }

    /// The next two bytes as a signed number, least significant first; consumed.
    fn get_i16_le(&mut self) -> (res: i16)
        requires
            old(self).valid(),
            old(self).unread().len() >= 2,
        ensures
            res == signed(le_value(old(self).unread().take(2)), 2),
            final(self).valid(),
            final(self).unread() == old(self).unread().skip(2),
    {
        let v = read_le(self.chunk(), 2);
        self.advance(2);
        proof {
            lemma_pow256_values();
        }
        to_signed(v, 0x8000) as i16
    }

    /// Reads as `get_i16_le` does: the bytes are consumed.
    fn peek_i16_le(&mut self) -> (res: i16)
        requires
            old(self).valid(),
            old(self).unread().len() >= 2,
        ensures
            res == signed(le_value(old(self).unread().take(2)), 2),
            final(self).valid(),
            final(self).unread() == old(self).unread().skip(2),
    {
        self.get_i16_le()
    }

    /// Reads as `get_i16_le` does, or gives an error where fewer than two bytes
    /// are left.
    fn try_get_i16_le(&mut self) -> (res: Result<i16, std::io::Error>)
        requires
            old(self).valid(),
        ensures
            final(self).valid(),
            old(self).unread().len() < 2 ==> res is Err && *final(self) == *old(self),
            old(self).unread().len() >= 2 ==> (res matches Ok(v) && v == signed(le_value(old(self).unread().take(2)), 2))
                && final(self).unread() == old(self).unread().skip(2),
    {
        if self.remaining() < 2 {
            return Err(not_enough());
        }
        Ok(self.get_i16_le())
    }

    /// The next two bytes as an unsigned number, in the byte order of the machine; consumed.
    fn get_u16_ne(&mut self) -> (res: u16)
        requires
            old(self).valid(),
            old(self).unread().len() >= 2,
        ensures
            res == be_value(old(self).unread().take(2)) || res == le_value(old(self).unread().take(2)),
            final(self).valid(),
            final(self).unread() == old(self).unread().skip(2),
    {
        if big_endian_host() {
            self.get_u16()
        } else {
            self.get_u16_le()
        }
    }

    /// Reads as `get_u16_ne` does: the bytes are consumed.
    fn peek_u16_ne(&mut self) -> (res: u16)
        requires
            old(self).valid(),
            old(self).unread().len() >= 2,
        ensures
            res == be_value(old(self).unread().take(2)) || res == le_value(old(self).unread().take(2)),
            final(self).valid(),
            final(self).unread() == old(self).unread().skip(2),
    {
        self.get_u16_ne()
    }

    /// Reads as `get_u16_ne` does, or gives an error where fewer than two bytes
    /// are left.
    fn try_get_u16_ne(&mut self) -> (res: Result<u16, std::io::Error>)
        requires
            old(self).valid(),
        ensures
            final(self).valid(),
            old(self).unread().len() < 2 ==> res is Err && *final(self) == *old(self),
            old(self).unread().len() >= 2 ==> (res matches Ok(v) && (v == be_value(old(self).unread().take(2)) || v == le_value(old(self).unread().take(2))))
                && final(self).unread() == old(self).unread().skip(2),
    {
        if self.remaining() < 2 {
            return Err(not_enough());
        }
        Ok(self.get_u16_ne())
    }

    /// The next two bytes as a signed number, in the byte order of the machine; consumed.
    fn get_i16_ne(&mut self) -> (res: i16)
        requires
            old(self).valid(),
            old(self).unread().len() >= 2,
        ensures
            res == signed(be_value(old(self).unread().take(2)), 2) || res == signed(le_value(old(self).unread().take(2)), 2),
            final(self).valid(),
            final(self).unread() == old(self).unread().skip(2),
    {
        if big_endian_host() {
            self.get_i16()
        } else {
            self.get_i16_le()
        }
    }

    /// Reads as `get_i16_ne` does: the bytes are consumed.
    fn peek_i16_ne(&mut self) -> (res: i16)
        requires
            old(self).valid(),
            old(self).unread().len() >= 2,
        ensures
            res == signed(be_value(old(self).unread().take(2)), 2) || res == signed(le_value(old(self).unread().take(2)), 2),
            final(self).valid(),
            final(self).unread() == old(self).unread().skip(2),
    {
        self.get_i16_ne()
    }

    /// Reads as `get_i16_ne` does, or gives an error where fewer than two bytes
    /// are left.
    fn try_get_i16_ne(&mut self) -> (res: Result<i16, std::io::Error>)
        requires
            old(self).valid(),
        ensures
            final(self).valid(),
            old(self).unread().len() < 2 ==> res is Err && *final(self) == *old(self),
            old(self).unread().len() >= 2 ==> (res matches Ok(v) && (v == signed(be_value(old(self).unread().take(2)), 2) || v == signed(le_value(old(self).unread().take(2)), 2)))
                && final(self).unread() == old(self).unread().skip(2),
    {
        if self.remaining() < 2 {
            return Err(not_enough());
        }
        Ok(self.get_i16_ne())
    }

    /// The next four bytes as an unsigned number, most significant first; consumed.
    fn get_u32(&mut self) -> (res: u32)
        requires
            old(self).valid(),
            old(self).unread().len() >= 4,
        ensures
            res == be_value(old(self).unread().take(4)),
            final(self).valid(),
            final(self).unread() == old(self).unread().skip(4),
    {
        let v = read_be(self.chunk(), 4);
        self.advance(4);
        proof {
            lemma_pow256_values();
        }
        v as u32
    }

    /// Reads as `get_u32` does: the bytes are consumed.
    fn peek_u32(&mut self) -> (res: u32)
        requires
            old(self).valid(),
            old(self).unread().len() >= 4,
        ensures
            res == be_value(old(self).unread().take(4)),
            final(self).valid(),
            final(self).unread() == old(self).unread().skip(4),
    {
        self.get_u32()
    }

    /// Reads as `get_u32` does, or gives an error where fewer than four bytes
    /// are left.
    fn try_get_u32(&mut self) -> (res: Result<u32, std::io::Error>)
        requires
            old(self).valid(),
        ensures
            final(self).valid(),
            old(self).unread().len() < 4 ==> res is Err && *final(self) == *old(self),
            old(self).unread().len() >= 4 ==> (res matches Ok(v) && v == be_value(old(self).unread().take(4)))
                && final(self).unread() == old(self).unread().skip(4),
    {
        if self.remaining() < 4 {
            return Err(not_enough());
        }
        Ok(self.get_u32())
    }

    /// The next four bytes as a signed number, most significant first; consumed.
    fn get_i32(&mut self) -> (res: i32)
        requires
            old(self).valid(),
            old(self).unread().len() >= 4,
        ensures
            res == signed(be_value(old(self).unread().take(4)), 4),
            final(self).valid(),
            final(self).unread() == old(self).unread().skip(4),
    {
        let v = read_be(self.chunk(), 4);
        self.advance(4);
        proof {
            lemma_pow256_values();
        }
        to_signed(v, 0x8000_0000) as i32
    }

    /// Reads as `get_i32` does: the bytes are consumed.
    fn peek_i32(&mut self) -> (res: i32)
        requires
            old(self).valid(),
            old(self).unread().len() >= 4,
        ensures
            res == signed(be_value(old(self).unread().take(4)), 4),
            final(self).valid(),
            final(self).unread() == old(self).unread().skip(4),
    {
        self.get_i32()
    }

    /// Reads as `get_i32` does, or gives an error where fewer than four bytes
    /// are left.
    fn try_get_i32(&mut self) -> (res: Result<i32, std::io::Error>)
        requires
            old(self).valid(),
        ensures
            final(self).valid(),
            old(self).unread().len() < 4 ==> res is Err && *final(self) == *old(self),
            old(self).unread().len() >= 4 ==> (res matches Ok(v) && v == signed(be_value(old(self).unread().take(4)), 4))
                && final(self).unread() == old(self).unread().skip(4),
    {
        if self.remaining() < 4 {
            return Err(not_enough());
        }
        Ok(self.get_i32())
    }

    /// The next four bytes as an unsigned number, least significant first; consumed.
    fn get_u32_le(&mut self) -> (res: u32)
        requires
            old(self).valid(),
            old(self).unread().len() >= 4,
        ensures
            res == le_value(old(self).unread().take(4)),
            final(self).valid(),
            final(self).unread() == old(self).unread().skip(4),
    {
        let v = read_le(self.chunk(), 4);
        self.advance(4);
        proof {
            lemma_pow256_values();
        }
        v as u32
    }

    /// Reads as `get_u32_le` does: the bytes are consumed.
    fn peek_u32_le(&mut self) -> (res: u32)
        requires
            old(self).valid(),
            old(self).unread().len() >= 4,
        ensures
            res == le_value(old(self).unread().take(4)),
            final(self).valid(),
            final(self).unread() == old(self).unread().skip(4),
    {
        self.get_u32_le()
    }

    /// Reads as `get_u32_le` does, or gives an error where fewer than four bytes
    /// are left.
    fn try_get_u32_le(&mut self) -> (res: Result<u32, std::io::Error>)
        requires
            old(self).valid(),
        ensures
            final(self).valid(),
            old(self).unread().len() < 4 ==> res is Err && *final(self) == *old(self),
            old(self).unread().len() >= 4 ==> (res matches Ok(v) && v == le_value(old(self).unread().take(4)))
                && final(self).unread() == old(self).unread().skip(4),
    {
        if self.remaining() < 4 {
            return Err(not_enough());
        }
        Ok(self.get_u32_le())
    }

    /// The next four bytes as a signed number, least significant first; consumed.
    fn get_i32_le(&mut self) -> (res: i32)
        requires
            old(self).valid(),
            old(self).unread().len() >= 4,
        ensures
            res == signed(le_value(old(self).unread().take(4)), 4),
            final(self).valid(),
            final(self).unread() == old(self).unread().skip(4),
    {
        let v = read_le(self.chunk(), 4);
        self.advance(4);
        proof {
            lemma_pow256_values();
        }
        to_signed(v, 0x8000_0000) as i32
    }

    /// Reads as `get_i32_le` does: the bytes are consumed.
    fn peek_i32_le(&mut self) -> (res: i32)
        requires
            old(self).valid(),
            old(self).unread().len() >= 4,
        ensures
            res == signed(le_value(old(self).unread().take(4)), 4),
            final(self).valid(),
            final(self).unread() == old(self).unread().skip(4),
    {
        self.get_i32_le()
    }

    /// Reads as `get_i32_le` does, or gives an error where fewer than four bytes
    /// are left.
    fn try_get_i32_le(&mut self) -> (res: Result<i32, std::io::Error>)
        requires
            old(self).valid(),
        ensures
            final(self).valid(),
            old(self).unread().len() < 4 ==> res is Err && *final(self) == *old(self),
            old(self).unread().len() >= 4 ==> (res matches Ok(v) && v == signed(le_value(old(self).unread().take(4)), 4))
                && final(self).unread() == old(self).unread().skip(4),
    {
        if self.remaining() < 4 {
            return Err(not_enough());
        }
        Ok(self.get_i32_le())
    }

    /// The next four bytes as an unsigned number, in the byte order of the machine; consumed.
    fn get_u32_ne(&mut self) -> (res: u32)
        requires
            old(self).valid(),
            old(self).unread().len() >= 4,
        ensures
            res == be_value(old(self).unread().take(4)) || res == le_value(old(self).unread().take(4)),
            final(self).valid(),
            final(self).unread() == old(self).unread().skip(4),
    {
        if big_endian_host() {
            self.get_u32()
        } else {
            self.get_u32_le()
        }
    }

    /// Reads as `get_u32_ne` does: the bytes are consumed.
    fn peek_u32_ne(&mut self) -> (res: u32)
        requires
            old(self).valid(),
            old(self).unread().len() >= 4,
        ensures
            res == be_value(old(self).unread().take(4)) || res == le_value(old(self).unread().take(4)),
            final(self).valid(),
            final(self).unread() == old(self).unread().skip(4),
    {
        self.get_u32_ne()
    }

    /// Reads as `get_u32_ne` does, or gives an error where fewer than four bytes
    /// are left.
    fn try_get_u32_ne(&mut self) -> (res: Result<u32, std::io::Error>)
        requires
            old(self).valid(),
        ensures
            final(self).valid(),
            old(self).unread().len() < 4 ==> res is Err && *final(self) == *old(self),
            old(self).unread().len() >= 4 ==> (res matches Ok(v) && (v == be_value(old(self).unread().take(4)) || v == le_value(old(self).unread().take(4))))
                && final(self).unread() == old(self).unread().skip(4),
    {
        if self.remaining() < 4 {
            return Err(not_enough());
        }
        Ok(self.get_u32_ne())
    }

    /// The next four bytes as a signed number, in the byte order of the machine; consumed.
    fn get_i32_ne(&mut self) -> (res: i32)
        requires
            old(self).valid(),
            old(self).unread().len() >= 4,
        ensures
            res == signed(be_value(old(self).unread().take(4)), 4) || res == signed(le_value(old(self).unread().take(4)), 4),
            final(self).valid(),
            final(self).unread() == old(self).unread().skip(4),
    {
        if big_endian_host() {
            self.get_i32()
        } else {
            self.get_i32_le()
        }
    }

    /// Reads as `get_i32_ne` does: the bytes are consumed.
    fn peek_i32_ne(&mut self) -> (res: i32)
        requires
            old(self).valid(),
            old(self).unread().len() >= 4,
        ensures
            res == signed(be_value(old(self).unread().take(4)), 4) || res == signed(le_value(old(self).unread().take(4)), 4),
            final(self).valid(),
            final(self).unread() == old(self).unread().skip(4),
    {
        self.get_i32_ne()
    }

    /// Reads as `get_i32_ne` does, or gives an error where fewer than four bytes
    /// are left.
    fn try_get_i32_ne(&mut self) -> (res: Result<i32, std::io::Error>)
        requires
            old(self).valid(),
        ensures
            final(self).valid(),
            old(self).unread().len() < 4 ==> res is Err && *final(self) == *old(self),
            old(self).unread().len() >= 4 ==> (res matches Ok(v) && (v == signed(be_value(old(self).unread().take(4)), 4) || v == signed(le_value(old(self).unread().take(4)), 4)))
                && final(self).unread() == old(self).unread().skip(4),
    {
        if self.remaining() < 4 {
            return Err(not_enough());
        }
        Ok(self.get_i32_ne())
    }

    /// The next eight bytes as an unsigned number, most significant first; consumed.
    fn get_u64(&mut self) -> (res: u64)
        requires
            old(self).valid(),
            old(self).unread().len() >= 8,
        ensures
            res == be_value(old(self).unread().take(8)),
            final(self).valid(),
            final(self).unread() == old(self).unread().skip(8),
    {
        let v = read_be(self.chunk(), 8);
        self.advance(8);
        proof {
            lemma_pow256_values();
        }
        v as u64
    }

    /// Reads as `get_u64` does: the bytes are consumed.
    fn peek_u64(&mut self) -> (res: u64)
        requires
            old(self).valid(),
            old(self).unread().len() >= 8,
        ensures
            res == be_value(old(self).unread().take(8)),
            final(self).valid(),
            final(self).unread() == old(self).unread().skip(8),
    {
        self.get_u64()
    }

    /// Reads as `get_u64` does, or gives an error where fewer than eight bytes
    /// are left.
    fn try_get_u64(&mut self) -> (res: Result<u64, std::io::Error>)
        requires
            old(self).valid(),
        ensures
            final(self).valid(),
            old(self).unread().len() < 8 ==> res is Err && *final(self) == *old(self),
            old(self).unread().len() >= 8 ==> (res matches Ok(v) && v == be_value(old(self).unread().take(8)))
                && final(self).unread() == old(self).unread().skip(8),
    {
        if self.remaining() < 8 {
            return Err(not_enough());
        }
        Ok(self.get_u64())
    }

    /// The next eight bytes as a signed number, most significant first; consumed.
    fn get_i64(&mut self) -> (res: i64)
        requires
            old(self).valid(),
            old(self).unread().len() >= 8,
        ensures
            res == signed(be_value(old(self).unread().take(8)), 8),
            final(self).valid(),
            final(self).unread() == old(self).unread().skip(8),
    {
        let v = read_be(self.chunk(), 8);
        self.advance(8);
        proof {
            lemma_pow256_values();
        }
        to_signed(v, 0x8000_0000_0000_0000) as i64
    }

    /// Reads as `get_i64` does: the bytes are consumed.
    fn peek_i64(&mut self) -> (res: i64)
        requires
            old(self).valid(),
            old(self).unread().len() >= 8,
        ensures
            res == signed(be_value(old(self).unread().take(8)), 8),
            final(self).valid(),
            final(self).unread() == old(self).unread().skip(8),
    {
        self.get_i64()
    }

    /// Reads as `get_i64` does, or gives an error where fewer than eight bytes
    /// are left.
    fn try_get_i64(&mut self) -> (res: Result<i64, std::io::Error>)
        requires
            old(self).valid(),
        ensures
            final(self).valid(),
            old(self).unread().len() < 8 ==> res is Err && *final(self) == *old(self),
            old(self).unread().len() >= 8 ==> (res matches Ok(v) && v == signed(be_value(old(self).unread().take(8)), 8))
                && final(self).unread() == old(self).unread().skip(8),
    {
        if self.remaining() < 8 {
            return Err(not_enough());
        }
        Ok(self.get_i64())
    }

    /// The next eight bytes as an unsigned number, least significant first; consumed.
    fn get_u64_le(&mut self) -> (res: u64)
        requires
            old(self).valid(),
            old(self).unread().len() >= 8,
        ensures
            res == le_value(old(self).unread().take(8)),
            final(self).valid(),
            final(self).unread() == old(self).unread().skip(8),
    {
        let v = read_le(self.chunk(), 8);
        self.advance(8);
        proof {
            lemma_pow256_values();
        }
        v as u64
    }

    /// Reads as `get_u64_le` does: the bytes are consumed.
    fn peek_u64_le(&mut self) -> (res: u64)
        requires
            old(self).valid(),
            old(self).unread().len() >= 8,
        ensures
            res == le_value(old(self).unread().take(8)),
            final(self).valid(),
            final(self).unread() == old(self).unread().skip(8),
    {
        self.get_u64_le()
    }

    /// Reads as `get_u64_le` does, or gives an error where fewer than eight bytes
    /// are left.
    fn try_get_u64_le(&mut self) -> (res: Result<u64, std::io::Error>)
        requires
            old(self).valid(),
        ensures
            final(self).valid(),
            old(self).unread().len() < 8 ==> res is Err && *final(self) == *old(self),
            old(self).unread().len() >= 8 ==> (res matches Ok(v) && v == le_value(old(self).unread().take(8)))
                && final(self).unread() == old(self).unread().skip(8),
    {
        if self.remaining() < 8 {
            return Err(not_enough());
        }
        Ok(self.get_u64_le())
    }

    /// The next eight bytes as a signed number, least significant first; consumed.
    fn get_i64_le(&mut self) -> (res: i64)
        requires
            old(self).valid(),
            old(self).unread().len() >= 8,
        ensures
            res == signed(le_value(old(self).unread().take(8)), 8),
            final(self).valid(),
            final(self).unread() == old(self).unread().skip(8),
    {
        let v = read_le(self.chunk(), 8);
        self.advance(8);
        proof {
            lemma_pow256_values();
        }
        to_signed(v, 0x8000_0000_0000_0000) as i64
    }

    /// Reads as `get_i64_le` does: the bytes are consumed.
    fn peek_i64_le(&mut self) -> (res: i64)
        requires
            old(self).valid(),
            old(self).unread().len() >= 8,
        ensures
            res == signed(le_value(old(self).unread().take(8)), 8),
            final(self).valid(),
            final(self).unread() == old(self).unread().skip(8),
    {
        self.get_i64_le()
    }

    /// Reads as `get_i64_le` does, or gives an error where fewer than eight bytes
    /// are left.
    fn try_get_i64_le(&mut self) -> (res: Result<i64, std::io::Error>)
        requires
            old(self).valid(),
        ensures
            final(self).valid(),
            old(self).unread().len() < 8 ==> res is Err && *final(self) == *old(self),
            old(self).unread().len() >= 8 ==> (res matches Ok(v) && v == signed(le_value(old(self).unread().take(8)), 8))
                && final(self).unread() == old(self).unread().skip(8),
    {
        if self.remaining() < 8 {
            return Err(not_enough());
        }
        Ok(self.get_i64_le())
    }

    /// The next eight bytes as an unsigned number, in the byte order of the machine; consumed.
    fn get_u64_ne(&mut self) -> (res: u64)
        requires
            old(self).valid(),
            old(self).unread().len() >= 8,
        ensures
            res == be_value(old(self).unread().take(8)) || res == le_value(old(self).unread().take(8)),
            final(self).valid(),
            final(self).unread() == old(self).unread().skip(8),
    {
        if big_endian_host() {
            self.get_u64()
        } else {
            self.get_u64_le()
        }
    }

    /// Reads as `get_u64_ne` does: the bytes are consumed.
    fn peek_u64_ne(&mut self) -> (res: u64)
        requires
            old(self).valid(),
            old(self).unread().len() >= 8,
        ensures
            res == be_value(old(self).unread().take(8)) || res == le_value(old(self).unread().take(8)),
            final(self).valid(),
            final(self).unread() == old(self).unread().skip(8),
    {
        self.get_u64_ne()
    }

    /// Reads as `get_u64_ne` does, or gives an error where fewer than eight bytes
    /// are left.
    fn try_get_u64_ne(&mut self) -> (res: Result<u64, std::io::Error>)
        requires
            old(self).valid(),
        ensures
            final(self).valid(),
            old(self).unread().len() < 8 ==> res is Err && *final(self) == *old(self),
            old(self).unread().len() >= 8 ==> (res matches Ok(v) && (v == be_value(old(self).unread().take(8)) || v == le_value(old(self).unread().take(8))))
                && final(self).unread() == old(self).unread().skip(8),
    {
        if self.remaining() < 8 {
            return Err(not_enough());
        }
        Ok(self.get_u64_ne())
    }

    /// The next eight bytes as a signed number, in the byte order of the machine; consumed.
    fn get_i64_ne(&mut self) -> (res: i64)
        requires
            old(self).valid(),
            old(self).unread().len() >= 8,
        ensures
            res == signed(be_value(old(self).unread().take(8)), 8) || res == signed(le_value(old(self).unread().take(8)), 8),
            final(self).valid(),
            final(self).unread() == old(self).unread().skip(8),
    {
        if big_endian_host() {
            self.get_i64()
        } else {
            self.get_i64_le()
        }
    }

    /// Reads as `get_i64_ne` does: the bytes are consumed.
    fn peek_i64_ne(&mut self) -> (res: i64)
        requires
            old(self).valid(),
            old(self).unread().len() >= 8,
        ensures
            res == signed(be_value(old(self).unread().take(8)), 8) || res == signed(le_value(old(self).unread().take(8)), 8),
            final(self).valid(),
            final(self).unread() == old(self).unread().skip(8),
    {
        self.get_i64_ne()
    }

    /// Reads as `get_i64_ne` does, or gives an error where fewer than eight bytes
    /// are left.
    fn try_get_i64_ne(&mut self) -> (res: Result<i64, std::io::Error>)
        requires
            old(self).valid(),
        ensures
            final(self).valid(),
            old(self).unread().len() < 8 ==> res is Err && *final(self) == *old(self),
            old(self).unread().len() >= 8 ==> (res matches Ok(v) && (v == signed(be_value(old(self).unread().take(8)), 8) || v == signed(le_value(old(self).unread().take(8)), 8)))
                && final(self).unread() == old(self).unread().skip(8),
    {
        if self.remaining() < 8 {
            return Err(not_enough());
        }
        Ok(self.get_i64_ne())
    }

    /// The next sixteen bytes as an unsigned number, most significant first; consumed.
    fn get_u128(&mut self) -> (res: u128)
        requires
            old(self).valid(),
            old(self).unread().len() >= 16,
        ensures
            res == be_value(old(self).unread().take(16)),
            final(self).valid(),
            final(self).unread() == old(self).unread().skip(16),
    {
        let v = read_be(self.chunk(), 16);
        self.advance(16);
        proof {
            lemma_pow256_values();
        }
        v
    }

    /// Reads as `get_u128` does: the bytes are consumed.
    fn peek_u128(&mut self) -> (res: u128)
        requires
            old(self).valid(),
            old(self).unread().len() >= 16,
        ensures
            res == be_value(old(self).unread().take(16)),
            final(self).valid(),
            final(self).unread() == old(self).unread().skip(16),
    {
        self.get_u128()
    }

    /// Reads as `get_u128` does, or gives an error where fewer than sixteen bytes
    /// are left.
    fn try_get_u128(&mut self) -> (res: Result<u128, std::io::Error>)
        requires
            old(self).valid(),
        ensures
            final(self).valid(),
            old(self).unread().len() < 16 ==> res is Err && *final(self) == *old(self),
            old(self).unread().len() >= 16 ==> (res matches Ok(v) && v == be_value(old(self).unread().take(16)))
                && final(self).unread() == old(self).unread().skip(16),
    {
        if self.remaining() < 16 {
            return Err(not_enough());
        }
        Ok(self.get_u128())
    }

    /// The next sixteen bytes as a signed number, most significant first; consumed.
    fn get_i128(&mut self) -> (res: i128)
        requires
            old(self).valid(),
            old(self).unread().len() >= 16,
        ensures
            res == signed(be_value(old(self).unread().take(16)), 16),
            final(self).valid(),
            final(self).unread() == old(self).unread().skip(16),
    {
        let v = read_be(self.chunk(), 16);
        self.advance(16);
        proof {
            lemma_pow256_values();
        }
        to_signed(v, 0x8000_0000_0000_0000_0000_0000_0000_0000)
    }

    /// Reads as `get_i128` does: the bytes are consumed.
    fn peek_i128(&mut self) -> (res: i128)
        requires
            old(self).valid(),
            old(self).unread().len() >= 16,
        ensures
            res == signed(be_value(old(self).unread().take(16)), 16),
            final(self).valid(),
            final(self).unread() == old(self).unread().skip(16),
    {
        self.get_i128()
    }

    /// Reads as `get_i128` does, or gives an error where fewer than sixteen bytes
    /// are left.
    fn try_get_i128(&mut self) -> (res: Result<i128, std::io::Error>)
        requires
            old(self).valid(),
        ensures
            final(self).valid(),
            old(self).unread().len() < 16 ==> res is Err && *final(self) == *old(self),
            old(self).unread().len() >= 16 ==> (res matches Ok(v) && v == signed(be_value(old(self).unread().take(16)), 16))
                && final(self).unread() == old(self).unread().skip(16),
    {
        if self.remaining() < 16 {
            return Err(not_enough());
        }
        Ok(self.get_i128())
    }

    /// The next sixteen bytes as an unsigned number, least significant first; consumed.
    fn get_u128_le(&mut self) -> (res: u128)
        requires
            old(self).valid(),
            old(self).unread().len() >= 16,
        ensures
            res == le_value(old(self).unread().take(16)),
            final(self).valid(),
            final(self).unread() == old(self).unread().skip(16),
    {
        let v = read_le(self.chunk(), 16);
        self.advance(16);
        proof {
            lemma_pow256_values();
        }
        v
    }

    /// Reads as `get_u128_le` does: the bytes are consumed.
    fn peek_u128_le(&mut self) -> (res: u128)
        requires
            old(self).valid(),
            old(self).unread().len() >= 16,
        ensures
            res == le_value(old(self).unread().take(16)),
            final(self).valid(),
            final(self).unread() == old(self).unread().skip(16),
    {
        self.get_u128_le()
    }

    /// Reads as `get_u128_le` does, or gives an error where fewer than sixteen bytes
    /// are left.
    fn try_get_u128_le(&mut self) -> (res: Result<u128, std::io::Error>)
        requires
            old(self).valid(),
        ensures
            final(self).valid(),
            old(self).unread().len() < 16 ==> res is Err && *final(self) == *old(self),
            old(self).unread().len() >= 16 ==> (res matches Ok(v) && v == le_value(old(self).unread().take(16)))
                && final(self).unread() == old(self).unread().skip(16),
    {
        if self.remaining() < 16 {
            return Err(not_enough());
        }
        Ok(self.get_u128_le())
    }

    /// The next sixteen bytes as a signed number, least significant first; consumed.
    fn get_i128_le(&mut self) -> (res: i128)
        requires
            old(self).valid(),
            old(self).unread().len() >= 16,
        ensures
            res == signed(le_value(old(self).unread().take(16)), 16),
            final(self).valid(),
            final(self).unread() == old(self).unread().skip(16),
    {
        let v = read_le(self.chunk(), 16);
        self.advance(16);
        proof {
            lemma_pow256_values();
        }
        to_signed(v, 0x8000_0000_0000_0000_0000_0000_0000_0000)
    }

    /// Reads as `get_i128_le` does: the bytes are consumed.
    fn peek_i128_le(&mut self) -> (res: i128)
        requires
            old(self).valid(),
            old(self).unread().len() >= 16,
        ensures
            res == signed(le_value(old(self).unread().take(16)), 16),
            final(self).valid(),
            final(self).unread() == old(self).unread().skip(16),
    {
        self.get_i128_le()
    }

    /// Reads as `get_i128_le` does, or gives an error where fewer than sixteen bytes
    /// are left.
    fn try_get_i128_le(&mut self) -> (res: Result<i128, std::io::Error>)
        requires
            old(self).valid(),
        ensures
            final(self).valid(),
            old(self).unread().len() < 16 ==> res is Err && *final(self) == *old(self),
            old(self).unread().len() >= 16 ==> (res matches Ok(v) && v == signed(le_value(old(self).unread().take(16)), 16))
                && final(self).unread() == old(self).unread().skip(16),
    {
        if self.remaining() < 16 {
            return Err(not_enough());
        }
        Ok(self.get_i128_le())
    }

    /// The next sixteen bytes as an unsigned number, in the byte order of the machine; consumed.
    fn get_u128_ne(&mut self) -> (res: u128)
        requires
            old(self).valid(),
            old(self).unread().len() >= 16,
        ensures
            res == be_value(old(self).unread().take(16)) || res == le_value(old(self).unread().take(16)),
            final(self).valid(),
            final(self).unread() == old(self).unread().skip(16),
    {
        if big_endian_host() {
            self.get_u128()
        } else {
            self.get_u128_le()
        }
    }

    /// Reads as `get_u128_ne` does: the bytes are consumed.
    fn peek_u128_ne(&mut self) -> (res: u128)
        requires
            old(self).valid(),
            old(self).unread().len() >= 16,
        ensures
            res == be_value(old(self).unread().take(16)) || res == le_value(old(self).unread().take(16)),
            final(self).valid(),
            final(self).unread() == old(self).unread().skip(16),
    {
        self.get_u128_ne()
    }

    /// Reads as `get_u128_ne` does, or gives an error where fewer than sixteen bytes
    /// are left.
    fn try_get_u128_ne(&mut self) -> (res: Result<u128, std::io::Error>)
        requires
            old(self).valid(),
        ensures
            final(self).valid(),
            old(self).unread().len() < 16 ==> res is Err && *final(self) == *old(self),
            old(self).unread().len() >= 16 ==> (res matches Ok(v) && (v == be_value(old(self).unread().take(16)) || v == le_value(old(self).unread().take(16))))
                && final(self).unread() == old(self).unread().skip(16),
    {
        if self.remaining() < 16 {
            return Err(not_enough());
        }
        Ok(self.get_u128_ne())
    }

    /// The next sixteen bytes as a signed number, in the byte order of the machine; consumed.
    fn get_i128_ne(&mut self) -> (res: i128)
        requires
            old(self).valid(),
            old(self).unread().len() >= 16,
        ensures
            res == signed(be_value(old(self).unread().take(16)), 16) || res == signed(le_value(old(self).unread().take(16)), 16),
            final(self).valid(),
            final(self).unread() == old(self).unread().skip(16),
    {
        if big_endian_host() {
            self.get_i128()
        } else {
            self.get_i128_le()
        }
    }

    /// Reads as `get_i128_ne` does: the bytes are consumed.
    fn peek_i128_ne(&mut self) -> (res: i128)
        requires
            old(self).valid(),
            old(self).unread().len() >= 16,
        ensures
            res == signed(be_value(old(self).unread().take(16)), 16) || res == signed(le_value(old(self).unread().take(16)), 16),
            final(self).valid(),
            final(self).unread() == old(self).unread().skip(16),
    {
        self.get_i128_ne()
    }

    /// Reads as `get_i128_ne` does, or gives an error where fewer than sixteen bytes
    /// are left.
    fn try_get_i128_ne(&mut self) -> (res: Result<i128, std::io::Error>)
        requires
            old(self).valid(),
        ensures
            final(self).valid(),
            old(self).unread().len() < 16 ==> res is Err && *final(self) == *old(self),
            old(self).unread().len() >= 16 ==> (res matches Ok(v) && (v == signed(be_value(old(self).unread().take(16)), 16) || v == signed(le_value(old(self).unread().take(16)), 16)))
                && final(self).unread() == old(self).unread().skip(16),
    {
        if self.remaining() < 16 {
            return Err(not_enough());
        }
        Ok(self.get_i128_ne())
    }

    /// The next `nbytes` bytes as an unsigned number, most significant first; consumed.
    fn get_uint(&mut self, nbytes: usize) -> (res: u64)
        requires
            old(self).valid(),
            nbytes <= 8,
            nbytes <= old(self).unread().len(),
        ensures
            res == be_value(old(self).unread().take(nbytes as int)),
            final(self).valid(),
            final(self).unread() == old(self).unread().skip(nbytes as int),
    {
        let v = read_be(self.chunk(), nbytes);
        self.advance(nbytes);
        proof {
            lemma_pow256_grows(nbytes as nat, 8);
            lemma_pow256_values();
        }
        v as u64
    }

    /// The next `nbytes` bytes as an unsigned number, most significant first; not consumed.
    fn peek_uint(&mut self, nbytes: usize) -> (res: u64)
        requires
            old(self).valid(),
            nbytes <= 8,
            nbytes <= old(self).unread().len(),
        ensures
            res == be_value(old(self).unread().take(nbytes as int)),
            *final(self) == *old(self),
    {
        let v = read_be(self.chunk(), nbytes);
        proof {
            lemma_pow256_grows(nbytes as nat, 8);
            lemma_pow256_values();
        }
        v as u64
    }

    /// Reads as `get_uint` does where at least eight bytes are left, and
    /// gives an error otherwise.
    fn try_get_uint(&mut self, nbytes: usize) -> (res: Result<u64, std::io::Error>)
        requires
            old(self).valid(),
            old(self).unread().len() < 8 || nbytes <= 8,
        ensures
            final(self).valid(),
            old(self).unread().len() < 8 ==> res is Err && *final(self) == *old(self),
            old(self).unread().len() >= 8 ==> (res matches Ok(v) && v == be_value(old(self).unread().take(nbytes as int)))
                && final(self).unread() == old(self).unread().skip(nbytes as int),
    {
        if self.remaining() < 8 {
            return Err(not_enough());
        }
        Ok(self.get_uint(nbytes))
    }

    /// The next `nbytes` bytes as a number, most significant first, read as a signed number of eight bytes; consumed.
    fn get_int(&mut self, nbytes: usize) -> (res: i64)
        requires
            old(self).valid(),
            nbytes <= 8,
            nbytes <= old(self).unread().len(),
        ensures
            res == signed(be_value(old(self).unread().take(nbytes as int)), 8),
            final(self).valid(),
            final(self).unread() == old(self).unread().skip(nbytes as int),
    {
        let v = read_be(self.chunk(), nbytes);
        self.advance(nbytes);
        proof {
            lemma_pow256_grows(nbytes as nat, 8);
            lemma_pow256_values();
        }
        to_signed(v, 0x8000_0000_0000_0000) as i64
    }

    /// The next `nbytes` bytes as a number, most significant first, read as a signed number of eight bytes; not consumed.
    fn peek_int(&mut self, nbytes: usize) -> (res: i64)
        requires
            old(self).valid(),
            nbytes <= 8,
            nbytes <= old(self).unread().len(),
        ensures
            res == signed(be_value(old(self).unread().take(nbytes as int)), 8),
            *final(self) == *old(self),
    {
        let v = read_be(self.chunk(), nbytes);
        proof {
            lemma_pow256_grows(nbytes as nat, 8);
            lemma_pow256_values();
        }
        to_signed(v, 0x8000_0000_0000_0000) as i64
    }

    /// Reads as `get_int` does where at least eight bytes are left, and
    /// gives an error otherwise.
    fn try_get_int(&mut self, nbytes: usize) -> (res: Result<i64, std::io::Error>)
        requires
            old(self).valid(),
            old(self).unread().len() < 8 || nbytes <= 8,
        ensures
            final(self).valid(),
            old(self).unread().len() < 8 ==> res is Err && *final(self) == *old(self),
            old(self).unread().len() >= 8 ==> (res matches Ok(v) && v == signed(be_value(old(self).unread().take(nbytes as int)), 8))
                && final(self).unread() == old(self).unread().skip(nbytes as int),
    {
        if self.remaining() < 8 {
            return Err(not_enough());
        }
        Ok(self.get_int(nbytes))
    }

    /// The next `nbytes` bytes as an unsigned number, least significant first; consumed.
    fn get_uint_le(&mut self, nbytes: usize) -> (res: u64)
        requires
            old(self).valid(),
            nbytes <= 8,
            nbytes <= old(self).unread().len(),
        ensures
            res == le_value(old(self).unread().take(nbytes as int)),
            final(self).valid(),
            final(self).unread() == old(self).unread().skip(nbytes as int),
    {
        let v = read_le(self.chunk(), nbytes);
        self.advance(nbytes);
        proof {
            lemma_pow256_grows(nbytes as nat, 8);
            lemma_pow256_values();
        }
        v as u64
    }

    /// The next `nbytes` bytes as an unsigned number, least significant first; not consumed.
    fn peek_uint_le(&mut self, nbytes: usize) -> (res: u64)
        requires
            old(self).valid(),
            nbytes <= 8,
            nbytes <= old(self).unread().len(),
        ensures
            res == le_value(old(self).unread().take(nbytes as int)),
            *final(self) == *old(self),
    {
        let v = read_le(self.chunk(), nbytes);
        proof {
            lemma_pow256_grows(nbytes as nat, 8);
            lemma_pow256_values();
        }
        v as u64
    }

    /// Reads as `get_uint_le` does where at least eight bytes are left, and
    /// gives an error otherwise.
    fn try_get_uint_le(&mut self, nbytes: usize) -> (res: Result<u64, std::io::Error>)
        requires
            old(self).valid(),
            old(self).unread().len() < 8 || nbytes <= 8,
        ensures
            final(self).valid(),
            old(self).unread().len() < 8 ==> res is Err && *final(self) == *old(self),
            old(self).unread().len() >= 8 ==> (res matches Ok(v) && v == le_value(old(self).unread().take(nbytes as int)))
                && final(self).unread() == old(self).unread().skip(nbytes as int),
    {
        if self.remaining() < 8 {
            return Err(not_enough());
        }
        Ok(self.get_uint_le(nbytes))
    }

    /// The next `nbytes` bytes as a number, least significant first, read as a signed number of eight bytes; consumed.
    fn get_int_le(&mut self, nbytes: usize) -> (res: i64)
        requires
            old(self).valid(),
            nbytes <= 8,
            nbytes <= old(self).unread().len(),
        ensures
            res == signed(le_value(old(self).unread().take(nbytes as int)), 8),
            final(self).valid(),
            final(self).unread() == old(self).unread().skip(nbytes as int),
    {
        let v = read_le(self.chunk(), nbytes);
        self.advance(nbytes);
        proof {
            lemma_pow256_grows(nbytes as nat, 8);
            lemma_pow256_values();
        }
        to_signed(v, 0x8000_0000_0000_0000) as i64
    }

    /// The next `nbytes` bytes as a number, least significant first, read as a signed number of eight bytes; not consumed.
    fn peek_int_le(&mut self, nbytes: usize) -> (res: i64)
        requires
            old(self).valid(),
            nbytes <= 8,
            nbytes <= old(self).unread().len(),
        ensures
            res == signed(le_value(old(self).unread().take(nbytes as int)), 8),
            *final(self) == *old(self),
    {
        let v = read_le(self.chunk(), nbytes);
        proof {
            lemma_pow256_grows(nbytes as nat, 8);
            lemma_pow256_values();
        }
        to_signed(v, 0x8000_0000_0000_0000) as i64
    }

    /// Reads as `get_int_le` does where at least eight bytes are left, and
    /// gives an error otherwise.
    fn try_get_int_le(&mut self, nbytes: usize) -> (res: Result<i64, std::io::Error>)
        requires
            old(self).valid(),
            old(self).unread().len() < 8 || nbytes <= 8,
        ensures
            final(self).valid(),
            old(self).unread().len() < 8 ==> res is Err && *final(self) == *old(self),
            old(self).unread().len() >= 8 ==> (res matches Ok(v) && v == signed(le_value(old(self).unread().take(nbytes as int)), 8))
                && final(self).unread() == old(self).unread().skip(nbytes as int),
    {
        if self.remaining() < 8 {
            return Err(not_enough());
        }
        Ok(self.get_int_le(nbytes))
    }

    /// The next `nbytes` bytes as an unsigned number, in the byte order of the machine; consumed.
    fn get_uint_ne(&mut self, nbytes: usize) -> (res: u64)
        requires
            old(self).valid(),
            nbytes <= 8,
            nbytes <= old(self).unread().len(),
        ensures
            res == be_value(old(self).unread().take(nbytes as int)) || res == le_value(old(self).unread().take(nbytes as int)),
            final(self).valid(),
            final(self).unread() == old(self).unread().skip(nbytes as int),
    {
        if big_endian_host() {
            self.get_uint(nbytes)
        } else {
            self.get_uint_le(nbytes)
        }
    }

    /// The next `nbytes` bytes as an unsigned number, in the byte order of the machine; not consumed.
    fn peek_uint_ne(&mut self, nbytes: usize) -> (res: u64)
        requires
            old(self).valid(),
            nbytes <= 8,
            nbytes <= old(self).unread().len(),
        ensures
            res == be_value(old(self).unread().take(nbytes as int)) || res == le_value(old(self).unread().take(nbytes as int)),
            *final(self) == *old(self),
    {
        if big_endian_host() {
            self.peek_uint(nbytes)
        } else {
            self.peek_uint_le(nbytes)
        }
    }

    /// Reads as `get_uint_ne` does where at least eight bytes are left, and
    /// gives an error otherwise.
    fn try_get_uint_ne(&mut self, nbytes: usize) -> (res: Result<u64, std::io::Error>)
        requires
            old(self).valid(),
            old(self).unread().len() < 8 || nbytes <= 8,
        ensures
            final(self).valid(),
            old(self).unread().len() < 8 ==> res is Err && *final(self) == *old(self),
            old(self).unread().len() >= 8 ==> (res matches Ok(v) && (v == be_value(old(self).unread().take(nbytes as int)) || v == le_value(old(self).unread().take(nbytes as int))))
                && final(self).unread() == old(self).unread().skip(nbytes as int),
    {
        if self.remaining() < 8 {
            return Err(not_enough());
        }
        Ok(self.get_uint_ne(nbytes))
    }

    /// The next `nbytes` bytes as a number, in the byte order of the machine, read as a signed number of eight bytes; consumed.
    fn get_int_ne(&mut self, nbytes: usize) -> (res: i64)
        requires
            old(self).valid(),
            nbytes <= 8,
            nbytes <= old(self).unread().len(),
        ensures
            res == signed(be_value(old(self).unread().take(nbytes as int)), 8) || res == signed(le_value(old(self).unread().take(nbytes as int)), 8),
            final(self).valid(),
            final(self).unread() == old(self).unread().skip(nbytes as int),
    {
        if big_endian_host() {
            self.get_int(nbytes)
        } else {
            self.get_int_le(nbytes)
        }
    }

    /// The next `nbytes` bytes as a number, in the byte order of the machine, read as a signed number of eight bytes; not consumed.
    fn peek_int_ne(&mut self, nbytes: usize) -> (res: i64)
        requires
            old(self).valid(),
            nbytes <= 8,
            nbytes <= old(self).unread().len(),
        ensures
            res == signed(be_value(old(self).unread().take(nbytes as int)), 8) || res == signed(le_value(old(self).unread().take(nbytes as int)), 8),
            *final(self) == *old(self),
    {
        if big_endian_host() {
            self.peek_int(nbytes)
        } else {
            self.peek_int_le(nbytes)
        }
    }

    /// Reads as `get_int_ne` does where at least eight bytes are left, and
    /// gives an error otherwise.
    fn try_get_int_ne(&mut self, nbytes: usize) -> (res: Result<i64, std::io::Error>)
        requires
            old(self).valid(),
            old(self).unread().len() < 8 || nbytes <= 8,
        ensures
            final(self).valid(),
            old(self).unread().len() < 8 ==> res is Err && *final(self) == *old(self),
            old(self).unread().len() >= 8 ==> (res matches Ok(v) && (v == signed(be_value(old(self).unread().take(nbytes as int)), 8) || v == signed(le_value(old(self).unread().take(nbytes as int)), 8)))
                && final(self).unread() == old(self).unread().skip(nbytes as int),
    {
        if self.remaining() < 8 {
            return Err(not_enough());
        }
        Ok(self.get_int_ne(nbytes))
    }
}

impl Bt for Binary {
    open spec fn valid(&self) -> bool {
        self.wf()
    }

    open spec fn unread(&self) -> Seq<u8> {
        self@
    }

    fn remaining(&self) -> (res: usize) {
        Binary::remaining(self)
    }

    fn chunk(&self) -> (res: &[u8]) {
        Binary::chunk(self)
    }

    fn advance(&mut self, n: usize) {
        Binary::advance(self, n);
        proof {
            assert(final(self)@ =~= old(self)@.skip(n as int));
        }
    }

    fn advance_chunk(&mut self, n: usize) -> (res: &[u8]) {
        Binary::advance_chunk(self, n)
    }

    fn into_binary(self) -> (res: Binary) {
        self
    }
}

impl Bt for BinaryMut {
    open spec fn valid(&self) -> bool {
        self.wf()
    }

    open spec fn unread(&self) -> Seq<u8> {
        self@
    }

    fn remaining(&self) -> (res: usize) {
        BinaryMut::remaining(self)
    }

    fn chunk(&self) -> (res: &[u8]) {
        BinaryMut::chunk(self)
    }

    fn advance(&mut self, n: usize) {
        BinaryMut::advance(self, n);
        proof {
            assert(final(self)@ =~= old(self)@.skip(n as int));
        }
    }

    fn advance_chunk(&mut self, n: usize) -> (res: &[u8]) {
        BinaryMut::advance_chunk(self, n)
    }

    fn into_binary(self) -> (res: Binary) {
        BinaryMut::into_binary(self)
    }

    /// The next byte, consumed: the cursor moves on by one, and the written
    /// bytes and the mark stay.
    fn get_u8(&mut self) -> (res: u8)
        ensures
            final(self).written() == old(self).written(),
            final(self).spec_cursor() == old(self).spec_cursor() + 1,
            final(self).spec_mark() == old(self).spec_mark(),
            final(self).spec_resort() == old(self).spec_resort(),
    {
        let ret = BinaryMut::chunk(self)[0];
        BinaryMut::advance(self, 1);
        proof {
            assert(final(self)@ =~= old(self)@.skip(1));
        }
        ret
    }
}

impl<'a> Bt for BinaryRef<'a> {
    open spec fn valid(&self) -> bool {
        self.wf()
    }

    open spec fn unread(&self) -> Seq<u8> {
        self@
    }

    fn remaining(&self) -> (res: usize) {
        BinaryRef::remaining(self)
    }

    fn chunk(&self) -> (res: &[u8]) {
        BinaryRef::chunk(self)
    }

    fn advance(&mut self, n: usize) {
        BinaryRef::advance(self, n);
        proof {
            assert(final(self)@ =~= old(self)@.skip(n as int));
        }
    }

    fn advance_chunk(&mut self, n: usize) -> (res: &[u8]) {
        let res = BinaryRef::advance_chunk(self, n);
        proof {
            assert(final(self)@ =~= old(self)@.skip(n as int));
            assert(res@ =~= old(self)@.take(n as int));
        }
        res
    }

    fn into_binary(self) -> (res: Binary) {
        BinaryRef::into_binary(self)
    }
}

impl<'a> Bt for &'a [u8] {
    open spec fn valid(&self) -> bool {
        true
    }

    open spec fn unread(&self) -> Seq<u8> {
        self@
    }

    fn remaining(&self) -> (res: usize) {
        self.len()
    }

    fn chunk(&self) -> (res: &[u8]) {
        *self
    }

    fn advance(&mut self, n: usize) {
        let whole: &'a [u8] = *self;
        let (_, rest) = whole.split_at(n);
        *self = rest;
        proof {
            assert(final(self)@ =~= old(self)@.skip(n as int));
        }
    }

    fn advance_chunk(&mut self, n: usize) -> (res: &[u8]) {
        let whole: &'a [u8] = *self;
        let (front, rest) = whole.split_at(n);
        *self = rest;
        proof {
            assert(final(self)@ =~= old(self)@.skip(n as int));
            assert(front@ =~= old(self)@.take(n as int));
        }
        front
    }

    fn into_binary(self) -> (res: Binary) {
        let v = super::copy_range(self, 0, self.len());
        proof {
            assert(v@ =~= self@);
        }
        Binary::from_vec(v)
    }
}

} // verus!
