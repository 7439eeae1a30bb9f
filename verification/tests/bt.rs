use algorithm::{Binary, BinaryMut, BinaryRef, Bt};

fn big_endian() -> bool {
    u16::from_ne_bytes([0, 1]) == 1
}

#[test]
fn bt_copy_to_slice() {
    let mut buf = &b"hello world"[..];
    let mut dst = [0; 5];
    assert_eq!(5, buf.copy_to_slice(&mut dst));
    assert_eq!(&b"hello"[..], &dst);
    assert_eq!(6, Bt::remaining(&buf));
}

#[test]
fn bt_peek_to_slice_keeps_bytes() {
    let mut buf = &b"hello world"[..];
    let mut dst = [0; 5];
    assert_eq!(5, buf.peek_to_slice(&mut dst));
    assert_eq!(&b"hello"[..], &dst);
    assert_eq!(11, Bt::remaining(&buf));
}

#[test]
fn bt_u16() {
    let mut buf = &b"\x08\x09 hello"[..];
    assert_eq!(0x0809, buf.get_u16());
    assert_eq!(6, Bt::remaining(&buf));
    let mut buf = &b"\x09\x08 hello"[..];
    assert_eq!(0x0809, buf.get_u16_le());
    let mut buf: &[u8] = if big_endian() { b"\x08\x09 hello" } else { b"\x09\x08 hello" };
    assert_eq!(0x0809, buf.get_u16_ne());
}

#[test]
fn bt_i16() {
    let mut buf = &b"\x08\x09 hello"[..];
    assert_eq!(0x0809, buf.get_i16());
    let mut buf = &b"\x09\x08 hello"[..];
    assert_eq!(0x0809, buf.get_i16_le());
    let mut buf: &[u8] = if big_endian() { b"\x08\x09 hello" } else { b"\x09\x08 hello" };
    assert_eq!(0x0809, buf.get_i16_ne());
    let mut buf = &b"\xff\xfe"[..];
    assert_eq!(-2, buf.get_i16());
    let mut buf = &b"\x00\x80"[..];
    assert_eq!(i16::MIN, buf.get_i16_le());
}

#[test]
fn bt_u32_i32() {
    let mut buf = &b"\x08\x09\xA0\xA1 hello"[..];
    assert_eq!(0x0809A0A1, buf.get_u32());
    let mut buf = &b"\xA1\xA0\x09\x08 hello"[..];
    assert_eq!(0x0809A0A1, buf.get_u32_le());
    let mut buf: &[u8] = if big_endian() { b"\x08\x09\xA0\xA1 hello" } else { b"\xA1\xA0\x09\x08 hello" };
    assert_eq!(0x0809A0A1, buf.get_u32_ne());
    let mut buf = &b"\x08\x09\xA0\xA1 hello"[..];
    assert_eq!(0x0809A0A1, buf.get_i32());
    let mut buf = &b"\xA1\xA0\x09\x08 hello"[..];
    assert_eq!(0x0809A0A1, buf.get_i32_le());
    let mut buf: &[u8] = if big_endian() { b"\x08\x09\xA0\xA1 hello" } else { b"\xA1\xA0\x09\x08 hello" };
    assert_eq!(0x0809A0A1, buf.get_i32_ne());
    let mut buf = &b"\xff\xff\xff\xff"[..];
    assert_eq!(-1, buf.get_i32());
}

#[test]
fn bt_u64_i64() {
    let mut buf = &b"\x01\x02\x03\x04\x05\x06\x07\x08 hello"[..];
    assert_eq!(0x0102030405060708, buf.get_u64());
    let mut buf = &b"\x08\x07\x06\x05\x04\x03\x02\x01 hello"[..];
    assert_eq!(0x0102030405060708, buf.get_u64_le());
    let mut buf: &[u8] = if big_endian() {
        b"\x01\x02\x03\x04\x05\x06\x07\x08 hello"
    } else {
        b"\x08\x07\x06\x05\x04\x03\x02\x01 hello"
    };
    assert_eq!(0x0102030405060708, buf.get_u64_ne());
    let mut buf = &b"\x01\x02\x03\x04\x05\x06\x07\x08 hello"[..];
    assert_eq!(0x0102030405060708, buf.get_i64());
    let mut buf = &b"\x08\x07\x06\x05\x04\x03\x02\x01 hello"[..];
    assert_eq!(0x0102030405060708, buf.get_i64_le());
    let mut buf: &[u8] = if big_endian() {
        b"\x01\x02\x03\x04\x05\x06\x07\x08 hello"
    } else {
        b"\x08\x07\x06\x05\x04\x03\x02\x01 hello"
    };
    assert_eq!(0x0102030405060708, buf.get_i64_ne());
    let mut buf = &b"\x80\x00\x00\x00\x00\x00\x00\x00"[..];
    assert_eq!(i64::MIN, buf.get_i64());
}

#[test]
fn bt_u128_i128() {
    let mut buf = &b"\x01\x02\x03\x04\x05\x06\x07\x08\x09\x10\x11\x12\x13\x14\x15\x16 hello"[..];
    assert_eq!(0x01020304050607080910111213141516, buf.get_u128());
    let mut buf = &b"\x16\x15\x14\x13\x12\x11\x10\x09\x08\x07\x06\x05\x04\x03\x02\x01 hello"[..];
    assert_eq!(0x01020304050607080910111213141516, buf.get_u128_le());
    let mut buf = &b"\x01\x02\x03\x04\x05\x06\x07\x08\x09\x10\x11\x12\x13\x14\x15\x16 hello"[..];
    assert_eq!(0x01020304050607080910111213141516, buf.get_i128());
    let mut buf = &b"\x16\x15\x14\x13\x12\x11\x10\x09\x08\x07\x06\x05\x04\x03\x02\x01 hello"[..];
    assert_eq!(0x01020304050607080910111213141516, buf.get_i128_le());
    let mut buf = &[0xffu8; 16][..];
    assert_eq!(-1, buf.get_i128());
    assert_eq!(0, Bt::remaining(&buf));
    let mut buf = &[0xffu8; 16][..];
    assert_eq!(u128::MAX, buf.get_u128_ne());
}

#[test]
fn bt_uint_int() {
    let mut buf = &b"\x01\x02\x03 hello"[..];
    assert_eq!(0x010203, buf.get_uint(3));
    assert_eq!(6, Bt::remaining(&buf));
    let mut buf = &b"\x03\x02\x01 hello"[..];
    assert_eq!(0x010203, buf.get_uint_le(3));
    let mut buf: &[u8] = if big_endian() { b"\x01\x02\x03 hello" } else { b"\x03\x02\x01 hello" };
    assert_eq!(0x010203, buf.get_uint_ne(3));
    let mut buf = &b"\x01\x02\x03 hello"[..];
    assert_eq!(0x010203, buf.get_int(3));
    let mut buf = &b"\x03\x02\x01 hello"[..];
    assert_eq!(0x010203, buf.get_int_le(3));
    let mut buf: &[u8] = if big_endian() { b"\x01\x02\x03 hello" } else { b"\x03\x02\x01 hello" };
    assert_eq!(0x010203, buf.get_int_ne(3));
    // fewer than eight bytes are not sign-extended
    let mut buf = &b"\xff\xff\xff"[..];
    assert_eq!(0xffffff, buf.get_int(3));
}

#[test]
fn bt_peek_uint_keeps_bytes() {
    let mut buf = &b"\x01\x02\x03 hello"[..];
    assert_eq!(0x010203, buf.peek_uint(3));
    assert_eq!(9, Bt::remaining(&buf));
    assert_eq!(0x030201, buf.peek_uint_le(3));
    assert_eq!(0x0102, buf.peek_int(2));
    assert_eq!(9, Bt::remaining(&buf));
}

#[test]
fn bt_try_get_errors() {
    let mut buf = &b"\x01"[..];
    assert!(buf.try_get_u16().is_err());
    assert_eq!(1, Bt::remaining(&buf));
    assert_eq!(1, buf.try_get_u8().unwrap());
    assert!(buf.try_get_u8().is_err());
    assert!(buf.try_get_i8().is_err());

    let mut buf = &b"\x01\x02\x03\x04\x05\x06\x07"[..];
    // the n-byte reads ask for eight bytes left
    assert!(buf.try_get_uint(2).is_err());
    assert_eq!(7, Bt::remaining(&buf));
    assert_eq!(0x0102030405060708, (&b"\x01\x02\x03\x04\x05\x06\x07\x08"[..]).try_get_u64().unwrap());
    let mut buf = &b"\x01\x02\x03\x04\x05\x06\x07\x08"[..];
    assert_eq!(0x0102, buf.try_get_uint(2).unwrap());
    assert_eq!(6, Bt::remaining(&buf));
    let mut buf = &b"\xfe\x01"[..];
    assert_eq!(-2, buf.try_get_i8().unwrap());
    assert_eq!(0x01, buf.try_get_u8().unwrap());
}

#[test]
fn bt_peek_and_get_next() {
    let mut buf = &b"ab"[..];
    assert_eq!(Some(b'a'), Bt::peek(&buf));
    assert_eq!(b'a', buf.peek_u8());
    assert_eq!(Some(b'a'), Bt::get_next(&mut buf));
    assert!(Bt::has_remaining(&buf));
    assert_eq!(b'b', buf.get_u8());
    assert!(!Bt::has_remaining(&buf));
    assert_eq!(None, Bt::get_next(&mut buf));
    assert_eq!(None, Bt::peek(&buf));
}

#[test]
fn bt_peek_u16_consumes() {
    let mut buf = &b"\x08\x09\x0a"[..];
    assert_eq!(0x0809, buf.peek_u16());
    assert_eq!(1, Bt::remaining(&buf));
}

#[test]
fn bt_on_binaries() {
    let mut b = Binary::from_vec(vec![0, 1, 0, 0, 0, 2, 9]);
    assert_eq!(1, b.get_u16());
    assert_eq!(2, b.get_u32());
    assert_eq!(9, b.get_u8());
    assert_eq!(0, Bt::remaining(&b));

    let mut m = BinaryMut::from_vec(vec![2, 0, 0xff]);
    assert_eq!(2, m.get_u16_le());
    assert_eq!(-1, m.get_i8());
    assert!(m.try_get_u8().is_err());

    let data = [5u8, 6, 7];
    let mut r = BinaryRef::from_slice(&data);
    assert_eq!(5, r.get_u8());
    let rest = Bt::into_binary(r);
    assert_eq!(vec![6, 7], rest.to_vec());

    let mut s = &b"xyz"[..];
    assert_eq!(&b"xy"[..], Bt::advance_chunk(&mut s, 2));
    Bt::advance_all(&mut s);
    assert_eq!(0, Bt::remaining(&s));
    let whole = Bt::into_binary(&b"pq"[..]);
    assert_eq!(vec![b'p', b'q'], whole.to_vec());
}

#[test]
fn binary_read_moves_bytes() {
    let mut b = Binary::from_vec(vec![1, 2, 3]);
    let mut buf = [9u8; 2];
    assert_eq!(2, b.read(&mut buf).unwrap());
    assert_eq!([1, 2], buf);
    let mut big = [9u8; 4];
    assert_eq!(1, b.read(&mut big).unwrap());
    assert_eq!([3, 9, 9, 9], big);
    assert!(b.read(&mut big).is_err());
    let mut empty: [u8; 0] = [];
    let mut r = BinaryRef::from_slice(&b"ab"[..]);
    assert!(r.read(&mut empty).is_err());
    assert_eq!(2, r.len());
    assert_eq!(2, r.read(&mut big).unwrap());
    assert_eq!([b'a', b'b', 9, 9], big);
}

#[test]
fn binary_mut_write_and_put() {
    let mut m = BinaryMut::new();
    assert_eq!(3, m.write(&[1, 2, 3]).unwrap());
    assert!(m.flush().is_ok());
    m.put(&b"\x04\x05"[..]);
    m.put(Binary::from_vec(vec![6]));
    assert_eq!(vec![1, 2, 3, 4, 5, 6], m.as_slice().to_vec());
    let mut out = [0u8; 6];
    assert_eq!(6, m.read(&mut out).unwrap());
    assert_eq!([1, 2, 3, 4, 5, 6], out);
    assert!(m.read(&mut out).is_err());
}

#[test]
fn binary_mut_resort_moves_unread_to_front() {
    let mut m = BinaryMut::new();
    m.set_resort(4);
    m.put_slice(&[1, 2, 3, 4, 5, 6, 7, 8]);
    Bt::advance(&mut m, 6);
    assert_eq!(6, m.cursor());
    m.try_resort_memory();
    assert_eq!(0, m.cursor());
    assert_eq!(vec![7, 8], m.as_slice().to_vec());
    // with most bytes unread nothing moves
    let mut m = BinaryMut::new();
    m.set_resort(4);
    m.put_slice(&[1, 2, 3, 4, 5, 6, 7, 8]);
    Bt::advance(&mut m, 2);
    m.try_resort_memory();
    assert_eq!(2, m.cursor());
}
