use relly::memcmpable::{decode, encode, encoded_size};

#[test]
fn memcmpable_test() {
    let org1 = b"helloworld!memcmpable";
    let org2 = b"foobarbazhogehuga";

    let mut enc = vec![];
    encode(org1, &mut enc);
    encode(org2, &mut enc);

    let mut rest = &enc[..];

    let mut dec1 = vec![];
    decode(&mut rest, &mut dec1);
    assert_eq!(org1, dec1.as_slice());

    let mut dec2 = vec![];
    decode(&mut rest, &mut dec2);
    assert_eq!(org2, dec2.as_slice());
}

#[test]
fn memcmpable_block_layout() {
    let mut enc = vec![];
    encode(b"abc", &mut enc);
    assert_eq!(enc, vec![b'a', b'b', b'c', 0, 0, 0, 0, 0, 3]);

    let mut enc = vec![];
    encode(b"", &mut enc);
    assert_eq!(enc, vec![0, 0, 0, 0, 0, 0, 0, 0, 0]);

    let mut enc = vec![];
    encode(b"12345678", &mut enc);
    assert_eq!(enc, vec![b'1', b'2', b'3', b'4', b'5', b'6', b'7', b'8', 8]);

    let mut enc = vec![];
    encode(b"123456789", &mut enc);
    assert_eq!(
        enc,
        vec![b'1', b'2', b'3', b'4', b'5', b'6', b'7', b'8', 9, b'9', 0, 0, 0, 0, 0, 0, 0, 1]
    );
}

#[test]
fn memcmpable_encoded_size_matches_encoding() {
    assert_eq!(encoded_size(0), 9);
    assert_eq!(encoded_size(1), 9);
    assert_eq!(encoded_size(8), 9);
    assert_eq!(encoded_size(9), 18);
    assert_eq!(encoded_size(16), 18);
    assert_eq!(encoded_size(17), 27);
    for len in 0..40usize {
        let src = vec![7u8; len];
        let mut enc = vec![];
        encode(&src, &mut enc);
        assert_eq!(enc.len(), encoded_size(len));
    }
}

#[test]
fn memcmpable_keeps_byte_order() {
    let values: Vec<&[u8]> = vec![
        b"", b"\x00", b"\x00\x00", b"a", b"a\x00", b"ab", b"abcdefgh", b"abcdefgh\x00",
        b"abcdefghi", b"abcdefgi", b"b", b"\xff", b"\xff\xff\xff\xff\xff\xff\xff\xff\xff",
    ];
    for x in &values {
        for y in &values {
            let mut ex = vec![];
            encode(x, &mut ex);
            let mut ey = vec![];
            encode(y, &mut ey);
            assert_eq!(x.cmp(y), ex.cmp(&ey));
        }
    }
}

#[test]
fn memcmpable_decode_appends_and_advances() {
    let mut enc = vec![];
    encode(b"xyz", &mut enc);
    enc.extend_from_slice(b"tail");
    let mut rest = &enc[..];
    let mut out = b"pre".to_vec();
    decode(&mut rest, &mut out);
    assert_eq!(out, b"prexyz".to_vec());
    assert_eq!(rest, b"tail");
}
