use bitcoin_num::endian::{
    bytes_to_u64_slice_le, i16_to_array_be, i16_to_array_le, i32_to_array_be, i32_to_array_le,
    i64_to_array_be, i64_to_array_le, slice_to_i16_be, slice_to_i16_le, slice_to_i32_be,
    slice_to_i32_le, slice_to_i64_be, slice_to_i64_le, slice_to_u16_be, slice_to_u16_le,
    slice_to_u32_be, slice_to_u32_le, slice_to_u64_be, slice_to_u64_le, u16_to_array_be,
    u16_to_array_le, u32_to_array_be, u32_to_array_le, u64_to_array_be, u64_to_array_le,
};

#[test]
fn endianness_test() {
    assert_eq!(slice_to_u16_be(&[0xde, 0xad]), 0xdead);
    assert_eq!(slice_to_u32_be(&[0xde, 0xad, 0xbe, 0xef]), 0xdeadbeef);
    assert_eq!(
        slice_to_u64_be(&[0xde, 0xad, 0xbe, 0xef, 0x1b, 0xad, 0xca, 0xfe]),
        0xdeadbeef1badcafe
    );
    assert_eq!(u16_to_array_be(0xbeef), [0xbe, 0xef]);
    assert_eq!(u32_to_array_be(0xdeadbeef), [0xde, 0xad, 0xbe, 0xef]);
    assert_eq!(
        u64_to_array_be(0x1badcafedeadbeef),
        [0x1b, 0xad, 0xca, 0xfe, 0xde, 0xad, 0xbe, 0xef]
    );

    assert_eq!(slice_to_u16_le(&[0xad, 0xde]), 0xdead);
    assert_eq!(slice_to_u32_le(&[0xef, 0xbe, 0xad, 0xde]), 0xdeadbeef);
    assert_eq!(
        slice_to_u64_le(&[0xef, 0xbe, 0xad, 0xde, 0xfe, 0xca, 0xad, 0x1b]),
        0x1badcafedeadbeef
    );
    assert_eq!(u16_to_array_le(0xdead), [0xad, 0xde]);
    assert_eq!(u32_to_array_le(0xdeadbeef), [0xef, 0xbe, 0xad, 0xde]);
    assert_eq!(
        u64_to_array_le(0x1badcafedeadbeef),
        [0xef, 0xbe, 0xad, 0xde, 0xfe, 0xca, 0xad, 0x1b]
    );
}

#[test]
fn endian_chunk_test() {
    let inp = [
        0xef, 0xbe, 0xad, 0xde, 0xfe, 0xca, 0xad, 0x1b, 0xfe, 0xca, 0xad, 0x1b, 0xce, 0xfa, 0x01,
        0x02,
    ];
    let mut out = [0; 2];
    bytes_to_u64_slice_le(&inp, &mut out);
    assert_eq!(out, [0x1badcafedeadbeef, 0x0201face1badcafe]);
}

#[test]
fn unsigned_round_trip_both_orders() {
    for v in [0u16, 1, 0x00ff, 0x0100, 0xdead, u16::MAX] {
        assert_eq!(slice_to_u16_be(&u16_to_array_be(v)), v);
        assert_eq!(slice_to_u16_le(&u16_to_array_le(v)), v);
    }
    for v in [0u32, 1, 0xdeadbeef, u32::MAX] {
        assert_eq!(slice_to_u32_be(&u32_to_array_be(v)), v);
        assert_eq!(slice_to_u32_le(&u32_to_array_le(v)), v);
    }
    for v in [0u64, 1, 0x1badcafedeadbeef, u64::MAX] {
        assert_eq!(slice_to_u64_be(&u64_to_array_be(v)), v);
        assert_eq!(slice_to_u64_le(&u64_to_array_le(v)), v);
    }
}

#[test]
fn signed_round_trip_both_orders() {
    for v in [0i16, 1, -1, i16::MIN, i16::MAX, -0x1234] {
        assert_eq!(slice_to_i16_be(&i16_to_array_be(v)), v);
        assert_eq!(slice_to_i16_le(&i16_to_array_le(v)), v);
    }
    for v in [0i32, 1, -1, i32::MIN, i32::MAX, -0x12345678] {
        assert_eq!(slice_to_i32_be(&i32_to_array_be(v)), v);
        assert_eq!(slice_to_i32_le(&i32_to_array_le(v)), v);
    }
    for v in [0i64, 1, -1, i64::MIN, i64::MAX, -0x123456789abcdef] {
        assert_eq!(slice_to_i64_be(&i64_to_array_be(v)), v);
        assert_eq!(slice_to_i64_le(&i64_to_array_le(v)), v);
    }
}

#[test]
fn signed_values_use_twos_complement() {
    assert_eq!(i16_to_array_be(-2), [0xff, 0xfe]);
    assert_eq!(i16_to_array_le(-2), [0xfe, 0xff]);
    assert_eq!(i32_to_array_be(i32::MIN), [0x80, 0x00, 0x00, 0x00]);
    assert_eq!(i32_to_array_le(-0x21524111), [0xef, 0xbe, 0xad, 0xde]);
    assert_eq!(i64_to_array_be(-1), [0xff; 8]);
    assert_eq!(
        i64_to_array_le(0x0201face1badcafe),
        [0xfe, 0xca, 0xad, 0x1b, 0xce, 0xfa, 0x01, 0x02]
    );
    assert_eq!(slice_to_i16_be(&[0xde, 0xad]), -0x2153);
    assert_eq!(slice_to_i16_le(&[0xff, 0x7f]), i16::MAX);
    assert_eq!(slice_to_i32_be(&[0xde, 0xad, 0xbe, 0xef]), -0x21524111);
    assert_eq!(slice_to_i32_le(&[0x00, 0x00, 0x00, 0x80]), i32::MIN);
    assert_eq!(
        slice_to_i64_be(&[0xde, 0xad, 0xbe, 0xef, 0x1b, 0xad, 0xca, 0xfe]),
        0xdeadbeef1badcafe_u64 as i64
    );
    assert_eq!(slice_to_i64_le(&[0xff; 8]), -1);
}

#[test]
fn reversed_buffer_reads_the_other_way() {
    let b = [0x01u8, 0x23, 0x45, 0x67, 0x89, 0xab, 0xcd, 0xef];
    let mut r = b;
    r.reverse();
    assert_eq!(slice_to_u64_be(&r), slice_to_u64_le(&b));
    assert_eq!(slice_to_u64_le(&r), slice_to_u64_be(&b));
    assert_eq!(slice_to_u32_be(&r[..4]), slice_to_u32_le(&b[4..]));
    assert_eq!(slice_to_u16_be(&[0xad, 0xde]), slice_to_u16_le(&[0xde, 0xad]));
    assert_eq!(slice_to_i16_be(&[0x80, 0x01]), slice_to_i16_le(&[0x01, 0x80]));
}

#[test]
fn bulk_matches_single_chunks() {
    let chunks: [[u8; 8]; 3] = [
        [0xef, 0xbe, 0xad, 0xde, 0xfe, 0xca, 0xad, 0x1b],
        [0x00; 8],
        [0xff, 0x00, 0x01, 0x02, 0x03, 0x04, 0x05, 0x80],
    ];
    let mut inp = Vec::new();
    for c in chunks.iter() {
        inp.extend_from_slice(c);
    }
    let mut out = [7u64; 3];
    bytes_to_u64_slice_le(&inp, &mut out);
    for i in 0..3 {
        assert_eq!(out[i], slice_to_u64_le(&chunks[i]));
    }
    assert_eq!(out[2], 0x80050403020100ff);
}

#[test]
fn bulk_of_nothing_is_nothing() {
    let mut out: [u64; 0] = [];
    bytes_to_u64_slice_le(&[], &mut out);
    assert_eq!(out.len(), 0);
}
