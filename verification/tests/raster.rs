use via::raster::{ensure_grid, to_hex_lower, DecodeError, F32Bits, GridMismatch, Raster, Scalar, FORMAT_VERSION, HEADER_LEN, MAGIC};

#[test]
fn roundtrip_i32() {
    let r = Raster::from_data(3, 2, 20_000, vec![1i32, -2, 3, 4, -5, 6]);
    let back = Raster::<i32>::decode(&r.encode()).unwrap();
    assert_eq!(r, back);
}

#[test]
fn dtype_mismatch_rejected() {
    let r = Raster::from_data(1, 1, 100, vec![1u32]);
    assert!(Raster::<i32>::decode(&r.encode()).is_err());
}

#[test]
fn crafted_header_overflow_rejected_not_panicking() {
    // width = height = 0x8000_0000: n·SIZE wraps to 0 in unchecked
    // arithmetic, which would pass the length check and then blow up.
    let mut bytes = Vec::new();
    bytes.extend_from_slice(&MAGIC);
    bytes.extend_from_slice(&FORMAT_VERSION.to_le_bytes());
    bytes.extend_from_slice(&<u64 as Scalar>::DTYPE.to_le_bytes());
    bytes.extend_from_slice(&0x8000_0000u32.to_le_bytes());
    bytes.extend_from_slice(&0x8000_0000u32.to_le_bytes());
    bytes.extend_from_slice(&100u32.to_le_bytes());
    assert!(Raster::<u64>::decode(&bytes).is_err());
}

#[test]
fn encoding_layout_is_exact() {
    let r = Raster::from_data(2, 1, 500, vec![0x0102_0304u32, 7]);
    let bytes = r.encode();
    assert_eq!(bytes.len(), HEADER_LEN + 8);
    assert_eq!(&bytes[0..4], b"VRAS");
    assert_eq!(&bytes[4..8], &1u32.to_le_bytes());
    assert_eq!(&bytes[8..12], &2u32.to_le_bytes());
    assert_eq!(&bytes[12..16], &2u32.to_le_bytes());
    assert_eq!(&bytes[16..20], &1u32.to_le_bytes());
    assert_eq!(&bytes[20..24], &500u32.to_le_bytes());
    assert_eq!(&bytes[24..28], &[4, 3, 2, 1]);
    assert_eq!(&bytes[28..32], &[7, 0, 0, 0]);
}

#[test]
fn every_decode_error_has_an_input() {
    let good = Raster::from_data(2, 2, 100, vec![1u64, 2, 3, 4]).encode();
    assert_eq!(Raster::<u64>::decode(&good[..10]), Err(DecodeError::TooShort));
    let mut bad_magic = good.clone();
    bad_magic[0] = b'X';
    assert_eq!(Raster::<u64>::decode(&bad_magic), Err(DecodeError::BadMagic));
    let mut bad_version = good.clone();
    bad_version[4] = 2;
    assert_eq!(Raster::<u64>::decode(&bad_version), Err(DecodeError::UnsupportedVersion));
    assert_eq!(Raster::<u32>::decode(&good), Err(DecodeError::DtypeMismatch));
    let mut short_payload = good.clone();
    short_payload.pop();
    assert_eq!(
        Raster::<u64>::decode(&short_payload),
        Err(DecodeError::PayloadLengthMismatch)
    );
    let mut huge = good[..HEADER_LEN].to_vec();
    huge[12..16].copy_from_slice(&0xFFFF_FFFFu32.to_le_bytes());
    huge[16..20].copy_from_slice(&0xFFFF_FFFFu32.to_le_bytes());
    let e = Raster::<u64>::decode(&huge).unwrap_err();
    assert!(e == DecodeError::DimensionsOverflow || e == DecodeError::PayloadSizeOverflow);
}

#[test]
fn f32_bits_and_u64_roundtrip() {
    let r = Raster::from_data(2, 1, 100, vec![F32Bits(1.5f32.to_bits()), F32Bits(f32::MAX.to_bits())]);
    let back = Raster::<F32Bits>::decode(&r.encode()).unwrap();
    assert_eq!(f32::from_bits(back.data[0].0), 1.5);
    assert_eq!(back.data[1].0, f32::MAX.to_bits());
    let r = Raster::from_data(1, 2, 7, vec![u64::MAX, 0]);
    assert_eq!(Raster::<u64>::decode(&r.encode()).unwrap(), r);
}

#[test]
fn new_fills_every_cell() {
    let r = Raster::new(3, 4, 250, -7i32);
    assert_eq!(r.data.len(), 12);
    assert!(r.data.iter().all(|&v| v == -7));
    assert_eq!((r.width, r.height, r.cell_size_cm), (3, 4, 250));
}

#[test]
fn blake3_hex_is_the_hash_of_the_encoding() {
    let r = Raster::from_data(2, 2, 100, vec![1u32, 2, 3, 4]);
    let expected = blake3::hash(&r.encode()).to_hex().to_string();
    assert_eq!(r.blake3_hex(), expected);
    let other = Raster::from_data(2, 2, 100, vec![1u32, 2, 3, 5]);
    assert_ne!(r.blake3_hex(), other.blake3_hex());
    assert_eq!(r.blake3_hex().len(), 64);
}

#[test]
fn hex_is_lowercase_two_digits_per_byte() {
    assert_eq!(to_hex_lower(&[0x00, 0xab, 0x7f, 0xff]), "00ab7fff");
}

#[test]
fn grid_mismatch_is_reported_with_both_grids() {
    let a = Raster::new(3, 2, 100, 0i32);
    let b = Raster::new(3, 2, 100, 0u32);
    assert!(ensure_grid(&b, &a).is_ok());
    let c = Raster::new(3, 2, 50, 0u32);
    assert_eq!(
        ensure_grid(&c, &a),
        Err(GridMismatch {
            width: 3,
            height: 2,
            cell_size_cm: 50,
            expected_width: 3,
            expected_height: 2,
            expected_cell_size_cm: 100,
        })
    );
}

#[test]
fn decode_errors_carry_their_diagnostics() {
    assert_eq!(DecodeError::TooShort.message(), "raster too short for header");
    assert_eq!(DecodeError::BadMagic.message(), "bad magic");
    assert_eq!(DecodeError::UnsupportedVersion.message(), "unsupported format version");
    assert_eq!(DecodeError::DtypeMismatch.message(), "dtype mismatch");
    assert_eq!(DecodeError::DimensionsOverflow.message(), "dimensions overflow");
    assert_eq!(DecodeError::PayloadSizeOverflow.message(), "payload size overflows");
    assert_eq!(DecodeError::PayloadLengthMismatch.message(), "payload length mismatch");
}

#[test]
fn reencoding_a_decoded_raster_gives_the_bytes_back() {
    let mut bytes = Vec::new();
    bytes.extend_from_slice(&MAGIC);
    bytes.extend_from_slice(&FORMAT_VERSION.to_le_bytes());
    bytes.extend_from_slice(&<i32 as Scalar>::DTYPE.to_le_bytes());
    bytes.extend_from_slice(&1u32.to_le_bytes());
    bytes.extend_from_slice(&2u32.to_le_bytes());
    bytes.extend_from_slice(&250u32.to_le_bytes());
    bytes.extend_from_slice(&[0xFF, 0xFF, 0xFF, 0x7F, 0x00, 0x00, 0x00, 0x80]);
    let r = Raster::<i32>::decode(&bytes).unwrap();
    assert_eq!(r.data, vec![i32::MAX, i32::MIN]);
    assert_eq!(r.encode(), bytes);
}

#[test]
fn element_type_tags_differ() {
    let tags = [
        <u32 as Scalar>::DTYPE,
        <i32 as Scalar>::DTYPE,
        <F32Bits as Scalar>::DTYPE,
        <u64 as Scalar>::DTYPE,
    ];
    for a in 0..4 {
        for b in 0..a {
            assert_ne!(tags[a], tags[b]);
        }
    }
    assert_eq!(<u32 as Scalar>::SIZE, 4);
    assert_eq!(<i32 as Scalar>::SIZE, 4);
    assert_eq!(<F32Bits as Scalar>::SIZE, 4);
    assert_eq!(<u64 as Scalar>::SIZE, 8);
}
