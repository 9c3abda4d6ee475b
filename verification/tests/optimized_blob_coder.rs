use alloy_eips::eip4844::builder::{PartialSidecar, SidecarBuilder, SidecarCoder};
use alloy_eips::eip4844::{Blob, USABLE_BYTES_PER_BLOB};
use blobsy_aggregator::submission::optimized_blob_coder as c;
use blobsy_aggregator::submission::optimized_blob_coder::OptimizedBlobCoder;

/// The optimized coder as alloy's sidecar builder expects it.
struct Coder(OptimizedBlobCoder);

impl SidecarCoder for Coder {
    fn required_fe(&self, data: &[u8]) -> usize {
        self.0.required_fe(data)
    }

    fn code(&mut self, builder: &mut PartialSidecar, data: &[u8]) {
        self.0.code(builder, data)
    }

    fn finish(self, _builder: &mut PartialSidecar) {}

    fn decode_all(&mut self, blobs: &[Blob]) -> Option<Vec<Vec<u8>>> {
        self.0.decode_all(&to_vecs(blobs))
    }
}

fn to_vecs(blobs: &[Blob]) -> Vec<Vec<u8>> {
    blobs.iter().map(|b| b.to_vec()).collect()
}

#[test]
fn test_bits_conversion() {
    let original = b"Hello, world!";
    let bits = OptimizedBlobCoder::bytes_to_bits(original);
    let bytes = OptimizedBlobCoder::bits_to_bytes(&bits);
    assert_eq!(bytes, original);
}

#[test]
fn test_field_element_conversion() {
    let original = vec![true, false, true, true, false, false, true, false];
    let fes = OptimizedBlobCoder::bits_to_field_elements(&original);
    let bits = OptimizedBlobCoder::field_elements_to_bits(&fes);

    // We'll have padding bits, so just check the first 8 bits
    assert_eq!(bits[0..8], original);
}

#[test]
fn test_header_name_encoding() {
    let coder = OptimizedBlobCoder::new(true);
    let builder = SidecarBuilder::from_coder_and_data(Coder(coder), &vec![0]);

    let blobs = builder.take();
    let header_fe = blobs[0].as_slice()[0..32].to_vec();
    let header_bits = OptimizedBlobCoder::field_elements_to_bits(&[header_fe.try_into().unwrap()]);
    let header_bytes = OptimizedBlobCoder::bits_to_bytes(&header_bits)
        .into_iter()
        .take_while(|&b| b != 0)
        .collect::<Vec<_>>();
    let header_name = String::from_utf8_lossy(&header_bytes);

    assert_eq!(header_name, coder.get_name());
}

#[test]
fn test_various_data_sizes() {
    // Test with different data sizes to ensure we handle edge cases correctly
    let test_sizes = [
        0, 1, 30, 31, 32, 33, 63, 64, 65, 127, 128, 129, 252, 253, 254, 255, 256, 257, 1000, 4096,
        8192,
    ];

    for size in test_sizes {
        let data = vec![255u8; size];
        let mut coder = OptimizedBlobCoder::new(true);
        let builder = SidecarBuilder::from_coder_and_data(Coder(coder), &data);

        let blobs = builder.take();
        let decoded = coder.decode_all(&to_vecs(&blobs)).unwrap();

        assert_eq!(decoded.len(), if size == 0 { 0 } else { 1 });
        if size > 0 {
            assert_eq!(decoded[0], data);
        }
    }
}

#[test]
fn test_large_data() {
    let data = vec![255u8; USABLE_BYTES_PER_BLOB + 1000];
    let mut coder = OptimizedBlobCoder::new(true);
    let builder = SidecarBuilder::from_coder_and_data(Coder(coder), &data);

    let blobs = builder.take();
    let decoded = coder.decode_all(&to_vecs(&blobs)).unwrap().concat();

    assert_eq!(decoded, data);
}

#[test]
fn test_31_75_byte_vector_of_ones_encodes_into_one_fe_no_prepended_length() {
    // Create a 31.75-byte vector with all bits set to 1
    let mut data = vec![255u8; 31];
    // Set the last byte to 252 (11111100 in binary)
    data.push(252u8);

    let mut coder = OptimizedBlobCoder::new(false);
    let builder = SidecarBuilder::from_coder_and_data(Coder(coder), &data);
    let blobs = builder.take();

    let _decoded = coder.decode_all(&to_vecs(&blobs));

    // Check that only first 32 bytes of data are non-zero (skip header)
    let first_32_bytes = blobs[0].as_slice()[32..64].to_vec();
    assert_eq!(first_32_bytes[0], 63); // First byte should be 63 (00111111)
    assert_eq!(first_32_bytes[1..32], vec![255; 31]); // All other bytes should be 255

    // All other bytes should be zero
    for byte in blobs[0].as_slice()[64..].iter() {
        assert_eq!(*byte, 0);
    }
}

#[test]
fn test_max_data_size_no_prepended_length() {
    let max_usable_bytes = USABLE_BYTES_PER_BLOB - 32; // Subtract 32 bytes for the header
    let data = vec![255u8; max_usable_bytes];
    let mut coder = OptimizedBlobCoder::new(false);
    let builder = SidecarBuilder::from_coder_and_data(Coder(coder), &data);

    let blobs = builder.take();
    let decoded = coder.decode_all(&to_vecs(&blobs)).unwrap().concat();

    assert_eq!(decoded, data);
}

#[test]
fn test_blob_overflow_no_prepended_length() {
    let max_usable_bytes = USABLE_BYTES_PER_BLOB - 32; // Subtract 32 bytes for the header
    let overflow_bytes_count = 150;
    let data = vec![255u8; max_usable_bytes + overflow_bytes_count];
    let mut coder = OptimizedBlobCoder::new(false);
    let builder = SidecarBuilder::from_coder_and_data(Coder(coder), &data);

    let blobs = builder.take();
    let decoded = coder.decode_all(&to_vecs(&blobs)).unwrap().concat();

    // Add 32 for the header (present only in the first FE)
    // Subtract bytes of data that overflowed
    let zeros_count = max_usable_bytes + 32 - overflow_bytes_count;

    assert_eq!(decoded[0..data.len()], data);
    assert_eq!(decoded[data.len()..], vec![0u8; zeros_count]);
}

#[test]
fn constants_match_alloy() {
    assert_eq!(c::USABLE_BYTES_PER_BLOB, alloy_eips::eip4844::USABLE_BYTES_PER_BLOB);
    assert_eq!(c::USABLE_BITS_PER_FIELD_ELEMENT, alloy_eips::eip4844::USABLE_BITS_PER_FIELD_ELEMENT);
    assert_eq!(c::FIELD_ELEMENT_BYTES, alloy_eips::eip4844::FIELD_ELEMENT_BYTES_USIZE);
    assert_eq!(c::FIELD_ELEMENTS_PER_BLOB as u64, alloy_eips::eip4844::FIELD_ELEMENTS_PER_BLOB);
    assert_eq!(c::BYTES_PER_BLOB, alloy_eips::eip4844::BYTES_PER_BLOB);
    assert_eq!(
        blobsy_aggregator::submission::rpc_submitter::MAX_BLOBS_PER_BLOCK,
        alloy_eips::eip4844::MAX_BLOBS_PER_BLOCK
    );
    assert_eq!(
        blobsy_aggregator::building::appending_blob_aggregator::SLOT_DURATION_SECS,
        alloy_eips::merge::SLOT_DURATION_SECS
    );
}

#[test]
fn required_fe_counts_header_prefix_and_data() {
    let coder = OptimizedBlobCoder::new(true);
    // 254 (header) + 32 (prefix) + 8 bits: 294 bits, two field elements
    assert_eq!(coder.required_fe(&[1]), 2);
    // 254 + 32 + 8 * 28 = 510 bits: three field elements
    assert_eq!(coder.required_fe(&[0u8; 28]), 3);
    let plain = OptimizedBlobCoder::new(false);
    // 254 + 8 * 31 = 502 bits: two field elements
    assert_eq!(plain.required_fe(&[0u8; 31]), 2);
    assert_eq!(plain.required_fe(&[]), 1);
}

#[test]
fn required_fe_matches_what_code_writes() {
    for size in [1usize, 27, 28, 29, 100, 1000] {
        let data = vec![7u8; size];
        let mut coder = OptimizedBlobCoder::new(true);
        let required = coder.required_fe(&data);
        let mut sidecar = PartialSidecar::new();
        coder.code(&mut sidecar, &data);
        assert_eq!(sidecar.len() / 32, required);
        assert!(coder.should_prepend_length());
    }
}

#[test]
fn header_is_written_once() {
    let mut coder = OptimizedBlobCoder::new(true);
    let mut sidecar = PartialSidecar::new();
    coder.code(&mut sidecar, &[]);
    assert_eq!(sidecar.len(), 32);
    coder.code(&mut sidecar, &[]);
    assert_eq!(sidecar.len(), 32);
    coder.code(&mut sidecar, &[1, 2, 3]);
    // 32 + 24 bits fit in one more field element
    assert_eq!(sidecar.len(), 64);
}

#[test]
fn several_pieces_decode_in_order() {
    let pieces: Vec<Vec<u8>> = vec![vec![1u8; 40], vec![2u8; 300], vec![3u8; 5]];
    let mut coder = OptimizedBlobCoder::new(true);
    let mut sidecar = PartialSidecar::new();
    for p in &pieces {
        coder.code(&mut sidecar, p);
    }
    let mut reader = OptimizedBlobCoder::new(true);
    let decoded = reader.decode_all(&to_vecs(sidecar.blobs())).unwrap();
    assert_eq!(decoded, pieces);
}

#[test]
fn length_prefix_and_data_bits() {
    // A 1-byte piece 0xff: prefix 00 00 00 01, then 0xff, after two zero bits.
    let mut coder = OptimizedBlobCoder::new(true);
    let mut sidecar = PartialSidecar::new();
    coder.code(&mut sidecar, &[0xff]);
    let blob = &sidecar.blobs()[0];
    let fe = &blob[32..64];
    // bits: 00 | 0000...0001 (32 bits) | 11111111 | 0...
    // byte 0: 00 000000, bytes 1..=3: 0, byte 4: the last two prefix bits 01 and six data bits
    assert_eq!(fe[0], 0);
    assert_eq!(fe[3], 0);
    assert_eq!(fe[4], 0b0111_1111);
    assert_eq!(fe[5], 0b1100_0000);
    assert!(fe[6..].iter().all(|&b| b == 0));
}

#[test]
fn invalid_field_element_is_rejected() {
    let mut blob = vec![0u8; 131072];
    blob[64] = 0b0100_0000; // top bits of the third field element set
    let mut coder = OptimizedBlobCoder::new(true);
    assert_eq!(coder.decode_all(&[blob]), None);
}

#[test]
fn no_blobs_decode_to_none() {
    let mut coder = OptimizedBlobCoder::new(true);
    assert_eq!(coder.decode_all(&[]), None);
}

#[test]
fn too_large_piece_is_rejected() {
    // A length prefix of 2 MiB + 1 in the field element after the header.
    let mut coder = OptimizedBlobCoder::new(true);
    let mut sidecar = PartialSidecar::new();
    coder.code(&mut sidecar, &[]);
    let prefix = (2_097_153u32).to_be_bytes();
    let mut bits = OptimizedBlobCoder::bytes_to_bits(&prefix);
    bits.resize(254, false);
    let fes = OptimizedBlobCoder::bits_to_field_elements(&bits);
    let mut blob = sidecar.blobs()[0].to_vec();
    blob[32..64].copy_from_slice(&fes[0]);
    let mut reader = OptimizedBlobCoder::new(true);
    assert_eq!(reader.decode_all(&[blob]), None);
}

#[test]
fn bits_to_bytes_pads_last_byte() {
    let bytes = OptimizedBlobCoder::bits_to_bytes(&[true, false, true]);
    assert_eq!(bytes, vec![0b1010_0000]);
    assert_eq!(OptimizedBlobCoder::bits_to_bytes(&[]), Vec::<u8>::new());
}

#[test]
fn bytes_to_bits_most_significant_first() {
    assert_eq!(
        OptimizedBlobCoder::bytes_to_bits(&[0b1000_0001]),
        vec![true, false, false, false, false, false, false, true]
    );
}

#[test]
fn field_elements_keep_top_bits_clear() {
    let bits = vec![true; 600];
    let fes = OptimizedBlobCoder::bits_to_field_elements(&bits);
    assert_eq!(fes.len(), 3);
    assert_eq!(fes[0][0], 0b0011_1111);
    assert_eq!(fes[1][0], 0b0011_1111);
    // 600 - 508 = 92 bits in the last one: byte 0 holds 6, bytes 1..=10 hold 80, byte 11 the last 6
    assert_eq!(fes[2][11], 0b1111_1100);
    assert_eq!(fes[2][12], 0);
    let back = OptimizedBlobCoder::field_elements_to_bits(&fes);
    assert_eq!(back.len(), 762);
    assert!(back[..600].iter().all(|&b| b));
    assert!(back[600..].iter().all(|&b| !b));
}

fn blob_with_second_fe(fe: &[u8]) -> Vec<u8> {
    let mut blob = vec![0u8; c::BYTES_PER_BLOB];
    blob[32..32 + fe.len()].copy_from_slice(fe);
    blob
}

#[test]
fn decoding_no_blobs_fails() {
    let coder = OptimizedBlobCoder::new(true);
    assert_eq!(coder.try_decode_all(&[]), Err(c::DecodeError::NoBlobs));
}

#[test]
fn decoding_an_invalid_field_element_fails() {
    let coder = OptimizedBlobCoder::new(true);
    // The top bit of the second field element is set
    let blob = blob_with_second_fe(&[0x80]);
    assert_eq!(coder.try_decode_all(&[blob]), Err(c::DecodeError::InvalidFieldElement));
}

#[test]
fn decoding_a_too_large_length_fails() {
    let coder = OptimizedBlobCoder::new(true);
    // A length prefix of 0xffffffff bytes
    let blob = blob_with_second_fe(&[0x3f, 0xff, 0xff, 0xff, 0xc0]);
    assert_eq!(coder.try_decode_all(&[blob]), Err(c::DecodeError::TooLarge));
}

#[test]
fn decoding_past_the_last_field_element_fails() {
    let coder = OptimizedBlobCoder::new(true);
    // A length prefix of 2 MiB, more than one blob holds
    let blob = blob_with_second_fe(&[0x00, 0x08]);
    assert_eq!(coder.try_decode_all(&[blob.clone()]), Err(c::DecodeError::OutOfFieldElements));
    let mut coder = coder;
    assert_eq!(coder.decode_all(&[blob]), None);
}

#[test]
fn decoding_stops_at_a_zero_length() {
    let coder = OptimizedBlobCoder::new(true);
    // A length prefix of 1 byte, holding 0xff; then a zero length
    let blob = blob_with_second_fe(&[0x00, 0x00, 0x00, 0x00, 0x7f, 0xc0]);
    assert_eq!(coder.try_decode_all(&[blob]), Ok(vec![vec![0xff]]));
}

#[test]
fn every_written_field_element_keeps_its_top_bits_clear() {
    let coder = OptimizedBlobCoder::new(true);
    let builder = SidecarBuilder::from_coder_and_data(Coder(coder), &vec![0xffu8; 5000]);
    for blob in builder.take() {
        for fe in blob.chunks(32) {
            assert_eq!(fe[0] & 0xc0, 0);
        }
    }
}

#[test]
fn packing_unpacked_valid_field_elements_gives_them_back() {
    let mut fes = vec![[0u8; 32]; 3];
    for (g, fe) in fes.iter_mut().enumerate() {
        for (k, b) in fe.iter_mut().enumerate() {
            *b = (g * 37 + k * 11) as u8;
        }
        fe[0] &= 0x3f;
    }
    let bits = OptimizedBlobCoder::field_elements_to_bits(&fes);
    assert_eq!(bits.len(), 3 * 254);
    assert_eq!(OptimizedBlobCoder::bits_to_field_elements(&bits), fes);
}

#[test]
fn empty_pieces_leave_no_trace() {
    let coder = OptimizedBlobCoder::new(true);
    let mut builder = SidecarBuilder::from_coder_and_capacity(Coder(coder), 1);
    builder.ingest(&[]);
    builder.ingest(&[1, 2, 3]);
    builder.ingest(&[]);
    builder.ingest(&[4]);
    let blobs = builder.take();
    let mut reader = OptimizedBlobCoder::new(true);
    assert_eq!(reader.decode_all(&to_vecs(&blobs)), Some(vec![vec![1, 2, 3], vec![4]]));

    let mut builder = SidecarBuilder::from_coder_and_capacity(Coder(coder), 1);
    builder.ingest(&[]);
    let blobs = builder.take();
    assert_eq!(reader.decode_all(&to_vecs(&blobs)), Some(vec![]));
}
