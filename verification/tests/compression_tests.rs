use zehnyasearch::compression::{
    compress_doc_ids, compress_positions, decompress_doc_ids, decompress_positions, vbyte_decode_u32,
    vbyte_encode_u32, compression_sizes, CompressedPosting,
};
use zehnyasearch::index::{InvertedIndex, Posting};

#[test]
fn test_vbyte_roundtrip() {
    let values = [0, 1, 127, 128, 255, 1000, 65535, 1_000_000, u32::MAX];
    for &v in &values {
        let mut encoded = Vec::new();
        vbyte_encode_u32(v, &mut encoded);
        let (decoded, _) = vbyte_decode_u32(&encoded, 0);
        assert_eq!(v, decoded, "Failed roundtrip for {}", v);
    }
}

#[test]
fn test_small_values_are_compact() {
    let mut buf = Vec::new();
    vbyte_encode_u32(50, &mut buf);
    assert_eq!(buf.len(), 1, "Values < 128 should be 1 byte");

    buf.clear();
    vbyte_encode_u32(200, &mut buf);
    assert_eq!(buf.len(), 2, "Values 128-16383 should be 2 bytes");
}

#[test]
fn test_doc_id_compression_roundtrip() {
    let ids = vec![3, 7, 15, 42, 100, 500, 501, 502, 10000];
    let compressed = compress_doc_ids(&ids);
    let decompressed = decompress_doc_ids(&compressed);
    assert_eq!(ids, decompressed);

    // Should be much smaller than 9 * 4 = 36 bytes
    println!(
        "Original: {} bytes, Compressed: {} bytes",
        ids.len() * 4,
        compressed.len()
    );
    assert!(compressed.len() < ids.len() * 4);
}

#[test]
fn vbyte_exact_bytes() {
    let mut buf = Vec::new();
    vbyte_encode_u32(0, &mut buf);
    assert_eq!(buf, vec![0u8]);
    buf.clear();
    vbyte_encode_u32(300, &mut buf);
    assert_eq!(buf, vec![0xACu8, 0x02]);
    buf.clear();
    vbyte_encode_u32(u32::MAX, &mut buf);
    assert_eq!(buf.len(), 5);
    let (v, next) = vbyte_decode_u32(&buf, 0);
    assert_eq!((v, next), (u32::MAX, 5));
}

#[test]
fn vbyte_appends_and_decodes_in_sequence() {
    let mut buf = vec![9u8];
    vbyte_encode_u32(128, &mut buf);
    vbyte_encode_u32(5, &mut buf);
    assert_eq!(buf, vec![9u8, 0x80, 0x01, 0x05]);
    let (a, p) = vbyte_decode_u32(&buf, 1);
    assert_eq!((a, p), (128, 3));
    let (b, q) = vbyte_decode_u32(&buf, p);
    assert_eq!((b, q), (5, 4));
}

#[test]
fn doc_ids_gap_encoding_bytes() {
    let c = compress_doc_ids(&[3, 7, 7, 300]);
    assert_eq!(c, vec![4u8, 3, 4, 0, 0xA5, 0x02]);
    assert_eq!(decompress_doc_ids(&c), vec![3, 7, 7, 300]);
    assert_eq!(compress_doc_ids(&[]), vec![0u8]);
    assert_eq!(decompress_doc_ids(&[]), Vec::<u32>::new());
}

#[test]
fn positions_roundtrip() {
    let pos = vec![0, 5, 6, 1000, 1001];
    let c = compress_positions(&pos);
    assert_eq!(decompress_positions(&c), pos);
    let cp = CompressedPosting::from_positions(12, &pos);
    assert_eq!(cp.doc_id, 12);
    assert_eq!(cp.term_freq, 5);
    assert_eq!(cp.decompress_positions(), pos);
}

#[test]
fn index_sizes_plain_and_packed() {
    let mut ix = InvertedIndex::new();
    ix.add_document(0, "cat dog cat");
    // cat: 4 + 4 + 2 * 4 = 16 bytes plain; dog: 4 + 4 + 4 = 12.
    // packed, each list led by its length: cat: ids 1 + 1, positions 1 + 2,
    // frequency 4 = 9; dog: 1 + 1, 1 + 1, 4 = 8.
    assert_eq!(compression_sizes(&ix), Some((28, 17)));
    assert_eq!(compression_sizes(&InvertedIndex::new()), Some((0, 0)));
    let p = |d: u32| Posting { doc_id: d, term_freq: 1, positions: vec![0] };
    let unsorted = InvertedIndex::from_parts(vec![("t".to_string(), vec![p(5), p(2)])], &[], 2, 2).unwrap();
    assert_eq!(compression_sizes(&unsorted), None);
}
