use arweave_dumper::bundle::{ans104_bundle_data_item_stream, read_data_item};
use arweave_dumper::chunks::{reconstruct_from_chunks, ChunkStream, FetchOutcome};
use arweave_dumper::errors::{BundleStreamError, ChunkError, DecodeErrorKind};
use arweave_dumper::metadata::TxMetadata;
use arweave_dumper::reader::ByteReader;

fn push_le(value: u128, width: usize, out: &mut Vec<u8>) {
    let mut v = value;
    for _ in 0..width {
        out.push((v & 0xff) as u8);
        v >>= 8;
    }
}

/// A minimal valid item of the given variant with no tags and the given payload.
fn minimal_item(variant: u16, payload: &[u8]) -> Vec<u8> {
    let (sig_len, key_len): (usize, usize) = match variant {
        1 => (512, 512),
        2 => (64, 32),
        3 => (65, 65),
        4 => (64, 32),
        _ => panic!("unsupported variant in test builder"),
    };
    let mut out = Vec::new();
    push_le(variant as u128, 2, &mut out);
    out.extend_from_slice(&vec![3u8; sig_len]);
    out.extend_from_slice(&vec![7u8; key_len]);
    out.push(0);
    out.push(0);
    push_le(0, 8, &mut out);
    push_le(0, 8, &mut out);
    out.extend_from_slice(payload);
    out
}

fn bundle_of(items: &[Vec<u8>]) -> Vec<u8> {
    let mut out = Vec::new();
    push_le(items.len() as u128, 16, &mut out);
    push_le(0, 16, &mut out);
    for (i, item) in items.iter().enumerate() {
        push_le(item.len() as u128, 16, &mut out);
        push_le(0, 16, &mut out);
        out.extend_from_slice(&[i as u8; 32]);
    }
    for item in items {
        out.extend_from_slice(item);
    }
    out
}

#[test]
fn row_count_and_section_length_match_table() {
    let items = vec![
        minimal_item(2, b"one"),
        minimal_item(3, b""),
        minimal_item(4, b"three33"),
    ];
    let section_len: usize = items.iter().map(|i| i.len()).sum();
    let bundle = bundle_of(&items);
    // the declared lengths make up exactly the item section after the table
    assert_eq!(bundle.len(), 32 + 64 * items.len() + section_len);
    let mut stream = ans104_bundle_data_item_stream(ByteReader::new(bundle));
    let mut yielded = 0;
    while let Some(next) = stream.next_item() {
        next.expect("all rows should decode");
        yielded += 1;
    }
    assert_eq!(yielded, 3);
}

#[test]
fn tag_count_mismatch_is_malformed() {
    let mut item = Vec::new();
    push_le(2, 2, &mut item);
    item.extend_from_slice(&[3u8; 64]);
    item.extend_from_slice(&[7u8; 32]);
    item.push(0);
    item.push(0);
    push_le(5, 8, &mut item); // declares five tags
    push_le(0, 8, &mut item); // but carries an empty tag blob
    let mut reader = ByteReader::new(item);
    assert_eq!(
        read_data_item(&mut reader),
        Err(DecodeErrorKind::MalformedInput)
    );
}

#[test]
fn variant_table_lengths_are_exact() {
    for (variant, sig_len, key_len) in
        [(1u16, 512, 512), (2, 64, 32), (3, 65, 65), (4, 64, 32)]
    {
        let mut reader = ByteReader::new(minimal_item(variant, b"data"));
        let item = read_data_item(&mut reader).expect("should decode");
        assert_eq!(item.signature.len(), sig_len);
        assert_eq!(item.owner_public_key.len(), key_len);
    }
}

#[test]
fn unmapped_variant_is_unsupported() {
    let mut item = Vec::new();
    push_le(5, 2, &mut item);
    item.extend_from_slice(&[3u8; 512]);
    let mut reader = ByteReader::new(item);
    assert_eq!(
        read_data_item(&mut reader),
        Err(DecodeErrorKind::UnsupportedSignatureVariant(5))
    );
}

#[test]
fn presence_flag_outside_zero_one_is_malformed() {
    for flag in [2u8, 3, 17, 255] {
        let mut item = Vec::new();
        push_le(2, 2, &mut item);
        item.extend_from_slice(&[3u8; 64]);
        item.extend_from_slice(&[7u8; 32]);
        item.push(flag);
        item.push(0);
        push_le(0, 8, &mut item);
        push_le(0, 8, &mut item);
        let mut reader = ByteReader::new(item);
        assert_eq!(
            read_data_item(&mut reader),
            Err(DecodeErrorKind::MalformedInput),
            "flag {flag} must be rejected"
        );
    }
}

#[test]
fn anchor_flag_outside_zero_one_is_malformed() {
    let mut item = Vec::new();
    push_le(2, 2, &mut item);
    item.extend_from_slice(&[3u8; 64]);
    item.extend_from_slice(&[7u8; 32]);
    item.push(0);
    item.push(9);
    push_le(0, 8, &mut item);
    push_le(0, 8, &mut item);
    let mut reader = ByteReader::new(item);
    assert_eq!(
        read_data_item(&mut reader),
        Err(DecodeErrorKind::MalformedInput)
    );
}

#[test]
fn chunk_reconstruction_restores_reference_buffer() {
    let reference: Vec<u8> = (0..=255u8).cycle().take(1000).collect();
    let lengths = [300usize, 450, 250];
    let mut chunks = Vec::new();
    let mut at = 0;
    for len in lengths {
        chunks.push(reference[at..at + len].to_vec());
        at += len;
    }
    let size = reference.len();
    let end_offset = 5000;
    let rebuilt =
        reconstruct_from_chunks(size, end_offset, chunks).expect("should reconstruct");
    assert_eq!(rebuilt, reference);
}

#[test]
fn empty_chunk_is_a_protocol_violation() {
    let chunks = vec![vec![1u8, 2, 3], Vec::new(), vec![4u8; 7]];
    assert_eq!(
        reconstruct_from_chunks(10, 100, chunks),
        Err(ChunkError::ShortOrEmptyChunk)
    );
}

#[test]
fn overshooting_chunks_are_not_repaired() {
    // a chunk running past the declared size is the collaborator's violation:
    // the stream yields it as-is and stops
    let chunks = vec![vec![9u8; 15]];
    let rebuilt = reconstruct_from_chunks(10, 100, chunks).expect("stream accepts the bytes");
    assert_eq!(rebuilt.len(), 15);
}

#[test]
fn missing_chunks_are_a_transport_failure() {
    let chunks = vec![vec![1u8, 2, 3]];
    assert_eq!(
        reconstruct_from_chunks(10, 100, chunks),
        Err(ChunkError::TransportError)
    );
}

#[test]
fn empty_bundle_yields_nothing() {
    let bundle = bundle_of(&[]);
    let mut stream = ans104_bundle_data_item_stream(ByteReader::new(bundle));
    assert!(stream.next_item().is_none());
    assert!(stream.next_item().is_none());
}

#[test]
fn pending_first_chunk_surfaces_before_any_bytes() {
    let mut stream = ChunkStream::new(1000, 12345);
    let offset = stream.next_offset().expect("one chunk is owed");
    assert_eq!(offset, 12345 - 1000 + 1);
    assert_eq!(
        stream.accept_fetch(FetchOutcome::Pending),
        Err(ChunkError::ChunkPending)
    );
    assert!(stream.next_offset().is_none());
}

#[test]
fn truncated_last_item_fails_at_its_row_only() {
    let items = vec![minimal_item(2, b"abc"), minimal_item(4, b"defgh")];
    let mut bundle = bundle_of(&items);
    bundle.pop();
    let mut stream = ans104_bundle_data_item_stream(ByteReader::new(bundle));
    let first = stream.next_item().expect("first row is owed");
    assert!(first.is_ok());
    let second = stream.next_item().expect("second row is owed");
    assert_eq!(
        second,
        Err(BundleStreamError::Row {
            index: 1,
            declared_length: items[1].len() as u128,
            kind: DecodeErrorKind::TruncatedInput,
        })
    );
    assert!(stream.next_item().is_none());
}

#[test]
fn count_overflow_is_surfaced() {
    let mut bundle = Vec::new();
    push_le(1, 16, &mut bundle);
    push_le(1, 16, &mut bundle); // nonzero upper half of the item count
    let mut stream = ans104_bundle_data_item_stream(ByteReader::new(bundle));
    assert_eq!(
        stream.next_item(),
        Some(Err(BundleStreamError::Header {
            kind: DecodeErrorKind::CountOverflow
        }))
    );
    assert!(stream.next_item().is_none());
}

#[test]
fn garbage_tag_blob_is_a_schema_failure() {
    let mut item = Vec::new();
    push_le(2, 2, &mut item);
    item.extend_from_slice(&[3u8; 64]);
    item.extend_from_slice(&[7u8; 32]);
    item.push(0);
    item.push(0);
    push_le(1, 8, &mut item);
    push_le(3, 8, &mut item);
    item.extend_from_slice(&[0xff, 0xff, 0xff]);
    let mut reader = ByteReader::new(item);
    assert_eq!(
        read_data_item(&mut reader),
        Err(DecodeErrorKind::SchemaDecodeError)
    );
}

#[test]
fn truncated_signature_is_truncated_input() {
    let mut item = Vec::new();
    push_le(1, 2, &mut item);
    item.extend_from_slice(&[3u8; 100]); // variant 1 needs 512 signature bytes
    let mut reader = ByteReader::new(item);
    assert_eq!(
        read_data_item(&mut reader),
        Err(DecodeErrorKind::TruncatedInput)
    );
}

#[test]
fn bundle_format_tags_decide_is_bundle() {
    let meta = TxMetadata::from_pairs(vec![
        ("Bundle-Format".to_string(), "binary".to_string()),
        ("Bundle-Version".to_string(), "2.0.0".to_string()),
    ]);
    assert!(meta.is_bundle());
    let wrong_version = TxMetadata::from_pairs(vec![
        ("Bundle-Format".to_string(), "binary".to_string()),
        ("Bundle-Version".to_string(), "1.0.0".to_string()),
    ]);
    assert!(!wrong_version.is_bundle());
    let missing_format = TxMetadata::from_pairs(vec![(
        "Bundle-Version".to_string(),
        "2.0.0".to_string(),
    )]);
    assert!(!missing_format.is_bundle());
}

#[test]
fn later_tag_with_same_name_shadows_earlier() {
    let meta = TxMetadata::from_pairs(vec![
        ("App".to_string(), "first".to_string()),
        ("App".to_string(), "second".to_string()),
    ]);
    assert_eq!(meta.get_tag("App"), Some("second"));
    assert_eq!(meta.get_tag("Absent"), None);
}
