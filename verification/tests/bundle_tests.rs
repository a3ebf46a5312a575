use arweave_dumper::avro::parse_tag_list;
use arweave_dumper::bundle::{ans104_bundle_data_item_stream, read_data_item, DataItem};
use arweave_dumper::errors::{BundleStreamError, DecodeErrorKind};
use arweave_dumper::reader::ByteReader;
use std::str::FromStr;

fn push_le(value: u128, width: usize, out: &mut Vec<u8>) {
    let mut v = value;
    for _ in 0..width {
        out.push((v & 0xff) as u8);
        v >>= 8;
    }
}

/// Zigzag + varint encoding of a nonnegative long, as the tag codec's format has it.
fn push_long(value: u64, out: &mut Vec<u8>) {
    let mut z = value << 1;
    loop {
        let byte = (z & 0x7f) as u8;
        z >>= 7;
        if z == 0 {
            out.push(byte);
            break;
        } else {
            out.push(byte | 0x80);
        }
    }
}

/// A tag blob of the fixed array-of-(name,value)-records schema.
fn tags_blob(tags: &[(&str, &str)]) -> Vec<u8> {
    let mut out = Vec::new();
    if !tags.is_empty() {
        push_long(tags.len() as u64, &mut out);
        for (name, value) in tags {
            push_long(name.len() as u64, &mut out);
            out.extend_from_slice(name.as_bytes());
            push_long(value.len() as u64, &mut out);
            out.extend_from_slice(value.as_bytes());
        }
    }
    out.push(0);
    out
}

fn sig_key_lengths(variant: u16) -> (usize, usize) {
    match variant {
        1 => (512, 512),
        2 => (64, 32),
        3 => (65, 65),
        4 => (64, 32),
        _ => panic!("unsupported variant in test builder"),
    }
}

fn build_item_with_sig(
    variant: u16,
    signature: &[u8],
    target: Option<[u8; 32]>,
    anchor: Option<[u8; 32]>,
    tags: &[(&str, &str)],
    payload: &[u8],
) -> Vec<u8> {
    let (sig_len, key_len) = sig_key_lengths(variant);
    assert_eq!(signature.len(), sig_len);
    let mut out = Vec::new();
    push_le(variant as u128, 2, &mut out);
    out.extend_from_slice(signature);
    out.extend_from_slice(&vec![7u8; key_len]);
    match target {
        Some(t) => {
            out.push(1);
            out.extend_from_slice(&t);
        }
        None => out.push(0),
    }
    match anchor {
        Some(a) => {
            out.push(1);
            out.extend_from_slice(&a);
        }
        None => out.push(0),
    }
    let blob = if tags.is_empty() { Vec::new() } else { tags_blob(tags) };
    push_le(tags.len() as u128, 8, &mut out);
    push_le(blob.len() as u128, 8, &mut out);
    out.extend_from_slice(&blob);
    out.extend_from_slice(payload);
    out
}

fn build_item(
    variant: u16,
    target: Option<[u8; 32]>,
    anchor: Option<[u8; 32]>,
    tags: &[(&str, &str)],
    payload: &[u8],
) -> Vec<u8> {
    let (sig_len, _) = sig_key_lengths(variant);
    build_item_with_sig(variant, &vec![3u8; sig_len], target, anchor, tags, payload)
}

fn build_bundle(items: &[Vec<u8>]) -> Vec<u8> {
    let mut out = Vec::new();
    push_le(items.len() as u128, 16, &mut out);
    push_le(0, 16, &mut out);
    for (i, item) in items.iter().enumerate() {
        push_le(item.len() as u128, 16, &mut out);
        push_le(0, 16, &mut out);
        out.extend_from_slice(&[i as u8; 32]);
    }
    for item in items {
        out.extend_from_slice(item);
    }
    out
}

fn collect_items(bundle: Vec<u8>) -> Result<Vec<DataItem>, BundleStreamError> {
    let mut stream = ans104_bundle_data_item_stream(ByteReader::new(bundle));
    let mut items = Vec::new();
    while let Some(next) = stream.next_item() {
        items.push(next?);
    }
    Ok(items)
}

#[test]
fn test_serialized_tags_read() {
    let pairs: Vec<(String, String)> = (0..18)
        .map(|i| (format!("name-{i}"), format!("value-{i}")))
        .collect();
    let pair_refs: Vec<(&str, &str)> =
        pairs.iter().map(|(n, v)| (n.as_str(), v.as_str())).collect();
    let blob = tags_blob(&pair_refs);
    let tags = parse_tag_list(&blob).expect("should parse");
    assert_eq!(tags.len(), 18);
    assert_eq!(tags[0].name, "name-0");
    assert_eq!(tags[17].value, "value-17");
}

#[test]
fn parse_sample_tx_data_bundle() {
    let items = vec![
        build_item(1, None, None, &[("a", "b")], b"first payload"),
        build_item(2, Some([9; 32]), None, &[], b"second payload"),
        build_item(3, None, Some([4; 32]), &[("x", "y"), ("x", "z")], b""),
        build_item(4, Some([1; 32]), Some([2; 32]), &[("k", "v")], b"tail"),
    ];
    let data_items = collect_items(build_bundle(&items)).expect("should work");
    assert_eq!(data_items.len(), 4);
}

#[test]
fn parse_first_item_in_tx_data_bundle() {
    let pairs: Vec<(String, String)> = (0..18)
        .map(|i| (format!("tag-{i}"), format!("val-{i}")))
        .collect();
    let pair_refs: Vec<(&str, &str)> =
        pairs.iter().map(|(n, v)| (n.as_str(), v.as_str())).collect();
    let payload = vec![0xabu8; 11904];
    let bytes = build_item(1, None, None, &pair_refs, &payload);
    let mut reader = ByteReader::new(bytes);
    let data_item = read_data_item(&mut reader).expect("should work");
    assert_eq!(data_item.tags.len(), 18);
    assert_eq!(data_item.data.len(), 11904);
}

#[test]
fn test_read_to_the_end() {
    let data: &[u8] = b"12345";
    let mut reader = ByteReader::new(data.to_vec());
    let mut buff = Vec::with_capacity(1000);
    buff.extend_from_slice(&reader.read_to_end());
    assert_eq!(&buff, b"12345");
}

#[test]
fn test_read_exact() {
    let data: &[u8] = b"12345";
    let mut reader = ByteReader::new(data.to_vec());
    let buff = reader.read_exact(5).expect("should not fail");
    assert_eq!(&buff, b"12345");
}

#[test]
fn test_signature_to_id() {
    let expected_id = arweave_rs::crypto::base64::Base64::from_str(
        "Q2K1PXNWhFyPhqBXnZbonljqJQ_QeMStIVtmAluydSE",
    )
    .expect("should parse");
    let sig = arweave_rs::crypto::base64::Base64::from_str(
        "wIzrHPqxNFBJsjxBkTjYzL7J82err-wMhpvR8ryYMuPc2txKaQJjQ2jrMxvVmRHdgR-Vw3HzblWKw_WcYNF7e9J2f_JVBedwr9laDHqozJXiKrAfauLhP2Pjz23Ggp87f7iLDvDsG2-0ZVpCgxXkvqyKk_9vgTb2brdhj0oVSHJFKOL-q-OrrnfWchfAJiyAxS4jee3uadXNO2ENh8VeQegVbTB4G7WjqKwxPmgXpQwNucrkZOovWmbMNaFuC9BILo9WI_aOn_xvtqWI8zJBWr5JDqz_ph8O_AFaFp66ULph9ryvgYvr_WXFDfk8OvHOo-IKtwnttinugjPElGZ7u3xjahMmKRR-1k14uT8gTwdE40vyv1H3kS8yNvhqZWC2EKnoJvH3Bak0KPhhRMQ9BOJFoSvpzpauD_jQTJwyBhBt38TNUXW5cmGLB2y0ksyStA87wwaTV4E9iLzlOB-oO0m3SxWc-HVXAhucUYewGU3UZpLQypCry7EM1J7mvcroyOweKS2FAtVeHdAwKGIkgWzZeencgSyiOVhP1tLk55oOlDGX31sP3lhbLWN0I_TsxgmAs2GOnmIOSg784D0EEeX2zAYXW-s_Zs-h_lzvvyyeq9GDJqthFp0DdCY1yIrwDx-GOSf3e4h31mXjpfD_JH0P3bD30M-caUUMLb7BFYQ",
    )
    .expect("should parse");

    let item_bytes = build_item_with_sig(1, &sig.0, None, None, &[], b"payload");
    let mut reader = ByteReader::new(item_bytes);
    let item = read_data_item(&mut reader).expect("should decode");
    assert_eq!(item.bundle_id, expected_id.0);
}
