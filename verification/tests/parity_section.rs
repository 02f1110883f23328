use bytes::Bytes;
use oceanfs_segment::codec::{
    count_complete_stripes, encode_segment_parity, regroup_by_stripe, Encoder, SegmentEncoder,
};
use oceanfs_segment::parity_section::{
    build_parity_section, verify_section_hashes, ParitySection, PARITY_SECTION_HEADER_SIZE,
};

/// A systematic Cauchy code over GF(256).
struct Cauchy;

fn gf_mul(mut a: u8, mut b: u8) -> u8 {
    let mut product = 0u8;
    while b != 0 {
        if b & 1 != 0 {
            product ^= a;
        }
        let carry = a & 0x80 != 0;
        a <<= 1;
        if carry {
            a ^= 0x1D;
        }
        b >>= 1;
    }
    product
}

fn gf_inv(a: u8) -> u8 {
    (1..=255u8).find(|b| gf_mul(a, *b) == 1).unwrap()
}

fn cauchy_row(p: usize, k: usize) -> Vec<u8> {
    (0..k).map(|d| gf_inv((k + p) as u8 ^ d as u8)).collect()
}

fn encode_shards(shards: &[&[u8]], m: usize) -> Vec<Vec<u8>> {
    let strip = shards[0].len();
    (0..m)
        .map(|p| {
            let row = cauchy_row(p, shards.len());
            (0..strip)
                .map(|i| {
                    shards.iter().zip(&row).fold(0u8, |acc, (s, c)| acc ^ gf_mul(s[i], *c))
                })
                .collect()
        })
        .collect()
}

impl Encoder for Cauchy {
    fn encode(&self, shards: &Vec<Bytes>, m: u8) -> Result<Vec<Bytes>, String> {
        let shards: Vec<&[u8]> = shards.iter().map(|s| &s[..]).collect();
        Ok(encode_shards(&shards, m as usize).into_iter().map(Bytes::from).collect())
    }
}

impl SegmentEncoder for Cauchy {
    fn encode_stripes(
        &self,
        data: &[u8],
        k: u8,
        m: u8,
        strip: usize,
    ) -> Result<Vec<Vec<u8>>, String> {
        let mut buffers = vec![Vec::new(); m as usize];
        for stripe in data.chunks(k as usize * strip) {
            let shards: Vec<&[u8]> = stripe.chunks(strip).collect();
            for (buffer, shard) in buffers.iter_mut().zip(encode_shards(&shards, m as usize)) {
                buffer.extend_from_slice(&shard);
            }
        }
        Ok(buffers)
    }
}

fn pattern(len: u32) -> Vec<u8> {
    (0..len).map(|i| (i % 251) as u8).collect()
}

#[test]
fn build_and_parse_roundtrip() {
    let k = 4u8;
    let m = 2u8;
    let strip = 64usize;
    let data = pattern(512);
    let mut parity: Vec<Bytes> = Vec::new();
    for stripe in 0..2 {
        let shards: Vec<Bytes> = (0..4)
            .map(|d| {
                Bytes::copy_from_slice(
                    &data[stripe * 256 + d * strip..stripe * 256 + (d + 1) * strip],
                )
            })
            .collect();
        parity.extend(Cauchy.encode(&shards, m).unwrap());
    }
    let section = build_parity_section(&data, k, m, Some(&parity)).unwrap();
    let parsed = ParitySection::parse(&section).unwrap();
    assert_eq!(parsed.stripe_count, 2);
    assert_eq!(parsed.k, 4);
    assert_eq!(parsed.m, 2);
    assert_eq!(parsed.strip, 64);
    assert!(verify_section_hashes(&parsed, &data), "hash table must match");
}

#[test]
fn build_returns_none_for_plain_or_empty() {
    let data = vec![0u8; 256];
    assert!(build_parity_section(&data, 4, 2, None).is_none());
    assert!(build_parity_section(&data, 4, 2, Some(&vec![])).is_none());
    assert!(build_parity_section(&data, 0, 0, Some(&vec![Bytes::from_static(b"x")])).is_none());
}

#[test]
fn parse_rejects_malformed_sections() {
    assert!(ParitySection::parse(&[]).is_none());
    assert!(ParitySection::parse(&[0u8; 12]).is_none(), "zero stripe_count");
}

#[test]
fn section_holds_shards_and_their_hashes() {
    let data = pattern(8);
    let parity = vec![Bytes::from_static(b"PQRS")];
    let section = build_parity_section(&data, 2, 1, Some(&parity)).unwrap();
    assert_eq!(section.len(), PARITY_SECTION_HEADER_SIZE + 4 + 3 * 32);
    let parsed = ParitySection::parse(&section).unwrap();
    assert_eq!(parsed.stripe_len(), 8);
    assert_eq!(parsed.data_shard(&data, 0, 1), &[4, 5, 6, 7]);
    assert_eq!(parsed.parity_shard(0, 0), b"PQRS");
    assert_eq!(parsed.shard_hash(0, 0), blake3::hash(&[0, 1, 2, 3]).as_bytes());
    assert_eq!(parsed.shard_hash(0, 1), blake3::hash(&[4, 5, 6, 7]).as_bytes());
    assert_eq!(parsed.shard_hash(0, 2), blake3::hash(b"PQRS").as_bytes());
    assert!(parsed.shard_intact(&data, 0, 1));
    let mut damaged = data.clone();
    damaged[5] ^= 1;
    assert!(parsed.shard_intact(&damaged, 0, 0));
    assert!(!parsed.shard_intact(&damaged, 0, 1));
    assert!(!verify_section_hashes(&parsed, &damaged));
}

#[test]
fn truncated_section_is_rejected() {
    let data = pattern(8);
    let parity = vec![Bytes::from_static(b"PQRS")];
    let section = build_parity_section(&data, 2, 1, Some(&parity)).unwrap();
    assert!(ParitySection::parse(&section[..section.len() - 1]).is_none());
}

#[test]
fn only_complete_stripes_are_encoded() {
    assert_eq!(count_complete_stripes(100, 4, 2, 10), 2);
    assert_eq!(count_complete_stripes(39, 4, 2, 10), 0);
    assert_eq!(count_complete_stripes(100, 0, 2, 10), 0);
    let data = pattern(100);
    let shards = encode_segment_parity(&data, 4, 2, 10, &Cauchy).unwrap();
    assert_eq!(shards.len(), 4);
    let stripe1: Vec<Bytes> =
        (0..4).map(|d| Bytes::copy_from_slice(&data[40 + d * 10..50 + d * 10])).collect();
    let fresh = Cauchy.encode(&stripe1, 2).unwrap();
    assert_eq!(shards[2], fresh[0]);
    assert_eq!(shards[3], fresh[1]);
    assert!(encode_segment_parity(&data[..39], 4, 2, 10, &Cauchy).is_none());
}

struct Broken;

impl SegmentEncoder for Broken {
    fn encode_stripes(&self, _: &[u8], _: u8, _: u8, _: usize) -> Result<Vec<Vec<u8>>, String> {
        Ok(vec![vec![0u8; 3]])
    }
}

#[test]
fn parity_of_the_wrong_shape_is_refused() {
    assert!(encode_segment_parity(&pattern(80), 4, 2, 10, &Broken).is_none());
}

#[test]
fn parity_buffers_are_regrouped_by_stripe() {
    let buffers = vec![vec![1, 2, 3, 4], vec![5, 6, 7, 8]];
    let shards = regroup_by_stripe(&buffers, 2, 2, 2);
    let shards: Vec<Vec<u8>> = shards.iter().map(|s| s.to_vec()).collect();
    assert_eq!(shards, vec![vec![1, 2], vec![5, 6], vec![3, 4], vec![7, 8]]);
}
