use bytes::Bytes;
use oceanfs_segment::codec::{Decoder, Encoder};
use oceanfs_segment::error::Error;
use oceanfs_segment::header::{SegmentHeader, SEGMENT_HEADER_SIZE, SEGMENT_HEADER_SIZE_V1};
use oceanfs_segment::parity_section::{
    build_parity_section, ParitySection, PARITY_SECTION_HEADER_SIZE,
};
use oceanfs_segment::repair::{
    apply_writes, verify_and_repair_segment, RangeWrite, SegmentVerifier,
};
use oceanfs_segment::types::SegmentId;

/// A systematic Cauchy code over GF(256).
struct Cauchy;

fn gf_mul(mut a: u8, mut b: u8) -> u8 {
    let mut product = 0u8;
    while b != 0 {
        if b & 1 != 0 {
            product ^= a;
        }
        let carry = a & 0x80 != 0;
        a <<= 1;
        if carry {
            a ^= 0x1D;
        }
        b >>= 1;
    }
    product
}

fn gf_inv(a: u8) -> u8 {
    (1..=255u8).find(|b| gf_mul(a, *b) == 1).unwrap()
}

fn cauchy_row(p: usize, k: usize) -> Vec<u8> {
    (0..k).map(|d| gf_inv((k + p) as u8 ^ d as u8)).collect()
}

fn encode_shards(shards: &[&[u8]], m: usize) -> Vec<Vec<u8>> {
    let strip = shards[0].len();
    (0..m)
        .map(|p| {
            let row = cauchy_row(p, shards.len());
            (0..strip)
                .map(|i| {
                    shards.iter().zip(&row).fold(0u8, |acc, (s, c)| acc ^ gf_mul(s[i], *c))
                })
                .collect()
        })
        .collect()
}

impl Encoder for Cauchy {
    fn encode(&self, shards: &Vec<Bytes>, m: u8) -> Result<Vec<Bytes>, String> {
        let shards: Vec<&[u8]> = shards.iter().map(|s| &s[..]).collect();
        Ok(encode_shards(&shards, m as usize).into_iter().map(Bytes::from).collect())
    }
}

impl Decoder for Cauchy {
    fn decode(&self, available: &Vec<Option<Bytes>>, k: u8, _m: u8) -> Result<Vec<Bytes>, String> {
        let k = k as usize;
        let mut rows: Vec<(Vec<u8>, Vec<u8>)> = Vec::new();
        for (idx, shard) in available.iter().enumerate() {
            if let Some(shard) = shard {
                let row = if idx < k {
                    (0..k).map(|d| u8::from(d == idx)).collect()
                } else {
                    cauchy_row(idx - k, k)
                };
                rows.push((row, shard.to_vec()));
            }
        }
        if rows.len() < k {
            return Err("too few shards".to_string());
        }
        for col in 0..k {
            let pivot = (col..rows.len()).find(|r| rows[*r].0[col] != 0).unwrap();
            rows.swap(col, pivot);
            let inv = gf_inv(rows[col].0[col]);
            for x in rows[col].0.iter_mut() {
                *x = gf_mul(*x, inv);
            }
            for x in rows[col].1.iter_mut() {
                *x = gf_mul(*x, inv);
            }
            let (row, shard) = rows[col].clone();
            for (r, other) in rows.iter_mut().enumerate() {
                let factor = other.0[col];
                if r != col && factor != 0 {
                    for (x, y) in other.0.iter_mut().zip(&row) {
                        *x ^= gf_mul(*y, factor);
                    }
                    for (x, y) in other.1.iter_mut().zip(&shard) {
                        *x ^= gf_mul(*y, factor);
                    }
                }
            }
        }
        Ok(rows.into_iter().take(k).map(|(_, shard)| Bytes::from(shard)).collect())
    }
}

/// A segment file with 2 encoded stripes of 4 data and 2 parity shards of 64
/// bytes, and its data.
fn make_v2_file(id: SegmentId, corrupt: Option<(usize, u8)>) -> (Vec<u8>, Vec<u8>) {
    const K: u8 = 4;
    const M: u8 = 2;
    const STRIP: usize = 64;
    let data: Vec<u8> = (0..512u32).map(|i| (i % 251) as u8).collect();
    let mut parity: Vec<Bytes> = Vec::new();
    for stripe in 0..2 {
        let shards: Vec<Bytes> = (0..4)
            .map(|d| {
                Bytes::copy_from_slice(
                    &data[stripe * 256 + d * STRIP..stripe * 256 + (d + 1) * STRIP],
                )
            })
            .collect();
        parity.extend(Cauchy.encode(&shards, M).unwrap());
    }
    let section = build_parity_section(&data, K, M, Some(&parity)).unwrap();
    let mut hasher = blake3::Hasher::new();
    hasher.update(&data);
    hasher.update(&section);
    let checksum = *hasher.finalize().as_bytes();
    let data_offset = SEGMENT_HEADER_SIZE;
    let hdr = SegmentHeader::with_parity(
        id,
        data.len() as u64,
        0,
        (data_offset + data.len() + section.len()) as u64,
        checksum,
        (data_offset + data.len()) as u64,
        section.len() as u64,
    );
    let mut file = hdr.to_bytes();
    file.extend_from_slice(&data);
    file.extend_from_slice(&section);
    if let Some((offset, val)) = corrupt {
        file[offset] = val;
    }
    (file, data)
}

/// Repairs the file in place.
fn repair(file: &mut Vec<u8>) -> Result<usize, Error> {
    let report = verify_and_repair_segment(file, &Cauchy, &Cauchy);
    for write in &report.writes {
        file[write.offset..write.offset + write.bytes.len()].copy_from_slice(&write.bytes);
    }
    report.result
}

#[test]
fn repair_healthy_v2_file_returns_zero() {
    let (mut file, _) = make_v2_file(SegmentId::from_u128(1), None);
    assert_eq!(repair(&mut file).unwrap(), 0);
}

#[test]
fn repair_restores_corrupt_data_shard() {
    let data_offset = SEGMENT_HEADER_SIZE;
    let (mut file, original) =
        make_v2_file(SegmentId::from_u128(1), Some((data_offset + 2 * 64 + 10, 0xFF)));

    let repaired = repair(&mut file).unwrap();
    assert_eq!(repaired, 1, "one stripe must be repaired");
    assert_eq!(repair(&mut file).unwrap(), 0);
    assert_eq!(
        &file[data_offset..data_offset + original.len()],
        &original[..],
        "corrupt data shard must be restored exactly"
    );
}

#[test]
fn repair_restores_corrupt_parity_shard_by_reencode() {
    let (mut file, original) = make_v2_file(SegmentId::from_u128(1), None);
    let hdr = SegmentHeader::from_bytes(&file).unwrap();
    let corrupt_offset = hdr.parity_offset as usize + PARITY_SECTION_HEADER_SIZE;
    file[corrupt_offset] ^= 0x5A;

    let repaired = repair(&mut file).unwrap();
    assert_eq!(repaired, 1);
    assert_eq!(
        &file[hdr.serialized_size()..hdr.serialized_size() + original.len()],
        &original[..],
        "data must be untouched by a parity-only repair"
    );

    let section = ParitySection::parse(&file[hdr.parity_offset as usize..]).unwrap();
    let data_shards: Vec<Bytes> =
        (0..4).map(|d| Bytes::copy_from_slice(section.data_shard(&original, 0, d))).collect();
    let fresh = Cauchy.encode(&data_shards, 2).unwrap();
    let repaired_shard = section.parity_shard(0, 0);
    assert_eq!(repaired_shard, &fresh[0][..], "repaired parity shard must equal a fresh encode");
}

#[test]
fn repair_rejects_more_than_m_corrupt_shards() {
    let data_offset = SEGMENT_HEADER_SIZE;
    let (mut file, _) = make_v2_file(SegmentId::from_u128(1), None);
    for d in 0..3 {
        file[data_offset + d * 64 + 5] ^= 0x01;
    }
    let result = repair(&mut file);
    assert!(matches!(result, Err(Error::SegmentCorrupt(_))));
}

#[test]
fn repair_v1_file_without_parity_errors_on_corruption() {
    let data = vec![0x11u8; 256];
    let mut file = vec![0u8; SEGMENT_HEADER_SIZE_V1];
    file[0..4].copy_from_slice(b"OFSG");
    file[4..6].copy_from_slice(&1u16.to_le_bytes());
    file[22..30].copy_from_slice(&(data.len() as u64).to_le_bytes());
    file[34..42].copy_from_slice(&((76 + data.len()) as u64).to_le_bytes());
    file.extend_from_slice(&data);

    let result = repair(&mut file);
    assert!(
        matches!(result, Err(Error::SegmentCorrupt(_))),
        "v1 corruption without parity must be unrepairable"
    );
}

#[test]
fn repair_heals_two_stripes_with_mixed_damage() {
    let (healthy, _) = make_v2_file(SegmentId::from_u128(1), None);
    let mut file = healthy.clone();
    let hdr = SegmentHeader::from_bytes(&file).unwrap();
    file[SEGMENT_HEADER_SIZE + 3] ^= 0x10;
    file[SEGMENT_HEADER_SIZE + 70] ^= 0x10;
    file[SEGMENT_HEADER_SIZE + 256 + 200] ^= 0x10;
    file[hdr.parity_offset as usize + PARITY_SECTION_HEADER_SIZE + 2 * 64] ^= 0x10;
    assert_eq!(repair(&mut file).unwrap(), 2);
    assert_eq!(file, healthy);
}

struct Failing;

impl Decoder for Failing {
    fn decode(&self, _: &Vec<Option<Bytes>>, _: u8, _: u8) -> Result<Vec<Bytes>, String> {
        Err("no decoder".to_string())
    }
}

impl Encoder for Failing {
    fn encode(&self, _: &Vec<Bytes>, _: u8) -> Result<Vec<Bytes>, String> {
        Err("no encoder".to_string())
    }
}

#[test]
fn codec_failures_are_reported() {
    let id = SegmentId::from_u128(8);
    let (file, _) = make_v2_file(id, Some((SEGMENT_HEADER_SIZE + 1, 0xFF)));
    let report = verify_and_repair_segment(&file, &Failing, &Cauchy);
    assert!(report.writes.is_empty());
    assert_eq!(
        report.result,
        Err(Error::DecodeFailed { segment_id: id, stripe: 0, why: "no decoder".to_string() })
    );

    let (mut file, _) = make_v2_file(id, None);
    let hdr = SegmentHeader::from_bytes(&file).unwrap();
    file[hdr.parity_offset as usize + PARITY_SECTION_HEADER_SIZE] ^= 1;
    let report = verify_and_repair_segment(&file, &Cauchy, &Failing);
    assert_eq!(
        report.result,
        Err(Error::EncodeFailed { segment_id: id, stripe: 0, why: "no encoder".to_string() })
    );
}

/// Decodes to shards of zeros.
struct Lying;

impl Decoder for Lying {
    fn decode(&self, _: &Vec<Option<Bytes>>, k: u8, _: u8) -> Result<Vec<Bytes>, String> {
        Ok(vec![Bytes::from(vec![0u8; 64]); k as usize])
    }
}

#[test]
fn a_wrong_recovery_is_not_written() {
    let id = SegmentId::from_u128(8);
    let (file, _) = make_v2_file(id, Some((SEGMENT_HEADER_SIZE + 1, 0xFF)));
    let report = verify_and_repair_segment(&file, &Lying, &Cauchy);
    assert!(report.writes.is_empty());
    assert_eq!(report.result, Err(Error::SegmentCorrupt(id)));
}

#[test]
fn streaming_verifier_accepts_a_healthy_file_in_chunks() {
    let (file, _) = make_v2_file(SegmentId::from_u128(4), None);
    for (flip, healthy) in [(None, true), (Some(SEGMENT_HEADER_SIZE + 300), false)] {
        let mut file = file.clone();
        if let Some(at) = flip {
            file[at] ^= 1;
        }
        let mut verifier = SegmentVerifier::begin(&file[..128], file.len() as u64).unwrap();
        assert_eq!(verifier.segment_header().segment_id, SegmentId::from_u128(4));
        for (from, to) in verifier.ranges() {
            for chunk in file[from as usize..to as usize].chunks(50) {
                verifier.feed(chunk);
            }
        }
        assert_eq!(verifier.finish(), Ok(healthy));
    }
}

#[test]
fn streaming_verifier_rejects_what_is_no_segment_file() {
    assert!(SegmentVerifier::begin(&[0u8; 10], 10).is_err());
}

/// A segment file with 2 encoded stripes and 88 bytes behind them.
fn make_file_with_tail(id: SegmentId) -> Vec<u8> {
    let data: Vec<u8> = (0..600u32).map(|i| (i % 251) as u8).collect();
    let mut parity: Vec<Bytes> = Vec::new();
    for stripe in 0..2 {
        let shards: Vec<Bytes> = (0..4)
            .map(|d| {
                let at = stripe * 256 + d * 64;
                Bytes::copy_from_slice(&data[at..at + 64])
            })
            .collect();
        parity.extend(Cauchy.encode(&shards, 2).unwrap());
    }
    let section = build_parity_section(&data, 4, 2, Some(&parity)).unwrap();
    let mut hasher = blake3::Hasher::new();
    hasher.update(&data);
    hasher.update(&section);
    let checksum = *hasher.finalize().as_bytes();
    let parity_at = (SEGMENT_HEADER_SIZE + data.len()) as u64;
    let size = section.len() as u64;
    let header =
        SegmentHeader::with_parity(id, 600, 0, parity_at + size, checksum, parity_at, size);
    let mut file = header.to_bytes();
    file.extend_from_slice(&data);
    file.extend_from_slice(&section);
    file
}

#[test]
fn a_damaged_tail_stays_corrupt_when_a_stripe_is_repaired() {
    let id = SegmentId::from_u128(7);
    let healthy = make_file_with_tail(id);

    let mut file = healthy.clone();
    file[97] ^= 1;
    assert_eq!(repair(&mut file), Ok(1));
    assert_eq!(file, healthy);

    let mut file = healthy.clone();
    file[97] ^= 1;
    file[642] ^= 1;
    let report = verify_and_repair_segment(&file, &Cauchy, &Cauchy);
    assert_eq!(report.result, Err(Error::SegmentCorrupt(id)));
    assert_eq!(report.writes.len(), 1, "the damaged shard is written all the same");
    assert_eq!(repair(&mut file), Err(Error::SegmentCorrupt(id)));
    file[642] ^= 1;
    assert_eq!(file, healthy);
}

/// Encodes shards of twice their length.
struct Doubling;

impl Encoder for Doubling {
    fn encode(&self, shards: &Vec<Bytes>, m: u8) -> Result<Vec<Bytes>, String> {
        Ok(Cauchy.encode(shards, m)?.into_iter().map(|s| Bytes::from(s.repeat(2))).collect())
    }
}

impl Decoder for Doubling {
    fn decode(&self, left: &Vec<Option<Bytes>>, k: u8, m: u8) -> Result<Vec<Bytes>, String> {
        Ok(Cauchy.decode(left, k, m)?.into_iter().map(|s| Bytes::from(s.repeat(2))).collect())
    }
}

#[test]
fn parity_shards_are_written_as_they_come_and_the_checksum_decides() {
    let id = SegmentId::from_u128(7);
    let (mut file, _) = make_v2_file(id, None);
    let hdr = SegmentHeader::from_bytes(&file).unwrap();
    let shard_at = hdr.parity_offset as usize + PARITY_SECTION_HEADER_SIZE;
    file[shard_at] ^= 1;
    let report = verify_and_repair_segment(&file, &Cauchy, &Doubling);
    assert_eq!(report.writes.len(), 1);
    assert_eq!((report.writes[0].offset, report.writes[0].bytes.len()), (shard_at, 128));
    assert_eq!(report.result, Err(Error::SegmentCorrupt(id)));
    let report = verify_and_repair_segment(&file, &Doubling, &Cauchy);
    assert!(report.writes.is_empty(), "the hash table expects other data shards");
    assert_eq!(report.result, Err(Error::SegmentCorrupt(id)));
}

#[test]
fn a_write_past_the_end_makes_the_file_longer() {
    let writes = vec![
        RangeWrite { offset: 1, bytes: Bytes::from_static(b"xy") },
        RangeWrite { offset: 3, bytes: Bytes::from_static(b"abc") },
    ];
    assert_eq!(apply_writes(b"0123", &writes), b"0xyabc".to_vec());
}

#[test]
fn a_file_whose_data_would_end_before_its_header_has_no_data() {
    let id = SegmentId::from_u128(7);
    let empty = *blake3::hash(b"").as_bytes();
    let file = SegmentHeader::new(id, 0, 0, 76, empty).to_bytes();
    let report = verify_and_repair_segment(&file[..80], &Cauchy, &Cauchy);
    assert_eq!(report.result, Ok(0));
    let file = SegmentHeader::new(id, 0, 0, 76, [0xAA; 32]).to_bytes();
    let report = verify_and_repair_segment(&file[..80], &Cauchy, &Cauchy);
    assert_eq!(report.result, Err(Error::SegmentCorrupt(id)));
}
