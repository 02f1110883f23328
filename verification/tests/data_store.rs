use bytes::Bytes;
use oceanfs_segment::dat_name::{dat_file_name, is_dat_name, list_segment_files, parse_dat_name};
use oceanfs_segment::data_store::{
    check_guard, direct_image, effective_write_mode, locate_for_read, pool_by_id, pool_root,
    read_geometry, read_segment_data, resolve_pool, v1_header_bytes, PoolRole, SegmentWriteMode,
    StoragePool, BLOCK_SIZE,
};
use oceanfs_segment::error::Error;
use oceanfs_segment::header::SegmentHeader;
use oceanfs_segment::lifecycle::SegmentLifecycleRegistry;
use oceanfs_segment::types::{
    HashOutput, LifecycleConfig, SegmentId, SegmentMetadata, SizeTier,
};

fn id(n: u128) -> SegmentId {
    SegmentId::from_u128(n)
}

fn pools() -> Vec<StoragePool> {
    vec![
        StoragePool { id: 0, role: PoolRole::Data },
        StoragePool { id: 1, role: PoolRole::Wal },
        StoragePool { id: 2, role: PoolRole::Metadata },
        StoragePool { id: 3, role: PoolRole::Hints },
        StoragePool { id: 7, role: PoolRole::Data },
    ]
}

/// A registry with one sealed segment on the given pool.
fn seeded(segment: SegmentId, pool_id: u32, data: &[u8]) -> SegmentLifecycleRegistry {
    let mut registry = SegmentLifecycleRegistry::new(&LifecycleConfig::default());
    let reserved = SegmentMetadata::reserved(segment, SizeTier::Standard, 4, 2);
    registry.reserve(segment, reserved.clone(), 0).unwrap();
    let sealed = SegmentMetadata {
        pool_id,
        merkle_root: Some(HashOutput::from_bytes(*blake3::hash(data).as_bytes())),
        sealed_at: Some(1_700_000_000_000),
        ..reserved
    };
    registry.seal(segment, sealed, 0).unwrap();
    registry
}

/// The file that is written for the data.
fn write_file(data: &[u8]) -> Vec<u8> {
    let mut raw = v1_header_bytes(data);
    raw.extend_from_slice(data);
    raw
}

#[test]
fn io_layer_write_read_roundtrip_is_header_valid_v1() {
    let data: Vec<u8> = (0..4096u32).map(|i| (i % 251) as u8).collect();
    let raw = write_file(&data);
    let header = SegmentHeader::from_bytes(&raw).expect("valid header");
    assert_eq!(header.version, 1);
    assert_eq!(header.data_end() as usize, 76 + data.len());
    assert_eq!(header.checksum, *blake3::hash(&data).as_bytes());

    let (offset, length) = read_geometry(id(1), &header).unwrap();
    assert_eq!((offset, length), (76, data.len() as u32));
    let section = Bytes::copy_from_slice(&raw[76..76 + length as usize]);
    let file = read_segment_data(id(1), &header, section);
    assert_eq!(&file.data[..], &data[..]);
    assert_eq!(file.version, 1);
    assert_eq!(file.header_len, 76);
    assert_eq!(file.data_end as usize, 76 + data.len());
}

#[test]
fn missing_dat_reads_ok_none() {
    let registry = seeded(id(1), 0, &[1u8; 64]);
    assert_eq!(locate_for_read(&registry, &pools(), id(1), 0), Some(0));
    assert_eq!(locate_for_read(&registry, &pools(), id(2), 0), None);
}

#[test]
fn registry_pool_id_selects_the_pool_root() {
    let registry = seeded(id(1), 0, &[2u8; 128]);
    assert_eq!(resolve_pool(&registry, &pools(), id(1), 0), Ok(0));
    let registry = seeded(id(1), 7, &[2u8; 128]);
    assert_eq!(resolve_pool(&registry, &pools(), id(1), 0), Ok(4));
}

#[test]
fn unregistered_write_is_rejected() {
    let registry = SegmentLifecycleRegistry::new(&LifecycleConfig::default());
    assert_eq!(
        resolve_pool(&registry, &pools(), id(5), 0),
        Err(Error::NotRegistered(id(5)))
    );
}

#[test]
fn delete_and_list_work_per_pool_root() {
    let data = vec![3u8; 512];
    let name = dat_file_name(id(1));
    let names = vec![name.clone(), "notes.txt".to_string(), format!("{name}.tmp")];
    let listed = list_segment_files(&names);
    assert_eq!(listed, vec![0]);
    assert_eq!(write_file(&data).len() as u64, 76 + data.len() as u64);

    assert_eq!(pool_root(&pools(), 0, id(1)), Ok(0));
    assert!(pool_root(&pools(), 42, id(1)).is_err());
    assert_eq!(
        pool_root(&pools(), 42, id(1)),
        Err(Error::UnknownPool { segment_id: id(1), pool_id: 42 })
    );
    assert!(list_segment_files(&vec![]).is_empty());
}

#[test]
fn guarded_write_rejects_wrong_segment() {
    assert_eq!(
        check_guard(id(1), id(2)),
        Err(Error::WrongGuard { held: id(1), target: id(2) })
    );
    assert_eq!(check_guard(id(1), id(1)), Ok(()));
}

#[test]
fn metadata_of_an_unknown_pool_is_an_error() {
    let registry = seeded(id(1), 42, b"x");
    assert_eq!(
        resolve_pool(&registry, &pools(), id(1), 0),
        Err(Error::UnknownPool { segment_id: id(1), pool_id: 42 })
    );
    assert_eq!(pool_by_id(&pools(), 7), Some(4));
    assert_eq!(pool_by_id(&pools(), 8), None);
}

#[test]
fn data_past_four_gibibytes_is_too_large() {
    let size = u32::MAX as u64 + 1;
    let header = SegmentHeader::new(id(1), size, 0, 92 + size, [0u8; 32]);
    assert_eq!(
        read_geometry(id(1), &header),
        Err(Error::DataTooLarge { segment_id: id(1), size })
    );
}

#[test]
fn direct_image_is_padded_to_whole_blocks() {
    let image = direct_image(&[1u8; 76], &[2u8; 500]);
    assert_eq!(image.len(), 2 * BLOCK_SIZE);
    assert_eq!(&image[..76], &[1u8; 76][..]);
    assert_eq!(&image[76..576], &[2u8; 500][..]);
    assert!(image[576..].iter().all(|b| *b == 0));
    assert_eq!(direct_image(&[1u8; 76], &[2u8; 436]).len(), BLOCK_SIZE);
}

#[test]
fn an_existing_target_is_replaced_by_a_rename() {
    assert_eq!(
        effective_write_mode(SegmentWriteMode::Tmpfile, false),
        SegmentWriteMode::Tmpfile
    );
    assert_eq!(effective_write_mode(SegmentWriteMode::Tmpfile, true), SegmentWriteMode::Rename);
    assert_eq!(effective_write_mode(SegmentWriteMode::Rename, false), SegmentWriteMode::Rename);
}

#[test]
fn dat_names_and_identifiers_convert_both_ways() {
    let segment = id(0x0102_0304_0506_0708_090A_0B0C_0D0E_0FF0);
    let name = dat_file_name(segment);
    assert_eq!(name, "01020304-0506-0708-090a-0b0c0d0e0ff0.dat");
    assert!(is_dat_name(&name));
    assert_eq!(parse_dat_name(&name), Some(segment));
    assert_eq!(parse_dat_name("01020304-0506-0708-090a-0b0c0d0e0ff0"), None);
    assert_eq!(parse_dat_name("zz020304-0506-0708-090a-0b0c0d0e0ff0.dat"), None);
    assert_ne!(dat_file_name(id(1)), dat_file_name(id(2)));
}
