//! The on-disk formats.

use cfb_mode::cipher::{AsyncStreamCipher, KeyIvInit};
use steam2fs::format::blob;
use steam2fs::format::blob::{Blob, VersionMeta};
use steam2fs::format::checksums;
use steam2fs::format::checksums::{Mode, MAGIC};
use steam2fs::format::chunk::{checksum, decode, decode_owned, decode_verified};
use steam2fs::format::manifest;
use steam2fs::format::manifest::flags;
use steam2fs::format::manifest::{Manifest, HEADER_SIZE, NODE_SIZE, NO_FILE, NO_NODE};
use steam2fs::format::{u16_at, u32_at, u64_at, words_at, FormatError};

fn message<T>(r: Result<T, FormatError>) -> String {
    match r {
        Ok(_) => panic!("expected a failure"),
        Err(e) => e.message(),
    }
}

// ---- blobs ----

fn entry(key: u32, value: &[u8]) -> Vec<u8> {
    let mut v = Vec::new();
    v.extend_from_slice(&4u16.to_le_bytes());
    v.extend_from_slice(&(value.len() as u32).to_le_bytes());
    v.extend_from_slice(&key.to_le_bytes());
    v.extend_from_slice(value);
    v
}

fn build(entries: &[(u32, &[u8])]) -> Vec<u8> {
    let body: Vec<u8> = entries.iter().flat_map(|(k, v)| entry(*k, v)).collect();
    let mut out = Vec::new();
    out.extend_from_slice(&blob::MAGIC_PLAIN.to_le_bytes());
    out.extend_from_slice(&((body.len() + 10) as u32).to_le_bytes());
    out.extend_from_slice(&0u32.to_le_bytes());
    out.extend_from_slice(&body);
    out
}

fn deflate(plain: &[u8], level: flate2::Compression) -> Vec<u8> {
    let mut z = flate2::write::ZlibEncoder::new(Vec::new(), level);
    std::io::Write::write_all(&mut z, plain).unwrap();
    z.finish().unwrap()
}

fn pack(plain: &[u8], claimed: u64) -> Vec<u8> {
    let packed = deflate(plain, flate2::Compression::default());
    let mut data = Vec::new();
    data.extend_from_slice(&blob::MAGIC_COMPRESSED.to_le_bytes());
    data.extend_from_slice(&((packed.len() + 20) as u64).to_le_bytes());
    data.extend_from_slice(&claimed.to_le_bytes());
    data.extend_from_slice(&9u16.to_le_bytes());
    data.extend_from_slice(&packed);
    data
}

#[test]
fn parses_entries() {
    let data = build(&[(0, &3u32.to_le_bytes()), (13, &7u64.to_le_bytes())]);
    let blob = Blob::parse(&data).unwrap();
    assert_eq!(blob.u32(0).unwrap(), 3);
    assert_eq!(blob.u32_or_u64(13).unwrap(), 7);
    assert!(blob.get_u32_key(99).is_none());
}

#[test]
fn rejects_bad_magic() {
    assert!(Blob::parse(&[0, 0, 0, 0, 0, 0, 0, 0, 0, 0]).is_err());
}

#[test]
fn round_trips_compressed() {
    let plain = build(&[(1, b"x\0")]);
    let data = pack(&plain, plain.len() as u64);
    let mut scratch = Vec::new();
    let blob = Blob::parse_any(&data, &mut scratch).unwrap();
    assert_eq!(blob.get_u32_key(1).unwrap(), b"x\0");
}

#[test]
fn entries_are_listed_and_found() {
    let data = build(&[(5, b"five"), (6, b""), (5, b"again")]);
    let blob = Blob::parse(&data).unwrap();
    assert_eq!(blob.entries().len(), 3);
    assert_eq!(blob.entries()[2].0, 5u32.to_le_bytes());
    assert_eq!(blob.entries()[2].1, b"again");
    assert_eq!(blob.get(&5u32.to_le_bytes()).unwrap(), b"five");
    assert_eq!(blob.require(6).unwrap(), b"");
    assert_eq!(blob.value_offset(5).unwrap(), 20);
    assert_eq!(blob.get(b"xyz"), None);
}

#[test]
fn fields_have_their_widths() {
    let data = build(&[
        (0, &3u32.to_le_bytes()),
        (1, &0x1_0000_0002u64.to_le_bytes()),
        (2, b"abc"),
    ]);
    let blob = Blob::parse(&data).unwrap();
    assert_eq!(blob.u64(1).unwrap(), 0x1_0000_0002);
    assert_eq!(blob.u32_or_u64(0).unwrap(), 3);
    assert!(blob.u32(1).is_err());
    assert!(blob.u64(0).is_err());
    assert!(blob.u32_or_u64(2).is_err());
    assert!(blob.u32(77).is_err());
    assert!(blob.require(77).is_err());
    assert!(blob.value_offset(77).is_err());
}

#[test]
fn truncated_blobs_are_refused() {
    let whole = build(&[(1, b"value")]);
    for n in 0..whole.len() {
        assert!(Blob::parse(&whole[..n]).is_err(), "{n} bytes");
    }
    assert!(Blob::parse(&whole).is_ok());
}

#[test]
fn decompress_checks_what_it_is_told() {
    let plain = b"some bytes";
    assert_eq!(blob::decompress(&pack(plain, 10)).unwrap(), plain);
    assert!(blob::decompress(&pack(plain, 9)).is_err());
    assert!(blob::decompress(&pack(plain, 11)).is_err());
    assert!(blob::decompress(b"xx").is_err());
    let mut broken = pack(plain, 10);
    broken[20] ^= 0xff;
    assert!(matches!(
        blob::decompress(&broken),
        Err(FormatError::Zlib(_))
    ));
    let mut wrong = pack(plain, 10);
    wrong[0] ^= 1;
    assert!(matches!(
        blob::decompress(&wrong),
        Err(FormatError::Malformed(_))
    ));
    // A plain blob needs no unpacking.
    let direct = build(&[(1, b"v")]);
    let mut scratch = Vec::new();
    assert_eq!(
        Blob::parse_any(&direct, &mut scratch)
            .unwrap()
            .get_u32_key(1)
            .unwrap(),
        b"v"
    );
}

#[test]
fn version_meta_reads_its_fields() {
    let fields = |prev: u32| {
        build(&[
            (0, &4u32.to_le_bytes()),
            (7, &0xd00d_u32.to_le_bytes()),
            (10, &0xfeed_u32.to_le_bytes()),
            (11, &prev.to_le_bytes()),
            (12, &0xabcd_u32.to_le_bytes()),
            (13, &99u64.to_le_bytes()),
        ])
    };
    let data = fields(17);
    let meta = VersionMeta::from_blob(&Blob::parse(&data).unwrap()).unwrap();
    assert_eq!(meta.format, 4);
    assert_eq!(meta.own_crc, 0xfeed);
    assert_eq!(meta.dat_crc, 0xd00d);
    assert_eq!(meta.dat_size, 99);
    assert_eq!(meta.prev, Some((17, 0xabcd)));
    let root = fields(u32::MAX);
    let meta = VersionMeta::from_blob(&Blob::parse(&root).unwrap()).unwrap();
    assert_eq!(meta.prev, None);
    let none = build(&[]);
    assert!(VersionMeta::from_blob(&Blob::parse(&none).unwrap()).is_err());
}

// ---- words ----

#[test]
fn words_are_little_endian() {
    let b = [1u8, 2, 3, 4, 5, 6, 7, 8, 9];
    assert_eq!(u16_at(&b, 0).unwrap(), 0x0201);
    assert_eq!(u32_at(&b, 1).unwrap(), 0x0504_0302);
    assert_eq!(u64_at(&b, 1).unwrap(), 0x0908_0706_0504_0302);
    assert_eq!(words_at(&b, 0, 2).unwrap(), vec![0x0403_0201, 0x0807_0605]);
    assert!(u16_at(&b, 8).is_err());
    assert!(u32_at(&b, 6).is_err());
    assert!(u64_at(&b, 2).is_err());
    assert!(u64_at(&b, u64::MAX).is_err());
    assert!(words_at(&b, 0, 3).is_err());
}

// ---- blocks ----

#[test]
fn checksum_matches_reference_convention() {
    // adler32 seeded with 0 (not 1) xor crc32, as HLLib does for GCF.
    let data = b"hello";
    let mut a = adler2::Adler32::from_checksum(0);
    a.write_slice(data);
    assert_eq!(checksum(data), a.checksum() ^ crc32fast::hash(data));
    assert_ne!(
        checksum(data),
        adler2::adler32_slice(data) ^ crc32fast::hash(data)
    );
}

#[test]
fn plain_and_compressed_round_trip() {
    let payload = vec![7u8; 1000];
    assert_eq!(decode(Mode::Plain, &payload, None).unwrap(), payload);
    let packed = deflate(&payload, flate2::Compression::fast());
    assert_eq!(decode(Mode::Compressed, &packed, None).unwrap(), payload);
}

#[test]
fn encrypted_requires_key() {
    assert!(decode(Mode::Encrypted, &[0u8; 16], None).is_err());
    assert!(decode_owned(Mode::Encrypted, vec![0u8; 16], None).is_err());
}

#[test]
fn decode_owned_matches_decode() {
    let payload = vec![7u8; 1000];
    let key = [3u8; 16];
    for mode in [Mode::Plain, Mode::Encrypted] {
        assert_eq!(
            decode_owned(mode, payload.clone(), Some(&key)).unwrap(),
            decode(mode, &payload, Some(&key)).unwrap()
        );
    }
}

fn encrypt(key: &[u8; 16], plain: &[u8]) -> Vec<u8> {

    let mut buf = plain.to_vec();
    cfb_mode::Encryptor::<aes::Aes128>::new(key.into(), &[0u8; 16].into()).encrypt(&mut buf);
    buf
}

fn seal(key: &[u8; 16], plain: &[u8], claimed: u32) -> Vec<u8> {
    let body = encrypt(key, &deflate(plain, flate2::Compression::fast()));
    let mut raw = Vec::new();
    raw.extend_from_slice(&(body.len() as u32).to_le_bytes());
    raw.extend_from_slice(&claimed.to_le_bytes());
    raw.extend_from_slice(&body);
    raw
}

#[test]
fn plain_and_encrypted_blocks_keep_their_length() {
    for len in [0usize, 1, 15, 16, 17, 0x8001] {
        let raw: Vec<u8> = (0..len).map(|i| i as u8).collect();
        for mode in [Mode::Plain, Mode::Encrypted] {
            let out = decode(mode, &raw, Some(&[3; 16])).unwrap();
            assert_eq!(out.len(), len);
            assert_eq!(decode_owned(mode, raw.clone(), Some(&[3; 16])).unwrap(), out);
        }
    }
}

#[test]
fn encrypted_blocks_round_trip() {
    let key = [9u8; 16];
    let plain = b"attack at dawn, or thereabouts".to_vec();
    let raw = encrypt(&key, &plain);
    assert_ne!(raw, plain);
    assert_eq!(decode(Mode::Encrypted, &raw, Some(&key)).unwrap(), plain);
    assert_ne!(
        decode(Mode::Encrypted, &raw, Some(&[8u8; 16])).unwrap(),
        plain
    );
    let sealed = seal(&key, &plain, plain.len() as u32);
    assert_eq!(
        decode(Mode::CompressedEncrypted, &sealed, Some(&key)).unwrap(),
        plain
    );
    assert_eq!(
        decode_owned(Mode::CompressedEncrypted, sealed, Some(&key)).unwrap(),
        plain
    );
}

#[test]
fn sealed_blocks_are_checked() {
    let key = [9u8; 16];
    let plain = vec![1u8; 100];
    assert!(decode(Mode::CompressedEncrypted, &seal(&key, &plain, 100), None).is_err());
    assert!(decode(Mode::CompressedEncrypted, &seal(&key, &plain, 99), Some(&key)).is_err());
    assert!(decode(Mode::CompressedEncrypted, &seal(&key, &plain, 0x8001), Some(&key)).is_err());
    let mut longer = seal(&key, &plain, 100);
    longer.push(0);
    assert!(decode(Mode::CompressedEncrypted, &longer, Some(&key)).is_err());
    assert!(decode(Mode::CompressedEncrypted, b"short", Some(&key)).is_err());
}

#[test]
fn blocks_never_inflate_past_their_size() {
    let most = deflate(&vec![0u8; 0x8000], flate2::Compression::fast());
    assert_eq!(
        decode(Mode::Compressed, &most, None).unwrap().len(),
        0x8000
    );
    let over = deflate(&vec![0u8; 0x8001], flate2::Compression::fast());
    assert!(decode(Mode::Compressed, &over, None).is_err());
    assert!(matches!(
        decode(Mode::Compressed, b"not zlib at all", None),
        Err(FormatError::Zlib(_))
    ));
}

#[test]
fn verified_blocks_have_their_checksum() {
    let data = b"block".to_vec();
    let sum = checksum(&data);
    assert_eq!(
        decode_verified(Mode::Plain, &data, None, sum).unwrap(),
        data
    );
    let e = message(decode_verified(Mode::Plain, &data, None, sum ^ 1));
    assert_eq!(
        e,
        format!(
            "checksum {:08x} != stored {:08x}",
            sum,
            sum ^ 1
        )
    );
}

// ---- checksum tables ----

fn words(v: &[u32]) -> Vec<u8> {
    v.iter().flat_map(|x| x.to_le_bytes()).collect()
}

/// One fileblock with two files of 32-bit sizes, ids 40 and 41.
fn table() -> Vec<u32> {
    vec![
        MAGIC, 0, 1, 2, 0x20, 0x30, 0x8000, 2, // header
        40, 2, 0x30, 0, // fileblock
        10, 100, 1 << 24 | 1, 7, 0xaaaa, // file 40
        0x8001, 107, 2, 5, 0xbbbb, 6, 0xcccc, // file 41
        MAGIC,
    ]
}

#[test]
fn checksum_tables_are_read() {
    let files = checksums::parse(&words(&table())).unwrap();
    assert_eq!(files.len(), 2);
    assert_eq!(files[0].file_id, 40);
    assert_eq!(files[0].mode, Mode::Compressed);
    assert_eq!((files[0].offset, files[0].size), (100, 10));
    assert_eq!(files[0].num_blocks(), 1);
    assert_eq!(files[0].block_range(0), (0, 10));
    assert_eq!(files[1].file_id, 41);
    assert_eq!(files[1].mode, Mode::Plain);
    assert_eq!(files[1].blocks[1].compressed_size, 6);
    assert_eq!(files[1].blocks[1].checksum, 0xcccc);
    assert_eq!(files[1].block_range(0), (0, 0x8000));
    assert_eq!(files[1].block_range(1), (0x8000, 0x8001));
}

#[test]
fn wide_checksum_tables_are_read() {
    let t = words(&[
        MAGIC, 1, 1, 1, 0x20, 0x30, 0x8000, 0, // header
        3, 1, 0x30, 0, // fileblock
        0, 1, 5, 2, 3 << 24, // size 1 << 32, offset 2 << 32 | 5
        MAGIC,
    ]);
    let files = checksums::parse(&t).unwrap();
    assert_eq!(files[0].size, 1 << 32);
    assert_eq!(files[0].offset, (2 << 32) | 5);
    assert_eq!(files[0].mode, Mode::Encrypted);
    assert_eq!(files[0].num_blocks(), 0);
}

#[test]
fn damaged_checksum_tables_are_refused() {
    let changed = |at: usize, value: u32| {
        let mut t = table();
        t[at] = value;
        checksums::parse(&words(&t))
    };
    assert!(changed(0, 0).is_err());
    assert_eq!(
        message(changed(1, 2)),
        "checksum table: unknown version 2"
    );
    assert!(changed(2, 3).is_err());
    assert_eq!(
        message(changed(3, 3)),
        "checksum table: 2 files but header says 3"
    );
    assert!(changed(4, 0x24).is_err());
    assert!(changed(5, 0x34).is_err());
    assert_eq!(
        message(changed(6, 0x4000)),
        "checksum table: block size 0x4000"
    );
    assert_eq!(
        message(changed(7, 3)),
        "checksum table: largest block count mismatch"
    );
    assert_eq!(
        message(changed(8, u32::MAX)),
        "checksum table: file id overflow"
    );
    assert_eq!(
        message(changed(10, 0x40)),
        "checksum table: fileblock 0 offset 0x40 != cursor 0x30"
    );
    assert_eq!(
        message(changed(14, 9 << 24 | 1)),
        "checksum table: file 40 mode 9"
    );
    assert_eq!(
        message(changed(24, 0)),
        "checksum table: bad footer magic"
    );
    let whole = words(&table());
    for n in 0..whole.len() {
        assert!(checksums::parse(&whole[..n]).is_err(), "{n} bytes");
    }
}

#[test]
fn modes_have_numbers() {
    assert_eq!(Mode::from_u32(0), Some(Mode::Plain));
    assert_eq!(Mode::from_u32(1), Some(Mode::Compressed));
    assert_eq!(Mode::from_u32(2), Some(Mode::CompressedEncrypted));
    assert_eq!(Mode::from_u32(3), Some(Mode::Encrypted));
    assert_eq!(Mode::from_u32(4), None);
    assert!(Mode::CompressedEncrypted.is_encrypted());
    assert!(Mode::Encrypted.is_encrypted());
    assert!(!Mode::Plain.is_encrypted());
    assert!(!Mode::Compressed.is_encrypted());
}

// ---- manifests ----

/// Build a manifest buffer: root -> [dir "a" -> [file "x"], file "y"].
fn sample() -> Vec<u8> {
    let names = b"\0a\0x\0y\0";
    let nodes: [[u32; 7]; 4] = [
        // name, count/size, file_id, flags, parent, next_sibling, first_child
        [0, 2, NO_FILE, 0, NO_NODE, 0, 1],
        [1, 1, NO_FILE, 0, 0, 3, 2],
        [3, 10, 7, flags::FILE, 1, 0, 0],
        [5, 20, 8, flags::FILE, 0, 0, 0],
    ];
    let mut buf = vec![0u8; HEADER_SIZE];
    for n in &nodes {
        for v in n {
            buf.extend_from_slice(&v.to_le_bytes());
        }
    }
    buf.extend_from_slice(names);
    let mut hdr = [0u32; 14];
    hdr[0] = 4;
    hdr[1] = 99;
    hdr[3] = nodes.len() as u32;
    hdr[4] = 2;
    hdr[5] = 0x8000;
    hdr[6] = buf.len() as u32;
    hdr[7] = names.len() as u32;
    hdr[12] = 0xabcd;
    for (i, v) in hdr.iter().enumerate() {
        buf[i * 4..i * 4 + 4].copy_from_slice(&v.to_le_bytes());
    }
    seal_manifest(buf)
}

fn seal_manifest(mut buf: Vec<u8>) -> Vec<u8> {
    let ck = manifest::checksum(&buf);
    buf[0x34..0x38].copy_from_slice(&ck.to_le_bytes());
    buf
}

#[test]
fn walks_tree() {
    let m = Manifest::parse(&sample()).unwrap();
    assert_eq!(m.app_id, 99);
    assert_eq!(m.children(0).collect(), vec![1, 3]);
    assert_eq!(m.children(1).collect(), vec![2]);
    assert_eq!(m.children(2).count(), 0);
    assert_eq!(m.child_by_name(0, b"a"), Some(1));
    assert_eq!(m.child_by_name(1, b"x"), Some(2));
    assert_eq!(m.path(2), b"a/x");
    assert!(m.node(2).unwrap().flags & flags::FILE != 0);
    assert_eq!(m.fingerprint, 0xabcd);
    assert_eq!(flags::describe(0x400a), "file,copy_local");
    assert_eq!(flags::describe(0x4100), "file,encrypted");
    assert_eq!(flags::describe(0), "directory");
}

/// Rebuild a manifest buffer after mutating one node field.
fn with_node_field(node: usize, field: usize, value: u32) -> Vec<u8> {
    let mut buf = sample();
    let off = HEADER_SIZE + node * NODE_SIZE + field * 4;
    buf[off..off + 4].copy_from_slice(&value.to_le_bytes());
    let zeroed = {
        let mut b = buf.clone();
        b[0x30..0x38].fill(0);
        b
    };
    let ck = manifest::checksum(&zeroed);
    buf[0x34..0x38].copy_from_slice(&ck.to_le_bytes());
    buf
}

#[test]
fn rejects_out_of_range_links() {
    // field 6 is first_child, field 5 is next_sibling.
    assert!(Manifest::parse(&with_node_field(0, 6, 99)).is_err());
    assert!(Manifest::parse(&with_node_field(1, 5, 99)).is_err());
    // 0 and NO_NODE are terminators, not indices.
    assert!(Manifest::parse(&with_node_field(2, 5, 0)).is_ok());
    assert!(Manifest::parse(&with_node_field(2, 5, NO_NODE)).is_ok());
}

#[test]
fn finds_every_child_by_name() {
    let m = Manifest::parse(&sample()).unwrap();
    for (i, n) in m.nodes().iter().enumerate() {
        if n.parent == NO_NODE {
            continue;
        }
        assert_eq!(
            m.child_by_name(n.parent, m.name(i as u32)),
            Some(i as u32),
            "node {i}"
        );
    }
    assert_eq!(m.child_by_name(0, b"nope"), None);
    assert_eq!(m.child_by_name(99, b"a"), None);
    // A name that exists, but under a different parent.
    assert_eq!(m.child_by_name(0, b"x"), None);
}

#[test]
fn unknown_node_has_no_name() {
    let m = Manifest::parse(&sample()).unwrap();
    assert_eq!(m.name(999), b"");
}

#[test]
fn rejects_bad_checksum() {
    let mut buf = sample();
    buf[0x34] ^= 1;
    assert!(Manifest::parse(&buf).is_err());
}

#[test]
fn names_and_parents_are_held_to_their_tables() {
    assert_eq!(
        message(Manifest::parse(&with_node_field(2, 0, 7))),
        "node 2: name offset out of range"
    );
    assert_eq!(
        message(Manifest::parse(&with_node_field(2, 4, 4))),
        "node 2: parent out of range"
    );
    assert!(Manifest::parse(b"short").is_err());
    let header = |word: usize, value: u32| {
        let mut buf = sample();
        buf[word * 4..word * 4 + 4].copy_from_slice(&value.to_le_bytes());
        Manifest::parse(&seal_manifest(buf))
    };
    assert!(header(0, 3).is_ok());
    assert!(header(0, 5).is_err());
    assert!(header(3, 5).is_err());
    assert!(header(5, 0x4000).is_err());
    assert!(header(6, 1).is_err());
    assert!(header(7, 100).is_err());
}

#[test]
fn looping_manifests_end() {
    // Node 1 is its own sibling, and its own parent.
    let m = Manifest::parse(&with_node_field(1, 5, 1)).unwrap();
    assert_eq!(m.children(0).collect(), vec![1, 1]);
    let m = Manifest::parse(&with_node_field(1, 4, 1)).unwrap();
    assert!(m.path(1).starts_with(b"a/a"));
    assert_eq!(m.root(), 0);
}

#[test]
fn unknown_flags_are_shown_as_they_are() {
    assert_eq!(flags::describe(0x4040), "file,backup_local");
    assert_eq!(flags::describe(0x0001), "copy_local_no_overwrite");
    assert_eq!(flags::describe(0x4200), "file,0x200");
}
