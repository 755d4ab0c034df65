//! A small dump in memory, read through the store, the tree and the frontends.

use aes::Aes128;
use cfb_mode::cipher::{AsyncStreamCipher, KeyIvInit};
use sha2::Digest;
use std::collections::BTreeMap;
use std::rc::Rc;
use steam2fs::backend::{Backend, DirEntry, Reply, Trouble};
use steam2fs::calendar::Date;
use steam2fs::commands::audit::{audit_blob, audit_list, key_audit, sorted_lines, wrote_line, Audit};
use steam2fs::commands::discovered::keys_file;
use steam2fs::commands::inspect::inspect;
use steam2fs::commands::verify::verify;
use steam2fs::commands::{resolve_version, CommandError};
use steam2fs::format::blob;
use steam2fs::format::blob::keys as fields;
use steam2fs::format::checksums;
use steam2fs::format::checksums::Mode;
use steam2fs::format::chunk;
use steam2fs::format::manifest;
use steam2fs::format::manifest::{NO_FILE, NO_NODE};
use steam2fs::fs::xattr::XattrReply;
use steam2fs::fs::{attr, FsError, Steam2Fs};
use steam2fs::index::{BlobEntry, BlobId, Index};
use steam2fs::keys::KeyStore;
use steam2fs::store::contents::{check_contents, check_kept};
use steam2fs::store::error::Errnos;
use steam2fs::store::notes::Note;
use steam2fs::store::{parse_blob, ErrorClass, KeyResolution, ReadError, Store, StoreConfig};
use steam2fs::tree::{Key, Kind, Meta, Tree, TreeError};
use steam2fs::winfs::{filetime, fill_info, status, Status, Steam2WinFs};

// ---- a dump ----

#[derive(Clone)]
struct Memory {
    files: Rc<BTreeMap<String, Vec<u8>>>,
}

impl Backend for Memory {
    fn describe(&self) -> String {
        "memory".to_string()
    }

    fn list_dir(&self, rel: &str) -> Reply<Vec<DirEntry>> {
        let prefix = format!("{rel}/");
        let found: Vec<DirEntry> = self
            .files
            .iter()
            .filter(|(p, _)| p.starts_with(&prefix))
            .map(|(p, v)| DirEntry {
                name: p[prefix.len()..].to_string(),
                size: v.len() as u64,
                is_dir: false,
            })
            .collect();
        if found.is_empty() {
            Err(Trouble::plain(&format!("no directory {rel}")))
        } else {
            Ok(found)
        }
    }

    fn read_at(&self, rel: &str, offset: u64, len: usize) -> Reply<Vec<u8>> {
        let file = self.files.get(rel).ok_or_else(|| Trouble::plain(&format!("no file {rel}")))?;
        let at = (offset as usize).min(file.len());
        Ok(file[at..(at + len).min(file.len())].to_vec())
    }

    fn read_all(&self, rel: &str) -> Reply<Vec<u8>> {
        self.files.get(rel).cloned().ok_or_else(|| Trouble::plain(&format!("no file {rel}")))
    }
}

fn le(v: &[u32]) -> Vec<u8> {
    v.iter().flat_map(|x| x.to_le_bytes()).collect()
}

fn nested(entries: &[(u32, Vec<u8>)]) -> Vec<u8> {
    let mut body = Vec::new();
    for (k, v) in entries {
        body.extend_from_slice(&4u16.to_le_bytes());
        body.extend_from_slice(&(v.len() as u32).to_le_bytes());
        body.extend_from_slice(&k.to_le_bytes());
        body.extend_from_slice(v);
    }
    let mut out = Vec::new();
    out.extend_from_slice(&blob::MAGIC_PLAIN.to_le_bytes());
    out.extend_from_slice(&((body.len() + 10) as u32).to_le_bytes());
    out.extend_from_slice(&0u32.to_le_bytes());
    out.extend_from_slice(&body);
    out
}

fn deflated(plain: &[u8]) -> Vec<u8> {
    let mut z = flate2::write::ZlibEncoder::new(Vec::new(), flate2::Compression::fast());
    std::io::Write::write_all(&mut z, plain).unwrap();
    z.finish().unwrap()
}

fn packed(plain: &[u8]) -> Vec<u8> {
    let z = deflated(plain);
    let mut data = Vec::new();
    data.extend_from_slice(&blob::MAGIC_COMPRESSED.to_le_bytes());
    data.extend_from_slice(&((z.len() + 20) as u64).to_le_bytes());
    data.extend_from_slice(&(plain.len() as u64).to_le_bytes());
    data.extend_from_slice(&9u16.to_le_bytes());
    data.extend_from_slice(&z);
    data
}

fn encrypted(key: &[u8; 16], plain: &[u8]) -> Vec<u8> {
    let mut buf = plain.to_vec();
    cfb_mode::Encryptor::<Aes128>::new(key.into(), &[0u8; 16].into()).encrypt(&mut buf);
    buf
}

fn stored(mode: Mode, key: &[u8; 16], plain: &[u8]) -> Vec<u8> {
    match mode {
        Mode::Plain => plain.to_vec(),
        Mode::Compressed => deflated(plain),
        Mode::Encrypted => encrypted(key, plain),
        Mode::CompressedEncrypted => {
            let body = encrypted(key, &deflated(plain));
            let mut raw = le(&[body.len() as u32, plain.len() as u32]);
            raw.extend_from_slice(&body);
            raw
        }
    }
}

fn number(mode: Mode) -> u32 {
    match mode {
        Mode::Plain => 0,
        Mode::Compressed => 1,
        Mode::CompressedEncrypted => 2,
        Mode::Encrypted => 3,
    }
}

/// A manifest: the root, a directory `sub`, and files in one of the two.
fn manifest_bytes(files: &[(&str, bool, u32, u32)]) -> Vec<u8> {
    let mut names = b"\0sub\0".to_vec();
    let top: Vec<u32> = (0..files.len() as u32)
        .filter(|i| !files[*i as usize].1)
        .map(|i| i + 2)
        .collect();
    let below: Vec<u32> = (0..files.len() as u32)
        .filter(|i| files[*i as usize].1)
        .map(|i| i + 2)
        .collect();
    let next = |list: &[u32], i: u32| {
        let at = list.iter().position(|x| *x == i).unwrap();
        list.get(at + 1).copied().unwrap_or(0)
    };
    let mut nodes = vec![
        [0, top.len() as u32 + 1, NO_FILE, 0, NO_NODE, 0, 1],
        [
            1,
            below.len() as u32,
            NO_FILE,
            0,
            0,
            top.first().copied().unwrap_or(0),
            below.first().copied().unwrap_or(0),
        ],
    ];
    for (i, (name, in_sub, id, size)) in files.iter().enumerate() {
        let at = names.len() as u32;
        names.extend_from_slice(name.as_bytes());
        names.push(0);
        let i = i as u32 + 2;
        let (parent, sibling) = if *in_sub {
            (1, next(&below, i))
        } else {
            (0, next(&top, i))
        };
        nodes.push([at, *size, *id, 0x4000, parent, sibling, 0]);
    }
    let mut buf = vec![0u8; manifest::HEADER_SIZE];
    for n in &nodes {
        buf.extend_from_slice(&le(n));
    }
    buf.extend_from_slice(&names);
    let mut hdr = [0u32; 14];
    hdr[0] = 4;
    hdr[1] = 11;
    hdr[2] = 1;
    hdr[3] = nodes.len() as u32;
    hdr[4] = files.len() as u32;
    hdr[5] = 0x8000;
    hdr[6] = buf.len() as u32;
    hdr[7] = names.len() as u32;
    hdr[12] = 0x1234;
    buf[..56].copy_from_slice(&le(&hdr));
    let sum = manifest::checksum(&buf);
    buf[0x34..0x38].copy_from_slice(&sum.to_le_bytes());
    buf
}

struct Stored {
    id: u32,
    mode: Mode,
    key: [u8; 16],
    plain: Vec<u8>,
}

/// A dat, and the checksum table for it.
fn dat_and_table(files: &[Stored]) -> (Vec<u8>, Vec<u8>) {
    let mut dat = Vec::new();
    let mut blocks = Vec::new();
    let mut body = Vec::new();
    let mut most = 0;
    let offset2 = 0x20 + 0x10 * files.len() as u32;
    for f in files {
        blocks.extend_from_slice(&le(&[f.id, 1, offset2 + body.len() as u32, 0]));
        let pieces: Vec<&[u8]> = f.plain.chunks(0x8000).collect();
        most = most.max(pieces.len() as u32);
        body.extend_from_slice(&le(&[
            f.plain.len() as u32,
            dat.len() as u32,
            number(f.mode) << 24 | pieces.len() as u32,
        ]));
        for p in pieces {
            let raw = stored(f.mode, &f.key, p);
            body.extend_from_slice(&le(&[raw.len() as u32, chunk::checksum(p)]));
            dat.extend_from_slice(&raw);
        }
    }
    let mut table = le(&[
        checksums::MAGIC,
        0,
        files.len() as u32,
        files.len() as u32,
        0x20,
        offset2,
        0x8000,
        most,
    ]);
    table.extend_from_slice(&blocks);
    table.extend_from_slice(&body);
    table.extend_from_slice(&le(&[checksums::MAGIC]));
    (dat, table)
}

/// A version blob, and its crc.
fn version_blob(manifest: &[u8], table: &[u8], dat_crc: u32, prev: Option<(u32, u32)>) -> (Vec<u8>, u32) {
    let (version, crc) = prev.unwrap_or((u32::MAX, 0));
    let with = |own: u32| {
        nested(&[
            (fields::FORMAT, le(&[3])),
            (fields::MANIFEST_FINGERPRINT, le(&[0x1234])),
            (fields::MANIFEST, packed(&nested(&[(0, manifest.to_vec())]))),
            (fields::CHECKSUMS, table.to_vec()),
            (fields::DAT_CRC, le(&[dat_crc])),
            (fields::OWN_CRC, le(&[own])),
            (fields::PREV_VERSION, le(&[version])),
            (fields::PREV_CRC, le(&[crc])),
            (fields::DAT_SIZE, le(&[0])),
        ])
    };
    let own = crc32fast::hash(&with(0));
    (with(own), own)
}

fn sha(b: &[u8]) -> String {
    hex::encode(sha2::Sha256::digest(b))
}

const KEY: [u8; 16] = [5; 16];
const OTHER: [u8; 16] = [6; 16];
const STRANGE: [u8; 16] = [7; 16];

fn long() -> Vec<u8> {
    (0..0x8000 * 2 + 77u32).map(|i| (i * 7 % 251) as u8).collect()
}

struct Dump {
    files: BTreeMap<String, Vec<u8>>,
    dates: String,
}

impl Dump {
    fn new() -> Dump {
        Dump {
            files: BTreeMap::new(),
            dates: String::new(),
        }
    }

    fn version(
        &mut self,
        depot: u32,
        version: u32,
        nodes: &[(&str, bool, u32, u32)],
        files: &[Stored],
        prev: Option<(u32, u32)>,
        with_dat: bool,
    ) -> u32 {
        let (dat, table) = dat_and_table(files);
        let dat_crc = crc32fast::hash(&dat);
        let (bytes, crc) = version_blob(&manifest_bytes(nodes), &table, dat_crc, prev);
        let name = format!("{depot}_{version}_{crc:08x}_{}.blob", sha(&bytes));
        self.dates.push_str(&format!(
            "{name}\t1970-01-{:02}+00:00:00.0000000000\n",
            version + 1
        ));
        self.files.insert(format!("blobs/{name}"), bytes);
        if with_dat {
            self.files.insert(
                format!("dats/{depot}_{version}_{dat_crc:08x}_{}.dat", sha(&dat)),
                dat,
            );
        }
        crc
    }

    fn memory(mut self) -> Memory {
        self.files
            .insert("blobs_dates.txt".to_string(), self.dates.into_bytes());
        Memory {
            files: Rc::new(self.files),
        }
    }
}

fn stored_file(id: u32, mode: Mode, key: [u8; 16], plain: &[u8]) -> Stored {
    Stored {
        id,
        mode,
        key,
        plain: plain.to_vec(),
    }
}

/// Depot 0 has two versions, the second on top of the first; depot 7 has no
/// dat; depot 9 is encrypted with the key of another depot, and depot 10 with
/// one that nobody knows.
fn sample() -> Memory {
    let mut d = Dump::new();
    let first = d.version(
        0,
        1,
        &[("readme.txt", false, 1, 5), ("data.bin", true, 2, 65613)],
        &[
            stored_file(1, Mode::Plain, KEY, b"hello"),
            stored_file(2, Mode::Compressed, KEY, &long()),
        ],
        None,
        true,
    );
    d.version(
        0,
        2,
        &[
            ("readme.txt", false, 3, 7),
            ("data.bin", true, 2, 65613),
            ("secret", true, 4, 9),
            ("sealed", true, 5, 65613),
        ],
        &[
            stored_file(3, Mode::Plain, KEY, b"changed"),
            stored_file(4, Mode::Encrypted, KEY, b"encrypted"),
            stored_file(5, Mode::CompressedEncrypted, KEY, &long()),
        ],
        Some((1, first)),
        true,
    );
    d.version(
        7,
        0,
        &[("gone", false, 1, 4)],
        &[stored_file(1, Mode::Plain, KEY, b"gone")],
        None,
        false,
    );
    d.version(
        9,
        0,
        &[("theirs", false, 1, 6)],
        &[stored_file(1, Mode::Encrypted, OTHER, b"theirs")],
        None,
        true,
    );
    d.version(
        10,
        0,
        &[("nobody", false, 1, 6)],
        &[stored_file(1, Mode::Encrypted, STRANGE, b"nobody")],
        None,
        true,
    );
    d.memory()
}

fn known_keys() -> KeyStore {
    let mut keys = KeyStore::new(vec![(0, KEY), (42, OTHER)]);
    keys.insert(10, [1; 16]);
    keys
}

fn config(key_search: bool) -> StoreConfig {
    StoreConfig {
        raw_cache_bytes: 8 << 20,
        block_cache_bytes: 8 << 20,
        verify: true,
        key_search,
    }
}

fn store_over(memory: Memory) -> Store<Memory> {
    let index = Index::load(&memory).unwrap();
    Store::new(memory, index, known_keys(), config(true))
}

fn store() -> Store<Memory> {
    store_over(sample())
}

fn version(store: &Store<Memory>, depot: u32, name: &str) -> BlobId {
    store
        .index()
        .depot(depot)
        .and_then(|d| d.lookup_name(name))
        .unwrap()
}

// ---- the index and the store ----

#[test]
fn dumps_are_indexed() {
    let index = Index::load(&sample()).unwrap();
    let numbers: Vec<u32> = index.depots().iter().map(|(d, _)| *d).collect();
    assert_eq!(numbers, vec![0, 7, 9, 10]);
    let latest = index.latest(0).unwrap();
    let e = index.blob(latest);
    assert_eq!(e.version, 2);
    assert_eq!(
        e.date,
        Some(Date {
            secs: 2 * 86_400,
            nanos: 0
        })
    );
    assert_eq!(e.sha256.as_ref().map(|s| s.len()), Some(64));
}

#[test]
fn dumps_without_blobs_are_refused() {
    let empty = Memory {
        files: Rc::new(BTreeMap::new()),
    };
    let e = Index::load(&empty).err().unwrap();
    assert_eq!(e.brief, "listing blobs/");
    assert_eq!(e.whole, "listing blobs/: no directory blobs");
}

#[test]
fn versions_are_layered() {
    let mut s = store();
    let (one, two) = (version(&s, 0, "1"), version(&s, 0, "2"));
    assert_eq!(s.parent(two).unwrap(), Some(one));
    assert_eq!(s.parent(one).unwrap(), None);
    assert_eq!(s.chain(two).unwrap(), vec![one, two]);
    let t = s.table(two).unwrap();
    assert_eq!(t.get(2).unwrap().source, one);
    assert_eq!(t.get(3).unwrap().source, two);
    assert!(t.contains(1));
    assert!(!t.contains(99));
    assert!(!s.table(one).unwrap().contains(3));
    assert!(matches!(
        s.locate(one, 3),
        Err(ReadError::MissingRecord(3))
    ));
}

#[test]
fn files_of_every_mode_are_read() {
    let mut s = store();
    let two = version(&s, 0, "2");
    for (id, want) in [
        (1, b"hello".to_vec()),
        (2, long()),
        (3, b"changed".to_vec()),
        (4, b"encrypted".to_vec()),
        (5, long()),
    ] {
        let loc = s.locate(two, id).unwrap();
        assert_eq!(s.read(&loc, 0, usize::MAX).unwrap(), want, "file {id}");
        assert_eq!(s.read(&loc, want.len() as u64, 10).unwrap(), Vec::<u8>::new());
        assert_eq!(s.read(&loc, 1, 3).unwrap(), &want[1..4]);
    }
    let (raw, blocks) = s.cache_stats();
    assert!(raw > 0 && blocks > 0);
}

#[test]
fn blocks_past_the_end_are_refused() {
    let mut s = store();
    let two = version(&s, 0, "2");
    let loc = s.locate(two, 2).unwrap();
    assert_eq!(s.block(&loc, 2).unwrap().len(), 77);
    let e = s.block(&loc, 3).unwrap_err();
    assert_eq!(e.message(), "file id 2 has no block 3 (it has 3)");
    assert_eq!(e.class(), ErrorClass::Io);
}

#[test]
fn missing_dats_are_named() {
    let mut s = store();
    let id = version(&s, 7, "0");
    let loc = s.locate(id, 1).unwrap();
    let e = s.read(&loc, 0, 4).unwrap_err();
    assert_eq!(
        e.message(),
        format!(
            "dat file for depot 7 version 0 crc {:08x} is not in the dump",
            crc32fast::hash(b"gone")
        )
    );
    assert_eq!(e.class(), ErrorClass::Missing);
    let numbers = Errnos {
        missing: 1,
        no_key: 2,
        io: 3,
        bad_data: 4,
    };
    assert_eq!(e.errno(&numbers), 1);
    assert_eq!(ReadError::NoKey(1).errno(&numbers), 2);
    assert_eq!(ReadError::Other(Trouble::plain("x")).errno(&numbers), 3);
}

#[test]
fn damaged_blocks_fail_their_checksum() {
    let clean = sample();
    let mut files = (*clean.files).clone();
    for (name, bytes) in files.iter_mut() {
        if name.starts_with("dats/0_1_") {
            bytes[0] ^= 1;
        }
    }
    let mut s = store_over(Memory {
        files: Rc::new(files),
    });
    let one = version(&s, 0, "1");
    let loc = s.locate(one, 1).unwrap();
    assert!(matches!(
        s.read(&loc, 0, 5),
        Err(ReadError::Checksum {
            file_id: 1,
            block: 0,
            ..
        })
    ));
}

#[test]
fn truncated_dats_are_short_reads() {
    let clean = sample();
    let mut files = (*clean.files).clone();
    for (name, bytes) in files.iter_mut() {
        if name.starts_with("dats/0_1_") {
            bytes.truncate(3);
        }
    }
    let mut s = store_over(Memory {
        files: Rc::new(files),
    });
    let one = version(&s, 0, "1");
    let loc = s.locate(one, 1).unwrap();
    assert_eq!(
        s.read(&loc, 0, 5).unwrap_err().message(),
        "block 0 of file id 1: short read from dat (3 of 5 bytes)"
    );
}

#[test]
fn keys_are_resolved() {
    let mut s = store();
    assert_eq!(s.key_for(0), Some(KEY));
    assert_eq!(s.key_for(9), None);
    let two = version(&s, 0, "2");
    let loc = s.locate(two, 4).unwrap();
    assert_eq!(s.probe_key(&loc).unwrap(), KeyResolution::Configured(KEY));
    let theirs = version(&s, 9, "0");
    let loc = s.locate(theirs, 1).unwrap();
    assert_eq!(
        s.probe_key(&loc).unwrap(),
        KeyResolution::Discovered(OTHER, 42)
    );
    assert_eq!(s.read(&loc, 0, 6).unwrap(), b"theirs");
    let nobody = version(&s, 10, "0");
    let loc = s.locate(nobody, 1).unwrap();
    assert_eq!(
        s.probe_key(&loc).unwrap(),
        KeyResolution::Nothing { tried: 3 }
    );
    assert_eq!(
        s.read(&loc, 0, 6).unwrap_err().class(),
        ErrorClass::NoKey
    );
}

#[test]
fn keys_are_not_searched_for_when_not_wanted() {
    let memory = sample();
    let index = Index::load(&memory).unwrap();
    let mut s = Store::new(memory, index, known_keys(), config(false));
    let theirs = version(&s, 9, "0");
    let loc = s.locate(theirs, 1).unwrap();
    assert!(s.read(&loc, 0, 6).is_err());
}

#[test]
fn blobs_are_held_to_their_names() {
    let memory = sample();
    let index = Index::load(&memory).unwrap();
    let id = index.latest(0).unwrap();
    let entry = index.blob(id);
    let good = memory.read_all(&entry.path).unwrap();
    assert_eq!(check_contents(entry, &good), None);
    let mut bad = good.clone();
    bad[100] ^= 1;
    assert!(check_contents(entry, &bad)
        .unwrap()
        .ends_with(" does not match its name"));
    assert!(parse_blob(&good).is_ok());
    assert!(parse_blob(&bad).is_err());

    // A name without a full hash falls back to the size, and a kept copy has
    // to parse as well.
    let plain = BlobEntry {
        path: String::new(),
        file_name: "x.blob".to_string(),
        depot: 0,
        version: 0,
        crc: 0,
        size: good.len() as u64,
        date: None,
        sha256: None,
    };
    assert_eq!(check_contents(&plain, &bad), None);
    assert_eq!(
        check_contents(&plain, &good[1..]).unwrap(),
        format!("x.blob: {} bytes, expected {}", good.len() - 1, good.len())
    );
    assert_eq!(check_kept(&plain, &good), None);
    assert_eq!(check_kept(&plain, &bad).unwrap(), "x.blob: did not parse");
    assert_eq!(
        check_kept(&plain, &good[1..]).unwrap(),
        format!("x.blob: {} bytes, expected {}", good.len() - 1, good.len())
    );

    // Where the name carries the hash, how far a copy is off stands behind it.
    assert_eq!(check_kept(entry, &good), None);
    let off = |b: &[u8]| format!("{}: sha256 {} does not match its name", entry.file_name, sha(b));
    assert_eq!(
        check_kept(entry, &bad).unwrap(),
        format!("{}, did not parse", off(&bad))
    );
    let short = &good[..good.len() / 2];
    assert_eq!(
        check_kept(entry, short).unwrap(),
        format!("{}, {} bytes, expected {}", off(short), short.len(), good.len())
    );
    let renamed = BlobEntry {
        file_name: "y.blob".to_string(),
        sha256: Some("0".repeat(64)),
        ..plain
    };
    assert_eq!(
        check_kept(&renamed, &good).unwrap(),
        format!("y.blob: sha256 {} does not match its name", sha(&good))
    );

    let mut files = (*memory.files).clone();
    files.insert(entry.path.clone(), bad);
    let mut s = store_over(Memory {
        files: Rc::new(files),
    });
    assert!(s.parsed(id).is_err());
    assert!(s.blob_bytes(id).is_err());
}

// ---- the tree ----

fn tree() -> Tree<Memory> {
    Tree::new(store())
}

/// Every name a directory lists must be findable by that name, and land
/// on the same key, all the way down a version's tree.
#[test]
fn listings_and_lookups_agree() {
    let mut tree = tree();
    let mut stack = vec![Key::Root];
    let mut files = 0;
    let mut dirs = 0;
    while let Some(key) = stack.pop() {
        let Ok(entries) = tree.entries(key) else {
            continue;
        };
        dirs += 1;
        for e in entries {
            assert_eq!(
                tree.lookup(key, &e.name).unwrap(),
                Some(e.key),
                "{:?} in {key:?} does not look up to itself",
                String::from_utf8_lossy(&e.name)
            );
            let meta = tree.meta(e.key).unwrap();
            assert_eq!(meta.kind, e.kind);
            match e.kind {
                Kind::Dir => stack.push(e.key),
                Kind::File => files += 1,
                Kind::Symlink => {
                    assert!(tree.link_target(e.key).is_some());
                }
            }
            // Only `..` climbs out of a subtree, and we never list it.
            if !matches!(e.key, Key::Depot(_)) {
                assert_ne!(tree.parent(e.key), e.key);
            }
        }
    }
    assert!(dirs > 1 && files > 0, "the sample dump listed nothing");
}

/// A file's bytes are the same read whole or in pieces.
#[test]
fn reads_are_stable_across_offsets() {
    let mut tree = tree();
    let blob = tree
        .store
        .index()
        .depot(0)
        .and_then(|d| d.lookup_name("2"))
        .expect("sample depot 0 version 2");
    let mut stack = vec![Key::Version(blob)];
    let mut checked = 0;
    while let Some(key) = stack.pop() {
        for e in tree.entries(key).unwrap() {
            match e.kind {
                Kind::Dir => stack.push(e.key),
                Kind::File if checked < 4 => {
                    let Ok(loc) = tree.locate(e.key) else {
                        continue;
                    };
                    let size = loc.record.size.min(4096) as usize;
                    if size < 2 {
                        continue;
                    }
                    let whole = tree.read(&loc, 0, size).unwrap();
                    let head = tree.read(&loc, 0, size / 2).unwrap();
                    let tail = tree.read(&loc, size as u64 / 2, size - size / 2).unwrap();
                    assert_eq!(whole, [head, tail].concat());
                    checked += 1;
                }
                _ => {}
            }
        }
    }
    assert!(checked > 0, "no readable file in depot 0 version 2");
}

fn names(tree: &mut Tree<Memory>, key: Key) -> Vec<String> {
    tree.entries(key)
        .unwrap()
        .into_iter()
        .map(|e| String::from_utf8(e.name).unwrap())
        .collect()
}

#[test]
fn directories_list_what_they_hold() {
    let mut t = tree();
    assert_eq!(names(&mut t, Key::Root), vec!["0", "7", "9", "10"]);
    assert_eq!(
        names(&mut t, Key::Depot(0)),
        vec!["1", "2", "latest", "by-date"]
    );
    assert_eq!(
        names(&mut t, Key::ByDate(0)),
        vec!["1970-01-02T00-00-00_v1", "1970-01-03T00-00-00_v2"]
    );
    assert!(names(&mut t, Key::Depot(5)).is_empty());
    assert!(names(&mut t, Key::ByDate(5)).is_empty());
    let two = version(&t.store, 0, "2");
    assert_eq!(names(&mut t, Key::Version(two)), vec!["sub", "readme.txt"]);
    assert_eq!(
        names(&mut t, Key::Node(two, 1)),
        vec!["data.bin", "secret", "sealed"]
    );
    for key in [Key::Latest(0), Key::DateLink(two), Key::Node(two, 2), Key::Node(two, 99)] {
        assert!(matches!(t.entries(key), Err(TreeError::NotADirectory)));
    }
    assert_eq!(
        TreeError::NotADirectory.message(),
        "not a directory"
    );
    assert_eq!(TreeError::NotFound.message(), "no such entry");
}

#[test]
fn lookups_find_only_what_is_there() {
    let mut t = tree();
    let two = version(&t.store, 0, "2");
    assert_eq!(t.lookup(Key::Root, b"0").unwrap(), Some(Key::Depot(0)));
    assert_eq!(t.lookup(Key::Root, b"+7").unwrap(), Some(Key::Depot(7)));
    assert_eq!(t.lookup(Key::Root, b"8").unwrap(), None);
    assert_eq!(t.lookup(Key::Root, b"\xff").unwrap(), None);
    assert_eq!(t.lookup(Key::Root, b"7\xff").unwrap(), None);
    assert_eq!(t.lookup(Key::Depot(0), b"latest\xc3").unwrap(), None);
    assert_eq!(
        t.lookup(Key::Depot(0), b"latest").unwrap(),
        Some(Key::Latest(0))
    );
    assert_eq!(t.lookup(Key::Depot(5), b"latest").unwrap(), None);
    assert_eq!(
        t.lookup(Key::Depot(5), b"by-date").unwrap(),
        Some(Key::ByDate(5))
    );
    assert_eq!(
        t.lookup(Key::Depot(0), b"2").unwrap(),
        Some(Key::Version(two))
    );
    assert_eq!(t.lookup(Key::Latest(0), b"x").unwrap(), None);
    assert_eq!(
        t.lookup(Key::Version(two), b"readme.txt").unwrap(),
        Some(Key::Node(two, 2))
    );
    assert_eq!(t.lookup(Key::Node(two, 1), b"readme.txt").unwrap(), None);
}

#[test]
fn metadata_follows_the_version_that_changed_a_file() {
    let mut t = tree();
    let two = version(&t.store, 0, "2");
    let day = |n: u64| Date {
        secs: n * 86_400,
        nanos: 0,
    };
    let dir = |mtime| Meta {
        kind: Kind::Dir,
        size: 0,
        mtime,
    };
    assert_eq!(t.meta(Key::Root).unwrap(), dir(day(0)));
    assert_eq!(t.meta(Key::Depot(0)).unwrap(), dir(day(2)));
    assert_eq!(t.meta(Key::ByDate(0)).unwrap(), dir(day(0)));
    assert_eq!(t.meta(Key::Version(two)).unwrap(), dir(day(2)));
    assert_eq!(t.meta(Key::Node(two, 1)).unwrap(), dir(day(2)));
    // `data.bin` was last changed by version 1.
    assert_eq!(
        t.meta(Key::Node(two, 3)).unwrap(),
        Meta {
            kind: Kind::File,
            size: long().len() as u64,
            mtime: day(1)
        }
    );
    assert_eq!(
        t.meta(Key::Latest(0)).unwrap(),
        Meta {
            kind: Kind::Symlink,
            size: 1,
            mtime: day(2)
        }
    );
    assert_eq!(t.meta(Key::DateLink(two)).unwrap().size, 4);
    assert_eq!(t.link_target(Key::Latest(0)).unwrap(), "2");
    assert_eq!(t.link_target(Key::DateLink(two)).unwrap(), "../2");
    assert_eq!(t.link_target(Key::Root), None);
    assert!(matches!(
        t.meta(Key::Latest(5)),
        Err(TreeError::NotFound)
    ));
    assert_eq!(t.parent(Key::Version(two)), Key::Depot(0));
    assert_eq!(t.parent(Key::Node(two, 3)), Key::Node(two, 1));
    assert_eq!(t.parent(Key::Node(two, 2)), Key::Version(two));
    assert_eq!(t.parent(Key::Root), Key::Root);
    assert_eq!(t.parent(Key::Depot(7)), Key::Root);
    assert_eq!(t.parent(Key::Latest(0)), Key::Depot(0));
    assert_eq!(t.parent(Key::ByDate(0)), Key::Depot(0));
    assert_eq!(t.parent(Key::DateLink(two)), Key::ByDate(0));
    assert!(matches!(t.locate(Key::Root), Err(TreeError::NotFound)));
    assert!(matches!(
        t.locate(Key::Node(two, 1)),
        Err(TreeError::NotFound)
    ));
}

#[test]
fn attributes_tell_what_is_known() {
    let mut t = tree();
    let two = version(&t.store, 0, "2");
    let depot = t.xattrs(Key::Depot(7));
    assert_eq!(depot, vec![("user.steam2.depot", "7".to_string())]);
    assert!(t.xattrs(Key::Root).is_empty());
    let attrs: BTreeMap<&str, String> = t.xattrs(Key::Node(two, 3)).into_iter().collect();
    assert_eq!(attrs["user.steam2.version"], "2");
    assert_eq!(attrs["user.steam2.date"], "1970-01-03T00-00-00");
    assert_eq!(attrs["user.steam2.app_id"], "11");
    assert!(attrs["user.steam2.parent"].starts_with("1-"));
    assert_eq!(attrs["user.steam2.flags"], "0x4000");
    assert_eq!(attrs["user.steam2.flags_decoded"], "file");
    assert_eq!(attrs["user.steam2.file_id"], "2");
    assert_eq!(attrs["user.steam2.mode"], "Compressed");
    assert_eq!(attrs["user.steam2.source_version"], "1");
    assert_eq!(attrs["user.steam2.blocks"], "3");
    assert_eq!(attrs["user.steam2.dat_offset"], "5");
    let gone = version(&t.store, 7, "0");
    let attrs: BTreeMap<&str, String> = t.xattrs(Key::Node(gone, 2)).into_iter().collect();
    assert_eq!(attrs["user.steam2.dat"], "missing");
    assert!(!attrs.contains_key("user.steam2.parent"));
}

// ---- the frontends ----

#[test]
fn inodes_stay_with_their_keys() {
    let mut fs = Steam2Fs::new(store(), 1000, 100);
    assert_eq!(fs.key(1), Some(Key::Root));
    assert_eq!(fs.key(0), None);
    assert_eq!(fs.key(2), None);
    let a = fs.ino(Key::Depot(0));
    let b = fs.ino(Key::Depot(7));
    assert_eq!((a, b), (2, 3));
    assert_eq!(fs.ino(Key::Depot(0)), 2);
    assert_eq!(fs.key(3), Some(Key::Depot(7)));
}

#[test]
fn attributes_are_read_only() {
    let meta = |kind, size| Meta {
        kind,
        size,
        mtime: Date { secs: 9, nanos: 0 },
    };
    let d = attr(1, meta(Kind::Dir, 0), 3, 4);
    assert_eq!((d.perm, d.nlink, d.blocks), (0o555, 2, 0));
    assert_eq!((d.uid, d.gid, d.blksize), (3, 4, 65536));
    let f = attr(1, meta(Kind::File, 513), 3, 4);
    assert_eq!((f.perm, f.nlink, f.blocks), (0o444, 1, 2));
    let l = attr(1, meta(Kind::Symlink, 512), 3, 4);
    assert_eq!((l.perm, l.nlink, l.blocks), (0o777, 1, 1));
}

fn walk(fs: &mut Steam2Fs<Memory>, path: &[&str]) -> u64 {
    let mut ino = 1;
    for name in path {
        ino = fs.lookup(ino, name.as_bytes()).unwrap().ino;
    }
    ino
}

#[test]
fn the_kernel_walks_lists_and_reads() {
    let mut fs = Steam2Fs::new(store(), 0, 0);
    let file = walk(&mut fs, &["0", "2", "sub", "data.bin"]);
    let attr = fs.getattr(file).unwrap();
    assert_eq!(attr.size, long().len() as u64);
    assert!(fs.open(file).is_ok());
    assert_eq!(fs.read(file, 0x7ffe, 5).unwrap(), &long()[0x7ffe..0x8003]);
    assert!(matches!(fs.open(1), Err(FsError::IsADirectory)));
    assert!(matches!(fs.open(999), Err(FsError::NoEntry)));
    assert!(matches!(fs.getattr(999), Err(FsError::NoEntry)));
    assert!(matches!(fs.lookup(1, b"nope"), Err(FsError::NoEntry)));
    assert!(matches!(fs.lookup(999, b"0"), Err(FsError::NoEntry)));
    assert!(matches!(fs.read(999, 0, 1), Err(FsError::NoEntry)));
    match fs.read(1, 0, 1) {
        Err(FsError::Read(e)) => assert_eq!(e.message(), "not a file"),
        _ => panic!("read a directory"),
    }
    let link = walk(&mut fs, &["0", "latest"]);
    assert_eq!(fs.readlink(link).unwrap(), "2");
    assert!(matches!(fs.readlink(1), Err(FsError::Invalid)));
    assert!(matches!(fs.readlink(999), Err(FsError::Invalid)));
    assert_eq!(fs.files(), 5);
}

#[test]
fn directories_are_opened_paged_and_released() {
    let mut fs = Steam2Fs::new(store(), 0, 0);
    let depot = walk(&mut fs, &["0"]);
    let h = fs.opendir(depot).unwrap();
    assert_eq!(h, 1);
    let list = fs.dir_list(depot, h).unwrap();
    let shown: Vec<&[u8]> = list.iter().map(|e| e.name.as_slice()).collect();
    assert_eq!(
        shown,
        vec![&b"."[..], b"..", b"1", b"2", b"latest", b"by-date"]
    );
    let first = fs.entry(&list, 0).unwrap();
    assert_eq!((first.ino, first.next, first.name), (depot, 1, &b"."[..]));
    let second = fs.entry(&list, 1).unwrap();
    assert_eq!((second.ino, second.next), (1, 2));
    assert!(fs.entry(&list, 6).is_none());
    let e = &list[4];
    let a = fs.entry_attr(e);
    assert_eq!((a.kind, a.size), (Kind::Symlink, 1));
    fs.releasedir(h);
    // A directory that was not opened is listed all the same.
    assert_eq!(fs.dir_list(depot, h).unwrap().len(), 6);
    assert_eq!(fs.opendir(depot).unwrap(), 2);
    assert!(matches!(fs.opendir(999), Err(FsError::NoEntry)));
    assert!(matches!(fs.dir_list(999, 77), Err(FsError::NoEntry)));
    let link = walk(&mut fs, &["0", "latest"]);
    assert!(matches!(fs.opendir(link), Err(FsError::NotADirectory)));
    // The directory above `by-date` is its depot.
    let dates = walk(&mut fs, &["0", "by-date"]);
    let h = fs.opendir(dates).unwrap();
    let list = fs.dir_list(dates, h).unwrap();
    assert_eq!(fs.entry(&list, 1).unwrap().ino, depot);
}

#[test]
fn extended_attributes_are_sized() {
    let mut fs = Steam2Fs::new(store(), 0, 0);
    let depot = walk(&mut fs, &["7"]);
    assert!(matches!(
        fs.getxattr(depot, b"user.steam2.depot", 0),
        Ok(XattrReply::Size(1))
    ));
    match fs.getxattr(depot, b"user.steam2.depot", 1) {
        Ok(XattrReply::Data(d)) => assert_eq!(d, b"7"),
        _ => panic!("no value"),
    }
    let two = walk(&mut fs, &["0", "2"]);
    assert!(matches!(
        fs.getxattr(two, b"user.steam2.date", 3),
        Err(FsError::Range)
    ));
    assert!(matches!(
        fs.getxattr(two, b"user.steam2.nope", 0),
        Err(FsError::NoData)
    ));
    assert!(matches!(
        fs.getxattr(two, b"security.selinux", 0),
        Err(FsError::NoData)
    ));
    assert!(matches!(
        fs.getxattr(999, b"user.steam2.depot", 0),
        Err(FsError::NoEntry)
    ));
    match fs.listxattr(depot, 100) {
        Ok(XattrReply::Data(d)) => assert_eq!(d, b"user.steam2.depot\0"),
        _ => panic!("no names"),
    }
    assert!(matches!(fs.listxattr(depot, 0), Ok(XattrReply::Size(18))));
    assert!(matches!(fs.listxattr(depot, 5), Err(FsError::Range)));
    assert!(matches!(fs.listxattr(999, 5), Err(FsError::NoEntry)));
}

#[test]
fn windows_paths_are_resolved() {
    let mut fs = Steam2WinFs::new(store());
    let two = version(&fs.tree.store, 0, "2");
    assert_eq!(fs.resolve_path("\\").unwrap(), Key::Root);
    assert_eq!(fs.resolve_path("\\0\\latest").unwrap(), Key::Version(two));
    assert_eq!(
        fs.resolve_path("\\0\\LATEST\\SUB\\Data.BIN").unwrap(),
        Key::Node(two, 3)
    );
    assert_eq!(
        fs.resolve_path("\\0\\by-date\\1970-01-03T00-00-00_v2\\readme.txt")
            .unwrap(),
        Key::Node(two, 2)
    );
    assert_eq!(
        fs.resolve_path("\\0\\.\\2\\sub\\..\\readme.txt").unwrap(),
        Key::Node(two, 2)
    );
    assert_eq!(
        fs.resolve_path("\\0\\by-date\\..\\2").unwrap(),
        Key::Version(two)
    );
    assert!(matches!(
        fs.resolve_path("\\0\\nope"),
        Err(TreeError::NotFound)
    ));
    let (key, meta) = fs.open("\\0\\2\\sub").unwrap();
    assert_eq!((key, meta.kind), (Key::Node(two, 1), Kind::Dir));
    assert_eq!(fs.open("\\zero").unwrap_err(), Status::NameNotFound);
    let lines = fs.read_directory(key, Kind::Dir).unwrap();
    let shown: Vec<&str> = lines.iter().map(|(n, _)| n.as_str()).collect();
    assert_eq!(shown, vec![".", "..", "data.bin", "secret", "sealed"]);
    let root = fs.read_directory(Key::Root, Kind::Dir).unwrap();
    assert_eq!(root.len(), 4);
    let depot = fs.read_directory(Key::Depot(0), Kind::Dir).unwrap();
    assert_eq!((depot[4].0.as_str(), depot[4].1.kind), ("latest", Kind::Dir));
    assert_eq!(
        fs.read_directory(key, Kind::File).unwrap_err(),
        Status::NotADirectory
    );
}

#[test]
fn windows_reads_stop_at_the_end() {
    let mut fs = Steam2WinFs::new(store());
    let two = version(&fs.tree.store, 0, "2");
    let file = Key::Node(two, 2);
    assert_eq!(fs.read(file, 100, 0).unwrap(), b"changed");
    assert_eq!(fs.read(file, 3, 4).unwrap(), b"ged");
    assert_eq!(fs.read(file, 0, 4).unwrap(), b"");
    assert_eq!(fs.read(file, 3, 7).unwrap_err(), Status::EndOfFile);
    assert_eq!(fs.read(Key::Root, 3, 0).unwrap_err(), Status::NameNotFound);
    let gone = version(&fs.tree.store, 7, "0");
    assert_eq!(
        fs.read(Key::Node(gone, 2), 3, 0).unwrap_err(),
        Status::FileInvalid
    );
    let nobody = version(&fs.tree.store, 10, "0");
    assert_eq!(
        fs.read(Key::Node(nobody, 2), 3, 0).unwrap_err(),
        Status::AccessDenied
    );
    let info = fs.get_file_info(file).unwrap();
    assert_eq!((info.attributes, info.file_size, info.allocation_size), (1, 7, 512));
}

#[test]
fn windows_counts_in_ticks() {
    assert_eq!(
        filetime(Date { secs: 0, nanos: 0 }),
        116_444_736_000_000_000
    );
    assert_eq!(
        filetime(Date { secs: 1, nanos: 250 }),
        116_444_736_010_000_002
    );
    assert_eq!(
        filetime(Date {
            secs: u64::MAX,
            nanos: 0
        }),
        u64::MAX
    );
    let info = fill_info(&Meta {
        kind: Kind::Symlink,
        size: 513,
        mtime: Date { secs: 0, nanos: 0 },
    });
    assert_eq!((info.attributes, info.allocation_size), (17, 1024));
    assert_eq!(
        status(&TreeError::Read(ReadError::Other(Trouble::plain("x")))),
        Status::IoDevice
    );
    assert_eq!(status(&TreeError::NotADirectory), Status::NotADirectory);
}

// ---- the commands ----

#[test]
fn versions_are_verified() {
    let mut s = store();
    let mut out = Vec::new();
    verify(&mut s, 0, "2", &mut out).unwrap();
    assert_eq!(out, vec!["4 files, 8 blocks read, 0 failures"]);
    let mut out = Vec::new();
    let e = verify(&mut s, 7, "0", &mut out).unwrap_err();
    assert_eq!(e.message(), "1 files failed verification");
    assert_eq!(out.len(), 2);
    assert!(out[0].starts_with("FAIL  gone: dat file for depot 7"));
    assert!(out[0].ends_with("is not in the dump"));
    assert_eq!(out[1], "1 files, 1 blocks read, 1 failures");
    let mut out = Vec::new();
    let e = verify(&mut s, 0, "999", &mut out).unwrap_err();
    assert_eq!(e.message(), "depot 0 has no version \"999\"");
    assert!(out.is_empty());
    assert!(matches!(
        resolve_version(s.index(), 5, "1"),
        Err(CommandError::NoDepot(5))
    ));
}

#[test]
fn depots_are_inspected() {
    let mut s = store();
    let mut out = Vec::new();
    inspect(&mut s, 0, None, false, &mut out).unwrap();
    assert_eq!(out[0], "depot 0: 2 blobs, key known");
    assert_eq!(out.len(), 3);
    assert!(out[1].starts_with("  1              1970-01-02T00-00-00  dat "));
    assert!(out[1].ends_with(" bytes"));
    let mut out = Vec::new();
    inspect(&mut s, 7, None, false, &mut out).unwrap();
    assert_eq!(out[0], "depot 7: 1 blobs, key UNKNOWN");
    assert!(out[1].ends_with(" MISSING"));
    let mut out = Vec::new();
    let e = inspect(&mut s, 5, None, false, &mut out).unwrap_err();
    assert_eq!(e.message(), "depot 5 is not in the dump");
    assert!(out.is_empty());
}

#[test]
fn versions_are_inspected() {
    let mut s = store();
    let mut out = Vec::new();
    inspect(&mut s, 0, Some("2"), true, &mut out).unwrap();
    assert_eq!(out[1], "chain (2 versions, root first):");
    assert!(out[2].starts_with("  v1     blob "));
    assert!(out[2].contains(" prev -                dat "));
    assert!(out[2].contains(" ok         manifest app 11 ver 1 nodes 4 records 2"));
    assert!(out[3].starts_with("  v2     blob "));
    assert_eq!(
        out[4],
        "version 2: 4 files, 4 with records, 4 with a dat present"
    );
    assert_eq!(
        out[6],
        "  sub/data.bin  id 2 Compressed 65613 bytes, 3 blocks, from v1 "
    );
    assert_eq!(out.len(), 9);
    let mut out = Vec::new();
    inspect(&mut s, 7, Some("0"), true, &mut out).unwrap();
    assert!(out[2].contains(" MISSING    manifest "));
    assert_eq!(out[4], "  gone  id 1 Plain 4 bytes, 1 blocks, from v0 (dat missing)");
    let mut out = Vec::new();
    assert!(inspect(&mut s, 0, Some("3"), false, &mut out).is_err());
    assert_eq!(out.len(), 1);
}

#[test]
fn keys_are_audited() {
    let mut s = store();
    let t = key_audit(&mut s, None);
    assert_eq!(
        t.summary(),
        "3 blobs with encrypted files: 1 decrypt with the configured key, \
         1 with another depot's key, 1 with no known key, 0 unreadable"
    );
    let lines = sorted_lines(&t.lines);
    assert_eq!(lines.len(), 2);
    assert!(lines[0].starts_with("DISCOVERED 9_0_"));
    assert!(lines[0].ends_with(" <- depot 42's key"));
    assert!(lines[1].starts_with("NO KEY 10_0_"));
    assert!(lines[1].ends_with(" (tried 3)"));
    assert_eq!(wrote_line(1, "k.txt"), "wrote 1 discovered keys to k.txt");

    // What was written down gives the blob its key.
    let mut keys = KeyStore::new(Vec::new());
    let written = keys_file(&t.found);
    assert_eq!(written, format!("{}\n", t.found[0]));
    keys.load_text(&written).unwrap();
    assert_eq!(keys_file(&Vec::new()), "");
    let theirs = version(&s, 9, "0");
    let crc = s.index().blob(theirs).crc;
    assert_eq!(keys.get_for_blob(9, crc), Some(OTHER));
    assert_eq!(keys.get(9), None);

    assert_eq!(audit_list(s.index(), Some(9)), vec![theirs]);
    assert!(audit_list(s.index(), Some(5)).is_empty());
    let one = version(&s, 0, "1");
    assert!(matches!(audit_blob(&mut s, one), Audit::Clear));
}

// ---- laws on the dump ----

/// Every entry that a directory lists has that directory for its parent.
#[test]
fn entries_live_in_the_directory_that_lists_them() {
    let mut tree = tree();
    let mut stack = vec![Key::Root];
    let mut seen = 0;
    while let Some(key) = stack.pop() {
        for e in tree.entries(key).unwrap() {
            assert_eq!(tree.parent(e.key), key, "{:?}", e.key);
            seen += 1;
            if e.kind == Kind::Dir {
                stack.push(e.key);
            }
        }
    }
    assert!(seen > 20);
}

/// A name finds what is listed under it, and nothing where nothing is.
#[test]
fn lookups_find_what_is_listed_and_nothing_else() {
    let mut tree = tree();
    let two = version(&tree.store, 0, "2");
    let dirs = [
        Key::Root,
        Key::Depot(0),
        Key::ByDate(0),
        Key::Version(two),
        Key::Node(two, 1),
    ];
    let tried = [
        "0", "1", "2", "7", "8", "latest", "by-date", "sub", "readme.txt", "data.bin", "sealed",
        "1970-01-03T00-00-00_v2", "Latest", "",
    ];
    for dir in dirs {
        let listed = tree.entries(dir).unwrap();
        let texts = tried.iter().map(|n| n.as_bytes());
        for name in texts.chain([&b"\xff"[..], b"latest\xff", b"\xc30", b"sub\x80"]) {
            let found = tree.lookup(dir, name).unwrap();
            let expected = listed.iter().find(|e| e.name == name).map(|e| e.key);
            assert_eq!(found, expected, "{name:?} in {dir:?}");
            if let Some(e) = listed.iter().find(|e| e.name == name) {
                assert_eq!(tree.meta(e.key).unwrap().kind, e.kind);
            }
        }
    }
}

/// Where two reads that follow each other succeed, so does the read of both.
#[test]
fn parts_make_the_whole() {
    let mut s = store();
    let two = version(&s, 0, "2");
    for file in [2, 5] {
        let loc = s.locate(two, file).unwrap();
        let size = loc.record.size as usize;
        for (start, middle, end) in [(0, 1, size), (5, 0x8000, 0x8001), (100, 0x9000, size)] {
            let head = s.read(&loc, start as u64, middle - start).unwrap();
            let tail = s.read(&loc, middle as u64, end - middle).unwrap();
            let whole = s.read(&loc, start as u64, end - start).unwrap();
            assert_eq!(whole, [head, tail].concat());
            assert_eq!(whole, long()[start..end]);
        }
    }
}

/// Decoded blocks are kept, but for plain ones, and as far as there is room.
#[test]
fn decoded_blocks_are_kept() {
    let mut s = store();
    let two = version(&s, 0, "2");
    let plain = s.locate(two, 3).unwrap();
    s.read(&plain, 0, 7).unwrap();
    assert_eq!(s.cache_stats().1, 0);
    let packed_file = s.locate(two, 2).unwrap();
    let b = s.block(&packed_file, 0).unwrap();
    assert_eq!(b.len(), 0x8000);
    assert_eq!(s.cache_stats().1, 0x8000);
    let again = s.block(&packed_file, 0).unwrap();
    assert!(std::sync::Arc::ptr_eq(&b, &again));
    let p = s.parsed(two).unwrap();
    assert!(std::sync::Arc::ptr_eq(&p, &s.parsed(two).unwrap()));
    let t = s.table(two).unwrap();
    assert!(std::sync::Arc::ptr_eq(&t, &s.table(two).unwrap()));

    let memory = sample();
    let index = Index::load(&memory).unwrap();
    let small = StoreConfig {
        block_cache_bytes: 0x8000 + 77,
        ..config(true)
    };
    let mut s = Store::new(memory, index, known_keys(), small);
    let loc = s.locate(two, 2).unwrap();
    let size = loc.record.size as usize;
    s.read(&loc, 0, size).unwrap();
    // The last block and the one before it fit; the first had to leave.
    assert_eq!(s.cache_stats().1, 0x8000 + 77);
}

/// A blob that does not parse is named, and why behind that.
#[test]
fn failures_are_told_in_brief_and_as_a_whole() {
    let mut d = Dump::new();
    let junk = b"no blob".to_vec();
    let name = format!("3_0_00000001_{}.blob", sha(&junk));
    d.files.insert(format!("blobs/{name}"), junk);
    d.version(4, 0, &[], &[], None, true);
    let mut s = store_over(d.memory());
    let id = version(&s, 3, "0");
    let e = s.parsed(id).err().unwrap();
    assert_eq!(e.message(), format!("parsing {name}"));
    let whole = e.whole_message();
    assert!(whole.starts_with(&format!("parsing {name}: ")));
    assert!(whole.len() > e.message().len() + 2);
    assert_eq!(TreeError::Read(e).message(), format!("parsing {name}"));
    match audit_blob(&mut s, id) {
        Audit::Unreadable { line, encrypted } => {
            assert!(!encrypted);
            assert_eq!(line, format!("UNREADABLE {name}: {whole}"));
        }
        other => panic!("{other:?}"),
    }
    let mut out = Vec::new();
    let failed = verify(&mut s, 3, "0", &mut out).unwrap_err();
    assert_eq!(failed.message(), whole);
    let e = ReadError::NoKey(3);
    assert_eq!(e.whole_message(), e.message());
}

/// Where the encrypted file of a blob cannot be tried, that is told in brief.
#[test]
fn audits_tell_in_brief_what_could_not_be_tried() {
    let clean = sample();
    let mut files = (*clean.files).clone();
    files.retain(|name, _| !name.starts_with("dats/9_"));
    let mut s = store_over(Memory {
        files: Rc::new(files),
    });
    let theirs = version(&s, 9, "0");
    match audit_blob(&mut s, theirs) {
        Audit::Unreadable { line, encrypted } => {
            assert!(encrypted);
            assert!(line.contains(".blob: dat file for depot 9 version 0 crc "));
        }
        other => panic!("{other:?}"),
    }
}

fn texts(notes: Vec<Note>) -> Vec<String> {
    notes.into_iter().map(|n| n.text).collect()
}

#[test]
fn pieces_that_disagree_are_noted() {
    let mut s = store();
    let one = version(&s, 0, "1");
    let name = s.index().blob(one).file_name.clone();
    let p = s.parsed(one).unwrap();
    let total: u64 = p
        .records
        .iter()
        .flat_map(|r| r.blocks.iter().map(|b| u64::from(b.compressed_size)))
        .sum();
    let notes = s.blob_notes(one);
    assert_eq!(notes[0].about, name);
    assert!(notes[1].about.starts_with("dats/0_1_"));
    assert_eq!(
        texts(notes),
        vec![
            format!("blocks total {total} bytes but blob says the dat is 0"),
            format!("dat is {total} bytes on disk, blob says 0"),
        ]
    );
    // The manifest always says version 1.
    let two = version(&s, 0, "2");
    assert_eq!(texts(s.blob_notes(two))[0], "manifest version id 1 != name");

    // A name with another crc than the blob has.
    let mut d = Dump::new();
    let crc = d.version(1, 1, &[], &[], None, true);
    let (path, bytes) = d.files.pop_first().unwrap();
    let moved = path.replace(&format!("{crc:08x}"), "00000005");
    d.files.insert(moved, bytes);
    d.files.insert("dats/x.dat".to_string(), Vec::new());
    let mut s = store_over(d.memory());
    let id = version(&s, 1, "1");
    assert_eq!(
        texts(s.blob_notes(id)),
        vec![format!("blob key 10 {crc:08x} != name crc")]
    );
}

#[test]
fn missing_parents_and_dats_are_noted() {
    let mut s = store();
    let gone = version(&s, 7, "0");
    let notes = texts(s.version_notes(gone));
    assert!(notes.contains(&"manifest version id 1 != name".to_string()));
    let crc = s.parsed(gone).unwrap().meta.dat_crc;
    assert_eq!(
        notes.last().unwrap(),
        &format!("dat with crc {crc:08x} is missing; 1 files unreadable")
    );

    let mut d = Dump::new();
    d.version(1, 1, &[], &[], None, true);
    d.version(1, 2, &[], &[], Some((1, 0xabc)), true);
    d.version(1, 3, &[], &[], Some((9, 1)), true);
    let mut s = store_over(d.memory());
    let two = version(&s, 1, "2");
    let three = version(&s, 1, "3");
    assert!(texts(s.version_notes(two))
        .contains(&"parent crc 00000abc not found; using the only version-1 blob".to_string()));
    assert!(texts(s.blob_notes(three))
        .contains(&"parent version 9 is missing from the dump".to_string()));

    let mut d = Dump::new();
    d.version(1, 1, &[], &[], None, true);
    d.version(1, 1, &[("a", false, 1, 0)], &[], None, true);
    d.version(1, 2, &[], &[], Some((1, 5)), true);
    let mut s = store_over(d.memory());
    let two = version(&s, 1, "2");
    assert!(texts(s.blob_notes(two))
        .contains(&"parent crc 00000005 not found and version 1 is ambiguous".to_string()));
}

#[test]
fn chains_that_turn_in_a_circle_are_noted() {
    // A blob whose parent is the only blob of its own version: itself.
    let mut d = Dump::new();
    d.version(1, 1, &[], &[], Some((1, 5)), true);
    let mut s = store_over(d.memory());
    let one = version(&s, 1, "1");
    assert_eq!(s.chain(one).unwrap(), vec![one]);
    let name = s.index().blob(one).file_name.clone();
    let notes = s.version_notes(one);
    let last = notes.last().unwrap();
    assert_eq!(last.text, format!("version chain cycle at {name}"));
    assert_eq!(last.about, name);
    let plain = version(&store(), 0, "1");
    assert!(!texts(store().version_notes(plain))
        .iter()
        .any(|t| t.contains("cycle")));
}

#[test]
fn key_searches_are_noted() {
    let mut s = store();
    let theirs = version(&s, 9, "0");
    let nobody = version(&s, 10, "0");
    let before = texts(s.blob_notes(theirs));
    assert!(!before.iter().any(|t| t.starts_with("key search")));
    assert_eq!(s.resolved_count(), 0);
    for id in [theirs, nobody] {
        let loc = s.locate(id, 1).unwrap();
        let _ = s.probe_key(&loc).unwrap();
    }
    assert_eq!(s.resolved_count(), 2);
    let crc = s.index().blob(theirs).crc;
    let line = format!("9@{crc:08x}={}", hex::encode(OTHER));
    assert_eq!(
        texts(s.blob_notes(theirs)).last().unwrap(),
        &format!("key search: depot 42's key decrypts it; add `{line}` to a keys file")
    );
    let mut keys = KeyStore::new(Vec::new());
    keys.insert_spec(&line).unwrap();
    assert_eq!(keys.get_for_blob(9, crc), Some(OTHER));
    let told = texts(s.blob_notes(nobody));
    assert_eq!(
        told[told.len() - 2..],
        [
            "configured key for depot 10 does not decrypt this blob".to_string(),
            "key search: none of 3 known keys decrypt this blob".to_string(),
        ]
    );

    // Without a search, only the configured key is spoken of.
    let memory = sample();
    let index = Index::load(&memory).unwrap();
    let mut s = Store::new(memory, index, known_keys(), config(false));
    let loc = s.locate(nobody, 1).unwrap();
    let _ = s.probe_key(&loc).unwrap();
    let told = texts(s.blob_notes(nobody));
    assert_eq!(
        told.last().unwrap(),
        "configured key for depot 10 does not decrypt this blob"
    );
}

#[test]
fn notes_follow_the_version_of_an_inode() {
    let mut fs = Steam2Fs::new(store(), 0, 0);
    let depot = walk(&mut fs, &["7"]);
    let dir = walk(&mut fs, &["7", "0"]);
    let file = walk(&mut fs, &["7", "0", "gone"]);
    assert_eq!(fs.version(depot), None);
    assert!(fs.version(dir).is_some());
    assert_eq!(fs.version(dir), fs.version(file));
    assert!(fs.notes(depot).is_empty());
    assert!(fs.notes(999).is_empty());
    assert!(!fs.notes(dir).is_empty());
    assert_eq!(fs.notes(dir), fs.notes(file));
    assert_eq!(fs.resolved_count(), 0);
}

/// What is neither a blob nor a dat is passed over, and does not count.
#[test]
fn other_entries_do_not_count() {
    let entry = |name: &str| DirEntry {
        name: name.to_string(),
        size: 3,
        is_dir: false,
    };
    let blobs = vec![entry("notes.txt"), entry("1_2_0000000a_x.blob"), entry("y.blob")];
    let dats = vec![entry("z"), entry("1_2_0000000b_x.dat"), entry("1_3_0000000c_x.dat.!qB")];
    let ix = Index::build(None, &blobs, &dats).unwrap();
    assert_eq!(ix.blobs.len(), 1);
    assert_eq!((ix.blobs[0].depot, ix.blobs[0].version, ix.blobs[0].crc), (1, 2, 10));
    assert_eq!(ix.dats.len(), 2);
    assert!(ix.dats[1].incomplete);
    let none = Index::build(None, &vec![entry("a")], &Vec::new()).unwrap();
    assert_eq!(none.blob_count(), 0);
}
