//! What the names of a dump's files say, where it is, and which keys it needs.

use steam2fs::backend::sftp;
use steam2fs::backend::sftp::{
    accept_host_key, check_find, find_command, packet_entry, parse_find, split_destination, HostKey,
};
use steam2fs::backend::transfer::{Piece, Transfer};
use steam2fs::backend::{parse_source, DirEntry, Source};
use steam2fs::cache::ByteLru;
use steam2fs::calendar::Date;
use steam2fs::index::{
    civil_from_days, days_from_civil, format_stamp, parse_date, parse_name, BlobEntry, BlobId,
    DatEntry, DatId, Index,
};
use steam2fs::keys::{is_ascending, parse_hex, KeyStore};
use std::sync::Arc;

// ---- sources ----

fn is_local(s: &str) -> bool {
    s == "/"
}

#[test]
fn parses_sources() {
    assert_eq!(
        parse_source("example-host:/mnt/x", is_local("example-host:/mnt/x")),
        Source::Sftp {
            destination: "example-host".into(),
            path: "/mnt/x".into()
        }
    );
    assert_eq!(
        parse_source("sftp://me@host:2222/data", is_local("sftp://me@host:2222/data")),
        Source::Sftp {
            destination: "ssh://me@host:2222".into(),
            path: "/data".into()
        }
    );
    assert_eq!(
        parse_source("/definitely/not/here", is_local("/definitely/not/here")),
        Source::Local("/definitely/not/here".into())
    );
    assert_eq!(parse_source("/", is_local("/")), Source::Local("/".into()));
}

#[test]
fn sources_without_a_path_have_a_default_one() {
    assert_eq!(
        parse_source("sftp://host", false),
        Source::Sftp {
            destination: "ssh://host".into(),
            path: "/".into()
        }
    );
    assert_eq!(
        parse_source("host:", false),
        Source::Sftp {
            destination: "host".into(),
            path: ".".into()
        }
    );
    // What exists is local, whatever it looks like.
    assert_eq!(
        parse_source("host:dir", true),
        Source::Local("host:dir".into())
    );
    assert_eq!(
        parse_source("a/b:c", false),
        Source::Local("a/b:c".into())
    );
    assert_eq!(parse_source(":c", false), Source::Local(":c".into()));
}

#[test]
fn destinations_split_into_user_host_port() {
    assert_eq!(split_destination("example"), (None, "example".into(), None));
    assert_eq!(
        split_destination("me@example"),
        (Some("me".into()), "example".into(), None)
    );
    assert_eq!(
        split_destination("ssh://me@example:2222"),
        (Some("me".into()), "example".into(), Some(2222))
    );
    // A trailing colon that is not a port stays part of the host.
    assert_eq!(
        split_destination("example:notaport"),
        (None, "example:notaport".into(), None)
    );
    assert_eq!(
        split_destination("example:70000"),
        (None, "example:70000".into(), None)
    );
}

// ---- sftp ----

#[test]
fn remote_paths_are_joined() {
    assert_eq!(sftp::trim_root("/data//"), "/data");
    assert_eq!(sftp::trim_root("/"), "");
    assert_eq!(sftp::path("/data", "blobs/x"), "/data/blobs/x");
    assert_eq!(sftp::path("/data", ""), "/data");
    assert_eq!(sftp::path("", "blobs"), "blobs");
    assert_eq!(sftp::path("", ""), ".");
    assert_eq!(sftp::describe("me@host", "/data"), "sftp:me@host:/data");
}

#[test]
fn remote_listings_are_quoted_and_read() {
    assert_eq!(
        find_command("/it's here"),
        "find -L '/it'\\''s here' -mindepth 1 -maxdepth 1 -printf '%y\\t%s\\t%f\\n'"
    );
    let listed = parse_find(b"f\t12\ta\tb.blob\nd\tx\tdir\nnonsense\nf\t7\tz.dat");
    assert_eq!(
        listed,
        vec![
            DirEntry {
                name: "a\tb.blob".into(),
                size: 12,
                is_dir: false
            },
            DirEntry {
                name: "dir".into(),
                size: 0,
                is_dir: true
            },
            DirEntry {
                name: "z.dat".into(),
                size: 7,
                is_dir: false
            },
        ]
    );
    // What is not UTF-8 is replaced.
    assert_eq!(parse_find(b"f\t1\t\xff.dat\n")[0].name, "\u{fffd}.dat");
    assert!(check_find(Some(0)).is_ok());
    assert_eq!(
        check_find(Some(127)).unwrap_err(),
        "remote find exited with Some(127)"
    );
    assert_eq!(
        check_find(None).unwrap_err(),
        "remote find exited with None"
    );
    assert_eq!(packet_entry(".".into(), Some(1), true), None);
    assert_eq!(packet_entry("..".into(), None, true), None);
    assert_eq!(
        packet_entry("x".into(), None, false),
        Some(DirEntry {
            name: "x".into(),
            size: 0,
            is_dir: false
        })
    );
}

#[test]
fn host_keys_that_disagree_are_refused() {
    assert!(accept_host_key(HostKey::Recorded));
    assert!(accept_host_key(HostKey::Unrecorded));
    assert!(!accept_host_key(HostKey::Mismatch));
    assert!(!accept_host_key(HostKey::Changed));
    assert!(!accept_host_key(HostKey::Certificate));
}

fn serve(file: &[u8], at: u64, want: usize, most: usize) -> Piece {
    let at = at as usize;
    if at >= file.len() {
        Piece::Eof
    } else {
        let end = file.len().min(at + want.min(most));
        Piece::Data(file[at..end].to_vec())
    }
}

#[test]
fn short_answers_leave_no_gap() {
    let file: Vec<u8> = (0..200u8).collect();
    for most in [3, 10, 64] {
        let mut t = Transfer::new(5, 300, 10, 4);
        assert_eq!(
            t.wants(),
            vec![(5, 10), (15, 10), (25, 10), (35, 10)]
        );
        loop {
            let wants = t.wants();
            if wants.is_empty() {
                break;
            }
            let pieces = wants
                .iter()
                .map(|(at, want)| serve(&file, *at, *want, most))
                .collect();
            t.absorb(pieces).unwrap();
        }
        assert_eq!(t.finish(), &file[5..]);
    }
}

#[test]
fn transfers_end_and_fail_as_they_are_told() {
    let mut t = Transfer::new(0, 25, 10, 4);
    assert_eq!(t.wants(), vec![(0, 10), (10, 10), (20, 5)]);
    // What follows a short answer is dropped.
    t.absorb(vec![
        Piece::Data(vec![1; 10]),
        Piece::Data(vec![2; 4]),
        Piece::Data(vec![3; 5]),
    ])
    .unwrap();
    assert_eq!(t.wants(), vec![(14, 10), (24, 1)]);
    assert_eq!(
        t.absorb(vec![Piece::Failed("lost".into())]).unwrap_err(),
        "lost"
    );
    t.absorb(vec![Piece::Data(Vec::new())]).unwrap();
    assert!(t.wants().is_empty());
    let mut want = vec![1u8; 10];
    want.extend([2; 4]);
    assert_eq!(t.finish(), want);
}

// ---- names and dates ----

#[test]
fn parses_names() {
    let (p, sha) = parse_name("102021_18_ef45a233_3dedcb2f.blob", ".blob").unwrap();
    assert_eq!((p.depot, p.version, p.crc), (102021, 18, 0xef45_a233));
    assert_eq!(sha, "3dedcb2f");
    assert!(parse_name("readme.txt", ".blob").is_none());
}

#[test]
fn parses_dates() {
    let t = parse_date("2003-09-10+13:11:59.0156250000").unwrap();
    assert_eq!(t.secs, 1_063_199_519);
    assert_eq!(t.nanos, 15_625_000);
    assert_eq!(days_from_civil(1970, 1, 1), 0);
    assert_eq!(days_from_civil(2000, 3, 1), 11_017);
}

#[test]
fn formats_stamps() {
    assert_eq!(format_stamp(0), "1970-01-01T00-00-00");
    assert_eq!(format_stamp(1_063_199_519), "2003-09-10T13-11-59");
    // civil_from_days is the inverse of days_from_civil over a long run
    // of dates, including leap days and century boundaries.
    for day in 0..40_000i64 {
        let (y, m, d) = civil_from_days(day);
        assert_eq!(days_from_civil(y, m, d), day, "day {day} -> {y}-{m}-{d}");
    }
}

#[test]
fn what_is_no_date_is_refused() {
    assert_eq!(parse_date("1970-01-01+00:00:00").map(|d| d.secs), Some(0));
    assert!(parse_date("").is_none());
    assert!(parse_date("2003-09-10").is_none());
    assert!(parse_date("2003-09-10 13:11:59").is_none());
    assert!(parse_date("2003-09+13:11:59").is_none());
    assert!(parse_date("2003-09-10+13:11").is_none());
    assert!(parse_date("2003-09-10+13:xx:59").is_none());
    assert!(parse_date("1969-12-31+23:59:59").is_none());
}

#[test]
fn names_have_four_parts() {
    assert!(parse_name("1_2_3.blob", ".blob").is_none());
    assert!(parse_name("x_2_ef_aa.blob", ".blob").is_none());
    assert!(parse_name("1_y_ef_aa.blob", ".blob").is_none());
    assert!(parse_name("1_2_zz_aa.blob", ".blob").is_none());
    assert!(parse_name("1_2_ef_aa.dat", ".blob").is_none());
    let (p, sha) = parse_name("1_2_ef_aa_bb.dat", ".dat").unwrap();
    assert_eq!((p.depot, p.version, p.crc), (1, 2, 0xef));
    assert_eq!(sha, "aa_bb");
}

// ---- the index ----

fn blob(depot: u32, version: u32, crc: u32, secs: Option<u64>) -> BlobEntry {
    BlobEntry {
        path: format!("blobs/{depot}_{version}_{crc:08x}.blob"),
        file_name: format!("{depot}_{version}_{crc:08x}.blob"),
        depot,
        version,
        crc,
        size: 1,
        date: secs.map(|secs| Date { secs, nanos: 0 }),
        sha256: None,
    }
}

fn dat(depot: u32, version: u32, crc: u32, incomplete: bool) -> DatEntry {
    DatEntry {
        path: format!("dats/{depot}_{version}_{crc:08x}.dat"),
        depot,
        version,
        crc,
        size: 1,
        incomplete,
    }
}

#[test]
fn versions_are_named_and_found() {
    let ix = Index::from_entries(
        vec![
            blob(7, 10, 0xaa, Some(86_400)),
            blob(7, 2, 0xbb, None),
            blob(7, 10, 0x09, Some(0)),
            blob(3, 1, 0xcc, None),
        ],
        Vec::new(),
    );
    let numbers: Vec<u32> = ix.depots().iter().map(|(d, _)| *d).collect();
    assert_eq!(numbers, vec![3, 7]);
    let d = ix.depot(7).unwrap();
    assert_eq!(
        d.versions(),
        vec![
            ("2", BlobId(1)),
            ("10-00000009", BlobId(2)),
            ("10-000000aa", BlobId(0)),
        ]
    );
    assert_eq!(
        d.date_links(),
        vec![
            ("1970-01-01T00-00-00_v10-00000009", BlobId(2)),
            ("1970-01-02T00-00-00_v10-000000aa", BlobId(0)),
            ("unknown_v2", BlobId(1)),
        ]
    );
    assert_eq!(d.lookup_name("10-000000aa"), Some(BlobId(0)));
    assert_eq!(d.lookup_name("10"), None);
    assert_eq!(d.lookup_date_link("unknown_v2"), Some(BlobId(1)));
    assert_eq!(d.lookup_date_link("unknown"), None);
    assert_eq!(d.name_of(BlobId(1)), Some("2"));
    assert_eq!(d.name_of(BlobId(3)), None);
    assert_eq!(
        d.date_link_of(BlobId(0)),
        Some("1970-01-02T00-00-00_v10-000000aa")
    );
    assert!(ix.depot(8).is_none());
    assert_eq!(ix.latest(7), Some(BlobId(0)));
    assert_eq!(ix.latest(3), Some(BlobId(3)));
    assert_eq!(ix.latest(8), None);
    assert_eq!(ix.find_blob(7, 10, 9), Some(BlobId(2)));
    assert_eq!(ix.find_blob(7, 10, 8), None);
    assert_eq!(ix.blobs_with_version(7, 10), vec![BlobId(2), BlobId(0)]);
    assert!(ix.blobs_with_version(9, 10).is_empty());
    assert_eq!(ix.blob(BlobId(3)).depot, 3);
    assert_eq!(ix.blob_count(), 4);
}

#[test]
fn complete_dats_are_preferred() {
    let ix = Index::from_entries(
        Vec::new(),
        vec![
            dat(1, 1, 5, true),
            dat(1, 1, 5, false),
            dat(1, 1, 5, true),
            dat(2, 1, 5, true),
            dat(2, 1, 5, true),
        ],
    );
    assert_eq!(ix.find_dat(1, 1, 5), Some(DatId(1)));
    assert_eq!(ix.find_dat(2, 1, 5), Some(DatId(4)));
    assert_eq!(ix.find_dat(2, 1, 6), None);
    assert!(ix.dat(DatId(0)).incomplete);
}

// ---- keys ----

fn table() -> Vec<(u32, [u8; 16])> {
    let mut first = [0u8; 16];
    first[0] = 0xa1;
    vec![(0, first), (4, [4; 16]), (90, [90; 16])]
}

#[test]
fn table_is_sorted_and_unique() {
    let t = table();
    assert!(t.windows(2).all(|w| w[0].0 < w[1].0));
    assert!(is_ascending(&t));
    assert!(!is_ascending(&vec![(1, [0; 16]), (1, [0; 16])]));
    assert!(!is_ascending(&vec![(2, [0; 16]), (1, [0; 16])]));
}

#[test]
fn builtin_lookup() {
    let ks = KeyStore::new(table());
    assert_eq!(ks.get(0).unwrap()[0], 0xa1);
    assert!(ks.get(u32::MAX).is_none());
    assert_eq!(ks.get(4).unwrap()[3], 4);
    assert_eq!(ks.builtin_count(), 3);
}

#[test]
fn override_wins() {
    let mut ks = KeyStore::new(table());
    ks.insert_spec("0=000102030405060708090a0b0c0d0e0f")
        .unwrap();
    assert_eq!(ks.get(0).unwrap()[15], 0x0f);
    assert!(ks.insert_spec("0=abc").is_err());
    ks.insert_spec("0@deadbeef=ff0102030405060708090a0b0c0d0e0f")
        .unwrap();
    assert_eq!(ks.get_for_blob(0, 0xdead_beef).unwrap()[0], 0xff);
    assert_eq!(ks.get_for_blob(0, 1).unwrap()[0], 0x00);
}

#[test]
fn key_specs_are_refused_with_a_reason() {
    let refused = |s: &str| KeyStore::new(Vec::new()).insert_spec(s).unwrap_err().message();
    assert_eq!(
        refused("no \"spec\""),
        "key spec \"no \\\"spec\\\"\" is not DEPOT[@CRC]=HEX"
    );
    assert_eq!(refused("0=abc"), "Odd number of digits");
    assert_eq!(refused("0=zz"), "Invalid character 'z' at position 0");
    assert_eq!(refused("0=aabb"), "key must be 16 bytes, got 2");
    let key = "000102030405060708090a0b0c0d0e0f";
    for depot in ["x", "", "-1", "+", "4294967296", "1 2", "99999999999x"] {
        let said = depot.parse::<u32>().unwrap_err().to_string();
        assert_eq!(refused(&format!("{depot}={key}")), said);
        assert_eq!(refused(&format!("{depot}@1={key}")), said);
    }
    for crc in ["xyz", "", "123456789", "-a"] {
        let said = u32::from_str_radix(crc, 16).unwrap_err().to_string();
        assert_eq!(refused(&format!("1@{crc}={key}")), said);
    }
    let mut ks = KeyStore::new(Vec::new());
    ks.insert_spec(&format!("+12={key}")).unwrap();
    assert_eq!(ks.get(12), parse_hex(key).ok());
    let copy = ks.clone();
    assert_eq!(copy.get(12), ks.get(12));
    assert!(format!("{copy:?}").starts_with("KeyStore"));
    assert_eq!(parse_hex(key).unwrap()[15], 15);
    assert_eq!(parse_hex(&key.to_uppercase()).unwrap()[10], 10);
}

/// A key that is given again takes the place of the one before.
#[test]
fn overrides_are_kept_once() {
    let mut ks = KeyStore::new(vec![(3, [3; 16])]);
    for k in [1u8, 2, 3] {
        ks.insert(7, [k; 16]);
        ks.insert(8, [k; 16]);
        ks.insert_for_blob(7, 1, [k; 16]);
        ks.insert_for_blob(1, 7, [k; 16]);
    }
    let all = ks.candidates();
    let mut labels: Vec<&str> = all.iter().map(|(l, _)| l.as_str()).collect();
    labels.sort();
    assert_eq!(labels, vec!["1@00000007", "3", "7", "7@00000001", "8"]);
    assert!(all.iter().all(|(_, k)| *k == [3; 16]));
}

#[test]
fn key_files_have_comments() {
    let mut ks = KeyStore::new(Vec::new());
    ks.load_text(
        "# a comment\n\n  7 = 000102030405060708090a0b0c0d0e0f \r\n8@0000000a=ff0102030405060708090a0b0c0d0e0f",
    )
    .unwrap();
    assert_eq!(ks.get(7).unwrap()[1], 1);
    assert_eq!(ks.get(8), None);
    assert_eq!(ks.get_for_blob(8, 10).unwrap()[0], 0xff);
    let labels: Vec<String> = ks.candidates().into_iter().map(|(l, _)| l).collect();
    assert_eq!(labels, vec!["8@0000000a".to_string(), "7".to_string()]);
    assert!(ks.load_text("7=00\n9=000102030405060708090a0b0c0d0e0f").is_err());
    assert_eq!(ks.get(9), None);
}

// ---- caches ----

#[test]
fn evicts_by_bytes() {
    let mut c = ByteLru::new(10);
    c.insert(1, Arc::new(vec![0; 4]));
    c.insert(2, Arc::new(vec![0; 4]));
    assert!(c.get(1).is_some());
    c.insert(3, Arc::new(vec![0; 4]));
    assert!(c.get(2).is_none(), "least recently used entry should go");
    assert!(c.get(1).is_some());
    assert!(c.bytes() <= 10);
    c.insert(4, Arc::new(vec![0; 11]));
    assert!(c.get(4).is_none(), "oversized entries are skipped");
}

#[test]
fn replacing_an_entry_frees_its_bytes() {
    let mut c = ByteLru::new(10);
    c.insert(1, Arc::new(vec![1; 8]));
    c.insert(1, Arc::new(vec![2; 3]));
    assert_eq!(c.bytes(), 3);
    assert_eq!(*c.get(1).unwrap(), vec![2; 3]);
    c.insert(2, Arc::new(vec![0; 7]));
    assert_eq!(c.bytes(), 10);
    assert!(c.get(1).is_some());
}
