//! What a version blob holds, and whether its bytes are what its name says.

use std::sync::Arc;
use vstd::prelude::*;
use vstd::slice::slice_subrange;

use super::error::{other, Outcome, ReadError, ReadFault, Result};
use crate::backend;
use crate::backend::{Reply, ReplyView, Trouble, TroubleView};
use crate::codec;
use crate::format::blob;
use crate::format::blob::{Blob, VersionMeta};
use crate::format::checksums;
use crate::format::checksums::{FileRecord, FileView};
use crate::format::malformed;
use crate::format::manifest;
use crate::format::manifest::{Manifest, ManifestView};
use crate::format::Problem;
use crate::index::{BlobEntry, BlobView};
use crate::text;

verus! {

/// Everything parsed out of one version blob.
pub struct ParsedBlob {
    pub meta: VersionMeta,
    pub manifest: Arc<Manifest>,
    pub records: Vec<FileRecord>,
}

/// A `ParsedBlob`, as the contracts see it.
#[verifier::ext_equal]
pub struct ParsedView {
    pub meta: VersionMeta,
    pub manifest: ManifestView,
    pub records: Seq<FileView>,
}

impl View for ParsedBlob {
    type V = ParsedView;

    open spec fn view(&self) -> ParsedView {
        ParsedView {
            meta: self.meta,
            manifest: self.manifest@,
            records: checksums::file_views(self.records@),
        }
    }
}

impl ParsedBlob {
    pub open spec fn wf(&self) -> bool {
        self.manifest.wf()
    }
}

// ---- the pieces of a version blob -----------------------------------------

/// The manifest that the top level of a version blob holds.
pub open spec fn manifest_in(top: Seq<blob::EntryView>) -> crate::format::Outcome<ManifestView> {
    match blob::required(top, blob::keys::MANIFEST) {
        Err(e) => Err(e),
        Ok(packed) => match blob::decompressed(packed) {
            Err(e) => Err(e),
            Ok(plain) => match blob::blob_of(plain) {
                Err(e) => Err(e),
                Ok(inner) => match blob::required(inner, 0) {
                    Err(e) => Err(e),
                    Ok(bytes) => manifest::manifest_of(bytes),
                },
            },
        },
    }
}

fn read_manifest(top: &Blob<'_>) -> (r: crate::format::Result<Manifest>)
    requires
        top.wf(),
    ensures
        crate::format::agree(r, manifest_in(top@)),
        r matches Ok(m) ==> m.wf(),
{
    let packed = match top.require(blob::keys::MANIFEST) {
        Ok(v) => v,
        Err(e) => {
            return Err(e);
        },
    };
    let plain = match blob::decompress(packed) {
        Ok(v) => v,
        Err(e) => {
            return Err(e);
        },
    };
    let inner = match Blob::parse(plain.as_slice()) {
        Ok(v) => v,
        Err(e) => {
            return Err(e);
        },
    };
    match inner.require(0) {
        Ok(bytes) => Manifest::parse(bytes),
        Err(e) => Err(e),
    }
}

/// The two records of the manifest's fingerprint have to agree.
pub open spec fn fingerprint_fault(in_blob: u32, in_manifest: u32) -> Option<Problem> {
    if in_blob == in_manifest {
        None
    } else {
        Some(Problem::Fingerprint { blob: in_blob, manifest: in_manifest })
    }
}

/// Hold the two records of the manifest's fingerprint against each other.
pub fn check_fingerprint(in_blob: u32, in_manifest: u32) -> (r: Option<Problem>)
    ensures
        r == fingerprint_fault(in_blob, in_manifest),
{
    if in_blob == in_manifest {
        None
    } else {
        Some(Problem::Fingerprint { blob: in_blob, manifest: in_manifest })
    }
}

/// The crc32 of a blob has to be the one that it holds.
pub open spec fn crc_fault(crc: u32, stored: u32) -> Option<Problem> {
    if crc == stored {
        None
    } else {
        Some(Problem::OwnCrc { crc, stored })
    }
}

/// Hold the crc32 of a blob against the one that it holds.
pub fn check_own_crc(crc: u32, stored: u32) -> (r: Option<Problem>)
    ensures
        r == crc_fault(crc, stored),
{
    if crc == stored {
        None
    } else {
        Some(Problem::OwnCrc { crc, stored })
    }
}

/// `bytes` with the four at `at` zeroed.
pub open spec fn zeroed_at(bytes: Seq<u8>, at: int) -> Seq<u8> {
    bytes.take(at) + seq![0u8, 0u8, 0u8, 0u8] + bytes.skip(at + 4)
}

/// The crc32 of `bytes` with the four at `at` taken as zero.
pub fn crc_with_hole(bytes: &[u8], at: usize) -> (r: u32)
    requires
        at + 4 <= bytes@.len(),
    ensures
        r == codec::crc32(0, zeroed_at(bytes@, at as int)),
{
    let len: usize = bytes.len();
    let head = slice_subrange(bytes, 0, at);
    let tail = slice_subrange(bytes, at + 4, len);
    let mut hole: Vec<u8> = Vec::new();
    hole.push(0);
    hole.push(0);
    hole.push(0);
    hole.push(0);
    assert(hole@ =~= seq![0u8, 0u8, 0u8, 0u8]);
    assert(head@ =~= bytes@.take(at as int));
    assert(tail@ =~= bytes@.skip(at + 4));
    let a = codec::crc32_from(0, head);
    let b = codec::crc32_from(a, hole.as_slice());
    let c = codec::crc32_from(b, tail);
    c
}

/// The crc32 of a blob with the value of key 10 taken as zero.
pub open spec fn own_crc_of(bytes: Seq<u8>, top: Seq<blob::EntryView>) -> u32 {
    let at = blob::find(top, blob::key_bytes(blob::keys::OWN_CRC))->0.at;
    codec::crc32(0, zeroed_at(bytes, at))
}

/// What the bytes of a version blob hold, given the entries of its top level.
pub open spec fn parsed_from(bytes: Seq<u8>, top: Seq<blob::EntryView>) -> crate::format::Outcome<
    ParsedView,
> {
    match blob::meta_of(top) {
        Err(e) => Err(e),
        Ok(meta) => match manifest_in(top) {
            Err(e) => Err(e),
            Ok(m) => match blob::u32_field(top, blob::keys::MANIFEST_FINGERPRINT) {
                Err(e) => Err(e),
                Ok(fingerprint) => match fingerprint_fault(fingerprint, m.fingerprint) {
                    Some(p) => crate::format::bad(p),
                    None => match crc_fault(own_crc_of(bytes, top), meta.own_crc) {
                        Some(p) => crate::format::bad(p),
                        None => match blob::required(top, blob::keys::CHECKSUMS) {
                            Err(e) => Err(e),
                            Ok(t) => match checksums::table(t) {
                                Err(e) => Err(e),
                                Ok(records) => Ok(ParsedView { meta, manifest: m, records }),
                            },
                        },
                    },
                },
            },
        },
    }
}

/// What the bytes of a version blob hold.
pub open spec fn parsed_of(bytes: Seq<u8>) -> crate::format::Outcome<ParsedView> {
    match blob::blob_of(bytes) {
        Err(e) => Err(e),
        Ok(top) => parsed_from(bytes, top),
    }
}

proof fn lemma_own_crc_place(bytes: Seq<u8>, top: Seq<blob::EntryView>)
    requires
        blob::lies_in(top, bytes),
        blob::u32_field(top, blob::keys::OWN_CRC) is Ok,
    ensures
        blob::find(top, blob::key_bytes(blob::keys::OWN_CRC)) matches Some(e) && 0 <= e.at && e.at
            + 4 <= bytes.len(),
{
    lemma_found_lies_in(bytes, top, blob::key_bytes(blob::keys::OWN_CRC));
}

proof fn lemma_found_lies_in(bytes: Seq<u8>, top: Seq<blob::EntryView>, key: Seq<u8>)
    requires
        blob::lies_in(top, bytes),
    ensures
        blob::find(top, key) matches Some(e) ==> 0 <= e.at && e.at + e.value.len() <= bytes.len(),
    decreases top.len(),
{
    if top.len() > 0 {
        if top[0].key != key {
            let t = top.skip(1);
            assert forall|i: int| 0 <= i < t.len() implies ({
                let e = #[trigger] t[i];
                0 <= e.at && e.at + e.value.len() <= bytes.len() && e.value == bytes.subrange(
                    e.at,
                    e.at + e.value.len(),
                )
            }) by {
                assert(t[i] == top[i + 1]);
            }
            lemma_found_lies_in(bytes, t, key);
        }
    }
}

/// Read everything that a version blob holds.
pub fn parse_blob(bytes: &[u8]) -> (r: crate::format::Result<ParsedBlob>)
    ensures
        crate::format::agree(r, parsed_of(bytes@)),
        r matches Ok(p) ==> p.wf(),
{
    let top = match Blob::parse(bytes) {
        Ok(v) => v,
        Err(e) => {
            return Err(e);
        },
    };
    let meta = match VersionMeta::from_blob(&top) {
        Ok(v) => v,
        Err(e) => {
            return Err(e);
        },
    };
    let m = match read_manifest(&top) {
        Ok(v) => v,
        Err(e) => {
            return Err(e);
        },
    };
    let fingerprint = match top.u32(blob::keys::MANIFEST_FINGERPRINT) {
        Ok(v) => v,
        Err(e) => {
            return Err(e);
        },
    };
    if let Some(p) = check_fingerprint(fingerprint, m.fingerprint()) {
        return Err(malformed(p));
    }
    proof {
        lemma_own_crc_place(bytes@, top@);
    }
    // Key 10 is the crc32 of the whole blob with its own value zeroed.
    let at = match top.value_offset(blob::keys::OWN_CRC) {
        Ok(v) => v,
        Err(e) => {
            return Err(e);
        },
    };
    if let Some(p) = check_own_crc(crc_with_hole(bytes, at), meta.own_crc) {
        return Err(malformed(p));
    }
    let table = match top.require(blob::keys::CHECKSUMS) {
        Ok(v) => v,
        Err(e) => {
            return Err(e);
        },
    };
    match checksums::parse(table) {
        Err(e) => Err(e),
        Ok(records) => Ok(ParsedBlob { meta, manifest: Arc::new(m), records }),
    }
}

// ---- contents and names ---------------------------------------------------

/// What is wrong with some contents, given their digest in hexadecimal and
/// their length: the digest counts when the name carries one, the length
/// otherwise.
pub open spec fn contents_fault(entry: BlobView, digest: Seq<char>, len: nat) -> Option<Seq<char>> {
    match entry.sha256 {
        Some(expected) => if digest == expected {
            None
        } else {
            Some(entry.file_name + ": sha256 "@ + digest + " does not match its name"@)
        },
        None => if len == entry.size {
            None
        } else {
            Some(
                entry.file_name + ": "@ + text::dec(len) + " bytes, expected "@ + text::dec(
                    entry.size as nat,
                ),
            )
        },
    }
}

/// Hold a digest and a length against what a blob's file name says.
pub fn check_digest(entry: &BlobEntry, digest: &str, len: usize) -> (r: Option<String>)
    ensures
        match r {
            Some(t) => contents_fault(entry@, digest@, len as nat) == Some(t@),
            None => contents_fault(entry@, digest@, len as nat) is None,
        },
{
    match &entry.sha256 {
        Some(expected) => {
            if text::same_text(digest, expected.as_str()) {
                None
            } else {
                let mut s = text::owned(entry.file_name.as_str());
                text::push_text(&mut s, ": sha256 ");
                text::push_text(&mut s, digest);
                text::push_text(&mut s, " does not match its name");
                Some(s)
            }
        },
        None => {
            if len as u64 == entry.size {
                None
            } else {
                let mut s = text::owned(entry.file_name.as_str());
                text::push_text(&mut s, ": ");
                text::push_dec(&mut s, len as u64);
                text::push_text(&mut s, " bytes, expected ");
                text::push_dec(&mut s, entry.size);
                Some(s)
            }
        },
    }
}

/// Check bytes against what a blob's file name says they should be: its
/// sha256 when the name carries the full hash, its size otherwise.
pub fn check_contents(entry: &BlobEntry, bytes: &[u8]) -> (r: Option<String>)
    ensures
        match r {
            Some(t) => contents_fault(
                entry@,
                codec::hex_text(codec::sha256(bytes@)),
                bytes@.len(),
            ) == Some(t@),
            None => contents_fault(
                entry@,
                codec::hex_text(codec::sha256(bytes@)),
                bytes@.len(),
            ) is None,
        },
{
    let digest = codec::hex_encode(codec::sha256_of(bytes).as_slice());
    check_digest(entry, digest.as_str(), bytes.len())
}

/// How far a blob whose digest is wrong is off, given its length and whether it
/// parses.
pub open spec fn damage(entry: BlobView, len: nat, parses: bool) -> Seq<char> {
    if len != entry.size {
        ", "@ + text::dec(len) + " bytes, expected "@ + text::dec(entry.size as nat)
    } else if !parses {
        ", did not parse"@
    } else {
        ""@
    }
}

/// What is wrong with a blob that was kept on disk, given its digest in
/// hexadecimal, its length, and whether it parses. Where the name carries no
/// digest, the length alone would let a damaged copy pass, so it has to parse
/// too; where it carries one, and it is wrong, that is told with how far the
/// copy is off.
pub open spec fn kept_fault(
    entry: BlobView,
    digest: Seq<char>,
    len: nat,
    parses: bool,
) -> Option<Seq<char>> {
    match contents_fault(entry, digest, len) {
        Some(t) => Some(
            if entry.sha256 is Some {
                t + damage(entry, len, parses)
            } else {
                t
            },
        ),
        None => if entry.sha256 is None && !parses {
            Some(entry.file_name + ": did not parse"@)
        } else {
            None
        },
    }
}

/// Decide whether a blob that was kept on disk may be served.
pub fn check_kept(entry: &BlobEntry, bytes: &[u8]) -> (r: Option<String>)
    ensures
        match r {
            Some(t) => kept_fault(
                entry@,
                codec::hex_text(codec::sha256(bytes@)),
                bytes@.len(),
                parsed_of(bytes@) is Ok,
            ) == Some(t@),
            None => kept_fault(
                entry@,
                codec::hex_text(codec::sha256(bytes@)),
                bytes@.len(),
                parsed_of(bytes@) is Ok,
            ) is None,
        },
{
    let named = entry.sha256.is_some();
    match check_contents(entry, bytes) {
        Some(t) => {
            let mut s = t;
            if named {
                if bytes.len() as u64 != entry.size {
                    text::push_text(&mut s, ", ");
                    text::push_dec(&mut s, bytes.len() as u64);
                    text::push_text(&mut s, " bytes, expected ");
                    text::push_dec(&mut s, entry.size);
                } else if parse_blob(bytes).is_err() {
                    text::push_text(&mut s, ", did not parse");
                }
            }
            proof {
                reveal_strlit("");
                let digest = codec::hex_text(codec::sha256(bytes@));
                let parses = parsed_of(bytes@) is Ok;
                assert(Some(s@) =~= kept_fault(entry@, digest, bytes@.len(), parses));
            }
            Some(s)
        },
        None => {
            if !named {
                match parse_blob(bytes) {
                    Ok(_) => None,
                    Err(_) => {
                        let mut s = text::owned(entry.file_name.as_str());
                        text::push_text(&mut s, ": did not parse");
                        Some(s)
                    },
                }
            } else {
                None
            }
        },
    }
}

/// The bytes of a blob, from what a backend answered.
pub open spec fn bytes_of(entry: BlobView, reply: ReplyView<Seq<u8>>) -> Outcome<Seq<u8>> {
    match reply {
        Err(m) => Err(ReadFault::Other(m)),
        Ok(bytes) => match contents_fault(
            entry,
            codec::hex_text(codec::sha256(bytes)),
            bytes.len(),
        ) {
            Some(t) => Err(ReadFault::Other(TroubleView::plain(t))),
            None => Ok(bytes),
        },
    }
}

/// What a blob holds, from what a backend answered.
pub open spec fn parsed_reply(entry: BlobView, reply: ReplyView<Seq<u8>>) -> Outcome<ParsedView> {
    match bytes_of(entry, reply) {
        Err(e) => Err(e),
        Ok(bytes) => match parsed_of(bytes) {
            Err(f) => Err(
                ReadFault::Other(
                    TroubleView::from_cause("parsing "@ + entry.file_name, f.text()),
                ),
            ),
            Ok(p) => Ok(p),
        },
    }
}

/// Check what a backend answered for a blob.
pub fn accept_bytes(entry: &BlobEntry, reply: Reply<Vec<u8>>) -> (r: Result<Vec<u8>>)
    ensures
        match r {
            Ok(v) => bytes_of(entry@, backend::bytes_view(reply)) == Ok::<Seq<u8>, ReadFault>(v@),
            Err(e) => bytes_of(entry@, backend::bytes_view(reply)) == Err::<Seq<u8>, ReadFault>(
                e@,
            ),
        },
{
    match reply {
        Err(m) => Err(ReadError::Other(m)),
        Ok(bytes) => match check_contents(entry, bytes.as_slice()) {
            Some(t) => Err(other(t.as_str())),
            None => Ok(bytes),
        },
    }
}

/// Parse what a backend answered for a blob.
pub fn accept_blob(entry: &BlobEntry, reply: Reply<Vec<u8>>) -> (r: Result<ParsedBlob>)
    ensures
        match r {
            Ok(p) => parsed_reply(entry@, backend::bytes_view(reply)) == Ok::<
                ParsedView,
                ReadFault,
            >(p@) && p.wf(),
            Err(e) => parsed_reply(entry@, backend::bytes_view(reply)) == Err::<
                ParsedView,
                ReadFault,
            >(e@),
        },
{
    let bytes = match accept_bytes(entry, reply) {
        Ok(v) => v,
        Err(e) => {
            return Err(e);
        },
    };
    match parse_blob(bytes.as_slice()) {
        Ok(p) => Ok(p),
        Err(e) => {
            let mut s = text::owned("parsing ");
            text::push_text(&mut s, entry.file_name.as_str());
            Err(ReadError::Other(Trouble::from_cause(s.as_str(), e.message().as_str())))
        },
    }
}

/// What passes the check has the digest that its name carries, or else the
/// size that was listed.
pub proof fn law_accepted_contents(entry: BlobView, reply: ReplyView<Seq<u8>>)
    ensures
        match bytes_of(entry, reply) {
            Ok(bytes) => reply == Ok::<Seq<u8>, TroubleView>(bytes) && match entry.sha256 {
                Some(d) => codec::hex_text(codec::sha256(bytes)) == d,
                None => bytes.len() == entry.size,
            },
            Err(_) => true,
        },
{
}

} // verus!
