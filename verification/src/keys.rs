//! Depot AES keys: a built-in table plus user overrides.
//!
//! The table comes with the program that uses the library, which hands it over
//! when the keys are set up.

use vstd::prelude::*;

use crate::calendar;
use crate::codec;
use crate::codec::HexError;
use crate::format::chunk::Key;
use crate::text;

pub mod laws;

verus! {

/// Why a key was refused.
#[derive(Debug)]
pub enum KeyError {
    /// The text is not `DEPOT[@CRC]=HEX`.
    NotASpec(String),
    /// The part behind `=` is not hexadecimal.
    Hex(HexError),
    /// The part behind `=` is not 16 bytes.
    Length(usize),
    /// The depot is no number, and what reading it came to.
    Depot(String),
    /// The blob crc is no hexadecimal number, and what reading it came to.
    Crc(String),
}

/// A `KeyError`, as the contracts see it.
pub enum KeyFault {
    NotASpec(Seq<char>),
    Hex(HexError),
    Length(nat),
    Depot(Seq<char>),
    Crc(Seq<char>),
}

impl View for KeyError {
    type V = KeyFault;

    open spec fn view(&self) -> KeyFault {
        match self {
            KeyError::NotASpec(s) => KeyFault::NotASpec(s@),
            KeyError::Hex(e) => KeyFault::Hex(*e),
            KeyError::Length(n) => KeyFault::Length(*n as nat),
            KeyError::Depot(s) => KeyFault::Depot(s@),
            KeyError::Crc(s) => KeyFault::Crc(s@),
        }
    }
}

impl KeyFault {
    /// The message that describes the refusal.
    pub open spec fn text(self) -> Seq<char> {
        match self {
            KeyFault::NotASpec(s) => "key spec "@ + text::quoted(s) + " is not DEPOT[@CRC]=HEX"@,
            KeyFault::Hex(HexError::OddLength) => "Odd number of digits"@,
            KeyFault::Hex(HexError::InvalidLength) => "Invalid string length"@,
            KeyFault::Hex(HexError::InvalidCharacter { byte, index }) => "Invalid character "@
                + text::quoted_char(byte as char) + " at position "@ + text::dec(index as nat),
            KeyFault::Length(n) => "key must be 16 bytes, got "@ + text::dec(n),
            KeyFault::Depot(s) => s,
            KeyFault::Crc(s) => s,
        }
    }
}

impl KeyError {
    /// The message that describes the refusal.
    pub fn message(&self) -> (r: String)
        ensures
            r@ == self@.text(),
    {
        match self {
            KeyError::NotASpec(s) => {
                let mut m = text::owned("key spec ");
                let spec_text = text::quote(s.as_str());
                text::push_text(&mut m, spec_text.as_str());
                text::push_text(&mut m, " is not DEPOT[@CRC]=HEX");
                m
            },
            KeyError::Hex(HexError::OddLength) => text::owned("Odd number of digits"),
            KeyError::Hex(HexError::InvalidLength) => text::owned("Invalid string length"),
            KeyError::Hex(HexError::InvalidCharacter { byte, index }) => {
                let mut m = text::owned("Invalid character ");
                let shown = text::quote_char(*byte as char);
                text::push_text(&mut m, shown.as_str());
                text::push_text(&mut m, " at position ");
                text::push_dec(&mut m, *index as u64);
                m
            },
            KeyError::Length(n) => {
                let mut m = text::owned("key must be 16 bytes, got ");
                text::push_dec(&mut m, *n as u64);
                m
            },
            KeyError::Depot(s) => text::owned(s.as_str()),
            KeyError::Crc(s) => text::owned(s.as_str()),
        }
    }
}

// ---- hexadecimal keys -----------------------------------------------------

/// What is wrong with some text as hexadecimal, if anything is.
pub open spec fn hex_fault(s: Seq<u8>) -> Option<HexError> {
    if s.len() % 2 != 0 {
        Some(HexError::OddLength)
    } else if exists|i: int| codec::first_bad_digit(s, i) {
        let i = choose|i: int| codec::first_bad_digit(s, i);
        Some(HexError::InvalidCharacter { byte: s[i], index: i as usize })
    } else {
        None
    }
}

/// The key that some hexadecimal text spells.
pub open spec fn key_of(s: Seq<u8>) -> Result<Key, KeyFault> {
    match hex_fault(s) {
        Some(e) => Err(KeyFault::Hex(e)),
        None => if s.len() != 32 {
            Err(KeyFault::Length(s.len() / 2))
        } else {
            Ok(choose|k: Key| k@ == codec::hex_bytes(s))
        },
    }
}

/// 16 bytes as a key.
pub fn key_from_bytes(v: &Vec<u8>) -> (r: Option<Key>)
    ensures
        match r {
            Some(k) => k@ == v@,
            None => v@.len() != 16,
        },
{
    if v.len() != 16 {
        return None;
    }
    let k: Key = [
        v[0],
        v[1],
        v[2],
        v[3],
        v[4],
        v[5],
        v[6],
        v[7],
        v[8],
        v[9],
        v[10],
        v[11],
        v[12],
        v[13],
        v[14],
        v[15],
    ];
    assert(k@ =~= v@);
    Some(k)
}

/// Read 32 hexadecimal digits as a key.
pub fn parse_hex(hex: &str) -> (r: Result<Key, KeyError>)
    ensures
        match r {
            Ok(k) => key_of(vstd::utf8::encode_utf8(hex@)) == Ok::<Key, KeyFault>(k),
            Err(e) => key_of(vstd::utf8::encode_utf8(hex@)) == Err::<Key, KeyFault>(e@),
        },
{
    let ghost s = vstd::utf8::encode_utf8(hex@);
    match codec::hex_decode(hex.as_bytes()) {
        Err(e) => {
            proof {
                match e {
                    HexError::InvalidCharacter { byte, index } => {
                        lemma_first_bad_digit(s, index as int);
                    },
                    _ => {},
                }
            }
            Err(KeyError::Hex(e))
        },
        Ok(v) => {
            proof {
                if exists|i: int| codec::first_bad_digit(s, i) {
                    let i = choose|i: int| codec::first_bad_digit(s, i);
                    assert(codec::nibble(s[i]) is Some);
                }
            }
            match key_from_bytes(&v) {
                Some(k) => {
                    proof {
                        let other = choose|k: Key| k@ == codec::hex_bytes(s);
                        assert(k@ == other@);
                        assert(k =~= other);
                    }
                    Ok(k)
                },
                None => Err(KeyError::Length(v.len())),
            }
        },
    }
}

proof fn lemma_first_bad_digit(s: Seq<u8>, i: int)
    requires
        codec::first_bad_digit(s, i),
    ensures
        (choose|i: int| codec::first_bad_digit(s, i)) == i,
{
    let j = choose|i: int| codec::first_bad_digit(s, i);
    if j < i {
        assert(codec::nibble(s[j]) is Some);
    }
    if i < j {
        assert(codec::nibble(s[i]) is Some);
    }
}

// ---- lists of keys --------------------------------------------------------

/// The key for `id` in a list.
pub open spec fn find(s: Seq<(u64, Key)>, id: u64) -> Option<Key>
    decreases s.len(),
{
    if s.len() == 0 {
        None
    } else if s.last().0 == id {
        Some(s.last().1)
    } else {
        find(s.drop_last(), id)
    }
}

/// A list with the key for `id` replaced, or added in front.
pub open spec fn put(s: Seq<(u64, Key)>, id: u64, key: Key) -> Seq<(u64, Key)>
    decreases s.len(),
{
    if s.len() == 0 {
        seq![(id, key)]
    } else if s.last().0 == id {
        s.drop_last().push((id, key))
    } else {
        put(s.drop_last(), id, key).push(s.last())
    }
}

/// What was put is found, and nothing else changes.
pub proof fn law_put_is_found(s: Seq<(u64, Key)>, id: u64, key: Key, other: u64)
    ensures
        find(put(s, id, key), other) == if other == id {
            Some(key)
        } else {
            find(s, other)
        },
    decreases s.len(),
{
    if s.len() == 0 {
        assert(seq![(id, key)].drop_last() =~= Seq::<(u64, Key)>::empty());
        reveal_with_fuel(find, 2);
    } else if s.last().0 == id {
        let t = s.drop_last().push((id, key));
        assert(t.drop_last() =~= s.drop_last());
    } else {
        law_put_is_found(s.drop_last(), id, key, other);
        let t = put(s.drop_last(), id, key).push(s.last());
        assert(t.drop_last() =~= put(s.drop_last(), id, key));
    }
}

proof fn lemma_put_absent(s: Seq<(u64, Key)>, id: u64, key: Key)
    requires
        forall|j: int| 0 <= j < s.len() ==> (#[trigger] s[j]).0 != id,
    ensures
        put(s, id, key) == seq![(id, key)] + s,
        find(s, id) is None,
    decreases s.len(),
{
    if s.len() == 0 {
        assert(put(s, id, key) =~= seq![(id, key)] + s);
    } else {
        let t = s.drop_last();
        assert forall|j: int| 0 <= j < t.len() implies (#[trigger] t[j]).0 != id by {
            assert(s[j].0 != id);
        }
        lemma_put_absent(t, id, key);
        assert((seq![(id, key)] + t).push(s.last()) =~= seq![(id, key)] + s);
    }
}

proof fn lemma_put_present(s: Seq<(u64, Key)>, i: int, key: Key)
    requires
        0 <= i < s.len(),
        forall|j: int| i < j < s.len() ==> (#[trigger] s[j]).0 != s[i].0,
    ensures
        put(s, s[i].0, key) == s.update(i, (s[i].0, key)),
        find(s, s[i].0) == Some(s[i].1),
    decreases s.len(),
{
    if i == s.len() - 1 {
        assert(s.drop_last().push((s[i].0, key)) =~= s.update(i, (s[i].0, key)));
    } else {
        let t = s.drop_last();
        assert(s[s.len() - 1].0 != s[i].0);
        assert forall|j: int| i < j < t.len() implies (#[trigger] t[j]).0 != t[i].0 by {
            assert(s[j].0 != s[i].0);
        }
        lemma_put_present(t, i, key);
        assert(t.update(i, (s[i].0, key)).push(s.last()) =~= s.update(i, (s[i].0, key)));
    }
}

/// A number that is put occurs once, and takes the place of the entry that was
/// there; where none was, there is one entry more.
pub proof fn law_put_keeps_apart(s: Seq<(u64, Key)>, id: u64, key: Key)
    requires
        told_apart(s),
    ensures
        told_apart(put(s, id, key)),
        put(s, id, key).len() == if find(s, id) is Some {
            s.len()
        } else {
            s.len() + 1
        },
{
    if exists|i: int| 0 <= i < s.len() && (#[trigger] s[i]).0 == id {
        let i = choose|i: int| 0 <= i < s.len() && (#[trigger] s[i]).0 == id;
        lemma_put_present(s, i, key);
    } else {
        lemma_put_absent(s, id, key);
        let t = seq![(id, key)] + s;
        assert forall|i: int, j: int| 0 <= i < j < t.len() implies (#[trigger] t[i]).0 != (
        #[trigger] t[j]).0 by {
            if i > 0 {
                assert(t[i] == s[i - 1]);
            }
            assert(t[j] == s[j - 1]);
        }
    }
}

/// The place of the last entry for `id`.
fn position(v: &Vec<(u64, Key)>, id: u64) -> (r: Option<usize>)
    ensures
        match r {
            Some(i) => i < v@.len() && v@[i as int].0 == id && forall|j: int|
                i < j < v@.len() ==> (#[trigger] v@[j]).0 != id,
            None => forall|j: int| 0 <= j < v@.len() ==> (#[trigger] v@[j]).0 != id,
        },
{
    let mut i: usize = v.len();
    while i > 0
        invariant
            i <= v@.len(),
            forall|j: int| i <= j < v@.len() ==> (#[trigger] v@[j]).0 != id,
        decreases i,
    {
        i -= 1;
        if v[i].0 == id {
            return Some(i);
        }
    }
    None
}

fn look_up(v: &Vec<(u64, Key)>, id: u64) -> (r: Option<Key>)
    ensures
        r == find(v@, id),
{
    match position(v, id) {
        Some(i) => {
            proof {
                lemma_put_present(v@, i as int, v@[i as int].1);
            }
            Some(v[i].1)
        },
        None => {
            proof {
                lemma_put_absent(v@, id, arbitrary());
            }
            None
        },
    }
}

fn store(v: &mut Vec<(u64, Key)>, id: u64, key: Key)
    ensures
        final(v)@ == put(old(v)@, id, key),
{
    match position(v, id) {
        Some(i) => {
            proof {
                lemma_put_present(v@, i as int, key);
            }
            v.set(i, (id, key));
        },
        None => {
            proof {
                lemma_put_absent(v@, id, key);
            }
            v.insert(0, (id, key));
            assert(v@ =~= seq![(id, key)] + old(v)@);
        },
    }
}

// ---- the key store --------------------------------------------------------

/// The keys that are known, as the contracts see them.
#[verifier::ext_equal]
pub struct KeysView {
    /// Keys of depots, by depot number.
    pub depots: Seq<(u64, Key)>,
    /// Keys of single blobs, by depot number and blob crc.
    pub blobs: Seq<(u64, Key)>,
    /// The built-in keys, by depot number.
    pub table: Seq<(u32, Key)>,
}

/// A depot and a blob crc in one number.
pub open spec fn blob_key_id(depot: u32, crc: u32) -> u64 {
    (depot * 0x1_0000_0000 + crc) as u64
}

/// Each number is greater than the one before.
pub open spec fn ascending(table: Seq<(u32, Key)>) -> bool {
    forall|i: int, j: int|
        0 <= i < j < table.len() ==> (#[trigger] table[i]).0 < (#[trigger] table[j]).0
}

/// No number occurs twice.
pub open spec fn told_apart(s: Seq<(u64, Key)>) -> bool {
    forall|i: int, j: int|
        0 <= i < j < s.len() ==> (#[trigger] s[i]).0 != (#[trigger] s[j]).0
}

/// The built-in key of a depot.
pub open spec fn built_in(table: Seq<(u32, Key)>, depot: u32) -> Option<Key> {
    if exists|i: int| 0 <= i < table.len() && (#[trigger] table[i]).0 == depot {
        Some(table[choose|i: int| 0 <= i < table.len() && (#[trigger] table[i]).0 == depot].1)
    } else {
        None
    }
}

/// One key that may be tried: how it is called, and the key.
pub open spec fn blob_label(id: u64) -> Seq<char> {
    text::dec(id as nat / 0x1_0000_0000) + "@"@ + text::hex8(id as nat % 0x1_0000_0000)
}

impl KeysView {
    /// The table is in order, and no depot and no blob has two overrides.
    pub open spec fn sound(self) -> bool {
        &&& ascending(self.table)
        &&& told_apart(self.depots)
        &&& told_apart(self.blobs)
    }

    /// The key of a depot: an override wins over the table.
    pub open spec fn get(self, depot: u32) -> Option<Key> {
        match find(self.depots, depot as u64) {
            Some(k) => Some(k),
            None => built_in(self.table, depot),
        }
    }

    /// The key of one blob: an override for the blob wins over the depot's.
    pub open spec fn get_for_blob(self, depot: u32, crc: u32) -> Option<Key> {
        match find(self.blobs, blob_key_id(depot, crc)) {
            Some(k) => Some(k),
            None => self.get(depot),
        }
    }

    /// Every key that is known: overrides first, then the table.
    pub open spec fn candidates(self) -> Seq<(Seq<char>, Key)> {
        Seq::new(self.blobs.len(), |i: int| (blob_label(self.blobs[i].0), self.blobs[i].1))
            + Seq::new(
            self.depots.len(),
            |i: int| (text::dec(self.depots[i].0 as nat), self.depots[i].1),
        ) + Seq::new(
            self.table.len(),
            |i: int| (text::dec(self.table[i].0 as nat), self.table[i].1),
        )
    }

    pub open spec fn with_depot(self, depot: u32, key: Key) -> KeysView {
        KeysView { depots: put(self.depots, depot as u64, key), ..self }
    }

    pub open spec fn with_blob(self, depot: u32, crc: u32, key: Key) -> KeysView {
        KeysView { blobs: put(self.blobs, blob_key_id(depot, crc), key), ..self }
    }
}

/// The depot that a label begins with.
pub open spec fn label_depot(label: Seq<char>) -> u32 {
    match calendar::piece(label, '@', 0) {
        None => 0,
        Some(d) => match text::unsigned(d, 10, u32::MAX as nat) {
            Some(n) => n as u32,
            None => 0,
        },
    }
}

/// The labels of candidates name the depots that their keys belong to.
pub proof fn law_labels_name_depots(depot: u32, crc: u32)
    ensures
        label_depot(text::dec(depot as nat)) == depot,
        label_depot(blob_label(blob_key_id(depot, crc))) == depot,
{
    let d = text::dec(depot as nat);
    text::law_decimal_round_trip(depot as nat, u32::MAX as nat);
    text::lemma_digits_read_back(depot as nat, 10);
    assert(!d.contains('@')) by {
        if d.contains('@') {
            let i = choose|i: int| 0 <= i < d.len() && d[i] == '@';
            assert(text::digit_value(d[i], 10) is Some);
        }
    }
    text::lemma_find(d, '@');
    let id = blob_key_id(depot, crc);
    assert(id as nat / 0x1_0000_0000 == depot as nat);
    reveal_strlit("@");
    let l = blob_label(id);
    assert(l[d.len() as int] == '@');
    assert forall|j: int| 0 <= j < d.len() implies l[j] != '@' by {
        assert(l[j] == d[j]);
        assert(d.contains(d[j]));
    }
    text::lemma_find_is(l, '@', d.len() as int);
    assert(l.take(d.len() as int) =~= d);
}

/// The depot that a label begins with.
pub fn depot_of_label(label: &str) -> (r: u32)
    ensures
        r == label_depot(label@),
{
    let v = text::chars_of(label);
    let head = match text::split_once_at(v.as_slice(), '@') {
        Some((head, _)) => head,
        None => v.as_slice(),
    };
    match text::parse_u32(head, 10) {
        Some(n) => n,
        None => 0,
    }
}

/// The keys that are known.
#[derive(Debug)]
pub struct KeyStore {
    depots: Vec<(u64, Key)>,
    /// Keys that apply to one specific blob (depot, blob crc): a republished
    /// depot can use a different key than the rest of the depot.
    blobs: Vec<(u64, Key)>,
    table: Vec<(u32, Key)>,
}

impl View for KeyStore {
    type V = KeysView;

    closed spec fn view(&self) -> KeysView {
        KeysView { depots: self.depots@, blobs: self.blobs@, table: self.table@ }
    }
}

/// Whether a table is in order and names each depot once.
pub fn is_ascending(table: &Vec<(u32, Key)>) -> (r: bool)
    ensures
        r == ascending(table@),
{
    let mut i: usize = 1;
    while i < table.len()
        invariant
            1 <= i,
            i <= table@.len() || table@.len() == 0,
            forall|a: int, b: int|
                0 <= a < b < i && b < table@.len() ==> (#[trigger] table@[a]).0
                    < (#[trigger] table@[b]).0,
        decreases table@.len() - i,
    {
        if table[i - 1].0 >= table[i].0 {
            assert(table@[i - 1].0 >= table@[i as int].0);
            return false;
        }
        assert forall|a: int, b: int| 0 <= a < b < i + 1 && b < table@.len() implies (
        #[trigger] table@[a]).0 < (#[trigger] table@[b]).0 by {
            if b == i && a < i - 1 {
                assert(table@[a].0 < table@[i - 1].0);
            }
        }
        i += 1;
    }
    true
}

/// Why a line that gives a key is refused, or what it gives.
pub enum SpecView {
    Depot(u32, Key),
    Blob(u32, u32, Key),
}

/// What `DEPOT=HEX` or `DEPOT@BLOBCRC=HEX` gives, once its key is read.
pub open spec fn target_of(target: Seq<char>, key: Key) -> Result<SpecView, KeyFault> {
    match text::split_once(target, '@') {
        Some((depot, crc)) => match text::unsigned(depot, 10, u32::MAX as nat) {
            None => Err(KeyFault::Depot(text::number_refusal(depot, 10))),
            Some(d) => match text::unsigned(crc, 16, u32::MAX as nat) {
                None => Err(KeyFault::Crc(text::number_refusal(crc, 16))),
                Some(c) => Ok(SpecView::Blob(d as u32, c as u32, key)),
            },
        },
        None => match text::unsigned(target, 10, u32::MAX as nat) {
            None => Err(KeyFault::Depot(text::number_refusal(target, 10))),
            Some(d) => Ok(SpecView::Depot(d as u32, key)),
        },
    }
}

/// The keys after what a line gives has been added.
pub open spec fn with_spec(keys: KeysView, s: SpecView) -> KeysView {
    match s {
        SpecView::Depot(d, k) => keys.with_depot(d, k),
        SpecView::Blob(d, c, k) => keys.with_blob(d, c, k),
    }
}

/// What a line gives, or why it is refused.
pub open spec fn spec_of(spec: Seq<char>) -> Result<SpecView, KeyFault> {
    match text::split_once(spec, '=') {
        None => Err(KeyFault::NotASpec(spec)),
        Some((target, hex)) => match key_of(vstd::utf8::encode_utf8(text::trim(hex))) {
            Err(e) => Err(e),
            Ok(key) => target_of(text::trim(target), key),
        },
    }
}

/// The line that gives a blob its own key.
pub open spec fn written(depot: u32, crc: u32, key: Seq<u8>) -> Seq<char> {
    text::dec(depot as nat) + "@"@ + text::hex8(crc as nat) + "="@ + codec::hex_text(key)
}

/// The line that gives a blob its own key.
pub fn key_line(depot: u32, crc: u32, key: &Key) -> (r: String)
    ensures
        r@ == written(depot, crc, key@),
{
    let digits = codec::hex_encode(key.as_slice());
    let mut s = String::new();
    text::push_dec(&mut s, depot as u64);
    text::push_text(&mut s, "@");
    text::push_hex8(&mut s, crc);
    text::push_text(&mut s, "=");
    text::push_text(&mut s, digits.as_str());
    assert(s@ =~= written(depot, crc, key@));
    s
}

/// The line that gives a blob its own key is read back as that.
pub proof fn law_written_key_reads_back(depot: u32, crc: u32, key: Key)
    ensures
        spec_of(written(depot, crc, key@)) == Ok::<SpecView, KeyFault>(
            SpecView::Blob(depot, crc, key),
        ),
        !is_comment(text::trim(written(depot, crc, key@))),
        text::trim(written(depot, crc, key@)) == written(depot, crc, key@),
{
    let d = text::dec(depot as nat);
    let c = text::hex8(crc as nat);
    let h = codec::hex_text(key@);
    let target = d + "@"@ + c;
    let line = written(depot, crc, key@);
    reveal_strlit("@");
    reveal_strlit("=");
    text::law_decimal_round_trip(depot as nat, u32::MAX as nat);
    text::lemma_digits_read_back(depot as nat, 10);
    text::lemma_padded_value(crc as nat, 16, 8);
    lemma_hex_digits(key@);
    assert(text::digit_value(d[0], 10) is Some);
    assert(text::digit_value(c[0], 16) is Some);
    assert(text::digit_value(c.last(), 16) is Some);
    assert(line[0] == d[0]);
    assert(line.last() == h.last());
    // The first `=` stands behind the crc.
    assert forall|j: int| 0 <= j < target.len() implies line[j] != '=' by {
        if j < d.len() {
            assert(text::digit_value(d[j], 10) is Some);
        } else if j > d.len() {
            assert(text::digit_value(c[j - d.len() - 1], 16) is Some);
        }
    }
    text::lemma_find_is(line, '=', target.len() as int);
    assert(line.take(target.len() as int) =~= target);
    assert(line.skip(target.len() as int + 1) =~= h);
    assert(text::trim(target) == target) by {
        assert(target[0] == d[0]);
        assert(target.last() == c.last());
    }
    // The first `@` stands behind the depot.
    assert forall|j: int| 0 <= j < d.len() implies target[j] != '@' by {
        assert(text::digit_value(d[j], 10) is Some);
    }
    text::lemma_find_is(target, '@', d.len() as int);
    assert(target.take(d.len() as int) =~= d);
    assert(target.skip(d.len() as int + 1) =~= c);
    lemma_hex_reads_back(key);
}

/// A byte is written as two hexadecimal digits.
pub proof fn lemma_hex_digits(b: Seq<u8>)
    ensures
        codec::hex_text(b).len() == 2 * b.len(),
        forall|i: int|
            0 <= i < codec::hex_text(b).len() ==> {
                let c = #[trigger] codec::hex_text(b)[i];
                let n = if i % 2 == 0 {
                    b[i / 2] as nat / 16
                } else {
                    b[i / 2] as nat % 16
                };
                text::digit_value(c, 16) == Some(n) && (c as u32) < 0x80 && !text::is_white(c)
            },
{
}

pub proof fn lemma_hex_reads_back(key: Key)
    ensures
        text::trim(codec::hex_text(key@)) == codec::hex_text(key@),
        key_of(vstd::utf8::encode_utf8(codec::hex_text(key@))) == Ok::<Key, KeyFault>(key),
{
    let h = codec::hex_text(key@);
    let s = vstd::utf8::encode_utf8(h);
    lemma_hex_digits(key@);
    assert(vstd::utf8::is_ascii_chars(h)) by {
        assert forall|i: int| 0 <= i < h.len() implies '\0' <= #[trigger] h[i] <= '\u{7f}' by {}
    }
    vstd::utf8::is_ascii_chars_encode_utf8(h);
    assert forall|i: int| 0 <= i < s.len() implies (#[trigger] codec::nibble(s[i]))
        == text::digit_value(h[i], 16) by {
        assert(h[i] as u8 == s[i]);
        assert(s[i] as char == h[i]);
    }
    if exists|i: int| codec::first_bad_digit(s, i) {
        let i = choose|i: int| codec::first_bad_digit(s, i);
        assert(codec::nibble(s[i]) == text::digit_value(h[i], 16));
    }
    assert(codec::hex_bytes(s) =~= key@) by {
        assert forall|i: int| 0 <= i < 16 implies codec::hex_bytes(s)[i] == key@[i] by {
            assert(codec::nibble(s[2 * i]) == text::digit_value(h[2 * i], 16));
            assert(codec::nibble(s[2 * i + 1]) == text::digit_value(h[2 * i + 1], 16));
            assert((2 * i) / 2 == i && (2 * i + 1) / 2 == i);
            assert(key@[i] as nat / 16 * 16 + key@[i] as nat % 16 == key@[i]);
        }
    }
    let k = choose|k: Key| k@ == codec::hex_bytes(s);
    assert(k@ == key@);
    assert(k =~= key);
}

/// A line that holds no key: empty, or a comment.
pub open spec fn is_comment(line: Seq<char>) -> bool {
    line.len() == 0 || line[0] == '#'
}

/// The keys after the lines from `i` on have been added, as far as the first
/// that is refused; and that refusal.
pub open spec fn with_lines(keys: KeysView, lines: Seq<Seq<char>>, i: int) -> (
    KeysView,
    Option<KeyFault>,
)
    decreases lines.len() - i,
{
    if i >= lines.len() {
        (keys, None)
    } else if is_comment(text::trim(lines[i])) {
        with_lines(keys, lines, i + 1)
    } else {
        match spec_of(text::trim(lines[i])) {
            Err(e) => (keys, Some(e)),
            Ok(s) => with_lines(with_spec(keys, s), lines, i + 1),
        }
    }
}

/// A copy of a table.
fn copy_table<N: Copy>(table: &Vec<(N, Key)>) -> (r: Vec<(N, Key)>)
    ensures
        r@ == table@,
{
    let mut out: Vec<(N, Key)> = Vec::new();
    let mut i: usize = 0;
    while i < table.len()
        invariant
            i <= table@.len(),
            out@ == table@.take(i as int),
        decreases table@.len() - i,
    {
        out.push((table[i].0, table[i].1));
        assert(table@.take(i + 1) =~= table@.take(i as int).push(table@[i as int]));
        i += 1;
    }
    assert(table@.take(i as int) =~= table@);
    out
}

impl Clone for KeyStore {
    fn clone(&self) -> (r: KeyStore)
        ensures
            r@ == self@,
            self.wf() ==> r.wf(),
    {
        KeyStore {
            depots: copy_table(&self.depots),
            blobs: copy_table(&self.blobs),
            table: copy_table(&self.table),
        }
    }
}

impl KeyStore {
    /// The table is in order, and no depot and no blob has two overrides.
    pub open spec fn wf(&self) -> bool {
        self@.sound()
    }

    /// The keys of a built-in table, in order of depot numbers, and no
    /// overrides yet.
    pub fn new(table: Vec<(u32, Key)>) -> (r: KeyStore)
        requires
            ascending(table@),
        ensures
            r.wf(),
            r@ == (KeysView { depots: Seq::empty(), blobs: Seq::empty(), table: table@ }),
    {
        KeyStore { depots: Vec::new(), blobs: Vec::new(), table }
    }

    pub fn insert(&mut self, depot: u32, key: Key)
        requires
            old(self).wf(),
        ensures
            final(self).wf(),
            final(self)@ == old(self)@.with_depot(depot, key),
    {
        proof {
            law_put_keeps_apart(self.depots@, depot as u64, key);
        }
        store(&mut self.depots, depot as u64, key);
    }

    pub fn insert_for_blob(&mut self, depot: u32, blob_crc: u32, key: Key)
        requires
            old(self).wf(),
        ensures
            final(self).wf(),
            final(self)@ == old(self)@.with_blob(depot, blob_crc, key),
    {
        let id: u64 = depot as u64 * 0x1_0000_0000 + blob_crc as u64;
        proof {
            law_put_keeps_apart(self.blobs@, id, key);
        }
        store(&mut self.blobs, id, key);
    }

    /// Parse `DEPOT=HEX` or `DEPOT@BLOBCRC=HEX` (32 hex digits).
    pub fn insert_spec(&mut self, spec: &str) -> (r: Result<(), KeyError>)
        requires
            old(self).wf(),
        ensures
            final(self).wf(),
            match (spec_of(spec@), r) {
                (Ok(s), Ok(_)) => final(self)@ == with_spec(old(self)@, s),
                (Err(f), Err(e)) => e@ == f && final(self)@ == old(self)@,
                _ => false,
            },
    {
        let v = text::chars_of(spec);
        let (target, hex) = match text::split_once_at(v.as_slice(), '=') {
            Some(p) => p,
            None => {
                return Err(KeyError::NotASpec(text::owned(spec)));
            },
        };
        let digits = text::string_of(text::trimmed(hex));
        let key = match parse_hex(digits.as_str()) {
            Ok(k) => k,
            Err(e) => {
                return Err(e);
            },
        };
        let target = text::trimmed(target);
        match text::split_once_at(target, '@') {
            Some((depot, crc)) => {
                let depot = text::string_of(depot);
                let crc = text::string_of(crc);
                match text::read_u32(depot.as_str(), 10) {
                    Err(m) => Err(KeyError::Depot(m)),
                    Ok(d) => match text::read_u32(crc.as_str(), 16) {
                        Err(m) => Err(KeyError::Crc(m)),
                        Ok(c) => {
                            self.insert_for_blob(d, c, key);
                            Ok(())
                        },
                    },
                }
            },
            None => {
                let depot = text::string_of(target);
                match text::read_u32(depot.as_str(), 10) {
                    Err(m) => Err(KeyError::Depot(m)),
                    Ok(d) => {
                        self.insert(d, key);
                        Ok(())
                    },
                }
            },
        }
    }

    /// Take in the text of a file of `DEPOT=HEX` lines (`#` comments and
    /// blank lines ignored).
    pub fn load_text(&mut self, content: &str) -> (r: Result<(), KeyError>)
        requires
            old(self).wf(),
        ensures
            final(self).wf(),
            final(self)@ == with_lines(old(self)@, text::lines(content@), 0).0,
            match (with_lines(old(self)@, text::lines(content@), 0).1, r) {
                (None, Ok(_)) => true,
                (Some(f), Err(e)) => e@ == f,
                _ => false,
            },
    {
        let v = text::chars_of(content);
        let lines = text::lines_of(v.as_slice());
        let ghost all = text::views(lines@);
        let ghost outcome = with_lines(self@, all, 0);
        let mut i: usize = 0;
        while i < lines.len()
            invariant
                self.wf(),
                i <= lines@.len(),
                all == text::views(lines@),
                outcome == with_lines(self@, all, i as int),
                outcome == with_lines(old(self)@, text::lines(content@), 0),
            decreases lines@.len() - i,
        {
            let line = text::trimmed(lines[i].as_slice());
            assert(all[i as int] == lines@[i as int]@);
            if line.len() > 0 && line[0] != '#' {
                let spec = text::string_of(line);
                match self.insert_spec(spec.as_str()) {
                    Ok(_) => {},
                    Err(e) => {
                        return Err(e);
                    },
                }
            }
            i += 1;
        }
        Ok(())
    }

    pub fn get(&self, depot: u32) -> (r: Option<Key>)
        requires
            self.wf(),
        ensures
            r == self@.get(depot),
    {
        match look_up(&self.depots, depot as u64) {
            Some(k) => {
                return Some(k);
            },
            None => {},
        }
        let ghost t = self.table@;
        let mut lo: usize = 0;
        let mut hi: usize = self.table.len();
        while lo < hi
            invariant
                t == self.table@,
                ascending(t),
                lo <= hi <= t.len(),
                self@.get(depot) == built_in(t, depot),
                forall|k: int| 0 <= k < lo ==> (#[trigger] t[k]).0 < depot,
                forall|k: int| hi <= k < t.len() ==> (#[trigger] t[k]).0 > depot,
            decreases hi - lo,
        {
            let mid: usize = lo + (hi - lo) / 2;
            let at: u32 = self.table[mid].0;
            if at == depot {
                proof {
                    let i = choose|i: int| 0 <= i < t.len() && (#[trigger] t[i]).0 == depot;
                    assert(t[mid as int].0 == depot);
                    assert(i == mid);
                }
                return Some(self.table[mid].1);
            }
            if at < depot {
                lo = mid + 1;
            } else {
                hi = mid;
            }
        }
        None
    }

    /// The key for one blob: a blob-specific override wins over the depot key.
    pub fn get_for_blob(&self, depot: u32, blob_crc: u32) -> (r: Option<Key>)
        requires
            self.wf(),
        ensures
            r == self@.get_for_blob(depot, blob_crc),
    {
        let id: u64 = depot as u64 * 0x1_0000_0000 + blob_crc as u64;
        match look_up(&self.blobs, id) {
            Some(k) => Some(k),
            None => self.get(depot),
        }
    }

    /// Every key known, for brute-force discovery: overrides first, then the
    /// built-in table. Gives (label, key).
    pub fn candidates(&self) -> (r: Vec<(String, Key)>)
        ensures
            r@.len() == self@.candidates().len(),
            forall|i: int|
                0 <= i < r@.len() ==> (#[trigger] r@[i]).0@ == self@.candidates()[i].0 && r@[i].1
                    == self@.candidates()[i].1,
    {
        let mut out: Vec<(String, Key)> = Vec::new();
        let ghost all = self@.candidates();
        let mut i: usize = 0;
        while i < self.blobs.len()
            invariant
                i <= self.blobs@.len(),
                all == self@.candidates(),
                out@.len() == i,
                forall|k: int|
                    0 <= k < i ==> (#[trigger] out@[k]).0@ == all[k].0 && out@[k].1 == all[k].1,
            decreases self.blobs@.len() - i,
        {
            let id: u64 = self.blobs[i].0;
            let mut label = String::new();
            text::push_dec(&mut label, id / 0x1_0000_0000);
            text::push_text(&mut label, "@");
            text::push_hex8(&mut label, (id % 0x1_0000_0000) as u32);
            assert(label@ =~= blob_label(id));
            out.push((label, self.blobs[i].1));
            i += 1;
        }
        let mut i: usize = 0;
        while i < self.depots.len()
            invariant
                i <= self.depots@.len(),
                all == self@.candidates(),
                out@.len() == self.blobs@.len() + i,
                forall|k: int|
                    0 <= k < out@.len() ==> (#[trigger] out@[k]).0@ == all[k].0 && out@[k].1
                        == all[k].1,
            decreases self.depots@.len() - i,
        {
            let mut label = String::new();
            text::push_dec(&mut label, self.depots[i].0);
            assert(label@ =~= text::dec(self.depots@[i as int].0 as nat));
            out.push((label, self.depots[i].1));
            i += 1;
        }
        let mut i: usize = 0;
        while i < self.table.len()
            invariant
                i <= self.table@.len(),
                all == self@.candidates(),
                out@.len() == self.blobs@.len() + self.depots@.len() + i,
                forall|k: int|
                    0 <= k < out@.len() ==> (#[trigger] out@[k]).0@ == all[k].0 && out@[k].1
                        == all[k].1,
            decreases self.table@.len() - i,
        {
            let mut label = String::new();
            text::push_dec(&mut label, self.table[i].0 as u64);
            assert(label@ =~= text::dec(self.table@[i as int].0 as nat));
            out.push((label, self.table[i].1));
            i += 1;
        }
        out
    }

    /// How many keys the built-in table has.
    pub fn builtin_count(&self) -> (r: usize)
        ensures
            r == self@.table.len(),
    {
        self.table.len()
    }
}

/// The labels of two blobs tell them apart.
proof fn lemma_blob_labels(a: u64, b: u64)
    requires
        blob_label(a) == blob_label(b),
    ensures
        a == b,
{
    let (ha, hb) = (a as nat / 0x1_0000_0000, b as nat / 0x1_0000_0000);
    let (la, lb) = (a as nat % 0x1_0000_0000, b as nat % 0x1_0000_0000);
    lemma_label_parts(ha, la);
    lemma_label_parts(hb, lb);
    text::lemma_digits_read_back(ha, 10);
    text::lemma_digits_read_back(hb, 10);
    text::lemma_padded_value(la, 16, 8);
    text::lemma_padded_value(lb, 16, 8);
}

/// A label is cut at its `@`.
proof fn lemma_label_parts(high: nat, low: nat)
    ensures
        text::split_once(text::dec(high) + "@"@ + text::hex8(low), '@') == Some(
            (text::dec(high), text::hex8(low)),
        ),
{
    let d = text::dec(high);
    let c = text::hex8(low);
    let s = d + "@"@ + c;
    reveal_strlit("@");
    text::lemma_digits_read_back(high, 10);
    assert forall|j: int| 0 <= j < d.len() implies s[j] != '@' by {
        assert(s[j] == d[j]);
        assert(text::digit_value(d[j], 10) is Some);
    }
    text::lemma_find_is(s, '@', d.len() as int);
    assert(s.take(d.len() as int) =~= d);
    assert(s.skip(d.len() as int + 1) =~= c);
}

/// The keys that a search tries are one for each blob with an override, one for
/// each depot with an override and one for each depot of the table; within each
/// of the three, no two have the same label.
pub proof fn law_candidates_are_told_apart(keys: KeysView, i: int, j: int)
    requires
        keys.sound(),
        0 <= i < j < keys.candidates().len(),
    ensures
        keys.candidates().len() == keys.blobs.len() + keys.depots.len() + keys.table.len(),
        keys.candidates()[i].0 == keys.candidates()[j].0 ==> {
            let n = keys.blobs.len();
            n <= i < n + keys.depots.len() && n + keys.depots.len() <= j
        },
{
    let c = keys.candidates();
    let n = keys.blobs.len() as int;
    let m = n + keys.depots.len();
    if c[i].0 == c[j].0 {
        if j < n {
            lemma_blob_labels(keys.blobs[i].0, keys.blobs[j].0);
        } else if i < n {
            let id = keys.blobs[i].0;
            let d = if j < m {
                keys.depots[j - n].0 as nat
            } else {
                keys.table[j - m].0 as nat
            };
            let head = text::dec(id as nat / 0x1_0000_0000);
            reveal_strlit("@");
            text::lemma_digits_read_back(d, 10);
            assert(blob_label(id)[head.len() as int] == '@');
            assert(text::digit_value(text::dec(d)[head.len() as int], 10) is Some);
        } else if j < m {
            text::lemma_digits_read_back(keys.depots[i - n].0 as nat, 10);
            text::lemma_digits_read_back(keys.depots[j - n].0 as nat, 10);
        } else if i >= m {
            text::lemma_digits_read_back(keys.table[i - m].0 as nat, 10);
            text::lemma_digits_read_back(keys.table[j - m].0 as nat, 10);
        }
    }
}

/// An override wins over the table, and a key for one blob over the key of its
/// depot; other depots and blobs keep their keys.
pub proof fn law_overrides_win(keys: KeysView, depot: u32, crc: u32, key: Key, other: u32, c: u32)
    ensures
        keys.with_depot(depot, key).get(depot) == Some(key),
        other != depot ==> keys.with_depot(depot, key).get(other) == keys.get(other),
        keys.with_blob(depot, crc, key).get_for_blob(depot, crc) == Some(key),
        keys.with_blob(depot, crc, key).get(other) == keys.get(other),
        (other, c) != (depot, crc) ==> keys.with_blob(depot, crc, key).get_for_blob(other, c)
            == keys.get_for_blob(other, c),
{
    law_put_is_found(keys.depots, depot as u64, key, depot as u64);
    law_put_is_found(keys.depots, depot as u64, key, other as u64);
    law_put_is_found(keys.blobs, blob_key_id(depot, crc), key, blob_key_id(depot, crc));
    law_put_is_found(keys.blobs, blob_key_id(depot, crc), key, blob_key_id(other, c));
}

} // verus!
