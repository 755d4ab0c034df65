//! Node flag bits (names follow HLLib's GCF manifest flags).

use vstd::prelude::*;

use crate::text;

verus! {

/// Set on every file node.
pub const FILE: u32 = 0x4000;

/// The file's dat blocks are AES encrypted.
pub const ENCRYPTED: u32 = 0x0100;

/// Keep a local backup copy.
pub const BACKUP_LOCAL: u32 = 0x0040;

/// Copy out of the cache to disk at launch (executables, dlls).
pub const COPY_LOCAL: u32 = 0x000a;

/// Copy local, but never overwrite a user's copy.
pub const COPY_LOCAL_NO_OVERWRITE: u32 = 0x0001;

/// The bits that are left, and what has been said of the others.
pub open spec fn take_flag(s: (u32, Seq<char>), bit: u32, name: Seq<char>) -> (u32, Seq<char>) {
    if s.0 & bit == bit {
        (s.0 & !bit, listed(s.1, name))
    } else {
        s
    }
}

/// `list` with one more name, after a comma unless it is the first.
pub open spec fn listed(list: Seq<char>, name: Seq<char>) -> Seq<char> {
    if list.len() == 0 {
        name
    } else {
        list + ","@ + name
    }
}

/// The known flags of `v` by name, and the bits that have none.
pub open spec fn known(v: u32) -> (u32, Seq<char>) {
    let a = take_flag((v, Seq::empty()), FILE, "file"@);
    let b = take_flag(a, ENCRYPTED, "encrypted"@);
    let c = take_flag(b, BACKUP_LOCAL, "backup_local"@);
    let d = take_flag(c, COPY_LOCAL, "copy_local"@);
    take_flag(d, COPY_LOCAL_NO_OVERWRITE, "copy_local_no_overwrite"@)
}

/// What a flags word says.
pub open spec fn described(v: u32) -> Seq<char> {
    let (left, names) = known(v);
    if left != 0 {
        listed(names, text::prefixed_hex(left as nat, 0))
    } else if names.len() == 0 {
        "directory"@
    } else {
        names
    }
}

fn add_name(list: &mut String, name: &str)
    requires
        name@.len() > 0,
    ensures
        final(list)@ == listed(old(list)@, name@),
        final(list)@.len() > 0,
{
    let so_far = text::chars_of(list.as_str());
    if so_far.len() == 0 {
        text::push_text(list, name);
        assert(list@ =~= name@);
    } else {
        text::push_text(list, ",");
        text::push_text(list, name);
    }
}

fn try_flag(v: u32, list: &mut String, bit: u32, name: &str) -> (left: u32)
    requires
        name@.len() > 0,
    ensures
        (left, final(list)@) == take_flag((v, old(list)@), bit, name@),
{
    if v & bit == bit {
        add_name(list, name);
        v & !bit
    } else {
        v
    }
}

/// Comma-separated names for a flags word, unknown bits as hex.
pub fn describe(v: u32) -> (r: String)
    ensures
        r@ == described(v),
{
    proof {
        reveal_strlit("file");
        reveal_strlit("encrypted");
        reveal_strlit("backup_local");
        reveal_strlit("copy_local");
        reveal_strlit("copy_local_no_overwrite");
    }
    let mut out = String::new();
    let a = try_flag(v, &mut out, FILE, "file");
    let b = try_flag(a, &mut out, ENCRYPTED, "encrypted");
    let c = try_flag(b, &mut out, BACKUP_LOCAL, "backup_local");
    let d = try_flag(c, &mut out, COPY_LOCAL, "copy_local");
    let left = try_flag(d, &mut out, COPY_LOCAL_NO_OVERWRITE, "copy_local_no_overwrite");
    if left != 0 {
        let mut bits = String::new();
        text::push_prefixed_hex(&mut bits, left as u64, 0);
        assert(bits@ =~= text::prefixed_hex(left as nat, 0));
        add_name(&mut out, bits.as_str());
        return out;
    }
    let said = text::chars_of(out.as_str());
    if said.len() == 0 {
        text::owned("directory")
    } else {
        out
    }
}

} // verus!
