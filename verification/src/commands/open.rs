//! What the command line says about opening a dump.

use vstd::prelude::*;

use crate::keys;
use crate::keys::{KeyError, KeyFault, KeyStore, KeysView};
use crate::store::StoreConfig;

verus! {

/// How a store is to work, of the sizes of its caches in MiB and what is
/// switched off. What a size has beyond the machine's range is lost.
pub fn store_config(
    raw_cache_mb: usize,
    block_cache_mb: usize,
    unchecked: bool,
    own_keys_only: bool,
) -> (r: StoreConfig)
    ensures
        r.raw_cache_bytes == raw_cache_mb << 20usize,
        r.block_cache_bytes == block_cache_mb << 20usize,
        raw_cache_mb * 0x10_0000 <= usize::MAX ==> r.raw_cache_bytes == raw_cache_mb * 0x10_0000,
        block_cache_mb * 0x10_0000 <= usize::MAX ==> r.block_cache_bytes == block_cache_mb
            * 0x10_0000,
        r.verify == !unchecked,
        r.key_search == !own_keys_only,
{
    proof {
        lemma_mib(raw_cache_mb);
        lemma_mib(block_cache_mb);
    }
    StoreConfig {
        raw_cache_bytes: raw_cache_mb << 20usize,
        block_cache_bytes: block_cache_mb << 20usize,
        verify: !unchecked,
        key_search: !own_keys_only,
    }
}

proof fn lemma_mib(n: usize)
    ensures
        n * 0x10_0000 <= usize::MAX ==> n << 20usize == n * 0x10_0000,
{
    vstd::arithmetic::power2::lemma2_to64();
    if n * 0x10_0000 <= usize::MAX {
        vstd::bits::lemma_usize_shl_is_mul(n, 20usize);
    }
}

/// Where blobs that were read are kept.
#[derive(Debug, Clone, Copy, PartialEq, Eq, Structural)]
pub enum CachePlace {
    /// Nowhere.
    Off,
    /// In the directory that was given.
    Given,
    /// Under `$XDG_CACHE_HOME`.
    Xdg,
    /// Under `$HOME/.cache`.
    Home,
    /// It cannot be told.
    Unknown,
}

pub open spec fn cache_place_of(off: bool, given: bool, xdg: bool, home: bool) -> CachePlace {
    if off {
        CachePlace::Off
    } else if given {
        CachePlace::Given
    } else if xdg {
        CachePlace::Xdg
    } else if home {
        CachePlace::Home
    } else {
        CachePlace::Unknown
    }
}

/// Where blobs that were read are kept: of whether that is switched off,
/// whether a directory was given, and whether `XDG_CACHE_HOME` and `HOME` are
/// set.
pub fn cache_place(off: bool, given: bool, xdg: bool, home: bool) -> (r: CachePlace)
    ensures
        r == cache_place_of(off, given, xdg, home),
{
    if off {
        CachePlace::Off
    } else if given {
        CachePlace::Given
    } else if xdg {
        CachePlace::Xdg
    } else if home {
        CachePlace::Home
    } else {
        CachePlace::Unknown
    }
}

/// The keys after the given ones from `i` on have been added, as far as the
/// first that is refused; and that refusal.
pub open spec fn with_specs(keys: KeysView, specs: Seq<Seq<char>>, i: int) -> (
    KeysView,
    Option<KeyFault>,
)
    decreases specs.len() - i,
{
    if i >= specs.len() {
        (keys, None)
    } else {
        match keys::spec_of(specs[i]) {
            Err(e) => (keys, Some(e)),
            Ok(s) => with_specs(keys::with_spec(keys, s), specs, i + 1),
        }
    }
}

/// Add the keys that were given, in their order; the first that is refused
/// ends it.
pub fn add_keys(keys: &mut KeyStore, specs: &Vec<String>) -> (r: Result<(), KeyError>)
    requires
        old(keys).wf(),
    ensures
        final(keys).wf(),
        ({
            let (after, refused) = with_specs(old(keys)@, super::line_views(specs@), 0);
            final(keys)@ == after && match (refused, r) {
                (None, Ok(_)) => true,
                (Some(f), Err(e)) => e@ == f,
                _ => false,
            }
        }),
{
    let ghost all = super::line_views(specs@);
    let ghost outcome = with_specs(keys@, all, 0);
    let mut i: usize = 0;
    while i < specs.len()
        invariant
            keys.wf(),
            i <= specs@.len(),
            all == super::line_views(specs@),
            outcome == with_specs(keys@, all, i as int),
            outcome == with_specs(old(keys)@, super::line_views(specs@), 0),
        decreases specs@.len() - i,
    {
        assert(all[i as int] == specs@[i as int]@);
        match keys.insert_spec(specs[i].as_str()) {
            Ok(_) => {},
            Err(e) => {
                return Err(e);
            },
        }
        i += 1;
    }
    Ok(())
}

} // verus!
