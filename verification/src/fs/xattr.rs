//! Extended attributes, as the kernel asks for them.

use vstd::prelude::*;

use crate::text;
use crate::tree;
use crate::tree::listing;

verus! {

/// What a request for attributes is answered: how much there is, where no room
/// was offered for it, or the bytes themselves.
#[derive(Debug)]
pub enum XattrReply {
    Size(u32),
    Data(Vec<u8>),
}

/// An `XattrReply`, as the contracts see it; `Range` is for what does not fit.
pub enum XattrView {
    Size(u32),
    Data(Seq<u8>),
    Range,
}

/// What is answered where there are `bytes` to give and room for `size`.
pub open spec fn reply_of(bytes: Seq<u8>, size: u32) -> XattrView {
    let len = (bytes.len() as usize) as u32;
    if size == 0 {
        XattrView::Size(len)
    } else if len <= size {
        XattrView::Data(bytes)
    } else {
        XattrView::Range
    }
}

/// Answer with `bytes`, as far as there is room; `None` where there is not.
pub fn reply(bytes: Vec<u8>, size: u32) -> (r: Option<XattrReply>)
    ensures
        match r {
            Some(XattrReply::Size(n)) => reply_of(bytes@, size) == XattrView::Size(n),
            Some(XattrReply::Data(d)) => reply_of(bytes@, size) == XattrView::Data(d@),
            None => reply_of(bytes@, size) is Range,
        },
{
    let len: u32 = bytes.len() as u32;
    if size == 0 {
        Some(XattrReply::Size(len))
    } else if len <= size {
        Some(XattrReply::Data(bytes))
    } else {
        None
    }
}

/// The value of the first attribute with a name.
pub open spec fn value(attrs: Seq<listing::Attr>, name: Seq<char>) -> Option<Seq<char>>
    decreases attrs.len(),
{
    if attrs.len() == 0 {
        None
    } else if attrs[0].0 == name {
        Some(attrs[0].1)
    } else {
        value(attrs.skip(1), name)
    }
}

/// The names of some attributes, each ended by a NUL.
pub open spec fn names(attrs: Seq<listing::Attr>) -> Seq<u8>
    decreases attrs.len(),
{
    if attrs.len() == 0 {
        Seq::empty()
    } else {
        names(attrs.drop_last()) + text::utf8(attrs.last().0) + seq![0u8]
    }
}

/// The value of the first attribute with a name.
pub fn find(attrs: &Vec<(&'static str, String)>, name: &str) -> (r: Option<String>)
    ensures
        match r {
            Some(v) => value(tree::attr_views(attrs@), name@) == Some(v@),
            None => value(tree::attr_views(attrs@), name@) is None,
        },
{
    let ghost all = tree::attr_views(attrs@);
    let mut i: usize = 0;
    assert(all.skip(0) =~= all);
    while i < attrs.len()
        invariant
            i <= attrs@.len(),
            all == tree::attr_views(attrs@),
            value(all, name@) == value(all.skip(i as int), name@),
        decreases attrs@.len() - i,
    {
        proof {
            assert(all.skip(i as int)[0] == all[i as int]);
            assert(all.skip(i as int).skip(1) =~= all.skip(i + 1));
        }
        if text::same_text(attrs[i].0, name) {
            return Some(text::owned(attrs[i].1.as_str()));
        }
        i += 1;
    }
    None
}

/// The names of some attributes, each ended by a NUL.
pub fn name_list(attrs: &Vec<(&'static str, String)>) -> (r: Vec<u8>)
    ensures
        r@ == names(tree::attr_views(attrs@)),
{
    let ghost all = tree::attr_views(attrs@);
    let mut out: Vec<u8> = Vec::new();
    let mut i: usize = 0;
    while i < attrs.len()
        invariant
            i <= attrs@.len(),
            all == tree::attr_views(attrs@),
            out@ == names(all.take(i as int)),
        decreases attrs@.len() - i,
    {
        proof {
            assert(all.take(i + 1).drop_last() =~= all.take(i as int));
            assert(all.take(i + 1).last() == all[i as int]);
        }
        let mut name = text::bytes_of(attrs[i].0);
        out.append(&mut name);
        out.push(0);
        assert(out@ =~= names(all.take(i + 1)));
        i += 1;
    }
    assert(all.take(i as int) =~= all);
    out
}

} // verus!
