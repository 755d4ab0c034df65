//! Reading a byte range in pieces, several of which may be on their way at
//! once.

use vstd::prelude::*;

verus! {

/// What came back for a piece.
#[derive(Debug)]
pub enum Piece {
    Data(Vec<u8>),
    /// The file has ended.
    Eof,
    Failed(String),
}

/// A `Piece`, as the contracts see it.
pub enum PieceView {
    Data(Seq<u8>),
    Eof,
    Failed(Seq<char>),
}

impl View for Piece {
    type V = PieceView;

    open spec fn view(&self) -> PieceView {
        match self {
            Piece::Data(d) => PieceView::Data(d@),
            Piece::Eof => PieceView::Eof,
            Piece::Failed(e) => PieceView::Failed(e@),
        }
    }
}

pub open spec fn piece_views(v: Seq<Piece>) -> Seq<PieceView> {
    v.map_values(|p: Piece| p@)
}

/// How a transfer goes on.
pub enum Progress {
    /// There may be more to read.
    More,
    /// The file has ended.
    Done,
    Failed(Seq<char>),
}

/// The pieces to ask for together: where each begins and how long it is, each
/// at most `largest` long, and at most `most` of them.
pub open spec fn plan(base: int, remaining: int, largest: int, most: nat) -> Seq<(int, int)>
    decreases most,
{
    if remaining <= 0 || most == 0 {
        Seq::empty()
    } else {
        let n = if largest < remaining {
            largest
        } else {
            remaining
        };
        seq![(base, n)] + plan(base + n, remaining - n, largest, (most - 1) as nat)
    }
}

/// What `out` becomes with the pieces that came back, strictly in order: the
/// pieces behind a short one cover a range that has not been filled yet, so
/// they are dropped. Only an empty answer or an end means that the file has
/// ended.
pub open spec fn absorbed(out: Seq<u8>, wants: Seq<(int, int)>, pieces: Seq<PieceView>) -> (
    Seq<u8>,
    Progress,
)
    decreases pieces.len(),
{
    if pieces.len() == 0 || wants.len() == 0 {
        (out, Progress::More)
    } else {
        match pieces[0] {
            PieceView::Eof => (out, Progress::Done),
            PieceView::Failed(e) => (out, Progress::Failed(e)),
            PieceView::Data(d) => if d.len() == 0 {
                (out, Progress::Done)
            } else if d.len() < wants[0].1 {
                (out + d, Progress::More)
            } else {
                absorbed(out + d, wants.skip(1), pieces.skip(1))
            },
        }
    }
}

/// A piece is what the file has at `at`: as much as was asked for or less, and
/// nothing only where the file has ended.
pub open spec fn honest(file: Seq<u8>, at: int, want: int, p: PieceView) -> bool {
    match p {
        PieceView::Data(d) => {
            &&& d.len() <= want
            &&& d.len() == 0 ==> at >= file.len()
            &&& d.len() > 0 ==> at + d.len() <= file.len() && d == file.subrange(at, at + d.len())
        },
        PieceView::Eof => at >= file.len(),
        PieceView::Failed(_) => true,
    }
}

/// What has been read so far is the file from `offset` on.
pub open spec fn is_read(file: Seq<u8>, offset: int, out: Seq<u8>) -> bool {
    out.len() > 0 ==> offset + out.len() <= file.len() && out == file.subrange(
        offset,
        offset + out.len(),
    )
}

/// However short the answers are, what is put together of honest ones is the
/// file from where the reading began, without a gap; and it ends only where
/// the file does.
pub proof fn law_transfers_are_contiguous(
    file: Seq<u8>,
    offset: int,
    out: Seq<u8>,
    remaining: int,
    largest: int,
    most: nat,
    pieces: Seq<PieceView>,
)
    requires
        0 <= offset,
        0 < largest,
        is_read(file, offset, out),
        ({
            let wants = plan(offset + out.len(), remaining, largest, most);
            pieces.len() <= wants.len() && forall|k: int|
                0 <= k < pieces.len() ==> honest(file, wants[k].0, wants[k].1, #[trigger] pieces[k])
        }),
    ensures
        ({
            let (got, progress) = absorbed(
                out,
                plan(offset + out.len(), remaining, largest, most),
                pieces,
            );
            &&& is_read(file, offset, got)
            &&& progress is Done ==> offset + got.len() >= file.len()
            &&& got.len() <= out.len() + if remaining > 0 {
                remaining
            } else {
                0
            }
        }),
    decreases pieces.len(),
{
    let base = offset + out.len();
    let wants = plan(base, remaining, largest, most);
    if pieces.len() > 0 {
        let (at, want) = wants[0];
        assert(honest(file, wants[0].0, wants[0].1, pieces[0]));
        match pieces[0] {
            PieceView::Data(d) => {
                if d.len() > 0 {
                    let next = out + d;
                    assert(next =~= file.subrange(offset, offset + next.len()));
                    if d.len() >= want {
                        let rest = pieces.skip(1);
                        let more = plan(base + want, remaining - want, largest, (most - 1) as nat);
                        assert(wants.skip(1) =~= more);
                        assert forall|k: int| 0 <= k < rest.len() implies honest(
                            file,
                            more[k].0,
                            more[k].1,
                            #[trigger] rest[k],
                        ) by {
                            assert(rest[k] == pieces[k + 1]);
                            assert(more[k] == wants[k + 1]);
                        }
                        law_transfers_are_contiguous(
                            file,
                            offset,
                            next,
                            remaining - want,
                            largest,
                            (most - 1) as nat,
                            rest,
                        );
                    }
                }
            },
            _ => {},
        }
    }
}

/// A byte range that is being read.
pub struct Transfer {
    offset: u64,
    len: usize,
    largest: usize,
    most: usize,
    out: Vec<u8>,
    ended: bool,
}

impl Transfer {
    /// The range that is being read: where it begins and how long it is.
    pub closed spec fn range(&self) -> (u64, usize) {
        (self.offset, self.len)
    }

    /// How long a piece may be, and how many may be on their way.
    pub closed spec fn limits(&self) -> (usize, usize) {
        (self.largest, self.most)
    }

    /// What has been read.
    pub closed spec fn got(&self) -> Seq<u8> {
        self.out@
    }

    /// The file has ended.
    pub closed spec fn ended(&self) -> bool {
        self.ended
    }

    /// The range can be counted.
    pub closed spec fn wf(&self) -> bool {
        self.offset + self.len <= u64::MAX && self.largest > 0
    }

    /// The pieces to ask for next; none where the transfer is over.
    pub open spec fn next(&self) -> Seq<(int, int)> {
        if self.ended() {
            Seq::empty()
        } else {
            plan(
                self.range().0 + self.got().len(),
                self.range().1 - self.got().len(),
                self.limits().0 as int,
                self.limits().1 as nat,
            )
        }
    }

    /// Begin to read a range in pieces of at most `largest`, at most `most` of
    /// them on their way at once.
    pub fn new(offset: u64, len: usize, largest: usize, most: usize) -> (r: Transfer)
        requires
            offset + len <= u64::MAX,
            largest > 0,
        ensures
            r.wf(),
            r.range() == (offset, len),
            r.limits() == (largest, most),
            r.got() == Seq::<u8>::empty(),
            !r.ended(),
    {
        Transfer { offset, len, largest, most, out: Vec::new(), ended: false }
    }

    /// The pieces to ask for next; none where the transfer is over.
    pub fn wants(&self) -> (r: Vec<(u64, usize)>)
        requires
            self.wf(),
        ensures
            want_views(r@) == self.next(),
    {
        let mut wants: Vec<(u64, usize)> = Vec::new();
        assert(want_views(wants@) =~= Seq::<(int, int)>::empty());
        if self.ended || self.out.len() >= self.len {
            return wants;
        }
        let mut base: u64 = self.offset + self.out.len() as u64;
        let mut remaining: usize = self.len - self.out.len();
        let mut more: usize = self.most;
        assert(want_views(wants@) + self.next() =~= self.next());
        while remaining > 0 && more > 0
            invariant
                base + remaining == self.offset + self.len,
                base + remaining <= u64::MAX,
                self.largest > 0,
                want_views(wants@) + plan(
                    base as int,
                    remaining as int,
                    self.largest as int,
                    more as nat,
                ) == self.next(),
            decreases more,
        {
            let n: usize = if self.largest < remaining {
                self.largest
            } else {
                remaining
            };
            let ghost before = want_views(wants@);
            let ghost rest = plan(
                base + n,
                remaining - n,
                self.largest as int,
                (more - 1) as nat,
            );
            wants.push((base, n));
            proof {
                assert(want_views(wants@) =~= before.push((base as int, n as int)));
                assert(before.push((base as int, n as int)) + rest =~= before + (seq![
                    (base as int, n as int),
                ] + rest));
            }
            base = base + n as u64;
            remaining = remaining - n;
            more = more - 1;
        }
        assert(want_views(wants@) + Seq::<(int, int)>::empty() =~= want_views(wants@));
        wants
    }

    /// Take what came back for the pieces that were asked for, in their order.
    pub fn absorb(&mut self, pieces: Vec<Piece>) -> (r: core::result::Result<(), String>)
        requires
            old(self).wf(),
        ensures
            final(self).wf(),
            final(self).range() == old(self).range(),
            final(self).limits() == old(self).limits(),
            ({
                let (got, progress) = absorbed(
                    old(self).got(),
                    old(self).next(),
                    piece_views(pieces@),
                );
                &&& final(self).got() == got
                &&& match progress {
                    Progress::More => r is Ok && final(self).ended() == old(self).ended(),
                    Progress::Done => r is Ok && final(self).ended(),
                    Progress::Failed(e) => r matches Err(x) && x@ == e && final(self).ended()
                        == old(self).ended(),
                }
            }),
    {
        let wants = self.wants();
        let ghost all = piece_views(pieces@);
        let ghost asked = want_views(wants@);
        let ghost begun = self.out@;
        let mut i: usize = 0;
        assert(all.skip(0) =~= all);
        assert(asked.skip(0) =~= asked);
        while i < pieces.len() && i < wants.len()
            invariant
                i <= pieces@.len(),
                i <= wants@.len(),
                all == piece_views(pieces@),
                asked == want_views(wants@),
                self.wf(),
                self.range() == old(self).range(),
                self.limits() == old(self).limits(),
                self.ended() == old(self).ended(),
                begun == old(self).got(),
                asked == old(self).next(),
                absorbed(begun, asked, all) == absorbed(
                    self.out@,
                    asked.skip(i as int),
                    all.skip(i as int),
                ),
            decreases pieces@.len() - i,
        {
            proof {
                assert(all.skip(i as int)[0] == pieces@[i as int]@);
                assert(asked.skip(i as int)[0].1 == wants@[i as int].1);
                assert(all.skip(i as int).skip(1) =~= all.skip(i + 1));
                assert(asked.skip(i as int).skip(1) =~= asked.skip(i + 1));
            }
            match &pieces[i] {
                Piece::Eof => {
                    self.ended = true;
                    return Ok(());
                },
                Piece::Failed(e) => {
                    return Err(crate::text::owned(e.as_str()));
                },
                Piece::Data(d) => {
                    if d.len() == 0 {
                        self.ended = true;
                        return Ok(());
                    }
                    let ghost before = self.out@;
                    self.out.extend_from_slice(d.as_slice());
                    assert(self.out@ =~= before + d@);
                    if d.len() < wants[i].1 {
                        return Ok(());
                    }
                },
            }
            i += 1;
        }
        Ok(())
    }

    /// What has been read.
    pub fn finish(self) -> (r: Vec<u8>)
        ensures
            r@ == self.got(),
    {
        self.out
    }
}

pub open spec fn want_views(v: Seq<(u64, usize)>) -> Seq<(int, int)> {
    v.map_values(|w: (u64, usize)| (w.0 as int, w.1 as int))
}

} // verus!
