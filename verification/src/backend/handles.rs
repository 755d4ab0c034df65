//! The remote file handles that are kept open.

use vstd::prelude::*;

use crate::recent;
use crate::recent::Recent;
use crate::text;

verus! {

/// Which handles are open: the files, the least recently used one first, and
/// the handle of each.
#[verifier::ext_equal]
pub struct HandlesView {
    pub order: Seq<u128>,
    pub handles: Map<u128, Seq<char>>,
    pub cap: nat,
}

impl HandlesView {
    /// After the handle of `file` was asked for.
    pub open spec fn after_get(self, file: u128) -> HandlesView {
        HandlesView { order: recent::touched(self.order, file), ..self }
    }

    /// The file that has to leave when `file` comes.
    pub open spec fn leaves(self, file: u128) -> Option<u128> {
        match recent::pushed(self.order, self.cap, file).0 {
            Some(k) if k != file => Some(k),
            _ => None,
        }
    }

    /// After `file` was opened.
    pub open spec fn after_keep(self, file: u128, handle: Seq<char>) -> HandlesView {
        let rest = match self.leaves(file) {
            Some(k) => self.handles.remove(k),
            None => self.handles,
        };
        HandlesView {
            order: recent::pushed(self.order, self.cap, file).1,
            handles: rest.insert(file, handle),
            ..self
        }
    }
}

/// Open handles, so many of them at most, by the number of their file.
pub struct Handles {
    open: Recent<(u128, String)>,
}

impl View for Handles {
    type V = HandlesView;

    closed spec fn view(&self) -> HandlesView {
        HandlesView {
            order: self.open@.order,
            handles: self.open@.values.map_values(|v: (u128, String)| v.1@),
            cap: self.open@.cap,
        }
    }
}

impl Handles {
    /// Each handle is kept with the number of its file.
    pub closed spec fn wf(&self) -> bool {
        &&& self.open.wf()
        &&& forall|k: u128| #[trigger]
            self.open@.values.contains_key(k) ==> self.open@.values[k].0 == k
    }

    /// No open handles yet.
    pub fn new(cap: usize) -> (r: Handles)
        requires
            0 < cap <= 0x10_0000,
        ensures
            r.wf(),
            r@ == (HandlesView { order: Seq::empty(), handles: Map::empty(), cap: cap as nat }),
    {
        let r = Handles { open: Recent::new(cap) };
        assert(r@.handles =~= Map::<u128, Seq<char>>::empty());
        r
    }

    /// The open handle of a file, which becomes the most recently used one.
    pub fn get(&mut self, file: u128) -> (r: Option<String>)
        requires
            old(self).wf(),
        ensures
            final(self).wf(),
            final(self)@ == old(self)@.after_get(file),
            match r {
                Some(h) => old(self)@.handles.contains_key(file) && h@ == old(self)@.handles[file],
                None => !old(self)@.handles.contains_key(file),
            },
    {
        match self.open.get(file) {
            Some(v) => Some(text::owned(v.1.as_str())),
            None => None,
        }
    }

    /// Keep the handle of a file that was opened. The handle that had to make
    /// room for it is handed back: it is to be closed, so that a long mount
    /// over many dats does not leave the server holding thousands of open
    /// files.
    pub fn keep(&mut self, file: u128, handle: String) -> (r: Option<String>)
        requires
            old(self).wf(),
        ensures
            final(self).wf(),
            final(self)@ == old(self)@.after_keep(file, handle@),
            match old(self)@.leaves(file) {
                Some(k) => old(self)@.handles.contains_key(k) && (r matches Some(h) && h@
                    == old(self)@.handles[k]),
                None => r is None,
            },
    {
        let ghost before = self.open@;
        let ghost kept = handle@;
        let out = self.open.put(file, (file, handle));
        proof {
            assert(self@.handles =~= old(self)@.after_keep(file, kept).handles);
            if let Some(k) = recent::pushed(before.order, before.cap, file).0 {
                assert(before.values[k].0 == k);
            }
        }
        match out {
            Some(v) => {
                if v.0 != file {
                    Some(v.1)
                } else {
                    None
                }
            },
            None => None,
        }
    }
}

} // verus!
