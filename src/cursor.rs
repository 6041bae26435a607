//! A cursor over a fixed number of frames that can step back by one, so that
//! the frame which ends the data phase is offered again to the next phase.

use vstd::prelude::*;

verus! {

pub struct Cursor {
    len: usize,
    pos: usize,
}

impl Cursor {
    pub closed spec fn len_spec(&self) -> nat {
        self.len as nat
    }

    /// The index of the next frame to hand out.
    pub closed spec fn pos_spec(&self) -> nat {
        self.pos as nat
    }

    pub closed spec fn wf(&self) -> bool {
        self.pos <= self.len
    }

    /// A cursor before the first of `len` frames.
    pub fn new(len: usize) -> (r: Cursor)
        ensures
            r.wf(),
            r.len_spec() == len,
            r.pos_spec() == 0,
    {
        Cursor { len, pos: 0 }
    }

    /// The index of the next frame, and the cursor moves past it; `None` once
    /// every frame was handed out.
    pub fn next(&mut self) -> (r: Option<usize>)
        requires
            old(self).wf(),
        ensures
            final(self).wf(),
            final(self).len_spec() == old(self).len_spec(),
            old(self).pos_spec() < old(self).len_spec() ==> r == Some(old(self).pos_spec() as usize)
                && final(self).pos_spec() == old(self).pos_spec() + 1,
            old(self).pos_spec() == old(self).len_spec() ==> r is None && final(self).pos_spec()
                == old(self).pos_spec(),
    {
        if self.pos == self.len {
            None
        } else {
            let i = self.pos;
            self.pos = self.pos + 1;
            Some(i)
        }
    }

    /// Steps back by one frame, unless at the start.
    pub fn step_back(&mut self)
        requires
            old(self).wf(),
        ensures
            final(self).wf(),
            final(self).len_spec() == old(self).len_spec(),
            final(self).pos_spec() == if old(self).pos_spec() > 0 {
                old(self).pos_spec() - 1
            } else {
                0
            },
    {
        if self.pos > 0 {
            self.pos = self.pos - 1;
        }
    }
}

} // verus!
