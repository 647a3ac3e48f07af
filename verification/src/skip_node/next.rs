use vstd::prelude::*;

verus! {

/// Whether a link joins two nodes of one group (`Brother`) or crosses into the
/// next group of the same level (`OuterBrother`).
#[derive(Debug, Clone, Copy)]
pub enum NextMode {
    Brother,
    OuterBrother,
}

/// A link to the node at index `ptr` of the same level.
#[derive(Debug, Clone, Copy)]
pub struct Next {
    pub mode: NextMode,
    pub ptr: usize,
}

impl Next {
    pub fn new(ptr: usize) -> (r: Self)
        ensures
            r == (Next { mode: NextMode::Brother, ptr }),
    {
        Next { mode: NextMode::Brother, ptr }
    }

    /// The linked node, where it lies in the same group.
    pub fn next_brother(&self) -> (r: Option<usize>)
        ensures
            r == (if self.mode is Brother { Some(self.ptr) } else { None::<usize> }),
    {
        match self.mode {
            NextMode::Brother => Some(self.ptr),
            NextMode::OuterBrother => None,
        }
    }

    pub fn next(&self) -> (r: usize)
        ensures
            r == self.ptr,
    {
        self.ptr
    }

    pub fn as_brother(&mut self)
        ensures
            *final(self) == (Next { mode: NextMode::Brother, ptr: old(self).ptr }),
    {
        self.mode = NextMode::Brother;
    }

    pub fn split(&mut self)
        ensures
            *final(self) == (Next { mode: NextMode::OuterBrother, ptr: old(self).ptr }),
    {
        self.mode = NextMode::OuterBrother;
    }
}

} // verus!
