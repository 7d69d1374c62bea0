use vstd::prelude::*;

verus! {

/// An index range that, unlike a basic-block range, can be edited: it keeps
/// the list of indices still standing, so that deleted lines drop out of it.
#[derive(Debug)]
pub struct ModifiableCodeRange {
    pub start: usize,
    pub end: usize,
    pub rem: Vec<usize>,
}

impl ModifiableCodeRange {
    /// A fresh editable range over `[value.0, value.1)`: every index of the
    /// interval still stands.
    pub fn from(value: (usize, usize)) -> (r: ModifiableCodeRange)
        ensures
            r.rem@.len() == if value.1 >= value.0 {
                value.1 - value.0
            } else {
                0
            },
            forall|i: int| 0 <= i < r.rem@.len() ==> r.rem@[i] == value.0 + i,
    {
        let mut rem: Vec<usize> = Vec::new();
        let mut i: usize = value.0;
        while i < value.1
            invariant
                value.0 <= i,
                i <= value.1 || i == value.0,
                rem@.len() == i - value.0,
                forall|j: int| 0 <= j < rem@.len() ==> rem@[j] == value.0 + j,
            decreases value.1 - i,
        {
            rem.push(i);
            i = i + 1;
        }
        ModifiableCodeRange { start: value.0, end: value.1, rem }
    }

    /// Delete the line at position `idx` of the still-standing list; the
    /// indices around it close up.
    pub fn remove_rel(&mut self, idx: usize)
        requires
            idx < old(self).rem@.len(),
        ensures
            final(self).rem@ == old(self).rem@.remove(idx as int),
            final(self).start == old(self).start,
            final(self).end == old(self).end,
    {
        self.rem.remove(idx);
    }
}

} // verus!
