//! Pieces: contiguous ranges of one backing buffer.

use vstd::prelude::*;

verus! {

/// Which backing buffer a piece's range points into: the original text fixed
/// at construction, or the append-only buffer of inserted characters.
#[derive(Clone, Copy, Debug, PartialEq, Eq, Structural)]
pub enum Which {
    Original,
    Added,
}

/// A non-empty range `[start, end)` of characters in one backing buffer.
/// Pieces are immutable values; every edit builds new pieces.
#[derive(Clone, Copy, Debug, PartialEq, Eq, Structural)]
pub struct Piece {
    pub which: Which,
    pub start: usize,
    pub end: usize,
}

impl Piece {
    /// The range is non-empty and lies inside the buffer it names.
    pub open spec fn wf(self, orig_len: nat, added_len: nat) -> bool {
        &&& self.start < self.end
        &&& match self.which {
            Which::Original => self.end <= orig_len,
            Which::Added => self.end <= added_len,
        }
    }

    pub open spec fn spec_len(self) -> int {
        self.end - self.start
    }

    /// The characters the piece denotes, given the two backing buffers.
    pub open spec fn content(self, orig: Seq<char>, added: Seq<char>) -> Seq<char> {
        match self.which {
            Which::Original => orig.subrange(self.start as int, self.end as int),
            Which::Added => added.subrange(self.start as int, self.end as int),
        }
    }

    /// `self` can be merged with a piece that directly follows it: same
    /// buffer, and `self` ends exactly where `other` starts.
    pub open spec fn mergeable(self, other: Piece) -> bool {
        self.which == other.which && self.end == other.start
    }

    /// The single piece covering both ranges of a mergeable pair.
    pub open spec fn merged(self, other: Piece) -> Piece {
        Piece { which: self.which, start: self.start, end: other.end }
    }

    pub fn len(&self) -> (n: usize)
        requires
            self.start <= self.end,
        ensures
            n == self.spec_len(),
    {
        self.end - self.start
    }

    /// Cut the piece in two at offset `index` (relative to the piece).
    /// A side that would be empty is absent.
    pub fn split(&self, index: usize) -> (r: (Option<Piece>, Option<Piece>))
        requires
            self.start < self.end,
            index <= self.spec_len(),
        ensures
            index == 0 ==> r == (None::<Piece>, Some(*self)),
            index == self.spec_len() ==> r == (Some(*self), None::<Piece>),
            0 < index < self.spec_len() ==> r == (
                Some(Piece { which: self.which, start: self.start, end: (self.start + index) as usize }),
                Some(Piece { which: self.which, start: (self.start + index) as usize, end: self.end }),
            ),
    {
        let n = self.len();
        if index == 0 {
            (None, Some(*self))
        } else if index == n {
            (Some(*self), None)
        } else {
            (
                Some(Piece { which: self.which, start: self.start, end: self.start + index }),
                Some(Piece { which: self.which, start: self.start + index, end: self.end }),
            )
        }
    }

    /// Remove the single character at offset `index` (relative to the piece),
    /// returning the pieces covering everything around it; a side that would
    /// be empty is absent. `index == len` removes nothing and hands the whole
    /// piece back on the left.
    pub fn remove_char(&self, index: usize) -> (r: (Option<Piece>, Option<Piece>))
        requires
            self.start < self.end,
            index <= self.spec_len(),
        ensures
            index == self.spec_len() ==> r == (Some(*self), None::<Piece>),
            index < self.spec_len() ==> r == (
                if index == 0 { None::<Piece> } else {
                    Some(Piece { which: self.which, start: self.start, end: (self.start + index) as usize })
                },
                if index + 1 == self.spec_len() { None::<Piece> } else {
                    Some(Piece { which: self.which, start: (self.start + index + 1) as usize, end: self.end })
                },
            ),
    {
        let n = self.len();
        if index == n {
            return (Some(*self), None);
        }
        let left = if index == 0 {
            None
        } else {
            Some(Piece { which: self.which, start: self.start, end: self.start + index })
        };
        let right = if index + 1 == n {
            None
        } else {
            Some(Piece { which: self.which, start: self.start + index + 1, end: self.end })
        };
        (left, right)
    }

    /// Merge with a directly following piece of the same buffer, if the two
    /// ranges are contiguous.
    pub fn try_merge(&self, other: &Piece) -> (r: Option<Piece>)
        ensures
            r == (if self.mergeable(*other) { Some(self.merged(*other)) } else { None::<Piece> }),
    {
        if self.which == other.which && self.end == other.start {
            Some(Piece { which: self.which, start: self.start, end: other.end })
        } else {
            None
        }
    }
}

/// Merging a mergeable pair concatenates exactly the two pieces' contents.
pub proof fn lemma_merged_content(a: Piece, b: Piece, orig: Seq<char>, added: Seq<char>)
    requires
        a.mergeable(b),
        a.wf(orig.len(), added.len()),
        b.wf(orig.len(), added.len()),
    ensures
        a.merged(b).wf(orig.len(), added.len()),
        a.merged(b).content(orig, added) == a.content(orig, added) + b.content(orig, added),
{
    assert(a.merged(b).content(orig, added) =~= a.content(orig, added) + b.content(orig, added));
}

} // verus!
