//! What a successful match hands back: the spans of the whole match and of
//! the capture groups.

use crate::runner::{find_name, names_distinct, names_view};
use std::ops::Range;
use vstd::prelude::*;
use vstd::slice::slice_subrange;

verus! {

/// The span of one capture: the elements from `start` up to `end`.
#[derive(Clone, Copy, Debug)]
pub struct CaptureLocation {
    pub start: usize,
    pub end: usize,
}

/// One matched part of an input.
#[derive(Debug)]
pub struct Match<'t, I> {
    input: &'t [I],
    start: usize,
    end: usize,
}

impl<'t, I> Match<'t, I> {
    #[verifier::type_invariant]
    spec fn inv(self) -> bool {
        self.start <= self.end <= self.input@.len()
    }

    /// The whole input that was matched against.
    pub closed spec fn source(&self) -> Seq<I> {
        self.input@
    }

    /// The offsets of the matched part: where it starts, and where it ends
    /// (exclusive).
    pub closed spec fn span(&self) -> (int, int) {
        (self.start as int, self.end as int)
    }

    /// The matched part lies inside the input.
    pub open spec fn in_source(&self) -> bool {
        0 <= self.span().0 <= self.span().1 <= self.source().len()
    }

    /// The offset at which the matched part starts.
    pub fn start(&self) -> (r: usize)
        ensures
            r == self.span().0,
            self.in_source(),
    {
        proof {
            use_type_invariant(self);
        }
        self.start
    }

    /// The offset at which the matched part ends (exclusive).
    pub fn end(&self) -> (r: usize)
        ensures
            r == self.span().1,
            self.in_source(),
    {
        proof {
            use_type_invariant(self);
        }
        self.end
    }

    /// The offsets of the matched part as a range.
    pub fn range(&self) -> (r: Range<usize>)
        ensures
            r.start == self.span().0,
            r.end == self.span().1,
            self.in_source(),
    {
        proof {
            use_type_invariant(self);
        }
        self.start..self.end
    }

    /// The matched elements.
    pub fn values(&self) -> (r: &'t [I])
        ensures
            r@ == self.source().subrange(self.span().0, self.span().1),
            self.in_source(),
    {
        proof {
            use_type_invariant(self);
        }
        slice_subrange(self.input, self.start, self.end)
    }
}

/// The captures of one match. Capture 0 is the whole match; the capture
/// groups follow in the order in which the pattern numbers them.
#[derive(Debug)]
pub struct Captures<'t, I> {
    input: &'t [I],
    capture_locations: Vec<Option<CaptureLocation>>,
    named_capture_index: Vec<(String, usize)>,
}

/// The span that a list of locations holds for capture `g`.
pub open spec fn span_in(locations: Seq<Option<CaptureLocation>>, g: int) -> Option<(int, int)> {
    if 0 <= g < locations.len() {
        match locations[g] {
            Some(l) => Some((l.start as int, l.end as int)),
            None => None,
        }
    } else {
        None
    }
}

/// Every location lies inside an input of `len` elements.
pub open spec fn locations_fit(locations: Seq<Option<CaptureLocation>>, len: int) -> bool {
    forall|g: int|
        0 <= g < locations.len() ==> ((#[trigger] locations[g]) matches Some(l) ==> l.start
            <= l.end <= len)
}

impl<'t, I> Captures<'t, I> {
    #[verifier::type_invariant]
    spec fn inv(self) -> bool {
        &&& locations_fit(self.capture_locations@, self.input@.len() as int)
        &&& names_distinct(self.named_capture_index@)
    }

    /// The whole input that was matched against.
    pub closed spec fn source(&self) -> Seq<I> {
        self.input@
    }

    /// The number of captures, the whole match included.
    pub closed spec fn count(&self) -> nat {
        self.capture_locations@.len()
    }

    /// The span of capture `g`; `None` where there is no such capture or it
    /// took no part in the match.
    pub closed spec fn span(&self, g: int) -> Option<(int, int)> {
        span_in(self.capture_locations@, g)
    }

    /// The capture group that each name stands for.
    pub closed spec fn names(&self) -> Map<Seq<char>, int> {
        names_view(self.named_capture_index@)
    }

    /// Every span lies inside the input, and there is none beyond `count`.
    pub open spec fn in_source(&self) -> bool {
        forall|g: int| #[trigger]
            self.span(g) matches Some(s) ==> 0 <= g < self.count() && 0 <= s.0 <= s.1
                <= self.source().len()
    }

    /// Puts the captures of a match together.
    pub(crate) fn new(
        input: &'t [I],
        capture_locations: Vec<Option<CaptureLocation>>,
        named_capture_index: Vec<(String, usize)>,
    ) -> (c: Self)
        requires
            locations_fit(capture_locations@, input@.len() as int),
            names_distinct(named_capture_index@),
        ensures
            c.source() == input@,
            c.count() == capture_locations@.len(),
            forall|g: int| c.span(g) == span_in(capture_locations@, g),
            c.names() == names_view(named_capture_index@),
            c.in_source(),
    {
        Captures { input, capture_locations, named_capture_index }
    }

    /// The match of capture `index`, or `None` where there is no such
    /// capture or it took no part in the match.
    pub fn get(&self, index: usize) -> (r: Option<Match<'t, I>>)
        ensures
            match self.span(index as int) {
                Some(s) => r matches Some(m) && m.span() == s && m.source() == self.source(),
                None => r is None,
            },
            self.in_source(),
    {
        proof {
            use_type_invariant(self);
        }
        if index < self.capture_locations.len() {
            match self.capture_locations[index] {
                Some(location) => Some(
                    Match { input: self.input, start: location.start, end: location.end },
                ),
                None => None,
            }
        } else {
            None
        }
    }

    /// The match of the capture group called `name`, or `None` where no
    /// group of that name took part in the match.
    pub fn name(&self, name: &str) -> (r: Option<Match<'t, I>>)
        ensures
            match (if self.names().contains_key(name@) {
                self.span(self.names()[name@])
            } else {
                None
            }) {
                Some(s) => r matches Some(m) && m.span() == s && m.source() == self.source(),
                None => r is None,
            },
            self.in_source(),
    {
        proof {
            use_type_invariant(self);
        }
        match find_name(&self.named_capture_index, name) {
            Some(index) => self.get(index),
            None => None,
        }
    }

    /// The number of captures, the whole match included.
    pub fn len(&self) -> (n: usize)
        ensures
            n == self.count(),
            self.in_source(),
    {
        proof {
            use_type_invariant(self);
        }
        self.capture_locations.len()
    }
}

} // verus!
