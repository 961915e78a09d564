//! Positions, spans and edits: the coordinates that every pass shares.

use vstd::prelude::*;

verus! {

/// A place in a text: the line, counted from 1, and the column, counted
/// from 0 in characters.
#[derive(Clone, Copy, Debug, PartialEq, Eq, Structural)]
pub struct Position {
    pub line: usize,
    pub column: usize,
}

impl Position {
    /// Strictly earlier in the text: by line, then by column.
    pub open spec fn precedes(self, other: Position) -> bool {
        self.line < other.line || (self.line == other.line && self.column < other.column)
    }

    /// Earlier in the text, or the same place.
    pub open spec fn reaches(self, other: Position) -> bool {
        self.precedes(other) || self == other
    }

    /// The place at `line` and `column`.
    pub fn new(line: usize, column: usize) -> (p: Position)
        ensures
            p.line == line,
            p.column == column,
    {
        Position { line, column }
    }

    /// Whether this place is strictly earlier than `other`.
    pub fn is_before(&self, other: &Position) -> (r: bool)
        ensures
            r == self.precedes(*other),
    {
        self.line < other.line || (self.line == other.line && self.column < other.column)
    }

    /// Whether this is the place `other`.
    pub fn is_at(&self, other: &Position) -> (r: bool)
        ensures
            r == (*self == *other),
    {
        self.line == other.line && self.column == other.column
    }

    /// Whether this place is `other` or earlier.
    pub fn is_at_or_before(&self, other: &Position) -> (r: bool)
        ensures
            r == self.reaches(*other),
    {
        self.is_before(other) || self.is_at(other)
    }
}

/// A half-open stretch of text. One whose ends are equal is a point of
/// insertion.
#[derive(Clone, Copy, Debug, PartialEq, Eq, Structural)]
pub struct Extent {
    pub start: Position,
    pub end: Position,
}

impl Extent {
    /// The order in which edits are kept: by start, then by end.
    pub open spec fn key_le(self, other: Extent) -> bool {
        self.start.precedes(other.start) || (self.start == other.start && self.end.reaches(
            other.end,
        ))
    }

    /// Whether the span is empty: a point of insertion.
    pub open spec fn is_point(self) -> bool {
        self.start == self.end
    }

    /// The stretch from `start` up to `end`.
    pub fn new(start: Position, end: Position) -> (s: Extent)
        ensures
            s.start == start,
            s.end == end,
    {
        Extent { start, end }
    }

    /// The point of insertion at `at`.
    pub fn point(at: Position) -> (s: Extent)
        ensures
            s.start == at,
            s.end == at,
    {
        Extent { start: at, end: at }
    }

    /// Whether this span comes at or before `other` in the order of edits.
    pub fn sorts_at_or_before(&self, other: &Extent) -> (r: bool)
        ensures
            r == self.key_le(*other),
    {
        self.start.is_before(&other.start) || (self.start.is_at(&other.start)
            && self.end.is_at_or_before(&other.end))
    }

    /// Whether this is the span `other`.
    pub fn same(&self, other: &Extent) -> (r: bool)
        ensures
            r == (*self == *other),
    {
        self.start.is_at(&other.start) && self.end.is_at(&other.end)
    }
}

/// One change to a text: what stands in `span` gives way to `text`.
#[derive(Debug, PartialEq, Eq)]
pub struct Edit {
    pub span: Extent,
    pub text: String,
}

/// An edit as specifications see it.
pub struct EditView {
    pub span: Extent,
    pub text: Seq<char>,
}

impl View for Edit {
    type V = EditView;

    open spec fn view(&self) -> EditView {
        EditView { span: self.span, text: self.text@ }
    }
}

/// The views of a run of edits.
pub open spec fn edit_views(edits: Seq<Edit>) -> Seq<EditView> {
    Seq::new(edits.len(), |i: int| edits[i]@)
}

/// Sorted by start, then by end.
pub open spec fn sorted(edits: Seq<EditView>) -> bool {
    forall|i: int, j: int|
        0 <= i < j < edits.len() ==> (#[trigger] edits[i]).span.key_le((#[trigger] edits[j]).span)
}

/// No two edits share a span unless both are points of insertion.
pub open spec fn ranges_unique(edits: Seq<EditView>) -> bool {
    forall|i: int, j: int|
        0 <= i < j < edits.len() && (#[trigger] edits[i]).span == (#[trigger] edits[j]).span
            ==> edits[i].span.is_point()
}

/// How many edits at the head of `edits` sort at or before `span`. In a
/// sorted run this is the place just behind the last of them.
pub open spec fn rank(edits: Seq<EditView>, span: Extent) -> int
    decreases edits.len(),
{
    if edits.len() == 0 || !edits[0].span.key_le(span) {
        0
    } else {
        1 + rank(edits.drop_first(), span)
    }
}

/// `edits` with `e` registered. A point of insertion goes behind every edit
/// that sorts at or before it, so insertions at one place keep the order in
/// which they came. An edit over a stretch of text takes the place of one
/// registered earlier for the same stretch.
pub open spec fn registered(edits: Seq<EditView>, e: EditView) -> Seq<EditView> {
    let r = rank(edits, e.span);
    if !e.span.is_point() && 0 < r <= edits.len() && edits[r - 1].span == e.span {
        edits.update(r - 1, e)
    } else {
        edits.insert(r, e)
    }
}

/// The rank lies within the run; the edits before it sort at or before
/// `span`, and the one at it does not.
pub proof fn lemma_rank_bounds(edits: Seq<EditView>, span: Extent)
    ensures
        0 <= rank(edits, span) <= edits.len(),
        forall|i: int| 0 <= i < rank(edits, span) ==> (#[trigger] edits[i]).span.key_le(span),
        rank(edits, span) < edits.len() ==> !edits[rank(edits, span)].span.key_le(span),
    decreases edits.len(),
{
    if edits.len() == 0 || !edits[0].span.key_le(span) {
    } else {
        let rest = edits.drop_first();
        lemma_rank_bounds(rest, span);
        assert forall|i: int| 0 <= i < rank(edits, span) implies (#[trigger] edits[i]).span.key_le(
            span,
        ) by {
            if i > 0 {
                assert(edits[i] == rest[i - 1]);
            }
        }
    }
}

/// The order of spans is total and transitive.
pub proof fn lemma_key_order(a: Extent, b: Extent, c: Extent)
    ensures
        a.key_le(b) || b.key_le(a),
        a.key_le(b) && b.key_le(c) ==> a.key_le(c),
        a.key_le(b) && b.key_le(a) ==> a == b,
{
}

/// Registering an edit keeps a run sorted, and keeps its spans over
/// stretches of text distinct.
pub proof fn lemma_registered_sorted(edits: Seq<EditView>, e: EditView)
    requires
        sorted(edits),
        ranges_unique(edits),
    ensures
        sorted(registered(edits, e)),
        ranges_unique(registered(edits, e)),
{
    let r = rank(edits, e.span);
    lemma_rank_bounds(edits, e.span);
    let out = registered(edits, e);
    assert forall|i: int| r <= i < edits.len() implies !(#[trigger] edits[i]).span.key_le(
        e.span,
    ) by {
        if i > r {
            lemma_key_order(edits[r].span, edits[i].span, e.span);
        }
    }
    if !e.span.is_point() && 0 < r <= edits.len() && edits[r - 1].span == e.span {
        assert forall|i: int, j: int| 0 <= i < j < out.len() implies (#[trigger] out[i]).span.key_le(
            (#[trigger] out[j]).span,
        ) by {
            assert(out[i].span == edits[i].span);
            assert(out[j].span == edits[j].span);
        }
        assert forall|i: int, j: int|
            0 <= i < j < out.len() && (#[trigger] out[i]).span == (#[trigger] out[j]).span
            implies out[i].span.is_point() by {
            assert(out[i].span == edits[i].span);
            assert(out[j].span == edits[j].span);
        }
    } else {
        assert forall|i: int, j: int| 0 <= i < j < out.len() implies (#[trigger] out[i]).span.key_le(
            (#[trigger] out[j]).span,
        ) by {
            if j < r {
                assert(out[i] == edits[i] && out[j] == edits[j]);
            } else if j == r {
                assert(out[i] == edits[i]);
            } else if i < r {
                assert(out[i] == edits[i] && out[j] == edits[j - 1]);
            } else if i == r {
                assert(out[j] == edits[j - 1]);
                lemma_key_order(e.span, edits[j - 1].span, e.span);
            } else {
                assert(out[i] == edits[i - 1] && out[j] == edits[j - 1]);
            }
        }
        assert forall|i: int, j: int|
            0 <= i < j < out.len() && (#[trigger] out[i]).span == (#[trigger] out[j]).span
            implies out[i].span.is_point() by {
            if j < r {
                assert(out[i] == edits[i] && out[j] == edits[j]);
            } else if j == r {
                assert(out[i] == edits[i]);
                if i < r - 1 {
                    lemma_key_order(edits[i].span, edits[r - 1].span, e.span);
                }
            } else if i < r {
                assert(out[i] == edits[i] && out[j] == edits[j - 1]);
            } else if i == r {
                assert(out[j] == edits[j - 1]);
            } else {
                assert(out[i] == edits[i - 1] && out[j] == edits[j - 1]);
            }
        }
    }
}

/// Whether the edits keep out of each other's way: none ends before it
/// starts, each ends where the next starts or before, and two that start
/// at one place are both points of insertion. Such edits may stand at the
/// end of a replaced stretch, but not inside one.
pub open spec fn well_formed(edits: Seq<EditView>) -> bool {
    &&& forall|i: int|
        0 <= i < edits.len() ==> (#[trigger] edits[i]).span.start.reaches(edits[i].span.end)
    &&& forall|i: int, j: int|
        0 <= i < j < edits.len() ==> (#[trigger] edits[i]).span.end.reaches(
            (#[trigger] edits[j]).span.start,
        )
    &&& forall|i: int, j: int|
        0 <= i < j < edits.len() && (#[trigger] edits[i]).span.start == (
        #[trigger] edits[j]).span.start ==> edits[i].span.is_point() && edits[j].span.is_point()
}

/// The edits of one pass, kept sorted by start and then by end.
pub struct EditSet {
    edits: Vec<Edit>,
}

impl View for EditSet {
    type V = Seq<EditView>;

    closed spec fn view(&self) -> Seq<EditView> {
        edit_views(self.edits@)
    }
}

impl EditSet {
    #[verifier::type_invariant]
    spec fn well_formed(self) -> bool {
        sorted(edit_views(self.edits@)) && ranges_unique(edit_views(self.edits@))
    }

    /// The set without edits.
    pub fn new() -> (s: EditSet)
        ensures
            s@ == Seq::<EditView>::empty(),
    {
        let s = EditSet { edits: Vec::new() };
        assert(s@ =~= Seq::<EditView>::empty());
        s
    }

    /// The number of edits.
    pub fn len(&self) -> (n: usize)
        ensures
            n == self@.len(),
    {
        self.edits.len()
    }

    /// Whether there is no edit.
    pub fn is_empty(&self) -> (r: bool)
        ensures
            r == (self@.len() == 0),
    {
        self.edits.len() == 0
    }

    /// The edits in their order. They are sorted, and no stretch of text has
    /// two of them.
    pub fn entries(&self) -> (r: &Vec<Edit>)
        ensures
            edit_views(r@) == self@,
            sorted(self@),
            ranges_unique(self@),
    {
        proof {
            use_type_invariant(self);
        }
        &self.edits
    }

    /// Whether the edits keep out of each other's way.
    pub fn is_well_formed(&self) -> (r: bool)
        ensures
            r == well_formed(self@),
    {
        let ghost all = self@;
        let mut k: usize = 0;
        assert(well_formed(all.take(0)));
        while k < self.edits.len()
            invariant
                k <= self.edits.len(),
                all == edit_views(self.edits@),
                well_formed(all.take(k as int)),
            decreases self.edits.len() - k,
        {
            let span = self.edits[k].span;
            assert(all[k as int] == self.edits@[k as int]@);
            if span.end.is_before(&span.start) {
                return false;
            }
            if k > 0 {
                let before = self.edits[k - 1].span;
                assert(all[k - 1] == self.edits@[k - 1]@);
                if span.start.is_before(&before.end) {
                    return false;
                }
                if before.start.is_at(&span.start) && !(before.start.is_at(&before.end)
                    && span.start.is_at(&span.end)) {
                    return false;
                }
            }
            proof {
                let prefix = all.take(k as int);
                let next = all.take(k + 1);
                assert forall|i: int| 0 <= i < next.len() implies (#[trigger] next[i]).span.start.reaches(
                    next[i].span.end,
                ) by {
                    if i < k {
                        assert(next[i] == prefix[i]);
                    }
                }
                assert forall|i: int, j: int| 0 <= i < j < next.len() implies (
                #[trigger] next[i]).span.end.reaches((#[trigger] next[j]).span.start) by {
                    if j < k {
                        assert(next[i] == prefix[i] && next[j] == prefix[j]);
                    } else if i < k - 1 {
                        assert(next[i] == prefix[i] && next[k - 1] == prefix[k - 1]);
                    }
                }
                assert forall|i: int, j: int|
                    0 <= i < j < next.len() && (#[trigger] next[i]).span.start == (
                    #[trigger] next[j]).span.start implies next[i].span.is_point()
                    && next[j].span.is_point() by {
                    if j < k {
                        assert(next[i] == prefix[i] && next[j] == prefix[j]);
                    } else if i < k - 1 {
                        assert(next[i] == prefix[i] && next[k - 1] == prefix[k - 1]);
                    }
                }
            }
            k += 1;
        }
        assert(all.take(k as int) =~= all);
        true
    }

    /// Registers the edit that puts `text` in place of `span`.
    pub fn insert(&mut self, span: Extent, text: String)
        ensures
            final(self)@ == registered(old(self)@, EditView { span, text: text@ }),
    {
        proof {
            use_type_invariant(&*self);
        }
        let ghost before = self@;
        let ghost e = EditView { span, text: text@ };
        let mut r: usize = 0;
        assert(before.skip(0) =~= before);
        while r < self.edits.len() && self.edits[r].span.sorts_at_or_before(&span)
            invariant
                r <= self.edits.len(),
                before == edit_views(self.edits@),
                rank(before, span) == r + rank(before.skip(r as int), span),
            decreases self.edits.len() - r,
        {
            assert(before.skip(r as int)[0] == before[r as int]);
            assert(before.skip(r as int).drop_first() =~= before.skip(r + 1));
            r += 1;
        }
        proof {
            if r < before.len() {
                assert(before.skip(r as int)[0] == before[r as int]);
            }
            assert(rank(before, span) == r);
            lemma_registered_sorted(before, e);
        }
        let replace = !span.start.is_at(&span.end) && r > 0 && self.edits[r - 1].span.same(&span);
        if replace {
            let mut edits: Vec<Edit> = Vec::new();
            core::mem::swap(&mut edits, &mut self.edits);
            edits.set(r - 1, Edit { span, text });
            assert(edit_views(edits@) =~= registered(before, e));
            self.edits = edits;
        } else {
            let mut edits: Vec<Edit> = Vec::new();
            core::mem::swap(&mut edits, &mut self.edits);
            edits.insert(r, Edit { span, text });
            assert(edit_views(edits@) =~= registered(before, e));
            self.edits = edits;
        }
    }
}

} // verus!
