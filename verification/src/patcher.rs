//! The text patcher: one pass over a text that applies a set of edits.

use crate::span::{edit_views, sorted, well_formed, Edit, EditSet, EditView, Position};
use crate::text::{
    ends_with_newline, from_chars, is_white, lemma_trimmed_end_bounds, push_str, to_chars,
    trim_end, trim_end_len,
};
use crate::token::{file_tokens, is_source_file};
use vstd::prelude::*;

verus! {

/// The line, counted from 1, of the character with index `t`.
pub open spec fn line_at(text: Seq<char>, t: int) -> int
    decreases t,
{
    if t <= 0 {
        1
    } else if text[t - 1] == '\n' {
        line_at(text, t - 1) + 1
    } else {
        line_at(text, t - 1)
    }
}

/// The column, counted from 0, of the character with index `t`.
pub open spec fn column_at(text: Seq<char>, t: int) -> int
    decreases t,
{
    if t <= 0 || text[t - 1] == '\n' {
        0
    } else {
        column_at(text, t - 1) + 1
    }
}

/// Whether index `t` ends a line: it holds a line feed, or the text ends there.
pub open spec fn at_line_end(text: Seq<char>, t: int) -> bool {
    t >= text.len() || text[t] == '\n'
}

/// `p` lies before the given line and column.
pub open spec fn is_before(p: Position, line: int, column: int) -> bool {
    p.line < line || (p.line == line && p.column < column)
}

/// `p` lies behind the given line and column.
pub open spec fn is_behind(p: Position, line: int, column: int) -> bool {
    p.line > line || (p.line == line && p.column > column)
}

/// Whether the text of `e` is written at index `t`: `e` starts at the place
/// of that character, or, where `t` ends a line, on that line at or behind
/// its end.
pub open spec fn written_at(e: EditView, text: Seq<char>, t: int) -> bool {
    e.span.start.line == line_at(text, t) && if at_line_end(text, t) {
        e.span.start.column >= column_at(text, t)
    } else {
        e.span.start.column == column_at(text, t)
    }
}

/// Whether `e` takes the character with index `t` away: the character's
/// place is at or behind the start of `e` and before its end.
pub open spec fn removes(e: EditView, text: Seq<char>, t: int) -> bool {
    !is_behind(e.span.start, line_at(text, t), column_at(text, t)) && is_behind(
        e.span.end,
        line_at(text, t),
        column_at(text, t),
    )
}

/// Whether some edit takes the character with index `t` away.
pub open spec fn removed(edits: Seq<EditView>, text: Seq<char>, t: int) -> bool {
    exists|k: int| 0 <= k < edits.len() && removes(#[trigger] edits[k], text, t)
}

/// The texts of the edits from index `from` on that are written at `t`, in
/// their order.
pub open spec fn inserted(edits: Seq<EditView>, text: Seq<char>, t: int, from: int) -> Seq<char>
    decreases edits.len() - from,
{
    if from < 0 || from >= edits.len() {
        Seq::empty()
    } else if written_at(edits[from], text, t) {
        edits[from].text + inserted(edits, text, t, from + 1)
    } else {
        inserted(edits, text, t, from + 1)
    }
}

/// What is left of the character with index `t`: a line feed always stays,
/// another character stays unless an edit takes it away.
pub open spec fn kept(edits: Seq<EditView>, text: Seq<char>, t: int) -> Seq<char> {
    if text[t] == '\n' || !removed(edits, text, t) {
        seq![text[t]]
    } else {
        Seq::empty()
    }
}

/// The output for the first `t` characters of `text`.
pub open spec fn patched_prefix(edits: Seq<EditView>, text: Seq<char>, t: int) -> Seq<char>
    decreases t,
{
    if t <= 0 {
        Seq::empty()
    } else {
        patched_prefix(edits, text, t - 1) + inserted(edits, text, t - 1, 0) + kept(
            edits,
            text,
            t - 1,
        )
    }
}

/// `code` with `edits` applied. Trailing white space of `code` is dropped
/// first, and one line feed closes the result if `code` ended with one.
/// Before each character stand the texts of the edits that start at its
/// place; the character follows unless an edit takes it away. An edit that
/// starts at or behind the end of a line is written at the end of that line.
pub open spec fn patched(code: Seq<char>, edits: Seq<EditView>) -> Seq<char> {
    let text = trim_end(code);
    patched_prefix(edits, text, text.len() as int) + inserted(edits, text, text.len() as int, 0)
        + if ends_with_newline(code) {
        seq!['\n']
    } else {
        Seq::empty()
    }
}

proof fn lemma_inserted_skip(edits: Seq<EditView>, text: Seq<char>, t: int, a: int, b: int)
    requires
        0 <= a <= b <= edits.len(),
        forall|i: int| a <= i < b ==> !written_at(#[trigger] edits[i], text, t),
    ensures
        inserted(edits, text, t, a) == inserted(edits, text, t, b),
    decreases b - a,
{
    if a < b {
        lemma_inserted_skip(edits, text, t, a + 1, b);
    }
}

proof fn lemma_place_bounds(text: Seq<char>, t: int)
    requires
        0 <= t,
    ensures
        1 <= line_at(text, t) <= t + 1,
        0 <= column_at(text, t) <= t,
    decreases t,
{
    if t > 0 {
        lemma_place_bounds(text, t - 1);
    }
}

/// What the scan knows of the edits when it stands at index `t`, at
/// `line` and `column`: the first `k` edits start before that place, the
/// others at or behind it, and `reach` is the furthest end among the first `k`.
spec fn scan_state(
    edits: Seq<EditView>,
    k: int,
    reach: Position,
    line: int,
    column: int,
) -> bool {
    &&& 0 <= k <= edits.len()
    &&& forall|i: int| 0 <= i < k ==> is_before((#[trigger] edits[i]).span.start, line, column)
    &&& forall|i: int|
        k <= i < edits.len() ==> !is_before((#[trigger] edits[i]).span.start, line, column)
    &&& forall|i: int|
        0 <= i < k ==> !is_before(reach, (#[trigger] edits[i]).span.end.line as int, edits[i].span.end.column as int)
    &&& ((reach.line == 0 && reach.column == 0) || exists|i: int|
        0 <= i < k && (#[trigger] edits[i]).span.end == reach)
}

/// Writes the texts of the edits that are written at index `t`, and steps
/// over them.
fn write_edits(
    list: &Vec<Edit>,
    k: &mut usize,
    reach: &mut Position,
    out: &mut Vec<char>,
    line: usize,
    column: usize,
    line_end: bool,
    Ghost(text): Ghost<Seq<char>>,
    Ghost(t): Ghost<int>,
)
    requires
        sorted(edit_views(list@)),
        0 <= t <= text.len(),
        line == line_at(text, t),
        column == column_at(text, t),
        line_end == at_line_end(text, t),
        scan_state(edit_views(list@), *old(k) as int, *old(reach), line as int, column as int),
    ensures
        final(out)@ == old(out)@ + inserted(edit_views(list@), text, t, 0),
        *old(k) <= *final(k) <= list.len(),
        forall|i: int|
            0 <= i < *final(k) ==> !is_behind(
                (#[trigger] edit_views(list@)[i]).span.start,
                line as int,
                column as int,
            ) || (line_end && edit_views(list@)[i].span.start.line == line),
        forall|i: int|
            *final(k) <= i < list.len() ==> is_behind(
                (#[trigger] edit_views(list@)[i]).span.start,
                line as int,
                column as int,
            ) && (line_end ==> edit_views(list@)[i].span.start.line > line),
        forall|i: int|
            0 <= i < *final(k) ==> !is_before(
                *final(reach),
                (#[trigger] edit_views(list@)[i]).span.end.line as int,
                edit_views(list@)[i].span.end.column as int,
            ),
        (final(reach).line == 0 && final(reach).column == 0) || exists|i: int|
            0 <= i < *final(k) && (#[trigger] edit_views(list@)[i]).span.end == *final(reach),
{
    let ghost edits = edit_views(list@);
    let ghost k0 = *k as int;
    proof {
        lemma_inserted_skip(edits, text, t, 0, k0);
    }
    while *k < list.len() && list[*k].span.start.line == line && (line_end
        || list[*k].span.start.column == column)
        invariant
            edits == edit_views(list@),
            sorted(edits),
            0 <= t <= text.len(),
            line == line_at(text, t),
            column == column_at(text, t),
            line_end == at_line_end(text, t),
            k0 <= *k <= list.len(),
            out@ + inserted(edits, text, t, *k as int) == old(out)@ + inserted(edits, text, t, 0),
            forall|i: int|
                *k <= i < edits.len() ==> !is_before(
                    (#[trigger] edits[i]).span.start,
                    line as int,
                    column as int,
                ),
            forall|i: int|
                0 <= i < *k ==> !is_behind(
                    (#[trigger] edits[i]).span.start,
                    line as int,
                    column as int,
                ) || (line_end && edits[i].span.start.line == line),
            forall|i: int|
                0 <= i < *k ==> !is_before(
                    *reach,
                    (#[trigger] edits[i]).span.end.line as int,
                    edits[i].span.end.column as int,
                ),
            (reach.line == 0 && reach.column == 0) || exists|i: int|
                0 <= i < *k && (#[trigger] edits[i]).span.end == *reach,
        decreases list.len() - *k,
    {
        let e = &list[*k];
        assert(edits[*k as int] == e@);
        assert(written_at(edits[*k as int], text, t));
        let ghost before = out@;
        push_str(out, e.text.as_str());
        assert(before + e@.text + inserted(edits, text, t, *k + 1) =~= before + inserted(
            edits,
            text,
            t,
            *k as int,
        ));
        if reach.is_before(&e.span.end) {
            *reach = e.span.end;
        }
        *k += 1;
    }
    proof {
        let k1 = *k as int;
        assert forall|i: int| k1 <= i < edits.len() implies is_behind(
            (#[trigger] edits[i]).span.start,
            line as int,
            column as int,
        ) && (line_end ==> edits[i].span.start.line > line) by {
            assert(edits[k1] == list@[k1]@);
            if i > k1 {
                assert(edits[k1].span.key_le(edits[i].span));
            }
        }
        assert forall|i: int| k1 <= i < edits.len() implies !written_at(
            #[trigger] edits[i],
            text,
            t,
        ) by {}
        lemma_inserted_skip(edits, text, t, k1, edits.len() as int);
        assert(out@ + inserted(edits, text, t, k1) =~= out@);
    }
}

/// Applies `edits` to `code` in one pass from its first character to its last.
pub fn replace_ranges(code: &str, edits: &EditSet) -> (out: String)
    ensures
        out@ == patched(code@, edits@),
{
    let chars = to_chars(code);
    let n = trim_end_len(&chars);
    let list = edits.entries();
    let ghost es = edits@;
    let ghost text = trim_end(code@);
    proof {
        lemma_trimmed_end_bounds(code@);
    }
    let mut out: Vec<char> = Vec::new();
    let mut k: usize = 0;
    let mut reach = Position { line: 0, column: 0 };
    while k < list.len() && list[k].span.start.line == 0
        invariant
            es == edit_views(list@),
            sorted(es),
            k <= list.len(),
            forall|i: int| 0 <= i < k ==> (#[trigger] es[i]).span.start.line == 0,
            forall|i: int|
                0 <= i < k ==> !is_before(
                    reach,
                    (#[trigger] es[i]).span.end.line as int,
                    es[i].span.end.column as int,
                ),
            (reach.line == 0 && reach.column == 0) || exists|i: int|
                0 <= i < k && (#[trigger] es[i]).span.end == reach,
        decreases list.len() - k,
    {
        assert(es[k as int] == list@[k as int]@);
        if reach.is_before(&list[k].span.end) {
            reach = list[k].span.end;
        }
        k += 1;
    }
    proof {
        assert forall|i: int| k <= i < es.len() implies !is_before(
            (#[trigger] es[i]).span.start,
            1,
            0,
        ) by {
            assert(es[k as int] == list@[k as int]@);
            if i > k {
                assert(es[k as int].span.key_le(es[i].span));
            }
        }
    }
    let mut line: usize = 1;
    let mut column: usize = 0;
    let mut t: usize = 0;
    while t < n
        invariant
            es == edit_views(list@),
            sorted(es),
            text == code@.take(n as int),
            text == chars@.take(n as int),
            n <= chars.len(),
            n > 0 ==> !is_white(text[n - 1]),
            t <= n,
            line == line_at(text, t as int),
            column == column_at(text, t as int),
            scan_state(es, k as int, reach, line as int, column as int),
            out@ == patched_prefix(es, text, t as int),
        decreases n - t,
    {
        let c = chars[t];
        assert(text[t as int] == c);
        proof {
            lemma_place_bounds(text, t as int);
        }
        let at_end = c == '\n';
        write_edits(list, &mut k, &mut reach, &mut out, line, column, at_end, Ghost(text), Ghost(t as int));
        if at_end {
            out.push(c);
            assert(t + 1 < n) by {
                if t + 1 == n {
                    assert(is_white(text[n - 1]));
                }
            }
            line += 1;
            column = 0;
        } else {
            let here = Position { line, column };
            proof {
                if here.precedes(reach) {
                    let i = choose|i: int| 0 <= i < k && (#[trigger] es[i]).span.end == reach;
                    assert(removes(es[i], text, t as int));
                } else {
                    assert forall|i: int| 0 <= i < es.len() implies !removes(
                        #[trigger] es[i],
                        text,
                        t as int,
                    ) by {}
                }
            }
            if !here.is_before(&reach) {
                out.push(c);
            }
            column += 1;
        }
        assert(out@ =~= patched_prefix(es, text, t as int) + inserted(es, text, t as int, 0) + kept(
            es,
            text,
            t as int,
        ));
        t += 1;
    }
    write_edits(list, &mut k, &mut reach, &mut out, line, column, true, Ghost(text), Ghost(n as int));
    if chars.len() > 0 && chars[chars.len() - 1] == '\n' {
        out.push('\n');
    }
    assert(out@ =~= patched(code@, es));
    from_chars(&out)
}

/// What [`replace_ranges_checked`] gives: the patched text where it is a
/// source file, and nothing where it is not.
pub open spec fn patched_file(code: Seq<char>, edits: Seq<EditView>) -> Option<Seq<char>> {
    if file_tokens(patched(code, edits)) is Some {
        Some(patched(code, edits))
    } else {
        None
    }
}

/// Applies `edits` to `code` and holds the result to the parser: the
/// patched text is handed out only if it is a source file.
pub fn replace_ranges_checked(code: &str, edits: &EditSet) -> (r: Option<String>)
    ensures
        match (r, patched_file(code@, edits@)) {
            (Some(out), Some(expected)) => out@ == expected,
            (None, None) => true,
            _ => false,
        },
{
    let out = replace_ranges(code, edits);
    if is_source_file(out.as_str()) {
        Some(out)
    } else {
        None
    }
}

proof fn lemma_no_edits_prefix(text: Seq<char>, t: int)
    requires
        0 <= t <= text.len(),
    ensures
        patched_prefix(Seq::empty(), text, t) == text.take(t),
    decreases t,
{
    if t > 0 {
        lemma_no_edits_prefix(text, t - 1);
        assert(!removed(Seq::empty(), text, t - 1));
        assert(text.take(t - 1) + Seq::<char>::empty() + seq![text[t - 1]] =~= text.take(t));
    } else {
        assert(text.take(0) =~= Seq::<char>::empty());
    }
}

/// Without edits a text stays as it is, but for the white space at its
/// end: that goes, and one line feed closes the text if it ended with one.
pub proof fn lemma_no_edits(code: Seq<char>)
    ensures
        patched(code, Seq::empty()) == trim_end(code) + if ends_with_newline(code) {
            seq!['\n']
        } else {
            Seq::empty()
        },
{
    let text = trim_end(code);
    lemma_no_edits_prefix(text, text.len() as int);
    assert(text.take(text.len() as int) =~= text);
    assert(text + Seq::<char>::empty() =~= text);
}

/// Edits that keep out of each other's way never take the same character:
/// what one of them removes, no other removes.
pub proof fn lemma_removed_once(edits: Seq<EditView>, text: Seq<char>, t: int, i: int, j: int)
    requires
        well_formed(edits),
        0 <= i < j < edits.len(),
    ensures
        !(removes(edits[i], text, t) && removes(edits[j], text, t)),
{
    assert(edits[i].span.end.reaches(edits[j].span.start));
}

/// Whether every edit is a point of insertion.
pub open spec fn only_inserts(edits: Seq<EditView>) -> bool {
    forall|i: int| 0 <= i < edits.len() ==> (#[trigger] edits[i]).span.is_point()
}

/// Insertions take no character away: where every edit is a point of
/// insertion, every character of the text stays, and only the texts of
/// the edits come to stand between them.
pub proof fn lemma_insertions_keep_every_character(edits: Seq<EditView>, text: Seq<char>, t: int)
    requires
        only_inserts(edits),
        0 <= t < text.len(),
    ensures
        !removed(edits, text, t),
        kept(edits, text, t) == seq![text[t]],
        patched_prefix(edits, text, t + 1) == patched_prefix(edits, text, t) + inserted(
            edits,
            text,
            t,
            0,
        ) + seq![text[t]],
{
    assert forall|k: int| 0 <= k < edits.len() implies !removes(#[trigger] edits[k], text, t) by {
        assert(edits[k].span.is_point());
    }
}

/// Applying one set of edits to one text gives one result.
pub proof fn lemma_patch_deterministic(code: Seq<char>, edits: Seq<EditView>, first: Seq<char>, second: Seq<char>)
    requires
        first == patched(code, edits),
        second == patched(code, edits),
    ensures
        first == second,
{
}

} // verus!
