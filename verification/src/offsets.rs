//! Byte, line and column bookkeeping for edits that macro rules make to source text.
//!
//! Arithmetic is that of the machine word: values wrap around. Where every intermediate value
//! fits, the results are the plain sums and differences (see the laws at the end).
use crate::arith::add_isize;
use crate::arith::difference;
use crate::arith::lemma_wrap_isize_absorb;
use crate::arith::lemma_wrap_isize_fits;
use crate::arith::lemma_wrap_usize_absorb;
use crate::arith::lemma_wrap_usize_fits;
use crate::arith::sub_isize;
use crate::arith::to_isize;
use crate::arith::to_usize;
use crate::arith::wrap_isize;
use crate::arith::wrap_usize;
use crate::paths::path_eq;
use crate::paths::same_path;
use crate::placement::apart;
use crate::placement::arrives;
use crate::placement::end;
use crate::placement::is_added_by;
use crate::placement::is_before;
use crate::placement::lemma_apart_stands;
use crate::placement::lemma_arrives_in_range;
use crate::placement::lemma_moved_stands_before;
use crate::placement::lemma_nothing_before;
use crate::placement::lemma_stands_ignores;
use crate::placement::lemma_total_agree;
use crate::placement::lemma_total_ignores;
use crate::placement::lemma_total_none;
use crate::placement::lemma_unmoved_stands_behind;
use crate::placement::parts_at;
use crate::placement::place;
use crate::placement::placed;
use crate::placement::places;
use crate::placement::precedes;
use crate::placement::shows;
use crate::placement::those_before;
use crate::placement::those_standing_before;
use crate::placement::total;
use crate::placement::Edit;
use crate::placement::Placed;
use crate::sources::spliced;
use crate::text::count_of;
use crate::text::law_count_goes_by_parts;
use crate::text::lemma_count_bound;
use crate::tracking::follows;
use crate::tracking::lemma_count_no_newline;
use crate::tracking::lemma_edit_is_followed;
use crate::tracking::lemma_newlines_between;
use crate::tracking::lemma_no_newline;
use crate::tracking::lemma_untouched_is_followed;
use vstd::prelude::*;
use vstd::string::StringSliceAdditionalSpecFns;
use vstd::utf8::encode_utf8;
use vstd::utf8::encode_utf8_valid_utf8;
use vstd::utf8::is_char_boundary;

verus! {

/// Byte offset, line-number and column-number adjustments accumulated by macro rules that change
/// source text. Each entry is `(path, Adjustment)` where [`Adjustment`] records the original
/// offset, line and column, and the signed byte, line and column deltas introduced by the edit.
#[derive(Debug, Clone)]
pub struct OffsetAdjustment(pub Vec<(String, Adjustment)>);

/// One recorded edit.
#[derive(Debug, Clone, Copy)]
pub struct Adjustment {
    pub original_offset: usize,
    pub original_line: usize,
    /// 1-based column of the edit position in the original source.
    pub original_col: usize,
    pub delta_offset: isize,
    pub delta_line: isize,
    /// Signed change in column applied to content that follows the edit on the same line.
    ///
    /// Only single-line edits (no newline in either the added or removed text) shift the
    /// columns of the content that follows them; multi-line edits push subsequent content
    /// onto fresh lines whose columns are unaffected, so their `delta_col` is `0`.
    pub delta_col: isize,
}

/// Recorded edits, oldest first.
pub type Entries = Seq<(String, Adjustment)>;

/// The sum of `value` over the edits of `path` that `chosen` picks.
pub open spec fn sum_over(
    entries: Entries,
    path: Seq<char>,
    chosen: spec_fn(Adjustment) -> bool,
    value: spec_fn(Adjustment) -> int,
) -> int
    decreases entries.len(),
{
    if entries.len() == 0 {
        0
    } else {
        let e = entries.last();
        sum_over(entries.drop_last(), path, chosen, value) + if path_eq(e.0@, path) && chosen(e.1) {
            value(e.1)
        } else {
            0
        }
    }
}

/// How far the edits of `path` at or before `offset` move the byte at `offset`.
pub open spec fn offset_delta(entries: Entries, path: Seq<char>, offset: int) -> int {
    sum_over(
        entries,
        path,
        |a: Adjustment| a.original_offset <= offset,
        |a: Adjustment| a.delta_offset as int,
    )
}

/// How many lines the edits of `path` at or before `offset` add.
pub open spec fn line_delta(entries: Entries, path: Seq<char>, offset: int) -> int {
    sum_over(
        entries,
        path,
        |a: Adjustment| a.original_offset <= offset,
        |a: Adjustment| a.delta_line as int,
    )
}

/// How far the edits of `path` on `line` at or before `offset` move columns.
pub open spec fn col_delta_at(entries: Entries, path: Seq<char>, line: int, offset: int) -> int {
    sum_over(
        entries,
        path,
        |a: Adjustment| a.original_line == line && a.original_offset <= offset,
        |a: Adjustment| a.delta_col as int,
    )
}

/// The edits of `path` that change the number of lines, as edits of the lines of the file.
pub open spec fn line_edits(entries: Entries, path: Seq<char>) -> Seq<Placed> {
    Seq::new(
        entries.len(),
        |k: int|
            Placed {
                counts: path_eq(entries[k].0@, path) && entries[k].1.delta_line != 0,
                key: entries[k].1.original_offset as int,
                at: entries[k].1.original_line as int,
                removed: loss(entries[k].1.delta_line as int),
                added: gain(entries[k].1.delta_line as int),
            },
    )
}

/// The edits of `path` on line `line` that shift columns, as edits of the columns of that line.
pub open spec fn col_edits(entries: Entries, path: Seq<char>, line: int) -> Seq<Placed> {
    Seq::new(
        entries.len(),
        |k: int|
            Placed {
                counts: path_eq(entries[k].0@, path) && entries[k].1.original_line == line
                    && entries[k].1.delta_col != 0,
                key: entries[k].1.original_offset as int,
                at: entries[k].1.original_col as int,
                removed: loss(entries[k].1.delta_col as int),
                added: gain(entries[k].1.delta_col as int),
            },
    )
}

/// What a change adds.
pub open spec fn gain(delta: int) -> int {
    if delta > 0 {
        delta
    } else {
        0
    }
}

/// What a change takes away.
pub open spec fn loss(delta: int) -> int {
    if delta < 0 {
        -delta
    } else {
        0
    }
}

/// The offset in the current text of the byte at `offset` in the original text.
pub open spec fn current_offset(entries: Entries, path: Seq<char>, offset: int) -> int {
    wrap_usize(offset + offset_delta(entries, path, offset))
}

/// The number of newlines in `bytes`.
pub open spec fn newlines(bytes: Seq<u8>) -> nat {
    count_of(bytes, 10u8)
}

/// The offset just behind the last newline in `bytes`.
pub open spec fn line_start(bytes: Seq<u8>) -> int {
    match bytes.index_of_last(10u8) {
        Some(i) => i + 1,
        None => 0,
    }
}

/// `x`, but no less than 1.
pub open spec fn at_least_one(x: int) -> int {
    if x < 1 {
        1
    } else {
        x
    }
}

/// The edit that replaces `removed` by `added` at `offset`, given what was recorded before and the
/// bytes that stand before it.
pub open spec fn edit_of(
    entries: Entries,
    path: Seq<char>,
    offset: usize,
    before: Seq<u8>,
    added: Seq<u8>,
    removed: Seq<u8>,
) -> Adjustment {
    let line = wrap_usize(newlines(before) + 1 - line_delta(entries, path, offset as int));
    let col = before.len() - line_start(before) + 1;
    let size = wrap_isize(added.len() - removed.len());
    Adjustment {
        original_offset: offset,
        original_line: line as usize,
        original_col: at_least_one(
            wrap_isize(col - col_delta_at(entries, path, line, offset as int)),
        ) as usize,
        delta_offset: size as isize,
        delta_line: wrap_isize(newlines(added) - newlines(removed)) as isize,
        delta_col: if newlines(added) == 0 && newlines(removed) == 0 {
            size as isize
        } else {
            0
        },
    }
}

/// `line` lies in the block of edit `i`. The block starts at the original line of the edit, moved by
/// the edits of the file that stand before it.
pub open spec fn in_block(entries: Entries, path: Seq<char>, line: int, i: int) -> bool {
    let edits = line_edits(entries, path);
    &&& 0 <= i < entries.len()
    &&& edits[i].counts
    &&& shows(edits, i, line)
}

/// `line` lies in a block that some edit of `path` inserted.
pub open spec fn in_macro(entries: Entries, path: Seq<char>, line: int) -> bool {
    exists|i: int| in_block(entries, path, line, i)
}

/// The lines that the edits of `path` add before `line`.
pub open spec fn lines_before(entries: Entries, path: Seq<char>, line: int) -> int {
    let edits = line_edits(entries, path);
    total(edits, edits.len() as int, those_standing_before(edits, line))
}

/// How far the edits of `path` on `line` left of `col` move columns.
pub open spec fn col_delta_before(entries: Entries, path: Seq<char>, line: int, col: int) -> int {
    let edits = col_edits(entries, path, line);
    total(edits, edits.len() as int, those_standing_before(edits, col))
}

/// The line of the original source that stands at `line` in the expanded source.
pub open spec fn original_line_of(entries: Entries, path: Seq<char>, line: int) -> Option<int> {
    if in_macro(entries, path, line) {
        None
    } else {
        Some(wrap_usize(line - lines_before(entries, path, line)))
    }
}

/// The column of the original source that stands at `col` in the expanded source.
pub open spec fn original_col_of(entries: Entries, path: Seq<char>, line: int, col: int) -> int {
    at_least_one(wrap_isize(col - col_delta_before(entries, path, line, col)))
}

/// Counts the newlines in the first `n` bytes.
pub fn count_newlines(bytes: &[u8], n: usize) -> (r: usize)
    requires
        n <= bytes@.len(),
    ensures
        r == newlines(bytes@.take(n as int)),
{
    let mut count: usize = 0;
    let mut i: usize = 0;
    while i < n
        invariant
            i <= n <= bytes@.len(),
            count == newlines(bytes@.take(i as int)),
        decreases n - i,
    {
        proof {
            lemma_count_bound(bytes@.take(i as int), 10u8);
            assert(bytes@.take(i + 1).drop_last() =~= bytes@.take(i as int));
        }
        if bytes[i] == 10 {
            count = count + 1;
        }
        i = i + 1;
    }
    count
}

/// Finds the offset just behind the last newline in the first `n` bytes.
fn find_line_start(bytes: &[u8], n: usize) -> (r: usize)
    requires
        n <= bytes@.len(),
    ensures
        r == line_start(bytes@.take(n as int)),
        r <= n,
{
    let ghost b = bytes@.take(n as int);
    let mut i: usize = n;
    while i > 0 && bytes[i - 1] != 10
        invariant
            i <= n <= bytes@.len(),
            b == bytes@.take(n as int),
            forall|j: int| i <= j < n ==> b[j] != 10u8,
        decreases i,
    {
        i = i - 1;
    }
    proof {
        b.index_of_last_ensures(10u8);
        if i > 0 {
            assert(b[i - 1] == 10u8);
            assert(b.contains(10u8));
        }
    }
    i
}

/// The byte, line and column deltas of an edit.
///
/// Only single-line edits shift the columns of the content that follows them. Multi-line edits
/// move subsequent content onto fresh lines whose columns start over.
fn size_change(added: &[u8], removed: &[u8]) -> (r: (isize, isize, isize))
    ensures
        r.0 == wrap_isize(added@.len() - removed@.len()),
        r.1 == wrap_isize(newlines(added@) - newlines(removed@)),
        r.2 == if newlines(added@) == 0 && newlines(removed@) == 0 {
            r.0
        } else {
            0
        },
{
    let delta_offset = difference(added.len(), removed.len());
    assert(added@.take(added@.len() as int) =~= added@);
    assert(removed@.take(removed@.len() as int) =~= removed@);
    let added_newlines = count_newlines(added, added.len());
    let removed_newlines = count_newlines(removed, removed.len());
    let delta_line = difference(added_newlines, removed_newlines);
    let delta_col: isize = if added_newlines == 0 && removed_newlines == 0 {
        delta_offset
    } else {
        0
    };
    (delta_offset, delta_line, delta_col)
}

impl Default for OffsetAdjustment {
    fn default() -> (r: Self)
        ensures
            r.0@.len() == 0,
    {
        OffsetAdjustment(Vec::new())
    }
}

impl std::ops::Deref for OffsetAdjustment {
    type Target = Vec<(String, Adjustment)>;

    fn deref(&self) -> (r: &Vec<(String, Adjustment)>)
        ensures
            *r == self.0,
    {
        &self.0
    }
}

impl OffsetAdjustment {
    /// Returns the current offset in `path` corresponding to `edit_offset` from the HIR,
    /// accounting for all length-changing edits recorded by previous macro rules. This is done
    /// by summing all offset deltas affecting the source code prior to the input `edit_offset`.
    pub fn adjusted_offset(&self, path: &str, edit_offset: usize) -> (r: usize)
        ensures
            r == current_offset(self.0@, path@, edit_offset as int),
    {
        let ghost all = self.0@;
        let ghost chosen = |a: Adjustment| a.original_offset <= edit_offset as int;
        let ghost value = |a: Adjustment| a.delta_offset as int;
        let mut delta: isize = 0;
        let mut i: usize = 0;
        proof {
            lemma_wrap_isize_fits(0);
        }
        while i < self.0.len()
            invariant
                all == self.0@,
                chosen == (|a: Adjustment| a.original_offset <= edit_offset as int),
                value == (|a: Adjustment| a.delta_offset as int),
                i <= all.len(),
                delta == wrap_isize(sum_over(all.take(i as int), path@, chosen, value)),
            decreases all.len() - i,
        {
            let ghost sum = sum_over(all.take(i as int), path@, chosen, value);
            assert(all.take(i + 1).drop_last() =~= all.take(i as int));
            let e = &self.0[i];
            if same_path(e.0.as_str(), path) && e.1.original_offset <= edit_offset {
                proof {
                    lemma_wrap_isize_absorb(sum, e.1.delta_offset as int);
                }
                delta = add_isize(delta, e.1.delta_offset);
            }
            i = i + 1;
        }
        assert(all.take(i as int) =~= all);
        let moved = add_isize(to_isize(edit_offset), delta);
        proof {
            let sum = sum_over(all, path@, chosen, value);
            lemma_wrap_isize_absorb(edit_offset as int, wrap_isize(sum));
            lemma_wrap_isize_absorb(sum, edit_offset as int);
            lemma_wrap_isize_absorb(edit_offset + sum, 0);
        }
        to_usize(moved)
    }

    /// Adds up the line deltas of the edits of `path` at or before `offset`.
    fn summed_lines(&self, path: &str, offset: usize) -> (r: isize)
        ensures
            r == wrap_isize(line_delta(self.0@, path@, offset as int)),
    {
        let ghost all = self.0@;
        let ghost chosen = |a: Adjustment| a.original_offset <= offset as int;
        let ghost value = |a: Adjustment| a.delta_line as int;
        let mut delta: isize = 0;
        let mut i: usize = 0;
        proof {
            lemma_wrap_isize_fits(0);
        }
        while i < self.0.len()
            invariant
                all == self.0@,
                chosen == (|a: Adjustment| a.original_offset <= offset as int),
                value == (|a: Adjustment| a.delta_line as int),
                i <= all.len(),
                delta == wrap_isize(sum_over(all.take(i as int), path@, chosen, value)),
            decreases all.len() - i,
        {
            let ghost sum = sum_over(all.take(i as int), path@, chosen, value);
            assert(all.take(i + 1).drop_last() =~= all.take(i as int));
            let e = &self.0[i];
            if same_path(e.0.as_str(), path) && e.1.original_offset <= offset {
                proof {
                    lemma_wrap_isize_absorb(sum, e.1.delta_line as int);
                }
                delta = add_isize(delta, e.1.delta_line);
            }
            i = i + 1;
        }
        assert(all.take(i as int) =~= all);
        delta
    }

    /// Adds up the column deltas of the edits of `path` on `line` at or before `offset`.
    fn summed_cols(&self, path: &str, line: usize, offset: usize) -> (r: isize)
        ensures
            r == wrap_isize(col_delta_at(self.0@, path@, line as int, offset as int)),
    {
        let ghost all = self.0@;
        let ghost chosen = |a: Adjustment|
            a.original_line == line as int && a.original_offset <= offset as int;
        let ghost value = |a: Adjustment| a.delta_col as int;
        let mut delta: isize = 0;
        let mut i: usize = 0;
        proof {
            lemma_wrap_isize_fits(0);
        }
        while i < self.0.len()
            invariant
                all == self.0@,
                chosen == (|a: Adjustment|
                    a.original_line == line as int && a.original_offset <= offset as int),
                value == (|a: Adjustment| a.delta_col as int),
                i <= all.len(),
                delta == wrap_isize(sum_over(all.take(i as int), path@, chosen, value)),
            decreases all.len() - i,
        {
            let ghost sum = sum_over(all.take(i as int), path@, chosen, value);
            assert(all.take(i + 1).drop_last() =~= all.take(i as int));
            let e = &self.0[i];
            if same_path(e.0.as_str(), path) && e.1.original_line == line && e.1.original_offset
                <= offset {
                proof {
                    lemma_wrap_isize_absorb(sum, e.1.delta_col as int);
                }
                delta = add_isize(delta, e.1.delta_col);
            }
            i = i + 1;
        }
        assert(all.take(i as int) =~= all);
        delta
    }

    /// The line of the original source on which the byte at `at` of the current source stands.
    fn line_of(&self, path: &str, offset: usize, bytes: &[u8], at: usize) -> (r: usize)
        requires
            at <= bytes@.len(),
        ensures
            r == wrap_usize(
                newlines(bytes@.take(at as int)) + 1 - line_delta(self.0@, path@, offset as int),
            ),
    {
        let lines = count_newlines(bytes, at);
        let current_line = add_isize(to_isize(lines), 1);
        let accumulated_line_delta = self.summed_lines(path, offset);
        proof {
            let d = line_delta(self.0@, path@, offset as int);
            lemma_wrap_isize_absorb(lines as int, 1);
            lemma_wrap_isize_absorb(lines + 1, -wrap_isize(d));
            lemma_wrap_isize_absorb(d, lines + 1);
            lemma_wrap_isize_absorb(lines + 1 - d, 0);
        }
        to_usize(sub_isize(current_line, accumulated_line_delta))
    }

    /// The column of the original source at which the byte at `at` of the current source stands.
    fn col_of(&self, path: &str, line: usize, offset: usize, bytes: &[u8], at: usize) -> (r: usize)
        requires
            at <= bytes@.len(),
        ensures
            r == at_least_one(
                wrap_isize(
                    at - line_start(bytes@.take(at as int)) + 1 - col_delta_at(
                        self.0@,
                        path@,
                        line as int,
                        offset as int,
                    ),
                ),
            ),
    {
        let start = find_line_start(bytes, at);
        let current_col = add_isize(to_isize(at - start), 1);
        let accumulated_col_delta = self.summed_cols(path, line, offset);
        proof {
            let d = col_delta_at(self.0@, path@, line as int, offset as int);
            let here = at - start;
            lemma_wrap_isize_absorb(here, 1);
            lemma_wrap_isize_absorb(here + 1, -wrap_isize(d));
            lemma_wrap_isize_absorb(d, here + 1);
        }
        let col = sub_isize(current_col, accumulated_col_delta);
        if col < 1 {
            1
        } else {
            col as usize
        }
    }

    /// Records an edit in `path` at `original_offset` in the original source and returns the
    /// adjusted byte offset of the edit in the current (post-prior-edits) source.
    ///
    /// `source` is the source text *before* this edit is applied. `added` is the text being
    /// inserted and `removed` is the text being replaced (pass `""` for pure insertions).
    ///
    /// `original_line` is derived by counting newlines in `source` up to the adjusted offset and
    /// subtracting accumulated line deltas from all previously recorded edits at or before
    /// `original_offset`, mapping the current position back to original-source coordinates.
    ///
    /// `original_col` is derived analogously: the current column (bytes since the last newline)
    /// is mapped back to original coordinates by subtracting the column deltas of prior edits
    /// that lie at or before `original_offset` on the same original line.
    pub fn record(
        &mut self,
        path: &str,
        original_offset: usize,
        source: &str,
        added: &str,
        removed: &str,
    ) -> (r: usize)
        requires
            is_char_boundary(
                source.spec_bytes(),
                current_offset(old(self).0@, path@, original_offset as int),
            ),
        ensures
            r == current_offset(old(self).0@, path@, original_offset as int),
            final(self).0@.len() == old(self).0@.len() + 1,
            final(self).0@.drop_last() == old(self).0@,
            final(self).0@.last().0@ == path@,
            final(self).0@.last().1 == edit_of(
                old(self).0@,
                path@,
                original_offset,
                source.spec_bytes().take(r as int),
                added.spec_bytes(),
                removed.spec_bytes(),
            ),
    {
        let ghost entries = self.0@;
        let adjusted_offset = self.adjusted_offset(path, original_offset);
        let bytes = source.as_bytes();
        proof {
            lemma_boundary_in_range(source@, adjusted_offset as int);
        }
        let original_line = self.line_of(path, original_offset, bytes, adjusted_offset);
        let original_col = self.col_of(
            path,
            original_line,
            original_offset,
            bytes,
            adjusted_offset,
        );
        let (delta_offset, delta_line, delta_col) = size_change(added.as_bytes(), removed.as_bytes());
        let adjustment = Adjustment {
            original_offset,
            original_line,
            original_col,
            delta_offset,
            delta_line,
            delta_col,
        };
        self.0.push((path.to_owned(), adjustment));
        assert(self.0@.drop_last() =~= entries);
        adjusted_offset
    }

    /// Maps a line number in the macro-expanded source back to the corresponding line number
    /// in the original source, or `None` if `line` falls within a macro-generated block.
    ///
    /// Each adjustment has a position in expanded coordinates: its original line, moved by the
    /// adjustments that stand before it in the source, in whatever order they were recorded. For each
    /// adjustment whose expanded position precedes `line`, subtracts its `delta_line` from the result.
    pub fn get_original_line(&self, source: &str, line: isize) -> (r: Option<usize>)
        ensures
            match original_line_of(self.0@, source@, line as int) {
                Some(l) => r == Some(l as usize) && 0 <= l <= usize::MAX,
                None => r is None,
            },
    {
        if self.is_macro(source, line) {
            return None;
        }
        let edits = self.edits_of_lines(source);
        let delta = summed_before(&edits, line);
        let l = sub_isize(line, delta);
        proof {
            let acc = lines_before(self.0@, source@, line as int);
            lemma_wrap_isize_absorb(acc, line as int);
            lemma_wrap_isize_absorb(line - acc, 0);
            lemma_wrap_usize_fits(line - acc);
        }
        Some(to_usize(l))
    }

    /// The edits of `source` that change the number of lines.
    fn edits_of_lines(&self, source: &str) -> (r: Vec<Edit>)
        ensures
            placed(r@) == line_edits(self.0@, source@),
    {
        let mut out: Vec<Edit> = Vec::new();
        let mut i: usize = 0;
        while i < self.0.len()
            invariant
                i <= self.0@.len(),
                out@.len() == i,
                forall|k: int| 0 <= k < i ==> (#[trigger] out@[k])@ == line_edits(self.0@, source@)[k],
            decreases self.0@.len() - i,
        {
            let e = &self.0[i];
            out.push(
                Edit {
                    counts: e.1.delta_line != 0 && same_path(e.0.as_str(), source),
                    at: e.1.original_line,
                    key: e.1.original_offset,
                    added: grown_by(e.1.delta_line),
                    delta: e.1.delta_line,
                },
            );
            i = i + 1;
        }
        assert(placed(out@) =~= line_edits(self.0@, source@));
        out
    }

    /// The edits of `source` on line `line` that shift columns.
    fn edits_of_cols(&self, source: &str, line: usize) -> (r: Vec<Edit>)
        ensures
            placed(r@) == col_edits(self.0@, source@, line as int),
    {
        let mut out: Vec<Edit> = Vec::new();
        let mut i: usize = 0;
        while i < self.0.len()
            invariant
                i <= self.0@.len(),
                out@.len() == i,
                forall|k: int|
                    0 <= k < i ==> (#[trigger] out@[k])@ == col_edits(
                        self.0@,
                        source@,
                        line as int,
                    )[k],
            decreases self.0@.len() - i,
        {
            let e = &self.0[i];
            out.push(
                Edit {
                    counts: e.1.delta_col != 0 && e.1.original_line == line && same_path(
                        e.0.as_str(),
                        source,
                    ),
                    at: e.1.original_col,
                    key: e.1.original_offset,
                    added: grown_by(e.1.delta_col),
                    delta: e.1.delta_col,
                },
            );
            i = i + 1;
        }
        assert(placed(out@) =~= col_edits(self.0@, source@, line as int));
        out
    }

    /// Maps a column number in the macro-expanded source back to the corresponding column in the
    /// original source.
    ///
    /// `original_line` is the line the column lives on *in original coordinates* (i.e. the result
    /// of [`OffsetAdjustment::get_original_line`]). The column is remapped by undoing the shifts
    /// of every same-line edit that precedes it. Only single-line edits carry a non-zero
    /// `delta_col`, so multi-line insertions (whole-line macro blocks) leave columns untouched.
    pub fn get_original_col(&self, source: &str, original_line: usize, col: isize) -> (r: usize)
        ensures
            r == original_col_of(self.0@, source@, original_line as int, col as int),
    {
        let edits = self.edits_of_cols(source, original_line);
        let delta = summed_before(&edits, col);
        let c = sub_isize(col, delta);
        proof {
            let acc = col_delta_before(self.0@, source@, original_line as int, col as int);
            lemma_wrap_isize_absorb(acc, col as int);
        }
        if c < 1 {
            1
        } else {
            c as usize
        }
    }

    /// Check if a line belongs to macro-generated code.
    ///
    /// Returns `true` when `line` falls within the expanded block inserted by any adjustment, i.e.
    /// in `[expanded_pos, expanded_pos + delta_line)` for some recorded insertion, less what a later
    /// adjustment took away of it.
    pub fn is_macro(&self, source: &str, line: isize) -> (r: bool)
        ensures
            r == in_macro(self.0@, source@, line as int),
    {
        let edits = self.edits_of_lines(source);
        assert(placed(edits@).len() == self.0@.len());
        let places = places(&edits);
        let mut i: usize = 0;
        while i < edits.len()
            invariant
                i <= edits@.len(),
                edits@.len() == self.0@.len(),
                placed(edits@) == line_edits(self.0@, source@),
                places@.len() == edits@.len(),
                forall|k: int|
                    0 <= k < places@.len() ==> #[trigger] places@[k] == place(placed(edits@), k),
                forall|j: int| 0 <= j < i ==> !in_block(self.0@, source@, line as int, j),
            decreases edits@.len() - i,
        {
            assert(placed(edits@)[i as int] == edits@[i as int]@);
            if edits[i].counts && is_added_by(&edits, &places, i, line as i128, true) {
                assert(in_block(self.0@, source@, line as int, i as int));
                return true;
            }
            i = i + 1;
        }
        false
    }
}

/// What a change adds.
fn grown_by(delta: isize) -> (r: usize)
    ensures
        r == gain(delta as int),
{
    if delta > 0 {
        delta as usize
    } else {
        0
    }
}

/// Adds up the edits that stand before `x`.
fn summed_before(edits: &Vec<Edit>, x: isize) -> (r: isize)
    ensures
        r == wrap_isize(
            total(
                placed(edits@),
                edits@.len() as int,
                those_standing_before(placed(edits@), x as int),
            ),
        ),
{
    let ghost all = placed(edits@);
    let ghost chosen = those_standing_before(all, x as int);
    let places = places(edits);
    let mut delta: isize = 0;
    let mut i: usize = 0;
    while i < edits.len()
        invariant
            i <= edits@.len(),
            all == placed(edits@),
            chosen == those_standing_before(all, x as int),
            places@.len() == edits@.len(),
            forall|k: int| 0 <= k < places@.len() ==> #[trigger] places@[k] == place(all, k),
            delta == wrap_isize(total(all, i as int, chosen)),
        decreases edits@.len() - i,
    {
        let e = &edits[i];
        proof {
            lemma_wrap_isize_absorb(total(all, i as int, chosen), e.delta as int);
            assert(all[i as int] == e@);
        }
        if e.counts && is_before(edits, &places, i, x as i128) {
            delta = add_isize(delta, e.delta);
        }
        i = i + 1;
    }
    delta
}

/// A character boundary lies inside the text or at its end.
pub proof fn lemma_boundary_in_range(s: Seq<char>, i: int)
    requires
        is_char_boundary(encode_utf8(s), i),
    ensures
        0 <= i <= encode_utf8(s).len(),
{
    encode_utf8_valid_utf8(s);
}

// ---------------------------------------------------------------------------
// Sums over edits
// ---------------------------------------------------------------------------
/// Without an edit of `path` that is chosen and counts, the sum is 0.
proof fn lemma_sum_none(
    entries: Entries,
    path: Seq<char>,
    chosen: spec_fn(Adjustment) -> bool,
    value: spec_fn(Adjustment) -> int,
)
    requires
        forall|k: int|
            #![trigger entries[k]]
            0 <= k < entries.len() && path_eq(entries[k].0@, path) && chosen(entries[k].1)
                ==> value(entries[k].1) == 0,
    ensures
        sum_over(entries, path, chosen, value) == 0,
    decreases entries.len(),
{
    if entries.len() > 0 {
        let shorter = entries.drop_last();
        assert forall|k: int|
            #![trigger shorter[k]]
            0 <= k < shorter.len() && path_eq(shorter[k].0@, path) && chosen(
                shorter[k].1,
            ) implies value(shorter[k].1) == 0 by {
            assert(shorter[k] == entries[k]);
        }
        lemma_sum_none(shorter, path, chosen, value);
        assert(entries[entries.len() - 1] == entries.last());
    }
}

/// The sum over a selection is the sum over two that make it up, edit by edit.
proof fn lemma_sum_parts(
    entries: Entries,
    path: Seq<char>,
    all: spec_fn(Adjustment) -> bool,
    one: spec_fn(Adjustment) -> bool,
    two: spec_fn(Adjustment) -> bool,
    value: spec_fn(Adjustment) -> int,
    value_of_two: spec_fn(Adjustment) -> int,
)
    requires
        forall|k: int|
            #![trigger entries[k]]
            0 <= k < entries.len() && path_eq(entries[k].0@, path) ==> {
                let a = entries[k].1;
                &&& all(a) == (one(a) || two(a))
                &&& !(one(a) && two(a))
                &&& two(a) ==> value(a) == value_of_two(a)
            },
    ensures
        sum_over(entries, path, all, value) == sum_over(entries, path, one, value) + sum_over(
            entries,
            path,
            two,
            value_of_two,
        ),
    decreases entries.len(),
{
    if entries.len() > 0 {
        let shorter = entries.drop_last();
        assert forall|k: int|
            #![trigger shorter[k]]
            0 <= k < shorter.len() && path_eq(shorter[k].0@, path) implies {
            let a = shorter[k].1;
            &&& all(a) == (one(a) || two(a))
            &&& !(one(a) && two(a))
            &&& two(a) ==> value(a) == value_of_two(a)
        } by {
            assert(shorter[k] == entries[k]);
        }
        lemma_sum_parts(shorter, path, all, one, two, value, value_of_two);
        assert(entries[entries.len() - 1] == entries.last());
    }
}

// ---------------------------------------------------------------------------
// Laws
// ---------------------------------------------------------------------------
/// Recording an edit moves every later byte of the same file by the edit's size, and no other.
pub proof fn law_edit_moves_what_follows(
    entries: Entries,
    edit: (String, Adjustment),
    path: Seq<char>,
    offset: int,
)
    ensures
        current_offset(entries.push(edit), path, offset) == if path_eq(edit.0@, path)
            && edit.1.original_offset <= offset {
            wrap_usize(current_offset(entries, path, offset) + edit.1.delta_offset)
        } else {
            current_offset(entries, path, offset)
        },
{
    assert(entries.push(edit).drop_last() =~= entries);
    let x = offset + offset_delta(entries, path, offset);
    lemma_wrap_usize_absorb(x, edit.1.delta_offset as int);
}

/// An edit of one file changes no answer about another.
pub proof fn law_edit_leaves_other_files(
    entries: Entries,
    edit: (String, Adjustment),
    path: Seq<char>,
    offset: int,
    line: int,
    col: int,
)
    requires
        !path_eq(edit.0@, path),
    ensures
        current_offset(entries.push(edit), path, offset) == current_offset(entries, path, offset),
        in_macro(entries.push(edit), path, line) == in_macro(entries, path, line),
        original_line_of(entries.push(edit), path, line) == original_line_of(entries, path, line),
        original_col_of(entries.push(edit), path, line, col) == original_col_of(
            entries,
            path,
            line,
            col,
        ),
{
    let more = entries.push(edit);
    let len = entries.len() as int;
    assert(more.drop_last() =~= entries);
    let edits = line_edits(entries, path);
    let all = line_edits(more, path);
    let extra = all[len];
    assert(all =~= edits.push(extra));
    assert forall|i: int| in_block(more, path, line, i) == in_block(entries, path, line, i) by {
        if 0 <= i < len {
            assert(all[i] == edits[i]);
            lemma_stands_ignores(edits, extra, i, line);
        }
    }
    if in_macro(entries, path, line) {
        let i = choose|i: int| in_block(entries, path, line, i);
        assert(in_block(more, path, line, i));
    }
    if in_macro(more, path, line) {
        let i = choose|i: int| in_block(more, path, line, i);
        assert(in_block(entries, path, line, i));
    }
    assert forall|k: int|
        #![trigger edits[k]]
        0 <= k < edits.len() && edits[k].counts implies those_standing_before(all, line)(k)
        == those_standing_before(edits, line)(k) by {
        lemma_stands_ignores(edits, extra, k, line);
    }
    lemma_total_ignores(
        edits,
        extra,
        those_standing_before(all, line),
        those_standing_before(edits, line),
        len,
    );
    let cols = col_edits(entries, path, line);
    let all_cols = col_edits(more, path, line);
    let no_col = all_cols[len];
    assert(all_cols =~= cols.push(no_col));
    assert forall|k: int|
        #![trigger cols[k]]
        0 <= k < cols.len() && cols[k].counts implies those_standing_before(all_cols, col)(k)
        == those_standing_before(cols, col)(k) by {
        lemma_stands_ignores(cols, no_col, k, col);
    }
    lemma_total_ignores(
        cols,
        no_col,
        those_standing_before(all_cols, col),
        those_standing_before(cols, col),
        len,
    );
}

/// A line has an original exactly where it is not macro-generated.
pub proof fn law_original_line_iff_not_macro(entries: Entries, path: Seq<char>, line: int)
    ensures
        original_line_of(entries, path, line) is None <==> in_macro(entries, path, line),
{
}

/// The edit moves line `line`: lines are added at its start and taken away behind it.
pub open spec fn moves_line(a: Adjustment, line: int) -> bool {
    if a.delta_line < 0 {
        a.original_line < line
    } else {
        a.original_line <= line
    }
}

/// The edits that move line `line`.
pub open spec fn those_moving_line(entries: Entries, line: int) -> spec_fn(int) -> bool {
    |k: int| moves_line(entries[k].1, line)
}

/// Where line `line` of the original source stands after the edits of `path`.
pub open spec fn expanded_line(entries: Entries, path: Seq<char>, line: int) -> int {
    arrives(line_edits(entries, path), line, those_moving_line(entries, line))
}

/// The edits of `path` do not overlap, whatever the order in which they were recorded.
pub open spec fn lines_apart(entries: Entries, path: Seq<char>) -> bool {
    apart(line_edits(entries, path))
}

/// No edit of `path` took line `line` away, and none behind it put its block where the line stands.
///
/// The latter happens only where an edit that starts on `line` joins it with lines below it and a
/// further edit inserts lines at the seam.
pub open spec fn line_survives(entries: Entries, path: Seq<char>, line: int) -> bool {
    forall|i: int|
        #![trigger entries[i]]
        0 <= i < entries.len() && path_eq(entries[i].0@, path) ==> {
            let e = entries[i].1;
            &&& line <= e.original_line || e.original_line + loss(e.delta_line as int) < line
                || e.delta_line >= 0
            &&& line < e.original_line && e.delta_line > 0 ==> expanded_line(entries, path, line)
                < place(line_edits(entries, path), i)
        }
}

/// Every line of the original source that the edits leave is found again: its place in the expanded
/// source is not macro-generated and maps back to it. The edits may have been recorded in any order.
pub proof fn law_original_line_round_trip(entries: Entries, path: Seq<char>, line: int)
    requires
        lines_apart(entries, path),
        line_survives(entries, path, line),
        0 <= line <= usize::MAX,
    ensures
        0 <= expanded_line(entries, path, line),
        original_line_of(entries, path, expanded_line(entries, path, line)) == Some(line),
{
    let edits = line_edits(entries, path);
    let moved = those_moving_line(entries, line);
    let target = expanded_line(entries, path, line);
    let n = entries.len() as int;
    lemma_lines_part(entries, path, line);
    lemma_arrives_in_range(edits, line, moved);
    assert forall|i: int|
        #![trigger edits[i]]
        0 <= i < n && edits[i].counts implies those_standing_before(edits, target)(i) == moved(
        i,
    ) by {
        lemma_apart_stands(edits, i, target);
        if moved(i) {
            lemma_moved_stands_before(edits, line, moved, i);
        } else {
            lemma_unmoved_stands_behind(edits, line, moved, i);
        }
    }
    assert forall|i: int| !in_block(entries, path, target, i) by {
        if 0 <= i < n && edits[i].counts {
            assert(path_eq(entries[i].0@, path));
            lemma_apart_stands(edits, i, target);
            if moved(i) {
                lemma_moved_stands_before(edits, line, moved, i);
            }
        }
    }
    lemma_total_agree(edits, n, those_standing_before(edits, target), moved);
    lemma_wrap_usize_fits(line);
}

/// The edits that move a surviving line stand before it.
proof fn lemma_lines_part(entries: Entries, path: Seq<char>, line: int)
    requires
        lines_apart(entries, path),
        line_survives(entries, path, line),
    ensures
        parts_at(line_edits(entries, path), line, those_moving_line(entries, line)),
        forall|k: int|
            #![trigger line_edits(entries, path)[k]]
            0 <= k < entries.len() && line_edits(entries, path)[k].counts && those_moving_line(
                entries,
                line,
            )(k) && line_edits(entries, path)[k].added == 0 ==> line_edits(entries, path)[k].at
                + line_edits(entries, path)[k].removed < line,
{
    let edits = line_edits(entries, path);
    let moved = those_moving_line(entries, line);
    assert forall|i: int|
        #![trigger edits[i]]
        0 <= i < edits.len() && edits[i].counts implies if moved(i) {
        edits[i].at + edits[i].removed <= line && (edits[i].added == 0 ==> edits[i].at
            + edits[i].removed < line)
    } else {
        line <= edits[i].at
    } by {
        let e = entries[i].1;
        assert(path_eq(entries[i].0@, path));
    }
    assert forall|i: int, j: int|
        #![trigger edits[i], edits[j]]
        0 <= i < edits.len() && 0 <= j < edits.len() && edits[i].counts && edits[j].counts && moved(
            j,
        ) && precedes(edits, i, j) implies moved(i) by {
        assert(edits[i].at + edits[i].removed <= edits[j].at);
        assert(path_eq(entries[i].0@, path));
    }
}

/// Every edit of `path` was recorded with the line that its offset has in the original text.
pub open spec fn lines_recorded(original: Seq<u8>, entries: Entries, path: Seq<char>) -> bool {
    forall|i: int|
        #![trigger entries[i]]
        0 <= i < entries.len() && path_eq(entries[i].0@, path) ==> {
            &&& entries[i].1.original_offset <= original.len()
            &&& entries[i].1.original_line == newlines(original.take(entries[i].1.original_offset as int))
                + 1
        }
}

/// Where lines were only inserted, in whatever order, every line of the original source is found
/// again.
pub proof fn law_lines_come_back_after_insertions(entries: Entries, path: Seq<char>, line: int)
    requires
        forall|i: int|
            #![trigger entries[i]]
            0 <= i < entries.len() && path_eq(entries[i].0@, path) ==> entries[i].1.delta_line >= 0,
        0 <= line <= usize::MAX,
    ensures
        original_line_of(entries, path, expanded_line(entries, path, line)) == Some(line),
{
    let edits = line_edits(entries, path);
    let moved = those_moving_line(entries, line);
    assert forall|i: int|
        #![trigger edits[i]]
        0 <= i < edits.len() && edits[i].counts implies edits[i].removed == 0 && 0 < edits[i].added
        && moved(i) == (edits[i].at <= line) by {
        assert(path_eq(entries[i].0@, path));
    }
    assert(apart(edits));
    assert(parts_at(edits, line, moved));
    assert forall|i: int|
        #![trigger entries[i]]
        0 <= i < entries.len() && path_eq(entries[i].0@, path) && line < entries[i].1.original_line
            && entries[i].1.delta_line > 0 implies expanded_line(entries, path, line) < place(
        edits,
        i,
    ) by {
        assert(edits[i].counts);
        lemma_unmoved_stands_behind(edits, line, moved, i);
    }
    law_original_line_round_trip(entries, path, line);
}

/// Line `line` and those above it stay where they are where all edits of `path` are on it or below
/// it, unless it is taken for generated.
pub proof fn law_lines_above_edits_stay(entries: Entries, path: Seq<char>, line: int)
    requires
        forall|i: int|
            #![trigger entries[i]]
            0 <= i < entries.len() && path_eq(entries[i].0@, path) ==> line
                <= entries[i].1.original_line,
        0 <= line <= usize::MAX,
        !in_macro(entries, path, line),
    ensures
        original_line_of(entries, path, line) == Some(line),
{
    let edits = line_edits(entries, path);
    assert forall|k: int|
        #![trigger edits[k]]
        0 <= k < edits.len() && edits[k].counts implies !those_standing_before(edits, line)(k) by {
        assert forall|j: int|
            #![trigger edits[j]]
            0 <= j < edits.len() && edits[j].counts implies line <= edits[j].at && 0
            <= edits[j].added by {
            assert(path_eq(entries[j].0@, path));
        }
        lemma_nothing_before(edits, line, k);
    }
    lemma_total_none(edits, edits.len() as int, those_standing_before(edits, line));
    lemma_wrap_usize_fits(line);
}

/// The edits of `path` were recorded from the top of the file down.
pub open spec fn recorded_downward(entries: Entries, path: Seq<char>) -> bool {
    forall|i: int, j: int|
        #![trigger entries[i], entries[j]]
        0 <= i < j < entries.len() && path_eq(entries[i].0@, path) && path_eq(entries[j].0@, path)
            ==> {
            let a = entries[i].1;
            let b = entries[j].1;
            a.original_line < b.original_line || (a.original_line == b.original_line
                && a.original_offset <= b.original_offset)
        }
}

/// How many lines the edits of `path` add.
pub open spec fn total_line_delta(entries: Entries, path: Seq<char>) -> int {
    sum_over(entries, path, |a: Adjustment| true, |a: Adjustment| a.delta_line as int)
}

/// Where the edits were recorded from the top of the file down, the generated lines are those of the
/// blocks that follow each other: each starts at the original line of its edit, moved by all edits
/// recorded before it.
pub proof fn law_blocks_follow_each_other(entries: Entries, path: Seq<char>, line: int)
    requires
        recorded_downward(entries, path),
    ensures
        in_macro(entries, path, line) <==> exists|i: int|
            #![trigger entries[i]]
            0 <= i < entries.len() && path_eq(entries[i].0@, path) && ({
                let start = entries[i].1.original_line + total_line_delta(entries.take(i), path);
                start <= line < start + entries[i].1.delta_line
            }),
{
    let edits = line_edits(entries, path);
    assert forall|i: int|
        #![trigger edits[i]]
        0 <= i < entries.len() && edits[i].counts implies place(edits, i)
        == entries[i].1.original_line + total_line_delta(entries.take(i), path) && shows(
        edits,
        i,
        line,
    ) == (place(edits, i) <= line < end(edits, i)) by {
        let n = entries.len() as int;
        let first = |k: int| k < i;
        assert(path_eq(entries[i].0@, path));
        assert forall|k: int|
            #![trigger edits[k]]
            0 <= k < n && edits[k].counts implies those_before(edits, i)(k) == first(k) by {
            assert(path_eq(entries[k].0@, path));
        }
        lemma_total_agree(edits, n, those_before(edits, i), first);
        lemma_total_of_first(entries, path, i, n);
    }
    if in_macro(entries, path, line) {
        let i = choose|i: int| in_block(entries, path, line, i);
        assert(edits[i].counts);
        assert(path_eq(entries[i].0@, path));
    }
    if exists|i: int|
        #![trigger entries[i]]
        0 <= i < entries.len() && path_eq(entries[i].0@, path) && ({
            let start = entries[i].1.original_line + total_line_delta(entries.take(i), path);
            start <= line < start + entries[i].1.delta_line
        }) {
        let i = choose|i: int|
            #![trigger entries[i]]
            0 <= i < entries.len() && path_eq(entries[i].0@, path) && ({
                let start = entries[i].1.original_line + total_line_delta(entries.take(i), path);
                start <= line < start + entries[i].1.delta_line
            });
        assert(edits[i].counts);
        assert(in_block(entries, path, line, i));
    }
}

proof fn lemma_total_of_first(entries: Entries, path: Seq<char>, i: int, n: int)
    requires
        0 <= i <= entries.len(),
        0 <= n <= entries.len(),
    ensures
        total(line_edits(entries, path), n, |k: int| k < i) == total_line_delta(
            entries.take(
                if n < i {
                    n
                } else {
                    i
                },
            ),
            path,
        ),
    decreases n,
{
    if n > 0 {
        lemma_total_of_first(entries, path, i, n - 1);
        if n <= i {
            assert(entries.take(n).drop_last() =~= entries.take(n - 1));
            assert(entries.take(n).last() == entries[n - 1]);
        }
    }
}

/// The edit moves column `col`: columns are added at its start and taken away behind it.
pub open spec fn moves_col(a: Adjustment, col: int) -> bool {
    if a.delta_col < 0 {
        a.original_col < col
    } else {
        a.original_col <= col
    }
}

/// The edits that move column `col`.
pub open spec fn those_moving_col(entries: Entries, col: int) -> spec_fn(int) -> bool {
    |k: int| moves_col(entries[k].1, col)
}

/// Where column `col` of line `line` of the original source stands after the edits of `path`.
pub open spec fn expanded_col(entries: Entries, path: Seq<char>, line: int, col: int) -> int {
    arrives(col_edits(entries, path, line), col, those_moving_col(entries, col))
}

/// The edits of `path` on line `line` do not overlap, whatever the order in which they were recorded.
pub open spec fn cols_apart(entries: Entries, path: Seq<char>, line: int) -> bool {
    apart(col_edits(entries, path, line))
}

/// No edit of `path` on line `line` took column `col` away, and `col` does not directly follow what
/// an edit took away.
pub open spec fn col_survives(entries: Entries, path: Seq<char>, line: int, col: int) -> bool {
    forall|i: int|
        #![trigger entries[i]]
        0 <= i < entries.len() && path_eq(entries[i].0@, path) && entries[i].1.original_line == line
            && entries[i].1.delta_col < 0 ==> col <= entries[i].1.original_col
            || entries[i].1.original_col - entries[i].1.delta_col < col
}

/// Every column that the edits of its line leave is found again from where they put it. The edits
/// may have been recorded in any order.
pub proof fn law_column_comes_back(entries: Entries, path: Seq<char>, line: int, col: int)
    requires
        cols_apart(entries, path, line),
        col_survives(entries, path, line, col),
        1 <= col <= isize::MAX,
    ensures
        original_col_of(entries, path, line, expanded_col(entries, path, line, col)) == col,
{
    let edits = col_edits(entries, path, line);
    let moved = those_moving_col(entries, col);
    let target = expanded_col(entries, path, line, col);
    let n = entries.len() as int;
    assert forall|i: int|
        #![trigger edits[i]]
        0 <= i < edits.len() && edits[i].counts implies if moved(i) {
        edits[i].at + edits[i].removed <= col && (edits[i].added == 0 ==> edits[i].at
            + edits[i].removed < col)
    } else {
        col <= edits[i].at
    } by {
        assert(path_eq(entries[i].0@, path));
    }
    assert forall|i: int, j: int|
        #![trigger edits[i], edits[j]]
        0 <= i < edits.len() && 0 <= j < edits.len() && edits[i].counts && edits[j].counts && moved(
            j,
        ) && precedes(edits, i, j) implies moved(i) by {
        assert(edits[i].at + edits[i].removed <= edits[j].at);
        assert(path_eq(entries[i].0@, path));
    }
    assert(parts_at(edits, col, moved));
    assert forall|i: int|
        #![trigger edits[i]]
        0 <= i < n && edits[i].counts implies those_standing_before(edits, target)(i) == moved(
        i,
    ) by {
        lemma_apart_stands(edits, i, target);
        if moved(i) {
            lemma_moved_stands_before(edits, col, moved, i);
        } else {
            lemma_unmoved_stands_behind(edits, col, moved, i);
        }
    }
    lemma_total_agree(edits, n, those_standing_before(edits, target), moved);
    lemma_wrap_isize_fits(col);
}

/// Where text was only inserted into a line, in whatever order, every column of the line is found
/// again.
pub proof fn law_columns_come_back_after_insertions(
    entries: Entries,
    path: Seq<char>,
    line: int,
    col: int,
)
    requires
        forall|i: int|
            #![trigger entries[i]]
            0 <= i < entries.len() && path_eq(entries[i].0@, path) && entries[i].1.original_line
                == line ==> entries[i].1.delta_col >= 0,
        1 <= col <= isize::MAX,
    ensures
        original_col_of(entries, path, line, expanded_col(entries, path, line, col)) == col,
{
    let edits = col_edits(entries, path, line);
    assert forall|i: int|
        #![trigger edits[i]]
        0 <= i < edits.len() && edits[i].counts implies edits[i].removed == 0 && 0
        < edits[i].added by {
        assert(path_eq(entries[i].0@, path));
    }
    assert(apart(edits));
    law_column_comes_back(entries, path, line, col);
}

/// A column at or left of every edit on its line stays where it is.
pub proof fn law_column_left_of_edits_stays(entries: Entries, path: Seq<char>, line: int, col: int)
    requires
        forall|i: int|
            #![trigger entries[i]]
            0 <= i < entries.len() && path_eq(entries[i].0@, path) && entries[i].1.original_line
                == line ==> col <= entries[i].1.original_col,
        1 <= col <= isize::MAX,
    ensures
        original_col_of(entries, path, line, col) == col,
{
    let edits = col_edits(entries, path, line);
    assert forall|k: int|
        #![trigger edits[k]]
        0 <= k < edits.len() && edits[k].counts implies !those_standing_before(edits, col)(k) by {
        assert forall|j: int|
            #![trigger edits[j]]
            0 <= j < edits.len() && edits[j].counts implies col <= edits[j].at && 0
            <= edits[j].added by {
            assert(path_eq(entries[j].0@, path));
        }
        lemma_nothing_before(edits, col, k);
    }
    lemma_total_none(edits, edits.len() as int, those_standing_before(edits, col));
    lemma_wrap_isize_fits(col);
}

/// A line that carries no edit keeps its columns.
pub proof fn law_unedited_line_keeps_columns(entries: Entries, path: Seq<char>, line: int, col: int)
    requires
        forall|i: int|
            #![trigger entries[i]]
            0 <= i < entries.len() && path_eq(entries[i].0@, path) ==> entries[i].1.original_line
                != line,
        1 <= col <= isize::MAX,
    ensures
        original_col_of(entries, path, line, col) == col,
{
    let edits = col_edits(entries, path, line);
    lemma_total_none(edits, edits.len() as int, those_standing_before(edits, col));
    lemma_wrap_isize_fits(col);
}

/// In a file without edits every offset, line and column stays where it is, and no line is
/// macro-generated.
pub proof fn law_unedited_file_keeps_positions(
    entries: Entries,
    path: Seq<char>,
    offset: int,
    line: int,
    col: int,
)
    requires
        forall|i: int|
            #![trigger entries[i]]
            0 <= i < entries.len() ==> !path_eq(entries[i].0@, path),
        0 <= offset <= usize::MAX,
        0 <= line <= isize::MAX,
        1 <= col <= isize::MAX,
    ensures
        current_offset(entries, path, offset) == offset,
        !in_macro(entries, path, line),
        original_line_of(entries, path, line) == Some(line),
        original_col_of(entries, path, line, col) == col,
{
    let size = |a: Adjustment| a.delta_offset as int;
    lemma_sum_none(entries, path, |a: Adjustment| a.original_offset <= offset, size);
    lemma_wrap_usize_fits(offset);
    assert forall|i: int| !in_block(entries, path, line, i) by {}
    let edits = line_edits(entries, path);
    lemma_total_none(edits, edits.len() as int, those_standing_before(edits, line));
    lemma_wrap_usize_fits(line);
    law_unedited_line_keeps_columns(entries, path, line, col);
}

// ---------------------------------------------------------------------------
// Laws on the text
// ---------------------------------------------------------------------------
/// How far the edits of `path` move the byte at `offset` of the original text.
pub open spec fn moved_to(entries: Entries, path: Seq<char>, offset: int) -> int {
    offset + offset_delta(entries, path, offset)
}

/// `current` is `original` after the edits of `path`: every offset in `live` still has its byte,
/// [`moved_to`] says where it stands and [`line_delta`] how many lines were added before it. The end
/// of the text is always live.
pub open spec fn tracks(
    original: Seq<u8>,
    entries: Entries,
    path: Seq<char>,
    live: Set<int>,
    current: Seq<u8>,
) -> bool {
    follows(
        original,
        |o: int| moved_to(entries, path, o),
        |o: int| line_delta(entries, path, o),
        live,
        current,
    )
}

/// A file without edits is tracked as it is, all of it live.
pub proof fn law_unedited_file_is_tracked(original: Seq<u8>, entries: Entries, path: Seq<char>)
    requires
        forall|i: int|
            #![trigger entries[i]]
            0 <= i < entries.len() ==> !path_eq(entries[i].0@, path),
    ensures
        tracks(original, entries, path, Set::new(|o: int| 0 <= o <= original.len()), original),
        lines_recorded(original, entries, path),
{
    let moved = |o: int| moved_to(entries, path, o);
    let lines = |o: int| line_delta(entries, path, o);
    assert forall|o: int| #[trigger] moved(o) == o by {
        lemma_sum_none(
            entries,
            path,
            |a: Adjustment| a.original_offset <= o,
            |a: Adjustment| a.delta_offset as int,
        );
    }
    assert forall|o: int| #[trigger] lines(o) == 0 by {
        lemma_sum_none(
            entries,
            path,
            |a: Adjustment| a.original_offset <= o,
            |a: Adjustment| a.delta_line as int,
        );
    }
    lemma_untouched_is_followed(original, moved, lines);
}

/// Recording the replacement of the live original bytes from `start` to `end` by `added`, and making
/// it at the place that [`current_offset`] gives, keeps track of every other live byte. The edit is
/// recorded with its line in the original text. With `start` equal to `end` this is an insertion,
/// after which every live byte is still live. Edits may be recorded in any order.
pub proof fn law_recording_keeps_track(
    original: Seq<u8>,
    entries: Entries,
    path: Seq<char>,
    live: Set<int>,
    current: Seq<u8>,
    edit: (String, Adjustment),
    start: usize,
    end: int,
    added: Seq<u8>,
)
    requires
        tracks(original, entries, path, live, current),
        live.contains(start as int),
        live.contains(end),
        start <= end,
        original.len() <= isize::MAX,
        current.len() <= isize::MAX,
        added.len() <= isize::MAX,
        path_eq(edit.0@, path),
        edit.1 == edit_of(
            entries,
            path,
            start,
            current.take(current_offset(entries, path, start as int)),
            added,
            current.subrange(
                current_offset(entries, path, start as int),
                current_offset(entries, path, end),
            ),
        ),
    ensures
        tracks(
            original,
            entries.push(edit),
            path,
            live.difference(Set::new(|o: int| start <= o < end)),
            spliced(
                current,
                current_offset(entries, path, start as int),
                current_offset(entries, path, end),
                added,
            ),
        ),
        edit.1.original_offset == start,
        edit.1.original_line == newlines(original.take(start as int)) + 1,
        lines_recorded(original, entries, path) ==> lines_recorded(
            original,
            entries.push(edit),
            path,
        ),
{
    let more = entries.push(edit);
    let moved = |o: int| moved_to(entries, path, o);
    let lines = |o: int| line_delta(entries, path, o);
    let moved_after = |o: int| moved_to(more, path, o);
    let lines_after = |o: int| line_delta(more, path, o);
    let s = moved(start as int);
    let e = moved(end);
    let removed = current.subrange(s, e);
    assert(start < end ==> s < e);
    assert(0 <= s <= e <= current.len());
    lemma_wrap_usize_fits(s);
    lemma_wrap_usize_fits(e);
    lemma_count_bound(added, 10u8);
    lemma_count_bound(removed, 10u8);
    lemma_wrap_isize_fits(added.len() - removed.len());
    lemma_wrap_isize_fits(newlines(added) - newlines(removed));
    assert(more.drop_last() =~= entries);
    assert(more.last() == edit);
    lemma_edit_is_followed(
        original,
        moved,
        lines,
        live,
        current,
        moved_after,
        lines_after,
        start as int,
        end,
        added,
    );
    lemma_count_bound(original.take(start as int), 10u8);
    assert(newlines(current.take(s)) == newlines(original.take(start as int)) + lines(
        start as int,
    ));
    lemma_wrap_usize_fits(newlines(original.take(start as int)) as int + 1);
    if lines_recorded(original, entries, path) {
        assert forall|i: int|
            #![trigger more[i]]
            0 <= i < more.len() && path_eq(more[i].0@, path) implies {
            &&& more[i].1.original_offset <= original.len()
            &&& more[i].1.original_line == newlines(
                original.take(more[i].1.original_offset as int),
            ) + 1
        } by {
            if i < entries.len() {
                assert(more[i] == entries[i]);
            }
        }
    }
}

/// The current text holds each live byte of the original text at its adjusted offset, and adjusted
/// offsets keep the order of the original ones.
pub proof fn law_adjusted_offset_finds_the_byte(
    original: Seq<u8>,
    entries: Entries,
    path: Seq<char>,
    live: Set<int>,
    current: Seq<u8>,
    o: int,
    p: int,
)
    requires
        tracks(original, entries, path, live, current),
        current.len() <= usize::MAX,
        live.contains(o),
        live.contains(p),
        o < p,
    ensures
        0 <= current_offset(entries, path, o) < current.len(),
        current[current_offset(entries, path, o)] == original[o],
        current_offset(entries, path, o) < current_offset(entries, path, p) <= current.len(),
{
    let moved = |x: int| moved_to(entries, path, x);
    assert(0 <= moved(o) < moved(p) <= current.len());
    lemma_wrap_usize_fits(moved(o));
    lemma_wrap_usize_fits(moved(p));
}

/// The edits of `path` on line `line` at or before `offset` keep to their line: they shift columns by
/// as much as they change the size.
pub open spec fn kept_to_line(entries: Entries, path: Seq<char>, line: int, offset: int) -> bool {
    forall|i: int|
        #![trigger entries[i]]
        0 <= i < entries.len() && path_eq(entries[i].0@, path) && entries[i].1.original_line == line
            && entries[i].1.original_offset <= offset ==> {
            &&& entries[i].1.delta_line == 0
            &&& entries[i].1.delta_col == entries[i].1.delta_offset
        }
}

/// Where a live byte stands on its line in the current text: at its column in the original text, moved
/// by the edits before it on the line.
proof fn lemma_current_column(
    original: Seq<u8>,
    entries: Entries,
    path: Seq<char>,
    live: Set<int>,
    current: Seq<u8>,
    o: int,
)
    requires
        tracks(original, entries, path, live, current),
        lines_recorded(original, entries, path),
        live.contains(o),
        line_start(original.take(o)) > 0 ==> live.contains(line_start(original.take(o)) - 1),
        original.len() < isize::MAX,
        current.len() <= isize::MAX,
        kept_to_line(entries, path, newlines(original.take(o)) as int + 1, o),
    ensures
        0 <= moved_to(entries, path, o) <= current.len(),
        current_offset(entries, path, o) == moved_to(entries, path, o),
        newlines(current.take(moved_to(entries, path, o))) == newlines(original.take(o)) + line_delta(
            entries,
            path,
            o,
        ),
        0 <= line_start(original.take(o)) <= o,
        moved_to(entries, path, o) - line_start(current.take(moved_to(entries, path, o))) == o
            - line_start(original.take(o)) + col_delta_at(
            entries,
            path,
            newlines(original.take(o)) as int + 1,
            o,
        ),
{
    let moved = |x: int| moved_to(entries, path, x);
    let lines = |x: int| line_delta(entries, path, x);
    let head = original.take(o);
    let s = line_start(head);
    let line = newlines(head) as int + 1;
    let here = moved(o);
    let before = current.take(here);
    lemma_wrap_usize_fits(here);
    lemma_count_bound(head, 10u8);
    assert(newlines(before) == newlines(head) + lines(o));
    head.index_of_last_ensures(10u8);
    before.index_of_last_ensures(10u8);
    // The edits at or before `offset` are those of earlier lines and those of this one.
    let all = |a: Adjustment| a.original_offset <= o;
    let earlier = |a: Adjustment| a.original_offset <= s - 1;
    let same = |a: Adjustment| a.original_line == line && a.original_offset <= o;
    let size = |a: Adjustment| a.delta_offset as int;
    let shift = |a: Adjustment| a.delta_col as int;
    let height = |a: Adjustment| a.delta_line as int;
    assert(0 <= s <= o);
    assert(s > 0 ==> original[s - 1] == 10u8) by {
        if s > 0 {
            assert(head[s - 1] == 10u8);
        }
    }
    assert forall|x: int| s <= x < o implies original[x] != 10u8 by {
        assert(head[x] == original[x]);
    }
    assert forall|k: int|
        #![trigger entries[k]]
        0 <= k < entries.len() && path_eq(entries[k].0@, path) implies {
        let a = entries[k].1;
        &&& all(a) == (earlier(a) || same(a))
        &&& !(earlier(a) && same(a))
        &&& same(a) ==> size(a) == shift(a) && height(a) == 0
    } by {
        let x = entries[k].1.original_offset as int;
        if s <= x <= o {
            lemma_newlines_between(original, x, o);
            let gap = original.subrange(x, o);
            assert forall|i: int| 0 <= i < gap.len() implies gap[i] != 10u8 by {
                assert(gap[i] == original[x + i]);
            }
            lemma_count_no_newline(gap);
        }
        if x <= s - 1 {
            lemma_newlines_between(original, x, o);
            let gap = original.subrange(x, o);
            assert(gap[s - 1 - x] == 10u8);
            if newlines(gap) == 0 {
                lemma_no_newline(gap, s - 1 - x);
            }
        }
    }
    lemma_sum_parts(entries, path, all, earlier, same, size, shift);
    lemma_sum_parts(entries, path, all, earlier, same, height, height);
    lemma_sum_none(entries, path, same, height);
    let cols = sum_over(entries, path, same, shift);
    if s > 0 {
        let m = moved(s - 1);
        assert(live.contains(s - 1) && live.contains(o));
        assert(m < here);
        assert(current[m] == 10u8);
        lemma_newlines_between(original, s - 1, o);
        let line_text = original.subrange(s - 1, o);
        lemma_newlines_between(line_text, 1, line_text.len() as int);
        assert(line_text.take(line_text.len() as int) =~= line_text);
        let rest = line_text.subrange(1, line_text.len() as int);
        assert forall|i: int| 0 <= i < rest.len() implies rest[i] != 10u8 by {
            assert(rest[i] == original[s + i]);
        }
        lemma_count_no_newline(rest);
        let first = line_text.take(1);
        assert(first.drop_last() =~= Seq::<u8>::empty());
        assert(first.last() == 10u8);
        assert(newlines(first) == 1) by {
            reveal_with_fuel(count_of, 2);
        }
        let gap = current.subrange(m, here);
        lemma_newlines_between(current, m, here);
        assert(newlines(gap) == 1);
        lemma_newlines_between(gap, 1, gap.len() as int);
        assert(gap.take(gap.len() as int) =~= gap);
        let gap_rest = gap.subrange(1, gap.len() as int);
        let gap_first = gap.take(1);
        assert(gap_first.drop_last() =~= Seq::<u8>::empty());
        assert(gap_first.last() == 10u8);
        assert(newlines(gap_first) == 1) by {
            reveal_with_fuel(count_of, 2);
        }
        assert(newlines(gap_rest) == 0);
        assert(before[m] == 10u8);
        assert(before.contains(10u8));
        assert forall|x: int| m < x < here implies before[x] != 10u8 by {
            lemma_no_newline(gap_rest, x - m - 1);
            assert(gap_rest[x - m - 1] == current[x]);
        }
        assert(line_start(before) == m + 1);
    } else {
        assert forall|i: int| 0 <= i < head.len() implies head[i] != 10u8 by {
            assert(head[i] == original[i]);
        }
        lemma_count_no_newline(head);
        lemma_sum_none(entries, path, earlier, height);
        lemma_sum_none(entries, path, earlier, size);
        assert(newlines(before) == 0);
        assert forall|i: int| 0 <= i < before.len() implies before[i] != 10u8 by {
            lemma_no_newline(before, i);
        }
        assert(line_start(before) == 0);
    }
}

/// An edit is recorded with the column that it has in the original text, whatever the order of the
/// edits, as long as those before it on its line kept to the line.
pub proof fn law_recorded_column_is_original(
    original: Seq<u8>,
    entries: Entries,
    path: Seq<char>,
    live: Set<int>,
    current: Seq<u8>,
    offset: usize,
    added: Seq<u8>,
    removed: Seq<u8>,
)
    requires
        tracks(original, entries, path, live, current),
        lines_recorded(original, entries, path),
        live.contains(offset as int),
        line_start(original.take(offset as int)) > 0 ==> live.contains(
            line_start(original.take(offset as int)) - 1,
        ),
        original.len() < isize::MAX,
        current.len() <= isize::MAX,
        kept_to_line(
            entries,
            path,
            newlines(original.take(offset as int)) as int + 1,
            offset as int,
        ),
    ensures
        edit_of(
            entries,
            path,
            offset,
            current.take(current_offset(entries, path, offset as int)),
            added,
            removed,
        ).original_col == offset - line_start(original.take(offset as int)) + 1,
{
    let o = offset as int;
    let head = original.take(o);
    lemma_current_column(original, entries, path, live, current, o);
    lemma_count_bound(head, 10u8);
    lemma_wrap_usize_fits(newlines(head) as int + 1);
    lemma_wrap_isize_fits(o - line_start(head) + 1);
}

/// What an edit is recorded to change is what its texts say. An edit that neither adds nor removes a
/// line break shifts the columns behind it by the bytes it adds less those it removes, be that more or
/// less. One that does shifts no columns, and changes the lines by the breaks it adds less those it
/// removes.
pub proof fn law_recorded_change_is_that_of_the_texts(
    entries: Entries,
    path: Seq<char>,
    offset: usize,
    before: Seq<u8>,
    added: Seq<u8>,
    removed: Seq<u8>,
)
    requires
        added.len() <= isize::MAX,
        removed.len() <= isize::MAX,
    ensures
        ({
            let e = edit_of(entries, path, offset, before, added, removed);
            &&& e.original_offset == offset
            &&& e.delta_offset == added.len() - removed.len()
            &&& !added.contains(10u8) && !removed.contains(10u8) ==> e.delta_col == added.len()
                - removed.len() && e.delta_line == 0
            &&& added.contains(10u8) || removed.contains(10u8) ==> e.delta_col == 0
            &&& e.delta_line == added.filter(|b: u8| b == 10u8).len() - removed.filter(
                |b: u8| b == 10u8,
            ).len()
        }),
{
    lemma_count_bound(added, 10u8);
    lemma_count_bound(removed, 10u8);
    law_count_goes_by_parts(added, added, 10u8, 10u8);
    law_count_goes_by_parts(removed, removed, 10u8, 10u8);
    lemma_newlines_are_filtered(added);
    lemma_newlines_are_filtered(removed);
    lemma_wrap_isize_fits(added.len() - removed.len());
    lemma_wrap_isize_fits(newlines(added) - newlines(removed));
}

proof fn lemma_newlines_are_filtered(bytes: Seq<u8>)
    ensures
        newlines(bytes) == bytes.filter(|b: u8| b == 10u8).len(),
    decreases bytes.len(),
{
    reveal(Seq::filter);
    if bytes.len() > 0 {
        lemma_newlines_are_filtered(bytes.drop_last());
    }
}

/// Recording an edit that neither adds nor removes a line break keeps to its line.
pub proof fn law_recorded_edit_keeps_to_its_line(
    entries: Entries,
    edit: (String, Adjustment),
    path: Seq<char>,
    before: Seq<u8>,
    added: Seq<u8>,
    removed: Seq<u8>,
    line: int,
    offset: int,
)
    requires
        edit.1 == edit_of(entries, path, edit.1.original_offset, before, added, removed),
        added.len() <= isize::MAX,
        removed.len() <= isize::MAX,
        !added.contains(10u8),
        !removed.contains(10u8),
        kept_to_line(entries, path, line, offset),
    ensures
        kept_to_line(entries.push(edit), path, line, offset),
{
    let more = entries.push(edit);
    law_recorded_change_is_that_of_the_texts(
        entries,
        path,
        edit.1.original_offset,
        before,
        added,
        removed,
    );
    assert forall|i: int|
        #![trigger more[i]]
        0 <= i < more.len() && path_eq(more[i].0@, path) && more[i].1.original_line == line
            && more[i].1.original_offset <= offset implies more[i].1.delta_line == 0
        && more[i].1.delta_col == more[i].1.delta_offset by {
        if i < entries.len() {
            assert(more[i] == entries[i]);
        }
    }
}

/// Every edit of `path` was recorded with the column that its offset has in the original text.
pub open spec fn cols_recorded(original: Seq<u8>, entries: Entries, path: Seq<char>) -> bool {
    forall|i: int|
        #![trigger entries[i]]
        0 <= i < entries.len() && path_eq(entries[i].0@, path) ==> entries[i].1.original_col
            == entries[i].1.original_offset - line_start(
            original.take(entries[i].1.original_offset as int),
        ) + 1
}

/// No edit of `path` on line `line` that shortens it starts at `o`, nor did it take the byte at `o`
/// away or the one in front of it.
///
/// What directly follows a pure deletion stands where the deletion does, so the two cannot be told
/// apart there.
pub open spec fn clear_of_removals(entries: Entries, path: Seq<char>, line: int, o: int) -> bool {
    forall|i: int|
        #![trigger entries[i]]
        0 <= i < entries.len() && path_eq(entries[i].0@, path) && entries[i].1.original_line == line
            && entries[i].1.delta_col < 0 ==> o < entries[i].1.original_offset
            || entries[i].1.original_offset - entries[i].1.delta_col < o
}

/// Offsets on the same line share its start.
proof fn lemma_same_line_start(original: Seq<u8>, x: int, o: int)
    requires
        0 <= x <= o <= original.len(),
        newlines(original.take(x)) == newlines(original.take(o)),
    ensures
        line_start(original.take(x)) == line_start(original.take(o)),
        line_start(original.take(o)) <= x,
{
    let head = original.take(o);
    let start = original.take(x);
    head.index_of_last_ensures(10u8);
    start.index_of_last_ensures(10u8);
    lemma_newlines_between(original, x, o);
    let gap = original.subrange(x, o);
    assert forall|j: int| x <= j < o implies head[j] != 10u8 by {
        lemma_no_newline(gap, j - x);
        assert(gap[j - x] == original[j]);
    }
    if start.contains(10u8) {
        let i = start.index_of_last(10u8)->0;
        assert(head[i] == 10u8);
        assert(head.contains(10u8));
        let k = head.index_of_last(10u8)->0;
        if k > i {
            assert(k < x);
            assert(start[k] == head[k]);
        }
        if k < i {
            assert(head[i] != 10u8);
        }
    } else if head.contains(10u8) {
        let k = head.index_of_last(10u8)->0;
        assert(k < x);
        assert(start[k] == 10u8);
    }
}

/// The two ways to sum up the shifts of a line agree.
proof fn lemma_cols_agree(
    entries: Entries,
    path: Seq<char>,
    line: int,
    o: int,
    col: int,
    n: int,
)
    requires
        0 <= n <= entries.len(),
        forall|i: int|
            #![trigger entries[i]]
            0 <= i < n && path_eq(entries[i].0@, path) && entries[i].1.original_line == line
                && entries[i].1.delta_col != 0 ==> (entries[i].1.original_offset <= o)
                == moves_col(entries[i].1, col),
    ensures
        total(col_edits(entries, path, line), n, those_moving_col(entries, col)) == col_delta_at(
            entries.take(n),
            path,
            line,
            o,
        ),
    decreases n,
{
    if n > 0 {
        lemma_cols_agree(entries, path, line, o, col, n - 1);
        assert(entries.take(n).drop_last() =~= entries.take(n - 1));
        assert(entries.take(n).last() == entries[n - 1]);
        assert(col_edits(entries, path, line)[n - 1].counts ==> path_eq(entries[n - 1].0@, path));
    }
}

/// The column at which a live byte of the original text stands in the current text maps back to its
/// column in the original text, whether the edits on its line made it longer or shorter, as long as
/// they kept to the line and do not overlap. The edits may have been recorded in any order.
pub proof fn law_column_of_a_live_byte(
    original: Seq<u8>,
    entries: Entries,
    path: Seq<char>,
    live: Set<int>,
    current: Seq<u8>,
    o: int,
)
    requires
        tracks(original, entries, path, live, current),
        lines_recorded(original, entries, path),
        cols_recorded(original, entries, path),
        live.contains(o),
        line_start(original.take(o)) > 0 ==> live.contains(line_start(original.take(o)) - 1),
        original.len() < isize::MAX,
        current.len() <= isize::MAX,
        kept_to_line(entries, path, newlines(original.take(o)) as int + 1, o),
        cols_apart(entries, path, newlines(original.take(o)) as int + 1),
        clear_of_removals(entries, path, newlines(original.take(o)) as int + 1, o),
    ensures
        original_col_of(
            entries,
            path,
            newlines(original.take(o)) as int + 1,
            current_offset(entries, path, o) - line_start(
                current.take(current_offset(entries, path, o)),
            ) + 1,
        ) == o - line_start(original.take(o)) + 1,
{
    let head = original.take(o);
    let s = line_start(head);
    let line = newlines(head) as int + 1;
    let col = o - s + 1;
    let n = entries.len() as int;
    lemma_current_column(original, entries, path, live, current, o);
    assert forall|i: int|
        #![trigger entries[i]]
        0 <= i < n && path_eq(entries[i].0@, path) && entries[i].1.original_line == line
            && entries[i].1.delta_col != 0 implies (entries[i].1.original_offset <= o) == moves_col(
        entries[i].1,
        col,
    ) && entries[i].1.original_col == entries[i].1.original_offset - s + 1 by {
        let x = entries[i].1.original_offset as int;
        if x <= o {
            lemma_same_line_start(original, x, o);
        } else {
            lemma_same_line_start(original, o, x);
        }
    }
    lemma_cols_agree(entries, path, line, o, col, n);
    assert(entries.take(n) =~= entries);
    assert(expanded_col(entries, path, line, col) == col + col_delta_at(entries, path, line, o));
    assert(col_survives(entries, path, line, col));
    law_column_comes_back(entries, path, line, col);
}

/// The two ways to sum up the changes of lines agree.
proof fn lemma_lines_agree(entries: Entries, path: Seq<char>, line: int, o: int, n: int)
    requires
        0 <= n <= entries.len(),
        forall|i: int|
            #![trigger entries[i]]
            0 <= i < n && path_eq(entries[i].0@, path) && entries[i].1.delta_line != 0 ==> (
            entries[i].1.original_offset <= o) == moves_line(entries[i].1, line),
    ensures
        total(line_edits(entries, path), n, those_moving_line(entries, line)) == line_delta(
            entries.take(n),
            path,
            o,
        ),
    decreases n,
{
    if n > 0 {
        lemma_lines_agree(entries, path, line, o, n - 1);
        assert(entries.take(n).drop_last() =~= entries.take(n - 1));
        assert(entries.take(n).last() == entries[n - 1]);
        assert(line_edits(entries, path)[n - 1].counts ==> path_eq(entries[n - 1].0@, path));
    }
}

/// The line on which a live byte of the original text stands in the current text maps back to its
/// line in the original text, as long as the edits on that line which add lines are in front of the
/// byte, none takes lines away, and the edits do not overlap. The edits may have been recorded in any
/// order.
pub proof fn law_line_of_a_live_byte(
    original: Seq<u8>,
    entries: Entries,
    path: Seq<char>,
    live: Set<int>,
    current: Seq<u8>,
    o: int,
)
    requires
        tracks(original, entries, path, live, current),
        lines_recorded(original, entries, path),
        live.contains(o),
        original.len() < usize::MAX,
        current.len() <= usize::MAX,
        lines_apart(entries, path),
        line_survives(entries, path, newlines(original.take(o)) as int + 1),
        forall|i: int|
            #![trigger entries[i]]
            0 <= i < entries.len() && path_eq(entries[i].0@, path) && entries[i].1.delta_line != 0
                && entries[i].1.original_line == newlines(original.take(o)) + 1
                ==> entries[i].1.delta_line > 0 && entries[i].1.original_offset <= o,
    ensures
        original_line_of(
            entries,
            path,
            newlines(current.take(current_offset(entries, path, o))) as int + 1,
        ) == Some(newlines(original.take(o)) as int + 1),
        !in_macro(
            entries,
            path,
            newlines(current.take(current_offset(entries, path, o))) as int + 1,
        ),
{
    let moved = |x: int| moved_to(entries, path, x);
    let lines = |x: int| line_delta(entries, path, x);
    let line = newlines(original.take(o)) as int + 1;
    let n = entries.len() as int;
    let here = moved(o);
    lemma_wrap_usize_fits(here);
    assert(newlines(current.take(here)) == newlines(original.take(o)) + lines(o));
    assert forall|i: int|
        #![trigger entries[i]]
        0 <= i < n && path_eq(entries[i].0@, path) && entries[i].1.delta_line != 0 implies (
    entries[i].1.original_offset <= o) == moves_line(entries[i].1, line) by {
        let x = entries[i].1.original_offset as int;
        if x <= o {
            lemma_newlines_between(original, x, o);
        } else {
            lemma_newlines_between(original, o, x);
        }
    }
    lemma_lines_agree(entries, path, line, o, n);
    assert(entries.take(n) =~= entries);
    assert(expanded_line(entries, path, line) == line + lines(o));
    lemma_count_bound(original.take(o), 10u8);
    law_original_line_round_trip(entries, path, line);
}

/// One edit of an untouched text that keeps to its line: every byte of that line that it leaves stands
/// in the new text where [`current_offset`] says, and the line and the column at which it stands there
/// map back to its line and column in the original text. Only a byte directly behind a pure deletion
/// is left out.
pub proof fn law_positions_come_back_after_one_edit(
    original: Seq<u8>,
    edit: (String, Adjustment),
    path: Seq<char>,
    start: usize,
    end: int,
    added: Seq<u8>,
    o: int,
)
    requires
        start <= end <= original.len(),
        original.len() + added.len() < isize::MAX,
        path_eq(edit.0@, path),
        edit.1 == edit_of(
            seq![],
            path,
            start,
            original.take(start as int),
            added,
            original.subrange(start as int, end),
        ),
        !added.contains(10u8),
        !original.subrange(start as int, end).contains(10u8),
        0 <= o <= original.len(),
        newlines(original.take(o)) == newlines(original.take(start as int)),
        o < start || (end <= o && (added.len() == 0 && start < end ==> end < o)),
    ensures
        ({
            let entries = seq![edit];
            let new = original.take(start as int) + added + original.skip(end);
            let at = if o < start {
                o
            } else {
                o + added.len() - (end - start)
            };
            let line = newlines(original.take(o)) as int + 1;
            &&& current_offset(entries, path, o) == at
            &&& original_line_of(entries, path, newlines(new.take(at)) as int + 1) == Some(line)
            &&& original_col_of(entries, path, line, at - line_start(new.take(at)) + 1) == o
                - line_start(original.take(o)) + 1
        }),
{
    let none: Entries = seq![];
    let entries = none.push(edit);
    let removed = original.subrange(start as int, end);
    let live0 = Set::new(|x: int| 0 <= x <= original.len());
    let live = live0.difference(Set::new(|x: int| start <= x < end));
    let line = newlines(original.take(o)) as int + 1;
    assert(entries =~= seq![edit]);
    law_unedited_file_is_tracked(original, none, path);
    law_unedited_file_keeps_positions(none, path, start as int, 0, 1);
    law_unedited_file_keeps_positions(none, path, end, 0, 1);
    law_recording_keeps_track(original, none, path, live0, original, edit, start, end, added);
    let new = spliced(original, start as int, end, added);
    law_recorded_change_is_that_of_the_texts(
        none,
        path,
        start,
        original.take(start as int),
        added,
        removed,
    );
    let st = start as int;
    let head = original.take(o);
    original.take(st).index_of_last_ensures(10u8);
    head.index_of_last_ensures(10u8);
    assert(kept_to_line(none, path, newlines(original.take(st)) as int + 1, st));
    law_recorded_column_is_original(original, none, path, live0, original, start, added, removed);
    assert(entries[0] == edit);
    assert(cols_recorded(original, entries, path));
    assert(kept_to_line(entries, path, line, o));
    assert(clear_of_removals(entries, path, line, o));
    assert(cols_apart(entries, path, line));
    if o <= st {
        lemma_same_line_start(original, o, st);
    } else {
        lemma_same_line_start(original, st, o);
    }
    assert(live.contains(o));
    if line_start(head) > 0 {
        assert(live.contains(line_start(head) - 1));
    }
    law_column_of_a_live_byte(original, entries, path, live, new, o);
    let edits = line_edits(entries, path);
    assert(!edits[0].counts);
    assert(lines_apart(entries, path));
    assert(line_survives(entries, path, line));
    law_line_of_a_live_byte(original, entries, path, live, new, o);
    lemma_current_column(original, entries, path, live, new, o);
    assert(entries.drop_last() =~= none);
    assert(offset_delta(entries, path, o) == if st <= o {
        added.len() - (end - st)
    } else {
        0
    }) by {
        assert(entries.last() == edit);
        reveal_with_fuel(sum_over, 2);
    }
}

/// Lines put in front of a line of an untouched text: the new lines are generated and no others are,
/// the lines in front of them stay, and each line from there on is found again below them.
pub proof fn law_inserted_lines_are_generated(
    original: Seq<u8>,
    edit: (String, Adjustment),
    path: Seq<char>,
    start: usize,
    added: Seq<u8>,
    line: int,
)
    requires
        start <= original.len(),
        original.len() + added.len() < isize::MAX,
        path_eq(edit.0@, path),
        edit.1 == edit_of(seq![], path, start, original.take(start as int), added, seq![]),
        0 <= line <= isize::MAX,
    ensures
        ({
            let entries = seq![edit];
            let first = newlines(original.take(start as int)) as int + 1;
            let count = added.filter(|b: u8| b == 10u8).len() as int;
            &&& in_macro(entries, path, line) <==> first <= line < first + count
            &&& line < first ==> original_line_of(entries, path, line) == Some(line)
            &&& first + count <= line ==> original_line_of(entries, path, line) == Some(
                line - count,
            )
        }),
{
    let none: Entries = seq![];
    let entries: Entries = seq![edit];
    let st = start as int;
    let edits = line_edits(entries, path);
    let first = newlines(original.take(st)) as int + 1;
    let count = added.filter(|b: u8| b == 10u8).len() as int;
    law_unedited_file_is_tracked(original, none, path);
    lemma_newlines_are_filtered(added);
    lemma_count_bound(added, 10u8);
    lemma_count_bound(original.take(st), 10u8);
    law_recorded_change_is_that_of_the_texts(none, path, start, original.take(st), added, seq![]);
    reveal(Seq::filter);
    lemma_wrap_usize_fits(first);
    assert(line_delta(none, path, st) == 0);
    assert(edit.1.original_line == first);
    assert(edit.1.delta_line == count);
    assert(edits[0].at == first);
    assert(edits[0].counts == (count != 0));
    lemma_total_none(edits, 1, those_before(edits, 0));
    assert(place(edits, 0) == first);
    let before = those_standing_before(edits, line);
    assert(before(0) == (first < line));
    reveal_with_fuel(total, 2);
    assert(lines_before(entries, path, line) == if first < line {
        count
    } else {
        0
    });
    assert(in_macro(entries, path, line) == in_block(entries, path, line, 0)) by {
        if in_macro(entries, path, line) {
            let i = choose|i: int| in_block(entries, path, line, i);
            assert(i == 0);
        }
    }
    lemma_wrap_usize_fits(line);
    lemma_wrap_usize_fits(line - count);
}

/// A single edit: the columns right of it on its line are moved back by as much as it shifts them,
/// those at it and left of it stay, and so do all columns of other lines. No column is less than 1.
pub proof fn law_single_edit_shifts_what_is_right_of_it(
    edit: (String, Adjustment),
    path: Seq<char>,
    line: int,
    col: int,
)
    requires
        path_eq(edit.0@, path),
        1 <= col <= isize::MAX,
        isize::MIN <= col - edit.1.delta_col <= isize::MAX,
    ensures
        original_col_of(seq![edit], path, line, col) == if edit.1.original_line == line
            && edit.1.original_col < col {
            if col - edit.1.delta_col < 1 {
                1
            } else {
                col - edit.1.delta_col
            }
        } else {
            col
        },
{
    let entries: Entries = seq![edit];
    let edits = col_edits(entries, path, line);
    lemma_total_none(edits, 1, those_before(edits, 0));
    assert(place(edits, 0) == edits[0].at);
    assert(those_standing_before(edits, col)(0) == (edits[0].at < col));
    reveal_with_fuel(total, 2);
    lemma_wrap_isize_fits(col);
    lemma_wrap_isize_fits(col - edit.1.delta_col);
}

/// Columns of the original source start at 1.
pub proof fn law_columns_start_at_one(entries: Entries, path: Seq<char>, line: int, col: int)
    ensures
        original_col_of(entries, path, line, col) >= 1,
{
}

/// A single edit: the lines of its block are generated and no others are, the lines below it are moved
/// back by as many lines as it adds, or forth by as many as it takes away, and those at it and above
/// it stay.
pub proof fn law_single_edit_moves_what_is_below_it(
    edit: (String, Adjustment),
    path: Seq<char>,
    line: int,
)
    requires
        path_eq(edit.0@, path),
        0 <= line <= isize::MAX,
        0 <= line - edit.1.delta_line <= usize::MAX,
    ensures
        in_macro(seq![edit], path, line) <==> edit.1.original_line <= line < edit.1.original_line
            + edit.1.delta_line,
        !in_macro(seq![edit], path, line) ==> original_line_of(seq![edit], path, line) == Some(
            if edit.1.original_line < line {
                line - edit.1.delta_line
            } else {
                line
            },
        ),
{
    let entries: Entries = seq![edit];
    let edits = line_edits(entries, path);
    lemma_total_none(edits, 1, those_before(edits, 0));
    assert(place(edits, 0) == edits[0].at);
    assert(those_standing_before(edits, line)(0) == (edits[0].at < line));
    reveal_with_fuel(total, 2);
    assert(in_macro(entries, path, line) == in_block(entries, path, line, 0)) by {
        if in_macro(entries, path, line) {
            let i = choose|i: int| in_block(entries, path, line, i);
            assert(i == 0);
        }
    }
    lemma_wrap_usize_fits(line);
    lemma_wrap_usize_fits(line - edit.1.delta_line);
}

/// Two edits that add lines, the upper one recorded first: the blocks of both are generated, and what
/// stands between and below them is moved back by the lines of the blocks above it. In which order
/// they were recorded makes no difference where they are on different lines.
pub proof fn law_two_blocks(
    upper: (String, Adjustment),
    lower: (String, Adjustment),
    path: Seq<char>,
    line: int,
)
    requires
        path_eq(upper.0@, path),
        path_eq(lower.0@, path),
        upper.1.original_line < lower.1.original_line,
        upper.1.delta_line > 0,
        lower.1.delta_line > 0,
        0 <= line <= isize::MAX,
    ensures
        ({
            let a = upper.1.original_line as int;
            let b = lower.1.original_line + upper.1.delta_line;
            let m = upper.1.delta_line as int;
            let n = lower.1.delta_line as int;
            let found = if line < a {
                Some(line)
            } else if line < a + m {
                None
            } else if line < b {
                Some(line - m)
            } else if line < b + n {
                None
            } else {
                Some(line - m - n)
            };
            &&& original_line_of(seq![upper, lower], path, line) == found
            &&& original_line_of(seq![lower, upper], path, line) == found
            &&& in_macro(seq![upper, lower], path, line) == (found is None)
            &&& in_macro(seq![lower, upper], path, line) == (found is None)
        }),
{
    lemma_two_blocks(seq![upper, lower], path, 0, 1, line);
    lemma_two_blocks(seq![lower, upper], path, 1, 0, line);
}

proof fn lemma_two_blocks(entries: Entries, path: Seq<char>, u: int, l: int, line: int)
    requires
        entries.len() == 2,
        (u == 0 && l == 1) || (u == 1 && l == 0),
        path_eq(entries[0].0@, path),
        path_eq(entries[1].0@, path),
        entries[u].1.original_line < entries[l].1.original_line,
        entries[u].1.delta_line > 0,
        entries[l].1.delta_line > 0,
        0 <= line <= isize::MAX,
    ensures
        ({
            let a = entries[u].1.original_line as int;
            let b = entries[l].1.original_line + entries[u].1.delta_line;
            let m = entries[u].1.delta_line as int;
            let n = entries[l].1.delta_line as int;
            let found = if line < a {
                Some(line)
            } else if line < a + m {
                None
            } else if line < b {
                Some(line - m)
            } else if line < b + n {
                None
            } else {
                Some(line - m - n)
            };
            &&& original_line_of(entries, path, line) == found
            &&& in_macro(entries, path, line) == (found is None)
        }),
{
    let edits = line_edits(entries, path);
    let a = entries[u].1.original_line as int;
    let b = entries[l].1.original_line + entries[u].1.delta_line;
    let m = entries[u].1.delta_line as int;
    let n = entries[l].1.delta_line as int;
    reveal_with_fuel(total, 3);
    assert(precedes(edits, u, l));
    assert(!precedes(edits, l, u));
    assert(!precedes(edits, l, l) && !precedes(edits, u, u));
    assert(place(edits, u) == a);
    assert(place(edits, l) == b);
    let before = those_standing_before(edits, line);
    assert(before(u) == (a < line));
    assert(!in_block(entries, path, line, u) ==> before(l) == (b < line)) by {
        assert(end(edits, u) == a + m);
    }
    assert(in_block(entries, path, line, u) == (a <= line < a + m)) by {
        assert(edits[u].counts);
    }
    assert(in_block(entries, path, line, l) == (b <= line < b + n)) by {
        assert(edits[l].counts);
        assert(end(edits, u) <= b);
    }
    assert(in_macro(entries, path, line) == (in_block(entries, path, line, 0) || in_block(
        entries,
        path,
        line,
        1,
    ))) by {
        if in_macro(entries, path, line) {
            let i = choose|i: int| in_block(entries, path, line, i);
            assert(i == 0 || i == 1);
        }
    }
    assert(lines_before(entries, path, line) == (if before(0) {
        entries[0].1.delta_line as int
    } else {
        0
    }) + (if before(1) {
        entries[1].1.delta_line as int
    } else {
        0
    }));
    lemma_wrap_usize_fits(line);
    lemma_wrap_usize_fits(line - m);
    lemma_wrap_usize_fits(line - m - n);
}

/// A line starts behind the last line break in front of it, or at the start of the text, and there are
/// as many lines as line breaks in front and one more.
pub proof fn law_lines_start_behind_line_breaks(a: Seq<u8>, b: Seq<u8>)
    requires
        !b.contains(10u8),
    ensures
        line_start(a + seq![10u8] + b) == a.len() + 1,
        line_start(b) == 0,
        newlines(a + seq![10u8] + b) == newlines(a) + 1,
        newlines(b) == 0,
        newlines(a) == a.filter(|x: u8| x == 10u8).len(),
{
    let s = a + seq![10u8] + b;
    let n = a.len() as int;
    assert(s[n] == 10u8);
    assert(s.contains(10u8));
    s.index_of_last_ensures(10u8);
    b.index_of_last_ensures(10u8);
    let k = s.index_of_last(10u8)->0;
    if k < n {
        assert(s[n] != 10u8);
    }
    if k > n {
        assert(b[k - n - 1] == 10u8);
    }
    law_count_goes_by_parts(a + seq![10u8], b, 10u8, 10u8);
    law_count_goes_by_parts(a, seq![10u8], 10u8, 10u8);
    law_count_goes_by_parts(b, b, 10u8, 10u8);
    lemma_newlines_are_filtered(a);
}

/// The lines that the edits of `path` add which stand before edit `i`: those on lines above it, those
/// at smaller offsets of its line, and those recorded before it at its very offset.
pub open spec fn lines_added_before(entries: Entries, path: Seq<char>, i: int) -> int {
    let e = entries[i].1;
    sum_over(
        entries,
        path,
        |a: Adjustment|
            a.original_line < e.original_line || (a.original_line == e.original_line
                && a.original_offset < e.original_offset),
        |a: Adjustment| a.delta_line as int,
    ) + sum_over(
        entries.take(i),
        path,
        |a: Adjustment|
            a.original_line == e.original_line && a.original_offset == e.original_offset,
        |a: Adjustment| a.delta_line as int,
    )
}

proof fn lemma_place_by_sums(entries: Entries, path: Seq<char>, i: int, n: int)
    requires
        0 <= i < entries.len(),
        0 <= n <= entries.len(),
    ensures
        ({
            let e = entries[i].1;
            total(line_edits(entries, path), n, those_before(line_edits(entries, path), i))
                == sum_over(
                entries.take(n),
                path,
                |a: Adjustment|
                    a.original_line < e.original_line || (a.original_line == e.original_line
                        && a.original_offset < e.original_offset),
                |a: Adjustment| a.delta_line as int,
            ) + sum_over(
                entries.take(
                    if n < i {
                        n
                    } else {
                        i
                    },
                ),
                path,
                |a: Adjustment|
                    a.original_line == e.original_line && a.original_offset == e.original_offset,
                |a: Adjustment| a.delta_line as int,
            )
        }),
    decreases n,
{
    if n > 0 {
        lemma_place_by_sums(entries, path, i, n - 1);
        assert(entries.take(n).drop_last() =~= entries.take(n - 1));
        assert(entries.take(n).last() == entries[n - 1]);
    }
}

/// The generated lines are exactly those of the blocks, in whatever order they were recorded: each
/// starts at the original line of its edit, moved by the edits that stand before it in the source.
pub proof fn law_generated_lines_are_those_of_the_blocks(
    entries: Entries,
    path: Seq<char>,
    line: int,
)
    requires
        lines_apart(entries, path),
    ensures
        in_macro(entries, path, line) <==> exists|i: int|
            #![trigger entries[i]]
            0 <= i < entries.len() && path_eq(entries[i].0@, path) && ({
                let start = entries[i].1.original_line + lines_added_before(entries, path, i);
                start <= line < start + entries[i].1.delta_line
            }),
{
    let edits = line_edits(entries, path);
    let n = entries.len() as int;
    assert forall|i: int|
        #![trigger edits[i]]
        0 <= i < n && edits[i].counts implies place(edits, i) == entries[i].1.original_line
        + lines_added_before(entries, path, i) && shows(edits, i, line) == (place(edits, i) <= line
        < end(edits, i)) by {
        lemma_place_by_sums(entries, path, i, n);
        assert(entries.take(n) =~= entries);
        lemma_apart_stands(edits, i, line);
    }
    if in_macro(entries, path, line) {
        let i = choose|i: int| in_block(entries, path, line, i);
        assert(edits[i].counts);
        assert(path_eq(entries[i].0@, path));
    }
    if exists|i: int|
        #![trigger entries[i]]
        0 <= i < entries.len() && path_eq(entries[i].0@, path) && ({
            let start = entries[i].1.original_line + lines_added_before(entries, path, i);
            start <= line < start + entries[i].1.delta_line
        }) {
        let i = choose|i: int|
            #![trigger entries[i]]
            0 <= i < entries.len() && path_eq(entries[i].0@, path) && ({
                let start = entries[i].1.original_line + lines_added_before(entries, path, i);
                start <= line < start + entries[i].1.delta_line
            });
        assert(edits[i].counts);
        assert(in_block(entries, path, line, i));
    }
}

/// Edits that take lines away, or only add some, do not overlap where what each takes away ends at or
/// before the line of the next.
pub proof fn law_edits_are_apart(entries: Entries, path: Seq<char>)
    requires
        forall|i: int, j: int|
            #![trigger entries[i], entries[j]]
            0 <= i < entries.len() && 0 <= j < entries.len() && i != j && path_eq(
                entries[i].0@,
                path,
            ) && path_eq(entries[j].0@, path) && entries[i].1.delta_line != 0
                && entries[j].1.delta_line != 0 && entries[i].1.original_line
                <= entries[j].1.original_line ==> entries[i].1.delta_line > 0
                || entries[i].1.original_line - entries[i].1.delta_line
                <= entries[j].1.original_line,
    ensures
        lines_apart(entries, path),
{
    let edits = line_edits(entries, path);
    assert forall|i: int, j: int|
        #![trigger edits[i], edits[j]]
        0 <= i < edits.len() && 0 <= j < edits.len() && edits[i].counts && edits[j].counts
            && precedes(edits, i, j) implies edits[i].at + edits[i].removed <= edits[j].at by {
        assert(path_eq(entries[i].0@, path) && path_eq(entries[j].0@, path));
    }
}

/// A block and an edit above it that takes lines away: the block moves up by as many lines. Where the
/// removal was made later and took part of the block away as well, what is left of it starts at the
/// removal, and the lines above that stay.
pub proof fn law_block_below_a_removal(
    removal: (String, Adjustment),
    block: (String, Adjustment),
    path: Seq<char>,
    line: int,
)
    requires
        path_eq(removal.0@, path),
        path_eq(block.0@, path),
        removal.1.original_line < block.1.original_line,
        removal.1.delta_line < 0,
        block.1.delta_line > 0,
        0 <= line <= isize::MAX,
    ensures
        ({
            let a = removal.1.original_line as int;
            let start = block.1.original_line + removal.1.delta_line;
            let n = block.1.delta_line as int;
            &&& in_macro(seq![removal, block], path, line) <==> start <= line < start + n
            &&& in_macro(seq![block, removal], path, line) <==> start <= line < start + n && a
                <= line
            &&& line <= a && !in_macro(seq![block, removal], path, line) ==> original_line_of(
                seq![block, removal],
                path,
                line,
            ) == Some(line)
        }),
{
    let one: Entries = seq![removal, block];
    let two: Entries = seq![block, removal];
    let e = line_edits(one, path);
    let f = line_edits(two, path);
    reveal_with_fuel(total, 3);
    assert(precedes(e, 0, 1) && !precedes(e, 1, 0) && !precedes(e, 0, 0) && !precedes(e, 1, 1));
    assert(precedes(f, 1, 0) && !precedes(f, 0, 1) && !precedes(f, 0, 0) && !precedes(f, 1, 1));
    let a = removal.1.original_line as int;
    let start = block.1.original_line + removal.1.delta_line;
    assert(place(e, 0) == a && place(e, 1) == start);
    assert(place(f, 1) == a && place(f, 0) == start);
    assert(in_macro(one, path, line) == (in_block(one, path, line, 0) || in_block(
        one,
        path,
        line,
        1,
    ))) by {
        if in_macro(one, path, line) {
            let i = choose|i: int| in_block(one, path, line, i);
            assert(i == 0 || i == 1);
        }
    }
    assert(in_macro(two, path, line) == (in_block(two, path, line, 0) || in_block(
        two,
        path,
        line,
        1,
    ))) by {
        if in_macro(two, path, line) {
            let i = choose|i: int| in_block(two, path, line, i);
            assert(i == 0 || i == 1);
        }
    }
    assert(end(f, 1) == a);
    assert(f[1].counts && f[0].counts);
    assert(shows(f, 0, line) == (start <= line < start + block.1.delta_line && a <= line));
    if line <= a {
        let before = those_standing_before(f, line);
        assert(!before(1));
        assert(!before(0));
        lemma_total_none(f, 2, before);
        lemma_wrap_usize_fits(line);
    }
}

} // verus!
