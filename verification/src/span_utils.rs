//! Typed byte offsets, and edits of source text that keep track of where every byte went.
//!
//! Every addition and subtraction is checked: what does not fit is reported as an
//! [`AdjustmentError`], and then nothing has been recorded or edited.
use crate::arith::fits_isize;
use crate::offsets::count_newlines;
use crate::offsets::lemma_boundary_in_range;
use crate::offsets::newlines;
use crate::paths::path_eq;
use crate::paths::path_parts;
use crate::paths::same_path;
use crate::placement::apart;
use crate::placement::covers;
use crate::placement::end;
use crate::placement::is_added_by;
use crate::placement::is_before;
use crate::placement::lemma_apart_stands;
use crate::placement::lemma_covers_once;
use crate::placement::lemma_moved_stands_before;
use crate::placement::lemma_nothing_before;
use crate::placement::lemma_place_ignores;
use crate::placement::lemma_stands_ignores;
use crate::placement::lemma_total_agree_where_it_counts;
use crate::placement::lemma_total_ignores;
use crate::placement::lemma_total_is_narrow;
use crate::placement::lemma_total_none;
use crate::placement::lemma_unmoved_stands_behind;
use crate::placement::parts_at;
use crate::placement::place;
use crate::placement::placed;
use crate::placement::places;
use crate::placement::stands_before;
use crate::placement::those_before;
use crate::placement::those_standing_before;
use crate::placement::total;
use crate::placement::Edit;
use crate::placement::Placed;
use crate::sources::cut_out;
use crate::sources::source_mut;
use crate::sources::source_texts;
use crate::sources::splice;
use crate::sources::spliced;
use crate::text::lemma_count_bound;
use crate::tracking::follows;
use crate::tracking::lemma_edit_is_followed;
use crate::tracking::lemma_untouched_is_followed;
use foundry_compilers::artifacts::Sources;
use std::marker::PhantomData;
use std::ops::Range;
use vstd::prelude::*;
use vstd::string::StringSliceAdditionalSpecFns;
use vstd::utf8::encode_utf8;
use vstd::utf8::is_char_boundary;

verus! {

// ---------------------------------------------------------------------------
// Offsets
// ---------------------------------------------------------------------------
/// The text that an [`Offset`] points into.
pub trait OffsetType {

}

/// The source as it was written.
#[derive(Clone, Copy, Debug, PartialEq, Eq, PartialOrd, Ord, Hash, Default)]
pub struct Original;

/// The source after macro expansion.
#[derive(Clone, Copy, Debug, PartialEq, Eq, PartialOrd, Ord, Hash, Default)]
pub struct Expanded;

impl OffsetType for Original {

}

impl OffsetType for Expanded {

}

/// A byte offset into the text that `T` names.
#[derive(Debug, PartialEq, Eq, PartialOrd, Ord, Hash, Default)]
pub struct Offset<T: OffsetType> {
    value: usize,
    _ty: PhantomData<T>,
}

pub type OriginalOffset = Offset<Original>;

pub type ExpandedOffset = Offset<Expanded>;

impl<T: OffsetType> Clone for Offset<T> {
    fn clone(&self) -> (r: Self)
        ensures
            r == *self,
    {
        Offset { value: self.value, _ty: self._ty }
    }
}

impl<T: OffsetType> Copy for Offset<T> {

}

impl<T: OffsetType> View for Offset<T> {
    type V = int;

    closed spec fn view(&self) -> int {
        self.value as int
    }
}

impl<T: OffsetType> Offset<T> {
    pub fn new(offset: usize) -> (r: Self)
        ensures
            r@ == offset,
    {
        Self { value: offset, _ty: PhantomData }
    }

    pub fn get(self) -> (r: usize)
        ensures
            r == self@,
    {
        self.value
    }

    /// The offset `rhs` bytes further on, if there is one.
    pub fn checked_add(self, rhs: usize) -> (r: Option<Self>)
        ensures
            match r {
                Some(o) => o@ == self@ + rhs,
                None => self@ + rhs > usize::MAX,
            },
    {
        match self.get().checked_add(rhs) {
            Some(v) => Some(Self::new(v)),
            None => None,
        }
    }

    /// The offset `rhs` bytes back, if both it and this offset fit an `isize`.
    pub fn checked_sub_isize(self, rhs: isize) -> (r: Option<Self>)
        ensures
            match r {
                Some(o) => o@ == self@ - rhs && self@ <= isize::MAX && o@ <= isize::MAX,
                None => self@ > isize::MAX || self@ - rhs < 0 || self@ - rhs > isize::MAX,
            },
    {
        let lhs = match signed(self.get()) {
            Some(lhs) => lhs,
            None => {
                return None;
            },
        };
        match lhs.checked_sub(rhs) {
            Some(v) => if v >= 0 {
                Some(Self::new(v as usize))
            } else {
                None
            },
            None => None,
        }
    }
}

/// `x` as an `isize`, if it fits.
fn signed(x: usize) -> (r: Option<isize>)
    ensures
        match r {
            Some(y) => y == x,
            None => x > isize::MAX,
        },
{
    if x <= isize::MAX as usize {
        Some(x as isize)
    } else {
        None
    }
}

/// `x + d`, if that is a `usize`.
fn shifted(x: usize, d: isize) -> (r: Option<usize>)
    ensures
        match r {
            Some(y) => y == x + d,
            None => !(0 <= x + d <= usize::MAX),
        },
{
    if d >= 0 {
        x.checked_add(d as usize)
    } else {
        let less = (-(d + 1)) as usize;
        if x > less {
            Some(x - less - 1)
        } else {
            None
        }
    }
}

/// `x - d`, if that is a `usize`.
fn shifted_back(x: usize, d: isize) -> (r: Option<usize>)
    ensures
        match r {
            Some(y) => y == x - d,
            None => !(0 <= x - d <= usize::MAX),
        },
{
    if d >= 0 {
        x.checked_sub(d as usize)
    } else {
        let less = (-(d + 1)) as usize;
        if x < usize::MAX - less {
            Some(x + less + 1)
        } else {
            None
        }
    }
}

// ---------------------------------------------------------------------------
// Recorded edits
// ---------------------------------------------------------------------------
/// An original source location to which a macro-generated span can be attributed.
#[derive(Debug, Clone)]
pub struct MacroOriginalLocation {
    /// Path of the original (pre-expansion) source file.
    pub file: String,
    /// 1-based line number in the original source.
    pub line: usize,
    /// 1-based column number in the original source.
    pub col: usize,
}

/// Returned by [`AdjustmentEntry::insert`] and [`AdjustmentEntry::replace`].
#[derive(Debug, Clone, Copy, PartialEq, Eq, Structural)]
pub struct EditInfo {
    /// 1-based line number in the expanded source where this edit takes effect.
    pub expanded_line: isize,
    /// Net lines added (positive) or removed (negative) by this edit.
    pub delta_lines: isize,
}

/// Byte offset and line-number adjustments accumulated by macro rules that change source text.
/// Each entry is `(path, Adjustment)` where [`Adjustment`] records the original offset and line,
/// and the signed byte and line deltas introduced by the edit.
#[derive(Debug, Clone)]
pub struct OffsetAdjustment(pub Vec<(String, Adjustment)>);

/// A single recorded edit and optional macro attribution.
#[derive(Debug, Clone)]
pub struct Adjustment {
    /// Byte offset in the **original, unmodified** source where this edit was applied.
    pub original_offset: OriginalOffset,
    /// 1-based line number in the **original, unmodified** source corresponding to
    /// `original_offset`.
    pub original_line: usize,
    /// Number of bytes added by this edit (`added.len()`), i.e. the length of the inserted
    /// or replacement text. Used to determine whether an expanded offset falls inside the
    /// span of bytes this edit introduced.
    pub added_len: usize,
    /// Signed byte-length delta introduced by this edit (`added.len() - removed.len()`).
    pub delta_offset: isize,
    /// Net line delta introduced by this edit (newlines added minus newlines removed).
    pub delta_line: isize,
    /// Name of the macro rule that generated this edit, if registered via
    /// [`AdjustmentEntry::with`].
    pub macro_name: Option<String>,
    /// Original source location to attribute compiler errors in this span to, if registered.
    pub original_location: Option<MacroOriginalLocation>,
}

/// What did not fit.
#[derive(Debug, Clone, Copy, PartialEq, Eq, Structural)]
pub enum AdjustmentError {
    OffsetDelta,
    AdjustedOffset,
    LineCount,
    AccumulatedLineDelta,
    OriginalLine,
    DeltaOffset,
    DeltaLine,
    AdjustmentEnd,
    OriginalOffset,
    AccumulatedDelta,
}

impl AdjustmentError {
    /// The wording of each error.
    pub open spec fn wording(self) -> Seq<char> {
        match self {
            AdjustmentError::OffsetDelta => "offset delta overflow"@,
            AdjustmentError::AdjustedOffset => "adjusted offset out of range"@,
            AdjustmentError::LineCount => "line count overflow"@,
            AdjustmentError::AccumulatedLineDelta => "accumulated line delta overflow"@,
            AdjustmentError::OriginalLine => "original line underflow"@,
            AdjustmentError::DeltaOffset => "delta_offset overflow"@,
            AdjustmentError::DeltaLine => "delta_line overflow"@,
            AdjustmentError::AdjustmentEnd => "adjustment end offset overflow"@,
            AdjustmentError::OriginalOffset => "original offset underflow"@,
            AdjustmentError::AccumulatedDelta => "accumulated delta overflow"@,
        }
    }

    /// The message of the error.
    pub fn message(self) -> (r: &'static str)
        ensures
            r@ == self.wording(),
    {
        match self {
            AdjustmentError::OffsetDelta => "offset delta overflow",
            AdjustmentError::AdjustedOffset => "adjusted offset out of range",
            AdjustmentError::LineCount => "line count overflow",
            AdjustmentError::AccumulatedLineDelta => "accumulated line delta overflow",
            AdjustmentError::OriginalLine => "original line underflow",
            AdjustmentError::DeltaOffset => "delta_offset overflow",
            AdjustmentError::DeltaLine => "delta_line overflow",
            AdjustmentError::AdjustmentEnd => "adjustment end offset overflow",
            AdjustmentError::OriginalOffset => "original offset underflow",
            AdjustmentError::AccumulatedDelta => "accumulated delta overflow",
        }
    }
}

/// Recorded edits, oldest first.
pub type Entries = Seq<(String, Adjustment)>;

/// The sum of `value` over the edits of `path` at or before `offset`.
pub open spec fn sum_to(
    entries: Entries,
    path: Seq<char>,
    offset: int,
    value: spec_fn(Adjustment) -> int,
) -> int
    decreases entries.len(),
{
    if entries.len() == 0 {
        0
    } else {
        let e = entries.last();
        sum_to(entries.drop_last(), path, offset, value) + if path_eq(e.0@, path)
            && e.1.original_offset@ <= offset {
            value(e.1)
        } else {
            0
        }
    }
}

/// Every partial sum fits an `isize`.
pub open spec fn sums_fit(
    entries: Entries,
    path: Seq<char>,
    offset: int,
    value: spec_fn(Adjustment) -> int,
) -> bool {
    forall|n: int|
        0 <= n <= entries.len() ==> fits_isize(#[trigger] sum_to(entries.take(n), path, offset, value))
}

/// The size change of an edit.
pub open spec fn bytes_added() -> spec_fn(Adjustment) -> int {
    |a: Adjustment| a.delta_offset as int
}

/// The line change of an edit.
pub open spec fn lines_added() -> spec_fn(Adjustment) -> int {
    |a: Adjustment| a.delta_line as int
}

/// The offset in the current text of the byte at `offset` in the original text.
pub open spec fn current_offset(entries: Entries, path: Seq<char>, offset: int) -> Result<
    int,
    AdjustmentError,
> {
    let moved = offset + sum_to(entries, path, offset, bytes_added());
    if !sums_fit(entries, path, offset, bytes_added()) {
        Err(AdjustmentError::OffsetDelta)
    } else if 0 <= moved <= usize::MAX {
        Ok(moved)
    } else {
        Err(AdjustmentError::AdjustedOffset)
    }
}

/// What an edit measures.
#[derive(Debug, Clone, Copy, PartialEq, Eq, Structural)]
pub struct EditFacts {
    /// Offset of the edit in the current text.
    pub offset: usize,
    /// Line of the edit in the current text.
    pub line: isize,
    /// Line of the edit in the original text.
    pub original_line: usize,
    /// Bytes added less bytes removed.
    pub delta_offset: isize,
    /// Newlines added less newlines removed.
    pub delta_line: isize,
}

/// The measures of the edit that replaces `removed` by `added` at `offset`, given what was recorded
/// before and the bytes of the current text.
pub open spec fn edit_facts(
    entries: Entries,
    path: Seq<char>,
    offset: int,
    bytes: Seq<u8>,
    added: Seq<u8>,
    removed: Seq<u8>,
) -> Result<EditFacts, AdjustmentError> {
    match current_offset(entries, path, offset) {
        Err(e) => Err(e),
        Ok(at) => {
            let line = newlines(bytes.take(at)) + 1;
            let original = line - sum_to(entries, path, offset, lines_added());
            if line > isize::MAX {
                Err(AdjustmentError::LineCount)
            } else if !sums_fit(entries, path, offset, lines_added()) {
                Err(AdjustmentError::AccumulatedLineDelta)
            } else if !(0 <= original <= isize::MAX) {
                Err(AdjustmentError::OriginalLine)
            } else if added.len() > isize::MAX || removed.len() > isize::MAX {
                Err(AdjustmentError::DeltaOffset)
            } else {
                Ok(
                    EditFacts {
                        offset: at as usize,
                        line: line as isize,
                        original_line: original as usize,
                        delta_offset: (added.len() - removed.len()) as isize,
                        delta_line: (newlines(added) - newlines(removed)) as isize,
                    },
                )
            }
        },
    }
}

/// `after` is `before` and one more edit at `offset` of `path`, with the given measures.
pub open spec fn extends(
    before: Entries,
    after: Entries,
    path: Seq<char>,
    offset: int,
    added_len: int,
    facts: EditFacts,
) -> bool {
    &&& after.len() == before.len() + 1
    &&& after.drop_last() == before
    &&& after.last().0@ == path
    &&& after.last().1.original_offset@ == offset
    &&& after.last().1.original_line == facts.original_line
    &&& after.last().1.added_len == added_len
    &&& after.last().1.delta_offset == facts.delta_offset
    &&& after.last().1.delta_line == facts.delta_line
}

/// The number of bytes that an edit took away.
pub open spec fn removed_len(a: Adjustment) -> int {
    a.added_len - a.delta_offset
}

/// The edits of `path`, as edits of the bytes of the file.
pub open spec fn byte_edits(entries: Entries, path: Seq<char>) -> Seq<Placed> {
    Seq::new(
        entries.len(),
        |k: int|
            Placed {
                counts: path_eq(entries[k].0@, path),
                key: entries[k].1.original_offset@,
                at: entries[k].1.original_offset@,
                removed: removed_len(entries[k].1),
                added: entries[k].1.added_len as int,
            },
    )
}

/// Edit `i` of `path` wrote the byte at `at` of the expanded text.
pub open spec fn wrote(entries: Entries, path: Seq<char>, at: int, i: int) -> bool {
    let edits = byte_edits(entries, path);
    &&& 0 <= i < entries.len()
    &&& edits[i].counts
    &&& covers(edits, i, at)
}

/// The edit of `path` that wrote the byte at `at` of the expanded text, if there is one. That what it
/// wrote ends at a `usize` is checked.
pub open spec fn covering_edit(entries: Entries, path: Seq<char>, at: int) -> Result<
    Option<int>,
    AdjustmentError,
> {
    if exists|i: int| wrote(entries, path, at, i) {
        let i = choose|i: int| wrote(entries, path, at, i);
        if end(byte_edits(entries, path), i) <= usize::MAX {
            Ok(Some(i))
        } else {
            Err(AdjustmentError::AdjustmentEnd)
        }
    } else {
        Ok(None)
    }
}

/// The bytes that the edits of `path` added which stand strictly before `at` in the expanded text.
pub open spec fn bytes_before(entries: Entries, path: Seq<char>, at: int) -> int {
    let edits = byte_edits(entries, path);
    total(edits, edits.len() as int, those_standing_before(edits, at))
}

/// The original offset of the byte at `at` of the expanded text: `at` less the bytes that were added
/// before it.
pub open spec fn undone_offset(entries: Entries, path: Seq<char>, at: int) -> Result<
    int,
    AdjustmentError,
> {
    let left = at - bytes_before(entries, path, at);
    if !fits_isize(bytes_before(entries, path, at)) {
        Err(AdjustmentError::AccumulatedDelta)
    } else if 0 <= left <= usize::MAX {
        Ok(left)
    } else {
        Err(AdjustmentError::OriginalOffset)
    }
}

impl Default for OffsetAdjustment {
    fn default() -> (r: Self)
        ensures
            r.0@.len() == 0,
    {
        OffsetAdjustment(Vec::new())
    }
}

impl std::ops::Deref for OffsetAdjustment {
    type Target = Vec<(String, Adjustment)>;

    fn deref(&self) -> (r: &Vec<(String, Adjustment)>)
        ensures
            *r == self.0,
    {
        &self.0
    }
}

impl OffsetAdjustment {
    /// Returns the current offset in `path` corresponding to `original_offset` from the HIR,
    /// accounting for all length-changing edits recorded by previous macro rules. This is done
    /// by summing all offset deltas affecting the source code prior to the input `original_offset`.
    ///
    /// Returns an error if the accumulated delta overflows `isize`, or if the final adjusted
    /// offset is negative or exceeds `usize::MAX`.
    pub fn adjusted_offset(&self, path: &str, original_offset: OriginalOffset) -> (r: Result<
        ExpandedOffset,
        AdjustmentError,
    >)
        ensures
            match current_offset(self.0@, path@, original_offset@) {
                Ok(o) => r matches Ok(x) && x@ == o,
                Err(e) => r matches Err(x) && x == e,
            },
    {
        let ghost all = self.0@;
        let ghost value = bytes_added();
        let mut delta: isize = 0;
        let mut i: usize = 0;
        assert(all.take(0) =~= Seq::<(String, Adjustment)>::empty());
        while i < self.0.len()
            invariant
                all == self.0@,
                value == bytes_added(),
                i <= all.len(),
                delta == sum_to(all.take(i as int), path@, original_offset@, value),
                forall|n: int|
                    0 <= n <= i ==> fits_isize(
                        #[trigger] sum_to(all.take(n), path@, original_offset@, value),
                    ),
            decreases all.len() - i,
        {
            let e = &self.0[i];
            assert(all.take(i + 1).drop_last() =~= all.take(i as int));
            assert(all.take(i + 1).last() == all[i as int]);
            if same_path(e.0.as_str(), path) && e.1.original_offset.get() <= original_offset.get() {
                match delta.checked_add(e.1.delta_offset) {
                    Some(d) => {
                        delta = d;
                    },
                    None => {
                        assert(!fits_isize(
                            sum_to(all.take(i + 1), path@, original_offset@, value),
                        ));
                        return Err(AdjustmentError::OffsetDelta);
                    },
                }
            }
            i = i + 1;
        }
        assert(all.take(i as int) =~= all);
        match shifted(original_offset.get(), delta) {
            Some(v) => Ok(ExpandedOffset::new(v)),
            None => Err(AdjustmentError::AdjustedOffset),
        }
    }

    /// Adds up the line deltas of the edits of `path` at or before `original_offset`.
    fn summed_lines(&self, path: &str, original_offset: OriginalOffset) -> (r: Option<isize>)
        ensures
            match r {
                Some(d) => sums_fit(self.0@, path@, original_offset@, lines_added()) && d == sum_to(
                    self.0@,
                    path@,
                    original_offset@,
                    lines_added(),
                ),
                None => !sums_fit(self.0@, path@, original_offset@, lines_added()),
            },
    {
        let ghost all = self.0@;
        let ghost value = lines_added();
        let mut delta: isize = 0;
        let mut i: usize = 0;
        assert(all.take(0) =~= Seq::<(String, Adjustment)>::empty());
        while i < self.0.len()
            invariant
                all == self.0@,
                value == lines_added(),
                i <= all.len(),
                delta == sum_to(all.take(i as int), path@, original_offset@, value),
                forall|n: int|
                    0 <= n <= i ==> fits_isize(
                        #[trigger] sum_to(all.take(n), path@, original_offset@, value),
                    ),
            decreases all.len() - i,
        {
            let e = &self.0[i];
            assert(all.take(i + 1).drop_last() =~= all.take(i as int));
            assert(all.take(i + 1).last() == all[i as int]);
            if same_path(e.0.as_str(), path) && e.1.original_offset.get() <= original_offset.get() {
                match delta.checked_add(e.1.delta_line) {
                    Some(d) => {
                        delta = d;
                    },
                    None => {
                        assert(!fits_isize(
                            sum_to(all.take(i + 1), path@, original_offset@, value),
                        ));
                        return None;
                    },
                }
            }
            i = i + 1;
        }
        assert(all.take(i as int) =~= all);
        Some(delta)
    }

    /// Measures the edit that replaces `removed` by `added` at `original_offset`.
    fn measure(
        &self,
        path: &str,
        original_offset: OriginalOffset,
        source: &str,
        added: &str,
        removed: &str,
    ) -> (r: Result<EditFacts, AdjustmentError>)
        requires
            current_offset(self.0@, path@, original_offset@) matches Ok(o) ==> is_char_boundary(
                source.spec_bytes(),
                o,
            ),
        ensures
            r == edit_facts(
                self.0@,
                path@,
                original_offset@,
                source.spec_bytes(),
                added.spec_bytes(),
                removed.spec_bytes(),
            ),
    {
        let at = match self.adjusted_offset(path, original_offset) {
            Ok(at) => at.get(),
            Err(e) => {
                return Err(e);
            },
        };
        proof {
            lemma_boundary_in_range(source@, at as int);
        }
        let lines = count_newlines(source.as_bytes(), at);
        if lines >= isize::MAX as usize {
            return Err(AdjustmentError::LineCount);
        }
        let line = lines as isize + 1;
        let accumulated = match self.summed_lines(path, original_offset) {
            Some(d) => d,
            None => {
                return Err(AdjustmentError::AccumulatedLineDelta);
            },
        };
        let original = match line.checked_sub(accumulated) {
            Some(l) => l,
            None => {
                return Err(AdjustmentError::OriginalLine);
            },
        };
        if original < 0 {
            return Err(AdjustmentError::OriginalLine);
        }
        let added_bytes = added.as_bytes();
        let removed_bytes = removed.as_bytes();
        let (added_len, removed_len) = match (signed(added_bytes.len()), signed(removed_bytes.len())) {
            (Some(a), Some(r)) => (a, r),
            _ => {
                return Err(AdjustmentError::DeltaOffset);
            },
        };
        assert(added_bytes@.take(added_bytes@.len() as int) =~= added_bytes@);
        assert(removed_bytes@.take(removed_bytes@.len() as int) =~= removed_bytes@);
        let added_newlines = count_newlines(added_bytes, added_bytes.len());
        let removed_newlines = count_newlines(removed_bytes, removed_bytes.len());
        proof {
            lemma_count_bound(added_bytes@, 10u8);
            lemma_count_bound(removed_bytes@, 10u8);
        }
        Ok(
            EditFacts {
                offset: at,
                line,
                original_line: original as usize,
                delta_offset: added_len - removed_len,
                delta_line: added_newlines as isize - removed_newlines as isize,
            },
        )
    }

    /// Records an edit in `path` at `original_offset` in the original source and returns the
    /// adjusted byte offset of the edit in the current (post-prior-edits) source.
    ///
    /// `source` is the source text *before* this edit is applied. `added` is the text being
    /// inserted and `removed` is the text being replaced (pass `""` for pure insertions).
    ///
    /// `original_line` is derived by counting newlines in `source` up to the adjusted offset and
    /// subtracting accumulated line deltas from all previously recorded edits at or before
    /// `original_offset`, mapping the current position back to original-source coordinates.
    /// Returns an error if any arithmetic overflows. See
    /// [`adjusted_offset`](Self::adjusted_offset).
    pub fn record(
        &mut self,
        path: &str,
        original_offset: OriginalOffset,
        source: &str,
        added: &str,
        removed: &str,
    ) -> (r: Result<(ExpandedOffset, EditInfo), AdjustmentError>)
        requires
            current_offset(old(self).0@, path@, original_offset@) matches Ok(o)
                ==> is_char_boundary(source.spec_bytes(), o),
        ensures
            match edit_facts(
                old(self).0@,
                path@,
                original_offset@,
                source.spec_bytes(),
                added.spec_bytes(),
                removed.spec_bytes(),
            ) {
                Err(e) => r matches Err(x) && x == e && final(self).0@ == old(self).0@,
                Ok(f) => {
                    &&& r matches Ok(x)
                    &&& x.0@ == f.offset
                    &&& x.1 == (EditInfo { expanded_line: f.line, delta_lines: f.delta_line })
                    &&& extends(
                        old(self).0@,
                        final(self).0@,
                        path@,
                        original_offset@,
                        added.spec_bytes().len() as int,
                        f,
                    )
                    &&& final(self).0@.last().1.macro_name is None
                    &&& final(self).0@.last().1.original_location is None
                },
            },
    {
        let facts = match self.measure(path, original_offset, source, added, removed) {
            Ok(f) => f,
            Err(e) => {
                return Err(e);
            },
        };
        let ghost before = self.0@;
        let adjustment = Adjustment {
            original_offset,
            original_line: facts.original_line,
            added_len: added.as_bytes().len(),
            delta_offset: facts.delta_offset,
            delta_line: facts.delta_line,
            macro_name: None,
            original_location: None,
        };
        self.0.push((path.to_owned(), adjustment));
        assert(self.0@.drop_last() =~= before);
        Ok(
            (
                ExpandedOffset::new(facts.offset),
                EditInfo { expanded_line: facts.line, delta_lines: facts.delta_line },
            ),
        )
    }

    /// Returns the adjustment whose expanded byte range covers `expanded_offset` in `source`,
    /// if any.
    ///
    /// Each adjustment has a position in the expanded source: its original offset, moved by the
    /// adjustments that stand before it in the source, and no earlier than these end. This handles
    /// out-of-order insertions (a later-recorded adjustment with a lower `original_offset`).
    ///
    /// Returns an error if the end of the adjustment exceeds `usize::MAX`.
    pub fn find_macro_adjustment_by_offset(
        &self,
        source: &str,
        expanded_offset: ExpandedOffset,
    ) -> (r: Result<Option<&Adjustment>, AdjustmentError>)
        ensures
            match covering_edit(self.0@, source@, expanded_offset@) {
                Err(e) => r matches Err(x) && x == e,
                Ok(None) => r matches Ok(x) && x is None,
                Ok(Some(i)) => r matches Ok(Some(x)) && *x == self.0@[i].1,
            },
    {
        let at = expanded_offset.get();
        let edits = self.edits_of_bytes(source);
        assert(placed(edits@).len() == self.0@.len());
        let places = places(&edits);
        let mut i: usize = 0;
        while i < edits.len()
            invariant
                at == expanded_offset@,
                i <= edits@.len(),
                edits@.len() == self.0@.len(),
                placed(edits@) == byte_edits(self.0@, source@),
                places@.len() == edits@.len(),
                forall|k: int|
                    0 <= k < places@.len() ==> #[trigger] places@[k] == place(placed(edits@), k),
                forall|j: int| 0 <= j < i ==> !wrote(self.0@, source@, at as int, j),
            decreases edits@.len() - i,
        {
            let e = &edits[i];
            assert(placed(edits@)[i as int] == e@);
            if e.counts && is_added_by(&edits, &places, i, at as i128, false) {
                proof {
                    assert(wrote(self.0@, source@, at as int, i as int));
                    let j = choose|j: int| wrote(self.0@, source@, at as int, j);
                    lemma_covers_once(placed(edits@), i as int, j, at as int);
                }
                if places[i] > usize::MAX as i128 - e.added as i128 {
                    return Err(AdjustmentError::AdjustmentEnd);
                }
                return Ok(Some(&self.0[i].1));
            }
            i = i + 1;
        }
        Ok(None)
    }

    /// Maps `expanded_offset` (a byte offset in the post-expansion source) back to the
    /// corresponding byte offset in the original, unmodified source.
    ///
    /// Subtracts each adjustment's `delta_offset` when its expanded position strictly precedes the
    /// query. Returns `expanded_offset` unchanged when no prior adjustments apply.
    ///
    /// The caller is responsible for ensuring `expanded_offset` is not inside a macro-generated
    /// span (use [`find_macro_adjustment_by_offset`](Self::find_macro_adjustment_by_offset)
    /// to check first).
    ///
    /// Returns an error if the deltas to subtract overflow `isize`, or if the original offset is
    /// negative or exceeds `usize::MAX`.
    pub fn get_original_offset(&self, source: &str, expanded_offset: ExpandedOffset) -> (r: Result<
        OriginalOffset,
        AdjustmentError,
    >)
        ensures
            match undone_offset(self.0@, source@, expanded_offset@) {
                Err(e) => r matches Err(x) && x == e,
                Ok(o) => r matches Ok(x) && x@ == o,
            },
    {
        let at = expanded_offset.get();
        let edits = self.edits_of_bytes(source);
        let ghost all = placed(edits@);
        let ghost chosen = those_standing_before(all, at as int);
        let places = places(&edits);
        let mut sum: i128 = 0;
        let mut i: usize = 0;
        while i < edits.len()
            invariant
                i <= edits@.len(),
                all == placed(edits@),
                chosen == those_standing_before(all, at as int),
                places@.len() == edits@.len(),
                forall|k: int| 0 <= k < places@.len() ==> #[trigger] places@[k] == place(all, k),
                sum == total(all, i as int, chosen),
            decreases edits@.len() - i,
        {
            let e = &edits[i];
            proof {
                lemma_total_is_narrow(edits@, i as int, chosen);
                lemma_total_is_narrow(edits@, i + 1, chosen);
                assert(all[i as int] == e@);
            }
            if e.counts && is_before(&edits, &places, i, at as i128) {
                sum = sum + e.delta as i128;
            }
            i = i + 1;
        }
        assert(all.len() == edits@.len());
        if sum < isize::MIN as i128 || sum > isize::MAX as i128 {
            return Err(AdjustmentError::AccumulatedDelta);
        }
        match shifted_back(at, sum as isize) {
            Some(o) => Ok(OriginalOffset::new(o)),
            None => Err(AdjustmentError::OriginalOffset),
        }
    }

    /// The edits of `source`.
    fn edits_of_bytes(&self, source: &str) -> (r: Vec<Edit>)
        ensures
            placed(r@) == byte_edits(self.0@, source@),
    {
        let mut out: Vec<Edit> = Vec::new();
        let mut i: usize = 0;
        while i < self.0.len()
            invariant
                i <= self.0@.len(),
                out@.len() == i,
                forall|k: int| 0 <= k < i ==> (#[trigger] out@[k])@ == byte_edits(self.0@, source@)[k],
            decreases self.0@.len() - i,
        {
            let e = &self.0[i];
            out.push(
                Edit {
                    counts: same_path(e.0.as_str(), source),
                    at: e.1.original_offset.get(),
                    key: e.1.original_offset.get(),
                    added: e.1.added_len,
                    delta: e.1.delta_offset,
                },
            );
            i = i + 1;
        }
        assert(placed(out@) =~= byte_edits(self.0@, source@));
        out
    }
}

// ---------------------------------------------------------------------------
// Editing
// ---------------------------------------------------------------------------
/// Builder that performs an insert or replace and optionally annotates the resulting adjustment
/// with macro attribution.
///
/// Call [`with`](AdjustmentEntry::with) before [`insert`](AdjustmentEntry::insert) or
/// [`replace`](AdjustmentEntry::replace) to attach a macro name and optional original location
/// to the adjustment, so that compiler errors in the generated code can be attributed correctly.
pub struct AdjustmentEntry<'a> {
    pub path: &'a str,
    pub text: &'a str,
    pub name: Option<&'a str>,
    pub original_loc: Option<MacroOriginalLocation>,
    pub sources: &'a mut Sources,
    pub offset_adjustments: &'a mut OffsetAdjustment,
}

/// `a` carries the given macro name and location.
pub open spec fn attributed(
    a: Adjustment,
    name: Option<&str>,
    location: Option<MacroOriginalLocation>,
) -> bool {
    &&& a.original_location == location
    &&& match name {
        Some(n) => a.macro_name matches Some(m) && m@ == n@,
        None => a.macro_name is None,
    }
}

/// The text of the file at `path`.
pub open spec fn text_at(sources: Sources, path: Seq<char>) -> Seq<char> {
    source_texts(sources)[path_parts(path)]
}

/// `after` differs from `before` at most in the text of the file at `path`.
pub open spec fn only_changes(before: Sources, after: Sources, path: Seq<char>) -> bool {
    source_texts(after) == source_texts(before).insert(path_parts(path), text_at(after, path))
}

impl<'a> AdjustmentEntry<'a> {
    pub fn new(
        path: &'a str,
        text: &'a str,
        sources: &'a mut Sources,
        offset_adjustments: &'a mut OffsetAdjustment,
    ) -> (r: Self)
        ensures
            r.path == path,
            r.text == text,
            r.name is None,
            r.original_loc is None,
            *r.sources == *old(sources),
            *final(sources) == *final(r.sources),
            *r.offset_adjustments == *old(offset_adjustments),
            *final(offset_adjustments) == *final(r.offset_adjustments),
    {
        Self { path, text, name: None, original_loc: None, sources, offset_adjustments }
    }

    /// Attaches macro attribution to this edit. `name` identifies the macro rule;
    /// `original_loc` optionally points back to the location in the original source that
    /// triggered the generation, for more precise error reporting.
    pub fn with(self, name: &'a str, original_loc: Option<MacroOriginalLocation>) -> (r: Self)
        ensures
            r.path == self.path,
            r.text == self.text,
            r.name == Some(name),
            r.original_loc == original_loc,
            *r.sources == *old(self.sources),
            *final(self.sources) == *final(r.sources),
            *r.offset_adjustments == *old(self.offset_adjustments),
            *final(self.offset_adjustments) == *final(r.offset_adjustments),
    {
        let AdjustmentEntry { path, text, name: _, original_loc: _, sources, offset_adjustments } = self;
        Self { path, text, name: Some(name), original_loc, sources, offset_adjustments }
    }

    /// Inserts `text` into the source file at the position corresponding to `original_offset`
    /// in the original, unmodified source, and records the edit so that subsequent macro rules
    /// remain correct.
    ///
    /// `original_offset` must be a byte offset derived from a Solar HIR span (i.e. relative to
    /// the unmodified source). The method translates it to the current position in the
    /// already-modified text before performing the insertion.
    ///
    /// Returns an error if any byte-offset or line-count arithmetic overflows during adjustment
    /// computation, which would indicate a corrupt or astronomically large source file.
    pub fn insert(self, original_offset: OriginalOffset) -> (r: Result<EditInfo, AdjustmentError>)
        requires
            source_texts(*old(self.sources)).contains_key(path_parts(self.path@)),
            current_offset(
                old(self.offset_adjustments).0@,
                self.path@,
                original_offset@,
            ) matches Ok(o) ==> is_char_boundary(
                encode_utf8(text_at(*old(self.sources), self.path@)),
                o,
            ),
        ensures
            ({
                let bytes = encode_utf8(text_at(*old(self.sources), self.path@));
                match edit_facts(
                    old(self.offset_adjustments).0@,
                    self.path@,
                    original_offset@,
                    bytes,
                    self.text.spec_bytes(),
                    seq![],
                ) {
                    Err(e) => {
                        &&& r matches Err(x) && x == e
                        &&& source_texts(*final(self.sources)) == source_texts(*old(self.sources))
                        &&& final(self.offset_adjustments).0@ == old(self.offset_adjustments).0@
                    },
                    Ok(f) => {
                        &&& r matches Ok(x) && x == (EditInfo {
                            expanded_line: f.line,
                            delta_lines: f.delta_line,
                        })
                        &&& only_changes(*old(self.sources), *final(self.sources), self.path@)
                        &&& encode_utf8(text_at(*final(self.sources), self.path@)) == spliced(
                            bytes,
                            f.offset as int,
                            f.offset as int,
                            self.text.spec_bytes(),
                        )
                        &&& extends(
                            old(self.offset_adjustments).0@,
                            final(self.offset_adjustments).0@,
                            self.path@,
                            original_offset@,
                            self.text.spec_bytes().len() as int,
                            f,
                        )
                        &&& attributed(
                            final(self.offset_adjustments).0@.last().1,
                            self.name,
                            self.original_loc,
                        )
                    },
                }
            }),
    {
        let AdjustmentEntry { path, text, name, original_loc, sources, offset_adjustments } = self;
        let ghost before = source_texts(*sources);
        let ghost key = path_parts(path@);
        proof {
            reveal_strlit("");
            assert(""@ =~= Seq::<char>::empty());
            assert("".spec_bytes() =~= Seq::<u8>::empty());
            assert(before.insert(key, before[key]) =~= before);
        }
        let content = source_mut(sources, path);
        match offset_adjustments.record(path, original_offset, content.as_str(), text, "") {
            Ok((adjusted, info)) => {
                proof {
                    lemma_boundary_in_range(content@, adjusted@);
                }
                splice(content, adjusted.get(), adjusted.get(), text);
                annotate(offset_adjustments, name, original_loc);
                Ok(info)
            },
            Err(e) => Err(e),
        }
    }

    /// Replaces the source bytes at `original_range` (in the original, unmodified file) with
    /// `text`, and records the resulting length delta so that subsequent calls using offsets
    /// derived from the original source remain correct.
    ///
    /// Both range endpoints are translated through any previously recorded adjustments before the
    /// replacement is applied. Does nothing and returns `Ok(None)` if `original_range` is empty or
    /// inverted. Returns an error if byte-offset arithmetic overflows during adjustment
    /// computation.
    pub fn replace(self, original_range: Range<OriginalOffset>) -> (r: Result<
        Option<EditInfo>,
        AdjustmentError,
    >)
        requires
            original_range.start@ < original_range.end@ ==> {
                let entries = old(self.offset_adjustments).0@;
                let bytes = encode_utf8(text_at(*old(self.sources), self.path@));
                let start = current_offset(entries, self.path@, original_range.start@);
                let end = current_offset(entries, self.path@, original_range.end@);
                start is Ok && end is Ok ==> {
                    &&& source_texts(*old(self.sources)).contains_key(path_parts(self.path@))
                    &&& start->Ok_0 <= end->Ok_0
                    &&& is_char_boundary(bytes, start->Ok_0)
                    &&& is_char_boundary(bytes, end->Ok_0)
                }
            },
        ensures
            ({
                let entries = old(self.offset_adjustments).0@;
                let bytes = encode_utf8(text_at(*old(self.sources), self.path@));
                match replacement_facts(
                    entries,
                    self.path@,
                    original_range.start@,
                    original_range.end@,
                    bytes,
                    self.text.spec_bytes(),
                ) {
                    Err(e) => {
                        &&& r matches Err(x) && x == e
                        &&& source_texts(*final(self.sources)) == source_texts(*old(self.sources))
                        &&& final(self.offset_adjustments).0@ == entries
                    },
                    Ok(None) => {
                        &&& r matches Ok(x) && x is None
                        &&& source_texts(*final(self.sources)) == source_texts(*old(self.sources))
                        &&& final(self.offset_adjustments).0@ == entries
                    },
                    Ok(Some((f, end))) => {
                        &&& r matches Ok(Some(x)) && x == (EditInfo {
                            expanded_line: f.line,
                            delta_lines: f.delta_line,
                        })
                        &&& only_changes(*old(self.sources), *final(self.sources), self.path@)
                        &&& encode_utf8(text_at(*final(self.sources), self.path@)) == spliced(
                            bytes,
                            f.offset as int,
                            end,
                            self.text.spec_bytes(),
                        )
                        &&& extends(
                            entries,
                            final(self.offset_adjustments).0@,
                            self.path@,
                            original_range.start@,
                            self.text.spec_bytes().len() as int,
                            f,
                        )
                        &&& attributed(
                            final(self.offset_adjustments).0@.last().1,
                            self.name,
                            self.original_loc,
                        )
                    },
                }
            }),
    {
        let AdjustmentEntry { path, text, name, original_loc, sources, offset_adjustments } = self;
        if original_range.end.get() <= original_range.start.get() {
            return Ok(None);
        }
        let start = match offset_adjustments.adjusted_offset(path, original_range.start) {
            Ok(o) => o,
            Err(e) => {
                return Err(e);
            },
        };
        let end = match offset_adjustments.adjusted_offset(path, original_range.end) {
            Ok(o) => o,
            Err(e) => {
                return Err(e);
            },
        };
        let ghost before = source_texts(*sources);
        let ghost key = path_parts(path@);
        assert(before.insert(key, before[key]) =~= before);
        let content = source_mut(sources, path);
        proof {
            lemma_boundary_in_range(content@, start@);
            lemma_boundary_in_range(content@, end@);
        }
        let removed = cut_out(content.as_str(), start.get(), end.get());
        match offset_adjustments.record(
            path,
            original_range.start,
            content.as_str(),
            text,
            removed.as_str(),
        ) {
            Ok((_, info)) => {
                splice(content, start.get(), end.get(), text);
                annotate(offset_adjustments, name, original_loc);
                Ok(Some(info))
            },
            Err(e) => Err(e),
        }
    }
}

/// The measures of a replacement of the original bytes from `start` to `end`, and the offset in the
/// current text at which the replaced bytes end.
pub open spec fn replacement_facts(
    entries: Entries,
    path: Seq<char>,
    start: int,
    end: int,
    bytes: Seq<u8>,
    added: Seq<u8>,
) -> Result<Option<(EditFacts, int)>, AdjustmentError> {
    if end <= start {
        Ok(None)
    } else {
        match (current_offset(entries, path, start), current_offset(entries, path, end)) {
            (Err(e), _) => Err(e),
            (_, Err(e)) => Err(e),
            (Ok(s), Ok(t)) => match edit_facts(
                entries,
                path,
                start,
                bytes,
                added,
                bytes.subrange(s, t),
            ) {
                Ok(f) => Ok(Some((f, t))),
                Err(e) => Err(e),
            },
        }
    }
}

/// Attributes the last recorded edit.
fn annotate(
    adjustments: &mut OffsetAdjustment,
    name: Option<&str>,
    original_loc: Option<MacroOriginalLocation>,
)
    requires
        old(adjustments).0@.len() > 0,
    ensures
        final(adjustments).0@.len() == old(adjustments).0@.len(),
        final(adjustments).0@.drop_last() == old(adjustments).0@.drop_last(),
        final(adjustments).0@.last().0 == old(adjustments).0@.last().0,
        ({
            let a = old(adjustments).0@.last().1;
            let b = final(adjustments).0@.last().1;
            &&& b.original_offset == a.original_offset
            &&& b.original_line == a.original_line
            &&& b.added_len == a.added_len
            &&& b.delta_offset == a.delta_offset
            &&& b.delta_line == a.delta_line
            &&& attributed(b, name, original_loc)
        }),
{
    let k = adjustments.0.len() - 1;
    let ghost before = adjustments.0@;
    adjustments.0[k].1.macro_name = match name {
        Some(n) => Some(n.to_owned()),
        None => None,
    };
    adjustments.0[k].1.original_location = original_loc;
    assert(adjustments.0@.drop_last() =~= before.drop_last());
}

// ---------------------------------------------------------------------------
// Laws
// ---------------------------------------------------------------------------
/// How far the edits of `path` move the byte at `offset` of the original text.
pub open spec fn moved_to(entries: Entries, path: Seq<char>, offset: int) -> int {
    offset + sum_to(entries, path, offset, bytes_added())
}

/// Recording an edit moves every later byte of the same file by the edit's size, and no other.
pub proof fn law_edit_moves_what_follows(
    entries: Entries,
    edit: (String, Adjustment),
    path: Seq<char>,
    offset: int,
)
    ensures
        moved_to(entries.push(edit), path, offset) == moved_to(entries, path, offset)
            + if path_eq(edit.0@, path) && edit.1.original_offset@ <= offset {
            edit.1.delta_offset as int
        } else {
            0
        },
{
    assert(entries.push(edit).drop_last() =~= entries);
}

/// An edit of one file changes no answer about another.
pub proof fn law_edit_leaves_other_files(
    entries: Entries,
    edit: (String, Adjustment),
    path: Seq<char>,
    offset: int,
)
    requires
        !path_eq(edit.0@, path),
    ensures
        current_offset(entries.push(edit), path, offset) == current_offset(entries, path, offset),
        covering_edit(entries.push(edit), path, offset) == covering_edit(entries, path, offset),
        undone_offset(entries.push(edit), path, offset) == undone_offset(entries, path, offset),
{
    let more = entries.push(edit);
    let value = bytes_added();
    assert(more.drop_last() =~= entries);
    assert forall|n: int| 0 <= n <= entries.len() implies #[trigger] more.take(n)
        == entries.take(n) by {
        assert(more.take(n) =~= entries.take(n));
    }
    assert(more.take(more.len() as int) =~= more);
    assert(entries.take(entries.len() as int) =~= entries);
    if sums_fit(entries, path, offset, value) {
        assert forall|n: int| 0 <= n <= more.len() implies fits_isize(
            #[trigger] sum_to(more.take(n), path, offset, value),
        ) by {
            if n <= entries.len() {
                assert(fits_isize(sum_to(entries.take(n), path, offset, value)));
            } else {
                assert(fits_isize(
                    sum_to(entries.take(entries.len() as int), path, offset, value),
                ));
            }
        }
    }
    if sums_fit(more, path, offset, value) {
        assert forall|n: int| 0 <= n <= entries.len() implies fits_isize(
            #[trigger] sum_to(entries.take(n), path, offset, value),
        ) by {
            assert(fits_isize(sum_to(more.take(n), path, offset, value)));
        }
    }
    let len = entries.len() as int;
    let edits = byte_edits(entries, path);
    let all = byte_edits(more, path);
    let extra = all[len];
    assert(all =~= edits.push(extra));
    assert forall|i: int| wrote(more, path, offset, i) == wrote(entries, path, offset, i) by {
        if 0 <= i < len {
            assert(all[i] == edits[i]);
            lemma_stands_ignores(edits, extra, i, offset);
        }
    }
    if exists|i: int| wrote(entries, path, offset, i) {
        let i = choose|i: int| wrote(entries, path, offset, i);
        let j = choose|j: int| wrote(more, path, offset, j);
        assert(wrote(more, path, offset, i));
        assert(wrote(entries, path, offset, j));
        lemma_covers_once(edits, i, j, offset);
        lemma_place_ignores(edits, extra, i);
    }
    if exists|i: int| wrote(more, path, offset, i) {
        let i = choose|i: int| wrote(more, path, offset, i);
        assert(wrote(entries, path, offset, i));
    }
    assert forall|k: int|
        #![trigger edits[k]]
        0 <= k < edits.len() && edits[k].counts implies those_standing_before(all, offset)(k)
        == those_standing_before(edits, offset)(k) by {
        lemma_stands_ignores(edits, extra, k, offset);
    }
    lemma_total_ignores(
        edits,
        extra,
        those_standing_before(all, offset),
        those_standing_before(edits, offset),
        len,
    );
}

/// `current` is `original` after the edits of `path`: every offset in `live` still has its byte,
/// [`moved_to`] says where it stands, and the edits at or before it how many lines were added before
/// it. The end of the text is always live.
pub open spec fn tracks(
    original: Seq<u8>,
    entries: Entries,
    path: Seq<char>,
    live: Set<int>,
    current: Seq<u8>,
) -> bool {
    follows(
        original,
        |o: int| moved_to(entries, path, o),
        |o: int| sum_to(entries, path, o, lines_added()),
        live,
        current,
    )
}

/// A file without edits is tracked as it is, all of it live.
pub proof fn law_unedited_file_is_tracked(original: Seq<u8>, entries: Entries, path: Seq<char>)
    requires
        forall|i: int|
            #![trigger entries[i]]
            0 <= i < entries.len() ==> !path_eq(entries[i].0@, path),
    ensures
        tracks(
            original,
            entries,
            path,
            Set::new(|o: int| 0 <= o <= original.len()),
            original,
        ),
{
    let moved = |o: int| moved_to(entries, path, o);
    let lines = |o: int| sum_to(entries, path, o, lines_added());
    assert forall|o: int| #[trigger] moved(o) == o by {
        lemma_sum_of_none(entries, path, o, bytes_added());
    }
    assert forall|o: int| #[trigger] lines(o) == 0 by {
        lemma_sum_of_none(entries, path, o, lines_added());
    }
    lemma_untouched_is_followed(original, moved, lines);
}

proof fn lemma_sum_of_none(
    entries: Entries,
    path: Seq<char>,
    offset: int,
    value: spec_fn(Adjustment) -> int,
)
    requires
        forall|i: int|
            #![trigger entries[i]]
            0 <= i < entries.len() ==> !path_eq(entries[i].0@, path),
    ensures
        sum_to(entries, path, offset, value) == 0,
    decreases entries.len(),
{
    if entries.len() > 0 {
        let shorter = entries.drop_last();
        assert forall|i: int| #![trigger shorter[i]] 0 <= i < shorter.len() implies !path_eq(
            shorter[i].0@,
            path,
        ) by {
            assert(shorter[i] == entries[i]);
        }
        lemma_sum_of_none(shorter, path, offset, value);
        assert(entries[entries.len() - 1] == entries.last());
    }
}

/// Putting `added` in place of the live original bytes from `start` to `end` keeps track of every
/// other live byte. With `start` equal to `end` this is an insertion, after which every live byte
/// is still live. Edits may be recorded in any order.
pub proof fn law_edit_keeps_track(
    original: Seq<u8>,
    entries: Entries,
    path: Seq<char>,
    live: Set<int>,
    current: Seq<u8>,
    edit: (String, Adjustment),
    start: int,
    end: int,
    added: Seq<u8>,
)
    requires
        tracks(original, entries, path, live, current),
        live.contains(start),
        live.contains(end),
        start <= end,
        path_eq(edit.0@, path),
        edit.1.original_offset@ == start,
        edit.1.delta_offset == added.len() - (moved_to(entries, path, end) - moved_to(
            entries,
            path,
            start,
        )),
        edit.1.delta_line == newlines(added) - newlines(
            current.subrange(moved_to(entries, path, start), moved_to(entries, path, end)),
        ),
    ensures
        tracks(
            original,
            entries.push(edit),
            path,
            live.difference(Set::new(|o: int| start <= o < end)),
            spliced(current, moved_to(entries, path, start), moved_to(entries, path, end), added),
        ),
{
    let more = entries.push(edit);
    assert(more.drop_last() =~= entries);
    assert(more.last() == edit);
    lemma_edit_is_followed(
        original,
        |o: int| moved_to(entries, path, o),
        |o: int| sum_to(entries, path, o, lines_added()),
        live,
        current,
        |o: int| moved_to(more, path, o),
        |o: int| sum_to(more, path, o, lines_added()),
        start,
        end,
        added,
    );
}

/// Recording the replacement of the live original bytes from `start` to `end`, and making it, keeps
/// track of every other live byte, and the edit is recorded with its line in the original text. With
/// `start` equal to `end` this is an insertion. Edits may be recorded in any order.
pub proof fn law_recording_keeps_track(
    original: Seq<u8>,
    entries: Entries,
    path: Seq<char>,
    live: Set<int>,
    current: Seq<u8>,
    after: Entries,
    start: int,
    end: int,
    added: Seq<u8>,
    facts: EditFacts,
)
    requires
        tracks(original, entries, path, live, current),
        live.contains(start),
        live.contains(end),
        start <= end,
        edit_facts(
            entries,
            path,
            start,
            current,
            added,
            current.subrange(moved_to(entries, path, start), moved_to(entries, path, end)),
        ) == Ok::<EditFacts, AdjustmentError>(facts),
        extends(entries, after, path, start, added.len() as int, facts),
        current.len() <= usize::MAX,
        added.len() <= usize::MAX,
    ensures
        tracks(
            original,
            after,
            path,
            live.difference(Set::new(|o: int| start <= o < end)),
            spliced(current, moved_to(entries, path, start), moved_to(entries, path, end), added),
        ),
        facts.offset == moved_to(entries, path, start),
        after.last().1.original_line == newlines(original.take(start)) + 1,
{
    let moved = |o: int| moved_to(entries, path, o);
    let lines = |o: int| sum_to(entries, path, o, lines_added());
    let s = moved(start);
    let e = moved(end);
    assert(start < end ==> s < e);
    assert(0 <= s <= e <= current.len());
    let removed = current.subrange(s, e);
    lemma_count_bound(added, 10u8);
    lemma_count_bound(removed, 10u8);
    assert(newlines(current.take(s)) == newlines(original.take(start)) + lines(start));
    assert(after =~= entries.push(after.last()));
    law_edit_keeps_track(
        original,
        entries,
        path,
        live,
        current,
        after.last(),
        start,
        end,
        added,
    );
}

/// The current text holds each live byte of the original text at its adjusted offset, and adjusted
/// offsets keep the order of the original ones.
pub proof fn law_adjusted_offset_finds_the_byte(
    original: Seq<u8>,
    entries: Entries,
    path: Seq<char>,
    live: Set<int>,
    current: Seq<u8>,
    o: int,
    p: int,
)
    requires
        tracks(original, entries, path, live, current),
        current.len() <= usize::MAX,
        sums_fit(entries, path, o, bytes_added()),
        sums_fit(entries, path, p, bytes_added()),
        live.contains(o),
        live.contains(p),
        o < p,
    ensures
        current_offset(entries, path, o) matches Ok(x) && 0 <= x < current.len() && current[x]
            == original[o] && (current_offset(entries, path, p) matches Ok(y) && x < y),
{
    let moved = |x: int| moved_to(entries, path, x);
    assert(0 <= moved(o) < moved(p) <= current.len());
}

/// The edits of `path` do not overlap, whatever the order in which they were recorded.
pub open spec fn bytes_apart(entries: Entries, path: Seq<char>) -> bool {
    apart(byte_edits(entries, path))
}

/// The byte at `offset` of the original text was not taken away by an edit of `path`.
pub open spec fn survives(entries: Entries, path: Seq<char>, offset: int) -> bool {
    forall|i: int|
        #![trigger entries[i]]
        0 <= i < entries.len() && path_eq(entries[i].0@, path) ==> offset
            < entries[i].1.original_offset@ || entries[i].1.original_offset@ + removed_len(
            entries[i].1,
        ) <= offset
}

/// No edit of `path` at or before `offset` that only takes bytes away stands at `at` or behind it.
///
/// What follows such an edit directly stands where the edit itself stands in the expanded text, so
/// the two cannot be told apart there.
pub open spec fn clear_of_deletions(
    entries: Entries,
    path: Seq<char>,
    offset: int,
    at: int,
) -> bool {
    forall|i: int|
        #![trigger entries[i]]
        0 <= i < entries.len() && path_eq(entries[i].0@, path) && entries[i].1.original_offset@
            <= offset && entries[i].1.added_len == 0 && entries[i].1.delta_offset != 0 ==> place(
            byte_edits(entries, path),
            i,
        ) < at
}

/// The edits at or before `offset`.
pub open spec fn those_up_to(entries: Entries, offset: int) -> spec_fn(int) -> bool {
    |k: int| entries[k].1.original_offset@ <= offset
}

/// The two ways to sum up the edits at or before `offset` agree.
proof fn lemma_sums_agree(entries: Entries, path: Seq<char>, offset: int, n: int)
    requires
        0 <= n <= entries.len(),
    ensures
        total(byte_edits(entries, path), n, those_up_to(entries, offset)) == sum_to(
            entries.take(n),
            path,
            offset,
            bytes_added(),
        ),
    decreases n,
{
    if n > 0 {
        lemma_sums_agree(entries, path, offset, n - 1);
        assert(entries.take(n).drop_last() =~= entries.take(n - 1));
        assert(entries.take(n).last() == entries[n - 1]);
    }
}

/// On which side of the place of a surviving byte each edit stands.
proof fn lemma_sides(entries: Entries, path: Seq<char>, offset: int, i: int)
    requires
        bytes_apart(entries, path),
        survives(entries, path, offset),
        0 <= i < entries.len(),
        path_eq(entries[i].0@, path),
    ensures
        ({
            let pos = place(byte_edits(entries, path), i);
            let at = moved_to(entries, path, offset);
            if entries[i].1.original_offset@ <= offset {
                pos + entries[i].1.added_len <= at
            } else {
                at < pos
            }
        }),
{
    let edits = byte_edits(entries, path);
    let moved = those_up_to(entries, offset);
    lemma_bytes_part(entries, path, offset);
    lemma_sums_agree(entries, path, offset, entries.len() as int);
    assert(entries.take(entries.len() as int) =~= entries);
    assert(edits[i].counts);
    if moved(i) {
        lemma_moved_stands_before(edits, offset, moved, i);
    } else {
        assert forall|k: int|
            #![trigger edits[k]]
            0 <= k < edits.len() && edits[k].counts && !moved(k) implies offset < edits[k].at by {}
        lemma_unmoved_stands_behind(edits, offset, moved, i);
    }
}

proof fn lemma_bytes_part(entries: Entries, path: Seq<char>, offset: int)
    requires
        bytes_apart(entries, path),
        survives(entries, path, offset),
    ensures
        parts_at(byte_edits(entries, path), offset, those_up_to(entries, offset)),
{
    let edits = byte_edits(entries, path);
    let moved = those_up_to(entries, offset);
    assert forall|i: int|
        #![trigger edits[i]]
        0 <= i < edits.len() && edits[i].counts implies if moved(i) {
        edits[i].at + edits[i].removed <= offset
    } else {
        offset <= edits[i].at
    } by {
        assert(path_eq(entries[i].0@, path));
    }
}

/// A byte of the original text that no edit took away, and that does not stand where a deletion
/// does, is found again from its place in the expanded text and not taken for generated text there.
/// The edits may have been recorded in any order; what moves the byte fits an `isize`.
pub proof fn law_original_offset_round_trip(entries: Entries, path: Seq<char>, offset: int)
    requires
        bytes_apart(entries, path),
        survives(entries, path, offset),
        clear_of_deletions(entries, path, offset, moved_to(entries, path, offset)),
        fits_isize(sum_to(entries, path, offset, bytes_added())),
        0 <= offset <= usize::MAX,
    ensures
        undone_offset(entries, path, moved_to(entries, path, offset)) == Ok::<
            int,
            AdjustmentError,
        >(offset),
        covering_edit(entries, path, moved_to(entries, path, offset)) == Ok::<
            Option<int>,
            AdjustmentError,
        >(None),
{
    let edits = byte_edits(entries, path);
    let moved = those_up_to(entries, offset);
    let at = moved_to(entries, path, offset);
    let n = entries.len() as int;
    let before = those_standing_before(edits, at);
    assert forall|i: int|
        #![trigger edits[i]]
        0 <= i < n && edits[i].counts implies !covers(edits, i, at) && (before(i) == moved(i)
        || edits[i].added == edits[i].removed) by {
        assert(path_eq(entries[i].0@, path));
        lemma_apart_stands(edits, i, at);
        lemma_sides(entries, path, offset, i);
    }
    assert forall|i: int| !wrote(entries, path, at, i) by {
        if 0 <= i < n {
            assert(edits[i].counts ==> !covers(edits, i, at));
        }
    }
    lemma_total_agree_where_it_counts(edits, n, before, moved);
    lemma_sums_agree(entries, path, offset, n);
    assert(entries.take(n) =~= entries);
    lemma_bytes_part(entries, path, offset);
}

/// Where all edits of `path` are at `at` or behind it, `at` is an offset of the original text
/// unchanged.
pub proof fn law_offset_before_edits_stays(entries: Entries, path: Seq<char>, at: int)
    requires
        forall|i: int|
            #![trigger entries[i]]
            0 <= i < entries.len() && path_eq(entries[i].0@, path) ==> at
                <= entries[i].1.original_offset@,
        0 <= at <= usize::MAX,
    ensures
        undone_offset(entries, path, at) == Ok::<int, AdjustmentError>(at),
{
    let edits = byte_edits(entries, path);
    assert forall|k: int|
        #![trigger edits[k]]
        0 <= k < edits.len() && edits[k].counts implies !those_standing_before(edits, at)(k) by {
        assert forall|j: int|
            #![trigger edits[j]]
            0 <= j < edits.len() && edits[j].counts implies at <= edits[j].at && 0
            <= edits[j].added by {
            assert(path_eq(entries[j].0@, path));
        }
        lemma_nothing_before(edits, at, k);
    }
    lemma_total_none(edits, edits.len() as int, those_standing_before(edits, at));
}

/// Every byte that an edit wrote is attributed to that edit. The edits may have been recorded in any
/// order.
pub proof fn law_generated_byte_is_attributed(
    entries: Entries,
    path: Seq<char>,
    k: int,
    at: int,
)
    requires
        bytes_apart(entries, path),
        0 <= k < entries.len(),
        path_eq(entries[k].0@, path),
        ({
            let start = place(byte_edits(entries, path), k);
            start <= at < start + entries[k].1.added_len
        }),
        end(byte_edits(entries, path), k) <= usize::MAX,
    ensures
        covering_edit(entries, path, at) == Ok::<Option<int>, AdjustmentError>(Some(k)),
{
    let edits = byte_edits(entries, path);
    assert(edits[k].counts);
    lemma_apart_stands(edits, k, at);
    assert(wrote(entries, path, at, k));
    let i = choose|i: int| wrote(entries, path, at, i);
    lemma_covers_once(edits, i, k, at);
}

/// No byte is attributed to an edit that stands behind it in the source.
pub proof fn law_bytes_before_edits_are_not_generated(entries: Entries, path: Seq<char>, at: int)
    requires
        forall|i: int|
            #![trigger entries[i]]
            0 <= i < entries.len() && path_eq(entries[i].0@, path) ==> at
                < entries[i].1.original_offset@,
    ensures
        covering_edit(entries, path, at) == Ok::<Option<int>, AdjustmentError>(None),
{
    let edits = byte_edits(entries, path);
    assert forall|i: int| !wrote(entries, path, at, i) by {
        if wrote(entries, path, at, i) {
            assert forall|j: int|
                #![trigger edits[j]]
                0 <= j < edits.len() && edits[j].counts implies at + 1 <= edits[j].at && 0
                <= edits[j].added by {
                assert(path_eq(entries[j].0@, path));
            }
            lemma_nothing_before(edits, at + 1, i);
            assert(stands_before(edits, i, at + 1));
        }
    }
}

/// Every edit of `path` only inserted text.
pub open spec fn only_inserts(entries: Entries, path: Seq<char>) -> bool {
    forall|i: int|
        #![trigger entries[i]]
        0 <= i < entries.len() && path_eq(entries[i].0@, path) ==> entries[i].1.delta_offset
            == entries[i].1.added_len
}

/// Insertions may be recorded in any order: every byte of the original text is found again and not
/// taken for generated text, as long as what moves it fits an `isize`.
pub proof fn law_insertions_in_any_order(entries: Entries, path: Seq<char>, offset: int)
    requires
        only_inserts(entries, path),
        fits_isize(sum_to(entries, path, offset, bytes_added())),
        0 <= offset <= usize::MAX,
    ensures
        undone_offset(entries, path, moved_to(entries, path, offset)) == Ok::<
            int,
            AdjustmentError,
        >(offset),
        covering_edit(entries, path, moved_to(entries, path, offset)) == Ok::<
            Option<int>,
            AdjustmentError,
        >(None),
{
    let edits = byte_edits(entries, path);
    assert forall|i: int|
        #![trigger edits[i]]
        0 <= i < edits.len() && edits[i].counts implies 0 <= edits[i].at && edits[i].removed
        == 0 by {
        assert(path_eq(entries[i].0@, path));
        lemma_offset_nonneg(entries[i].1.original_offset);
    }
    assert(apart(edits));
    law_original_offset_round_trip(entries, path, offset);
}

proof fn lemma_offset_nonneg<T: OffsetType>(o: Offset<T>)
    ensures
        0 <= o@ <= usize::MAX,
{
}

/// In a file without edits every offset stays where it is, in both directions, and none is taken
/// for generated text.
pub proof fn law_unedited_file_keeps_offsets(entries: Entries, path: Seq<char>, offset: int)
    requires
        forall|i: int|
            #![trigger entries[i]]
            0 <= i < entries.len() ==> !path_eq(entries[i].0@, path),
        0 <= offset <= usize::MAX,
    ensures
        current_offset(entries, path, offset) == Ok::<int, AdjustmentError>(offset),
        undone_offset(entries, path, offset) == Ok::<int, AdjustmentError>(offset),
        covering_edit(entries, path, offset) == Ok::<Option<int>, AdjustmentError>(None),
{
    assert forall|n: int| 0 <= n <= entries.len() implies fits_isize(
        #[trigger] sum_to(entries.take(n), path, offset, bytes_added()),
    ) by {
        let head = entries.take(n);
        assert forall|i: int| #![trigger head[i]] 0 <= i < head.len() implies !path_eq(
            head[i].0@,
            path,
        ) by {
            assert(head[i] == entries[i]);
        }
        lemma_sum_of_none(head, path, offset, bytes_added());
    }
    lemma_sum_of_none(entries, path, offset, bytes_added());
    law_offset_before_edits_stays(entries, path, offset);
    law_bytes_before_edits_are_not_generated(entries, path, offset);
}

/// One more edit at or before an offset moves it by the size of the edit, one behind it leaves it.
/// Where what moves it no longer fits, that is told, and so is an offset that falls out of range.
pub proof fn law_offset_moves_with_each_edit(
    entries: Entries,
    edit: (String, Adjustment),
    path: Seq<char>,
    offset: int,
    at: int,
)
    requires
        current_offset(entries, path, offset) == Ok::<int, AdjustmentError>(at),
    ensures
        ({
            let r = current_offset(entries.push(edit), path, offset);
            if !path_eq(edit.0@, path) || offset < edit.1.original_offset@ {
                r == Ok::<int, AdjustmentError>(at)
            } else if !(isize::MIN <= at - offset + edit.1.delta_offset <= isize::MAX) {
                r == Err::<int, AdjustmentError>(AdjustmentError::OffsetDelta)
            } else if 0 <= at + edit.1.delta_offset <= usize::MAX {
                r == Ok::<int, AdjustmentError>(at + edit.1.delta_offset)
            } else {
                r == Err::<int, AdjustmentError>(AdjustmentError::AdjustedOffset)
            }
        }),
{
    let more = entries.push(edit);
    let value = bytes_added();
    let len = entries.len() as int;
    assert(more.drop_last() =~= entries);
    assert(more.take(len + 1) =~= more);
    assert(entries.take(len) =~= entries);
    assert forall|n: int| 0 <= n <= len implies #[trigger] more.take(n) == entries.take(n) by {
        assert(more.take(n) =~= entries.take(n));
    }
    assert(fits_isize(sum_to(entries.take(len), path, offset, value)));
    assert forall|n: int| 0 <= n <= len implies fits_isize(
        #[trigger] sum_to(more.take(n), path, offset, value),
    ) by {
        assert(fits_isize(sum_to(entries.take(n), path, offset, value)));
    }
    if fits_isize(sum_to(more, path, offset, value)) {
        assert forall|n: int| 0 <= n <= more.len() implies fits_isize(
            #[trigger] sum_to(more.take(n), path, offset, value),
        ) by {
            if n == len + 1 {
                assert(more.take(n) == more);
            }
        }
        assert(sums_fit(more, path, offset, value));
    } else {
        assert(!fits_isize(sum_to(more.take(len + 1), path, offset, value)));
        assert(!sums_fit(more, path, offset, value));
    }
}

/// An edit of a text that can be counted is measured, and its measures are those of the texts: where it
/// stands, on which line of the current text, how many bytes and how many line breaks it adds less
/// those it removes. What is recorded of it says the same.
pub proof fn law_measures_are_those_of_the_texts(
    entries: Entries,
    after: Entries,
    path: Seq<char>,
    offset: int,
    bytes: Seq<u8>,
    added: Seq<u8>,
    removed: Seq<u8>,
    at: int,
)
    requires
        current_offset(entries, path, offset) == Ok::<int, AdjustmentError>(at),
        at <= bytes.len(),
        bytes.len() < isize::MAX,
        added.len() <= isize::MAX,
        removed.len() <= isize::MAX,
        sums_fit(entries, path, offset, lines_added()),
        0 <= bytes.take(at).filter(|b: u8| b == 10u8).len() + 1 - sum_to(
            entries,
            path,
            offset,
            lines_added(),
        ) <= isize::MAX,
    ensures
        ({
            let facts = edit_facts(entries, path, offset, bytes, added, removed);
            let breaks = |t: Seq<u8>| t.filter(|b: u8| b == 10u8).len();
            &&& facts is Ok
            &&& facts->Ok_0.offset == at
            &&& facts->Ok_0.line == breaks(bytes.take(at)) + 1
            &&& facts->Ok_0.delta_offset == added.len() - removed.len()
            &&& facts->Ok_0.delta_line == breaks(added) - breaks(removed)
            &&& extends(entries, after, path, offset, added.len() as int, facts->Ok_0) ==> {
                let e = after.last();
                &&& after == entries.push(e)
                &&& e.0@ == path
                &&& e.1.original_offset@ == offset
                &&& e.1.added_len == added.len()
                &&& e.1.delta_offset == added.len() - removed.len()
                &&& e.1.delta_line == breaks(added) - breaks(removed)
            }
        }),
{
    lemma_breaks_are_newlines(bytes.take(at));
    lemma_breaks_are_newlines(added);
    lemma_breaks_are_newlines(removed);
    lemma_count_bound(bytes.take(at), 10u8);
    lemma_count_bound(added, 10u8);
    lemma_count_bound(removed, 10u8);
    let facts = edit_facts(entries, path, offset, bytes, added, removed);
    if extends(entries, after, path, offset, added.len() as int, facts->Ok_0) {
        assert(after =~= entries.push(after.last()));
    }
}

proof fn lemma_breaks_are_newlines(bytes: Seq<u8>)
    ensures
        newlines(bytes) == bytes.filter(|b: u8| b == 10u8).len(),
    decreases bytes.len(),
{
    reveal(Seq::filter);
    if bytes.len() > 0 {
        lemma_breaks_are_newlines(bytes.drop_last());
    }
}

/// A replacement of an empty range does nothing. Any other takes away what stands in the current text
/// from where its start stands up to where its end does.
pub proof fn law_replacement_takes_the_range_away(
    entries: Entries,
    path: Seq<char>,
    start: int,
    end: int,
    bytes: Seq<u8>,
    added: Seq<u8>,
    s: int,
    t: int,
)
    requires
        current_offset(entries, path, start) == Ok::<int, AdjustmentError>(s),
        current_offset(entries, path, end) == Ok::<int, AdjustmentError>(t),
        s <= t <= bytes.len(),
    ensures
        end <= start ==> replacement_facts(entries, path, start, end, bytes, added) == Ok::<
            Option<(EditFacts, int)>,
            AdjustmentError,
        >(None),
        start < end ==> match replacement_facts(entries, path, start, end, bytes, added) {
            Ok(Some((f, u))) => f.offset == s && u == t && f.delta_offset == added.len() - (t - s),
            Ok(None) => false,
            Err(e) => edit_facts(
                entries,
                path,
                start,
                bytes,
                added,
                bytes.subrange(s, t),
            ) is Err,
        },
{
}

/// A single edit: the bytes that it wrote are attributed to it and no others are, a byte behind its
/// start is moved back by its size, and one at its start or in front of it stays.
pub proof fn law_single_edit_of_bytes(edit: (String, Adjustment), path: Seq<char>, at: int)
    requires
        path_eq(edit.0@, path),
        0 <= at <= usize::MAX,
        0 <= at - edit.1.delta_offset <= usize::MAX,
        edit.1.original_offset@ + edit.1.added_len <= usize::MAX,
    ensures
        covering_edit(seq![edit], path, at) == Ok::<Option<int>, AdjustmentError>(
            if edit.1.original_offset@ <= at < edit.1.original_offset@ + edit.1.added_len {
                Some(0)
            } else {
                None
            },
        ),
        undone_offset(seq![edit], path, at) == Ok::<int, AdjustmentError>(
            if edit.1.original_offset@ < at {
                at - edit.1.delta_offset
            } else {
                at
            },
        ),
{
    let entries: Entries = seq![edit];
    let edits = byte_edits(entries, path);
    lemma_total_none(edits, 1, those_before(edits, 0));
    assert(place(edits, 0) == edits[0].at);
    assert(those_standing_before(edits, at)(0) == (edits[0].at < at));
    reveal_with_fuel(total, 2);
    assert(wrote(entries, path, at, 0) == (edit.1.original_offset@ <= at
        < edit.1.original_offset@ + edit.1.added_len));
    if exists|i: int| wrote(entries, path, at, i) {
        let i = choose|i: int| wrote(entries, path, at, i);
        assert(i == 0);
    }
}

/// What a macro wrote is recorded under its name and with the location that it was given.
pub proof fn law_attribution_is_recorded(
    a: Adjustment,
    name: &str,
    location: Option<MacroOriginalLocation>,
)
    ensures
        attributed(a, Some(name), location) <==> a.macro_name is Some && a.macro_name->0@ == name@
            && a.original_location == location,
        attributed(a, None, location) <==> a.macro_name is None && a.original_location == location,
{
}

/// An edit of one file changes the text of no other.
pub proof fn law_other_texts_stay(
    before: Sources,
    after: Sources,
    path: Seq<char>,
    other: Seq<char>,
)
    requires
        only_changes(before, after, path),
        path_parts(other) != path_parts(path),
    ensures
        source_texts(after).contains_key(path_parts(other)) == source_texts(before).contains_key(
            path_parts(other),
        ),
        source_texts(before).contains_key(path_parts(other)) ==> source_texts(after)[path_parts(
            other,
        )] == source_texts(before)[path_parts(other)],
        source_texts(after).contains_key(path_parts(path)),
{
}

/// The bytes that the edits of `path` add which stand before edit `i`: those at smaller offsets, and
/// those recorded before it at its very offset.
pub open spec fn bytes_added_before(entries: Entries, path: Seq<char>, i: int) -> int {
    sum_to(entries, path, entries[i].1.original_offset@ - 1, bytes_added()) + sum_to(
        entries.take(i),
        path,
        entries[i].1.original_offset@,
        bytes_added(),
    ) - sum_to(entries.take(i), path, entries[i].1.original_offset@ - 1, bytes_added())
}

proof fn lemma_place_by_sums(entries: Entries, path: Seq<char>, i: int, n: int)
    requires
        0 <= i < entries.len(),
        0 <= n <= entries.len(),
    ensures
        ({
            let o = entries[i].1.original_offset@;
            let m = if n < i {
                n
            } else {
                i
            };
            total(byte_edits(entries, path), n, those_before(byte_edits(entries, path), i))
                == sum_to(entries.take(n), path, o - 1, bytes_added()) + sum_to(
                entries.take(m),
                path,
                o,
                bytes_added(),
            ) - sum_to(entries.take(m), path, o - 1, bytes_added())
        }),
    decreases n,
{
    if n > 0 {
        lemma_place_by_sums(entries, path, i, n - 1);
        assert(entries.take(n).drop_last() =~= entries.take(n - 1));
        assert(entries.take(n).last() == entries[n - 1]);
    }
}

/// The bytes attributed to an edit are exactly those that it wrote, in whatever order the edits were
/// recorded: they start at the original offset of the edit, moved by the edits that stand before it in
/// the source.
pub proof fn law_attributed_bytes_are_those_written(
    entries: Entries,
    path: Seq<char>,
    k: int,
    at: int,
)
    requires
        bytes_apart(entries, path),
        0 <= k < entries.len(),
        path_eq(entries[k].0@, path),
        entries[k].1.original_offset@ + bytes_added_before(entries, path, k)
            + entries[k].1.added_len <= usize::MAX,
    ensures
        ({
            let start = entries[k].1.original_offset@ + bytes_added_before(entries, path, k);
            covering_edit(entries, path, at) == Ok::<Option<int>, AdjustmentError>(Some(k)) <==> start
                <= at < start + entries[k].1.added_len
        }),
{
    let edits = byte_edits(entries, path);
    let n = entries.len() as int;
    lemma_place_by_sums(entries, path, k, n);
    assert(entries.take(n) =~= entries);
    assert(edits[k].counts);
    lemma_apart_stands(edits, k, at);
    if place(edits, k) <= at < end(edits, k) {
        law_generated_byte_is_attributed(entries, path, k, at);
    } else {
        assert(!wrote(entries, path, at, k));
        if covering_edit(entries, path, at) == Ok::<Option<int>, AdjustmentError>(Some(k)) {
            let i = choose|i: int| wrote(entries, path, at, i);
            assert(i == k);
        }
    }
}

} // verus!
