//! Compiler messages, brought back from macro-expanded coordinates to the original source.
use crate::arith::fits_isize;
use crate::arith::lemma_wrap_isize_fits;
use crate::arith::to_isize;
use crate::arith::wrap_isize;
use crate::offsets::expanded_line;
use crate::offsets::in_macro;
use crate::offsets::law_original_line_round_trip;
use crate::offsets::line_survives;
use crate::offsets::lines_apart;
use crate::offsets::original_col_of;
use crate::offsets::original_line_of;
use crate::offsets::Entries;
use crate::offsets::OffsetAdjustment;
use crate::text::contains_char;
use crate::text::contains_str;
use crate::text::count_char;
use crate::text::count_of;
use crate::text::decimal;
use crate::text::decimal_text;
use crate::text::first_occurrence;
use crate::text::is_digit;
use crate::text::is_space;
use crate::text::law_count_goes_by_parts;
use crate::text::law_numbers_are_read;
use crate::text::law_signed_decimal_round_trip;
use crate::text::law_white_space_around_is_removed;
use crate::text::lemma_decimal_reads_back;
use crate::text::lemma_split_on_parts;
use crate::text::lines;
use crate::text::lines_of;
use crate::text::occurs;
use crate::text::occurs_at;
use crate::text::parse_isize;
use crate::text::parse_signed;
use crate::text::parse_unsigned;
use crate::text::parse_usize;
use crate::text::push_decimal;
use crate::text::repeated;
use crate::text::rsplit_once;
use crate::text::slices;
use crate::text::split_first;
use crate::text::split_last;
use crate::text::split_on;
use crate::text::split_once;
use crate::text::split_once_str;
use crate::text::strip_prefix;
use crate::text::strip_suffix_char;
use crate::text::trim;
use crate::text::trim_end;
use crate::text::trimmed;
use crate::text::trimmed_end;
use crate::text::trimmed_start;
use crate::text::without_cr;
use crate::text::without_prefix;
use std::ops::ControlFlow;
use vstd::prelude::*;
use vstd::string::StrSliceExecFns;
use vstd::string::StringExecFns;
use vstd::string::StringSliceAdditionalSpecFns;
use vstd::utf8::encode_utf8;

verus! {

/// The parts of a compiler error that are rewritten.
#[derive(Debug, Clone)]
pub struct SolcError {
    /// The file that the error points into, as the compiler names it.
    pub source_file: Option<String>,
    /// The short message.
    pub message: String,
    /// The message with its location and the source lines around it.
    pub formatted_message: Option<String>,
}

// ---------------------------------------------------------------------------
// What the messages become
// ---------------------------------------------------------------------------
/// The `isize` that `s` stands for.
pub open spec fn isize_in(s: Seq<char>) -> Option<int> {
    match parse_signed(s) {
        Some(x) => if fits_isize(x) {
            Some(x)
        } else {
            None
        },
        None => None,
    }
}

/// The `usize` that `s` stands for.
pub open spec fn usize_in(s: Seq<char>) -> Option<int> {
    match parse_unsigned(s) {
        Some(n) => if n <= usize::MAX {
            Some(n as int)
        } else {
            None
        },
        None => None,
    }
}

/// The column that `col` becomes on line `line` of the original source; `col` itself where it is
/// not a number.
pub open spec fn remapped_col(
    entries: Entries,
    source: Seq<char>,
    line: int,
    col: Seq<char>,
) -> Seq<char> {
    match isize_in(trimmed(col)) {
        Some(c) => decimal(original_col_of(entries, source, line, c) as nat),
        None => col,
    }
}

/// `loc` without one trailing colon, and the colon.
pub open spec fn split_colon(loc: Seq<char>) -> (Seq<char>, Seq<char>) {
    if loc.len() > 0 && loc.last() == ':' {
        (loc.drop_last(), seq![':'])
    } else {
        (loc, seq![])
    }
}

/// The path, line and column of a location `path:LINE:COL`, and the line as a number.
pub open spec fn location_in(loc: Seq<char>) -> Option<(Seq<char>, int, Seq<char>)> {
    match split_last(loc, ':') {
        None => None,
        Some((rest, col)) => match split_last(rest, ':') {
            None => None,
            Some((path, line)) => match isize_in(line) {
                None => None,
                Some(n) => Some((path, n, col)),
            },
        },
    }
}

/// What a `-->` line becomes: `Break(Some(..))` where its line and column are known in the original
/// source, `Break(None)` where it points into macro-generated code, `Continue` where it cannot be
/// read.
pub open spec fn remapped_arrow(
    entries: Entries,
    source: Seq<char>,
    line: Seq<char>,
) -> ControlFlow<Option<Seq<char>>, ()> {
    match split_on(line, "-->"@) {
        None => ControlFlow::Continue(()),
        Some((beginning, after)) => {
            let (loc, trailing) = split_colon(trimmed(after));
            match location_in(loc) {
                None => ControlFlow::Continue(()),
                Some((path, n, col)) => match original_line_of(entries, source, n) {
                    None => ControlFlow::Break(None),
                    Some(l) => ControlFlow::Break(
                        Some(
                            beginning + "-->"@ + " "@ + path + ":"@ + decimal(l as nat) + ":"@
                                + remapped_col(entries, source, l, col) + trailing,
                        ),
                    ),
                },
            }
        },
    }
}

/// The line number and the rest of an old-style location `source:LINE:REST`.
pub open spec fn old_style_location(source: Seq<char>, line: Seq<char>) -> Option<
    (int, Seq<char>),
> {
    match without_prefix(line, source) {
        None => None,
        Some(rest) => match without_prefix(rest, ":"@) {
            None => None,
            Some(rest) => match split_first(rest, ':') {
                None => None,
                Some((line, after)) => match isize_in(line) {
                    None => None,
                    Some(n) => Some((n, after)),
                },
            },
        },
    }
}

/// What an old-style location line becomes; `None` where it points into macro-generated code. A
/// line that cannot be read stays as it is.
pub open spec fn remapped_old_style(
    entries: Entries,
    source: Seq<char>,
    line: Seq<char>,
) -> Option<Seq<char>> {
    match old_style_location(source, line) {
        None => Some(line),
        Some((n, after)) => match original_line_of(entries, source, n) {
            None => None,
            Some(l) => {
                let tail = match split_first(after, ':') {
                    Some((col, tail)) => remapped_col(entries, source, l, col) + ":"@ + tail,
                    None => after,
                };
                Some(source + ":"@ + decimal(l as nat) + ":"@ + tail)
            },
        },
    }
}

/// The line number of a framed source line `LINE | ...`.
pub open spec fn framed_number(line: Seq<char>) -> Option<int> {
    match split_first(line, '|') {
        None => None,
        Some((prefix, _)) => usize_in(trimmed(prefix)),
    }
}

/// `text` moved to the right end of a field of `width` characters.
pub open spec fn right_aligned(text: Seq<char>, width: nat) -> Seq<char> {
    if text.len() < width {
        repeated(' ', (width - text.len()) as nat) + text
    } else {
        text
    }
}

/// What a framed source line becomes: its number is replaced and keeps its field. A line without a
/// number, or with one in macro-generated code, stays as it is.
pub open spec fn remapped_framed(
    entries: Entries,
    source: Seq<char>,
    line: Seq<char>,
) -> Seq<char> {
    match (framed_number(line), split_first(line, '|')) {
        (Some(n), Some((prefix, rest))) => match original_line_of(entries, source, wrap_isize(n)) {
            None => line,
            Some(l) => right_aligned(
                decimal(l as nat),
                encode_utf8(trimmed_end(prefix)).len(),
            ) + " |"@ + rest,
        },
        _ => line,
    }
}

/// `lines`, each ended by a newline.
pub open spec fn ended(lines: Seq<Seq<char>>) -> Seq<char>
    decreases lines.len(),
{
    if lines.len() == 0 {
        seq![]
    } else {
        ended(lines.drop_last()) + lines.last() + "\n"@
    }
}

/// The first line from `i` on that holds an arrow, or the number of lines.
pub open spec fn arrow_from(lines: Seq<Seq<char>>, i: int) -> int
    decreases lines.len() - i,
{
    if i < 0 || i >= lines.len() || occurs(lines[i], "-->"@) {
        i
    } else {
        arrow_from(lines, i + 1)
    }
}

/// The first line names a location the old way: `path/to/file:LINE:COL: ...`.
pub open spec fn is_old_style(line: Seq<char>) -> bool {
    count_of(line, ':') >= 3 && (line.contains('/') || line.contains('\\') || occurs(
        line,
        ".sol"@,
    ))
}

/// The framed lines among `lines`, remapped.
pub open spec fn all_framed(
    entries: Entries,
    source: Seq<char>,
    lines: Seq<Seq<char>>,
) -> Seq<Seq<char>> {
    lines.map_values(|l: Seq<char>| remapped_framed(entries, source, l))
}

/// What a formatted message becomes; `None` where its location lies in macro-generated code.
pub open spec fn remapped_message(
    entries: Entries,
    source: Seq<char>,
    message: Seq<char>,
) -> Option<Seq<char>> {
    let lines = lines_of(message);
    if lines.len() == 0 {
        Some(seq![])
    } else if is_old_style(lines[0]) {
        match remapped_old_style(entries, source, lines[0]) {
            None => None,
            Some(first) => Some(
                first + "\n"@ + ended(all_framed(entries, source, lines.skip(1))),
            ),
        }
    } else {
        let k = arrow_from(lines, 1);
        if k >= lines.len() {
            Some(ended(lines))
        } else {
            let arrow = match remapped_arrow(entries, source, lines[k]) {
                ControlFlow::Break(new) => new,
                ControlFlow::Continue(_) => Some(lines[k]),
            };
            match arrow {
                None => None,
                Some(new) => Some(
                    ended(lines.take(k)) + new + "\n"@ + ended(
                        all_framed(entries, source, lines.skip(k + 1)),
                    ),
                ),
            }
        }
    }
}

// ---------------------------------------------------------------------------
// Rewriting
// ---------------------------------------------------------------------------
/// Remaps compiler error line numbers in `e` from macro-expanded coordinates back to the
/// original source, or replaces the message with a macro-error notice if the error points
/// into macro-generated code.
///
/// The file that the error names is the lookup key: the paths of recorded edits are in the same
/// form (relative or absolute) as the paths that the compiler reports.
pub fn correct_fmt_msg(adjustments: &OffsetAdjustment, e: &mut SolcError)
    ensures
        final(e).source_file == old(e).source_file,
        match old(e).source_file {
            None => *final(e) == *old(e),
            Some(file) => {
                let message = match old(e).formatted_message {
                    Some(m) => m@,
                    None => seq![],
                };
                match remapped_message(adjustments.0@, file@, message) {
                    Some(new) => {
                        &&& final(e).message == old(e).message
                        &&& final(e).formatted_message matches Some(m) && m@ == new
                    },
                    None => {
                        &&& final(e).message@ == "error in macro-generated code: "@ + old(e).message@
                        &&& final(e).formatted_message matches Some(m) && m@ == final(e).message@
                    },
                }
            },
        },
{
    let new = match &e.source_file {
        None => {
            return;
        },
        Some(file) => remap_fmt_msg(adjustments, file.as_str(), e),
    };
    match new {
        Some(s) => {
            e.formatted_message = Some(s);
        },
        None => {
            // The error points into macro-generated code: strip the location and update both
            // the short message (shown in the header) and formatted_message so all display
            // paths reflect the attribution.
            let mut msg = "error in macro-generated code: ".to_owned();
            msg.append(e.message.as_str());
            e.message = msg.clone();
            e.formatted_message = Some(msg);
        },
    }
}

/// Remaps all line numbers in the formatted compiler error message from macro-expanded
/// coordinates back to the original source. Returns `None` if the error's primary location
/// falls within a macro-generated block.
pub fn remap_fmt_msg(adjustments: &OffsetAdjustment, source: &str, e: &SolcError) -> (r: Option<
    String,
>)
    ensures
        ({
            let message = match e.formatted_message {
                Some(m) => m@,
                None => seq![],
            };
            match remapped_message(adjustments.0@, source@, message) {
                Some(new) => r matches Some(s) && s@ == new,
                None => r is None,
            }
        }),
{
    let message = match &e.formatted_message {
        Some(m) => m.as_str(),
        None => "",
    };
    proof {
        reveal_strlit("");
        assert(""@ =~= Seq::<char>::empty());
    }
    let all = lines(message);
    let ghost views = slices(all@);
    let mut modified = String::new();
    if all.len() == 0 {
        return Some(modified);
    }
    assert(views[0] == all@[0]@);
    let first = all[0];
    if count_char(first, ':') >= 3 && (contains_char(first, '/') || contains_char(first, '\\')
        || contains_str(first, ".sol")) {
        match remap_old_style_line(adjustments, source, first) {
            Some(line) => {
                modified.append(line.as_str());
                modified.append("\n");
                push_framed(&mut modified, adjustments, source, &all, 1);
                Some(modified)
            },
            None => None,
        }
    } else {
        // The first line is the error description; a single --> location line follows.
        modified.append(first);
        modified.append("\n");
        let mut i: usize = 1;
        assert(views.take(1).drop_last() =~= Seq::<Seq<char>>::empty());
        assert(views.take(1).last() == views[0]);
        assert(ended(Seq::<Seq<char>>::empty()) =~= Seq::<char>::empty());
        assert(ended(views.take(1)) =~= views[0] + "\n"@);
        while i < all.len() && !contains_str(all[i], "-->")
            invariant
                views == slices(all@),
                1 <= i <= all@.len(),
                modified@ == ended(views.take(i as int)),
                arrow_from(views, 1) == arrow_from(views, i as int),
            decreases all@.len() - i,
        {
            assert(views[i as int] == all@[i as int]@);
            modified.append(all[i]);
            modified.append("\n");
            assert(views.take(i + 1).drop_last() =~= views.take(i as int));
            i = i + 1;
        }
        if i >= all.len() {
            assert(views.take(i as int) =~= views);
            return Some(modified);
        }
        assert(views[i as int] == all@[i as int]@);
        match remap_arrow_line(adjustments, source, all[i]) {
            ControlFlow::Break(None) => {
                return None;
            },
            ControlFlow::Break(Some(remapped)) => {
                modified.append(remapped.as_str());
            },
            ControlFlow::Continue(()) => {
                modified.append(all[i]);
            },
        }
        modified.append("\n");
        push_framed(&mut modified, adjustments, source, &all, i + 1);
        Some(modified)
    }
}

/// Appends the lines from `start` on, remapping line numbers in framed source lines.
fn push_framed(
    out: &mut String,
    adjustments: &OffsetAdjustment,
    source: &str,
    all: &Vec<&str>,
    start: usize,
)
    requires
        start <= all@.len(),
    ensures
        final(out)@ == old(out)@ + ended(
            all_framed(adjustments.0@, source@, slices(all@).skip(start as int)),
        ),
{
    let ghost before = out@;
    let ghost entries = adjustments.0@;
    let ghost new = all_framed(entries, source@, slices(all@).skip(start as int));
    let mut i: usize = start;
    assert(new.take(0) =~= Seq::<Seq<char>>::empty());
    assert(before + ended(new.take(0)) =~= before);
    while i < all.len()
        invariant
            start <= i <= all@.len(),
            entries == adjustments.0@,
            new == all_framed(entries, source@, slices(all@).skip(start as int)),
            out@ == before + ended(new.take(i - start)),
        decreases all@.len() - i,
    {
        let line = remap_framed_line(adjustments, source, all[i]);
        let ghost done = new.take(i - start);
        let ghost so_far = out@;
        out.append(line.as_str());
        out.append("\n");
        proof {
            assert(slices(all@).skip(start as int)[i - start] == all@[i as int]@);
            assert(new[i - start] == line@);
            assert(new.take(i + 1 - start).drop_last() =~= done);
            assert(new.take(i + 1 - start).last() == line@);
            assert(out@ =~= before + (ended(done) + line@ + "\n"@));
        }
        i = i + 1;
    }
    assert(new.take(i - start) =~= new);
}

/// Remaps the line number in a `-->` source-location line.
///
/// Returns `Break(Some(remapped))` on success, `Break(None)` if the line falls in
/// macro-generated code, or `Continue(())` if the line cannot be parsed (use original).
pub fn remap_arrow_line(adjustments: &OffsetAdjustment, source: &str, line: &str) -> (r: ControlFlow<
    Option<String>,
    (),
>)
    ensures
        match remapped_arrow(adjustments.0@, source@, line@) {
            ControlFlow::Continue(_) => r matches ControlFlow::Continue(_),
            ControlFlow::Break(None) => r matches ControlFlow::Break(x) && x is None,
            ControlFlow::Break(Some(new)) => r matches ControlFlow::Break(Some(s)) && s@ == new,
        },
{
    let (beginning, after) = match split_once_str(line, "-->") {
        Some(p) => p,
        None => {
            return ControlFlow::Continue(());
        },
    };
    let loc = trim(after);
    // loc is now "path/to/file.sol:LINE:COL:" -- strip exactly the one structural
    // trailing colon before splitting, then restore it in the output.
    let (without_trailing, trailing) = match strip_suffix_char(loc, ':') {
        Some(s) => (s, ":"),
        None => (loc, ""),
    };
    proof {
        reveal_strlit(":");
        reveal_strlit("");
        assert(":"@ =~= seq![':']);
        assert(""@ =~= Seq::<char>::empty());
    }
    let (rest, col) = match rsplit_once(without_trailing, ':') {
        Some(p) => p,
        None => {
            return ControlFlow::Continue(());
        },
    };
    let (path, line_str) = match rsplit_once(rest, ':') {
        Some(p) => p,
        None => {
            return ControlFlow::Continue(());
        },
    };
    let line_num = match parse_isize(line_str) {
        Some(n) => n,
        None => {
            return ControlFlow::Continue(());
        },
    };
    match adjustments.get_original_line(source, line_num) {
        None => ControlFlow::Break(None),
        Some(remapped) => {
            let remapped_col = remap_col(adjustments, source, remapped, col);
            let mut out = beginning.to_owned();
            out.append("-->");
            out.append(" ");
            out.append(path);
            out.append(":");
            push_decimal(&mut out, remapped as u128);
            out.append(":");
            out.append(remapped_col.as_str());
            out.append(trailing);
            ControlFlow::Break(Some(out))
        },
    }
}

/// Remaps a column string against `original_line`, returning the remapped column as a string.
/// Falls back to the original text when it does not parse as a number.
pub fn remap_col(
    adjustments: &OffsetAdjustment,
    source: &str,
    original_line: usize,
    col: &str,
) -> (r: String)
    ensures
        r@ == remapped_col(adjustments.0@, source@, original_line as int, col@),
{
    match parse_isize(trim(col)) {
        Some(c) => decimal_text(
            adjustments.get_original_col(source, original_line, c) as u128,
        ),
        None => col.to_owned(),
    }
}

/// Remaps the line and column numbers in an old-style source-location line.
///
/// Returns `None` if the line falls in macro-generated code. Returns `Some` of the remapped
/// line on success, or `Some` of the original line if it cannot be parsed.
pub fn remap_old_style_line(adjustments: &OffsetAdjustment, source: &str, line: &str) -> (r: Option<
    String,
>)
    ensures
        match remapped_old_style(adjustments.0@, source@, line@) {
            Some(new) => r matches Some(s) && s@ == new,
            None => r is None,
        },
{
    let rest = match strip_prefix(line, source) {
        Some(rest) => rest,
        None => {
            return Some(line.to_owned());
        },
    };
    let rest = match strip_prefix(rest, ":") {
        Some(rest) => rest,
        None => {
            return Some(line.to_owned());
        },
    };
    let (line_str, after_line) = match split_once(rest, ':') {
        Some(p) => p,
        None => {
            return Some(line.to_owned());
        },
    };
    let line_num = match parse_isize(line_str) {
        Some(n) => n,
        None => {
            return Some(line.to_owned());
        },
    };
    let remapped = match adjustments.get_original_line(source, line_num) {
        Some(l) => l,
        None => {
            return None;
        },
    };
    let mut out = source.to_owned();
    out.append(":");
    push_decimal(&mut out, remapped as u128);
    out.append(":");
    let ghost head = out@;
    // `after_line` is "COL: ErrorType: message"; remap the leading column, keep the rest.
    match split_once(after_line, ':') {
        Some((col, tail)) => {
            out.append(remap_col(adjustments, source, remapped, col).as_str());
            out.append(":");
            out.append(tail);
            assert(out@ =~= head + (remapped_col(adjustments.0@, source@, remapped as int, col@)
                + ":"@ + tail@));
        },
        None => {
            out.append(after_line);
        },
    }
    Some(out)
}

/// Extracts the line number from a framed source line.
///
/// Expects a line of the form `LINE | ...` or `    | ...` (the separator/caret
/// lines have only whitespace before `|`). Returns `Some(LINE)` only when the
/// prefix before `|` is a non-empty decimal number.
pub fn framed_line(line: &str) -> (r: Option<usize>)
    ensures
        match framed_number(line@) {
            Some(n) => r matches Some(x) && x == n,
            None => r is None,
        },
{
    match split_once(line, '|') {
        Some((prefix, _rest)) => {
            let trimmed = trim(prefix);
            if trimmed.is_empty() {
                None
            } else {
                parse_usize(trimmed)
            }
        },
        None => None,
    }
}

/// Remaps the line number in a framed source line, if one is present.
///
/// For lines of the form `LINE | source code`, replaces `LINE` with the remapped number
/// while preserving the field width. Returns the line unchanged if it has no line number
/// (separator and caret lines like `   |` and `   | ^^^`), cannot be parsed, or falls in
/// macro-generated code.
pub fn remap_framed_line(adjustments: &OffsetAdjustment, source: &str, line: &str) -> (r: String)
    ensures
        r@ == remapped_framed(adjustments.0@, source@, line@),
{
    let line_num = match framed_line(line) {
        Some(n) => n,
        None => {
            return line.to_owned();
        },
    };
    let (prefix, rest) = match split_once(line, '|') {
        Some(p) => p,
        None => {
            return line.to_owned();
        },
    };
    match adjustments.get_original_line(source, to_isize(line_num)) {
        Some(remapped) => {
            let field_width = trim_end(prefix).as_bytes().len();
            let number = decimal_text(remapped as u128);
            let mut out = pad_left(number.as_str(), field_width);
            out.append(" |");
            out.append(rest);
            out
        },
        None => line.to_owned(),
    }
}

/// Moves `text` to the right end of a field of `width` characters.
pub fn pad_left(text: &str, width: usize) -> (r: String)
    ensures
        r@ == right_aligned(text@, width as nat),
{
    let mut out = String::new();
    let n = text.unicode_len();
    let mut i: usize = n;
    proof {
        reveal_strlit(" ");
        assert(out@ =~= repeated(' ', 0));
    }
    while i < width
        invariant
            n <= i,
            n < i ==> i <= width,
            " "@ == seq![' '],
            out@ == repeated(' ', (i - n) as nat),
        decreases width - i,
    {
        out.append(" ");
        i = i + 1;
        assert(out@ =~= repeated(' ', (i - n) as nat));
    }
    out.append(text);
    assert(out@ =~= right_aligned(text@, width as nat));
    out
}

// ---------------------------------------------------------------------------
// Laws
// ---------------------------------------------------------------------------
/// The line that a message locates its error on, in the expanded source; none where it locates it
/// nowhere.
pub open spec fn located_line(source: Seq<char>, message: Seq<char>) -> Option<int> {
    let lines = lines_of(message);
    if lines.len() == 0 {
        None
    } else if is_old_style(lines[0]) {
        match old_style_location(source, lines[0]) {
            Some((n, _)) => Some(n),
            None => None,
        }
    } else {
        let k = arrow_from(lines, 1);
        if k >= lines.len() {
            None
        } else {
            match split_on(lines[k], "-->"@) {
                None => None,
                Some((_, after)) => match location_in(split_colon(trimmed(after)).0) {
                    Some((_, n, _)) => Some(n),
                    None => None,
                },
            }
        }
    }
}

/// An error is attributed to a macro exactly where its message locates it on a macro-generated
/// line.
pub proof fn law_macro_error_iff_located_in_macro(
    entries: Entries,
    source: Seq<char>,
    message: Seq<char>,
)
    ensures
        remapped_message(entries, source, message) is None <==> (located_line(
            source,
            message,
        ) matches Some(n) && in_macro(entries, source, n)),
{
}

/// `s` holds no line break.
pub open spec fn one_line(s: Seq<char>) -> bool {
    forall|i: int| 0 <= i < s.len() ==> #[trigger] s[i] != '\n'
}

proof fn lemma_lines_are_single(s: Seq<char>)
    ensures
        forall|i: int| 0 <= i < lines_of(s).len() ==> one_line(#[trigger] lines_of(s)[i]),
    decreases s.len(),
{
    if s.len() > 0 {
        s.index_of_first_ensures('\n');
        match s.index_of_first('\n') {
            None => {
                assert forall|i: int| 0 <= i < s.len() implies #[trigger] s[i] != '\n' by {
                    if s[i] == '\n' {
                        assert(s.contains('\n'));
                    }
                }
            },
            Some(i) => {
                lemma_lines_are_single(s.skip(i + 1));
                let first = without_cr(s.take(i));
                assert(one_line(first));
                let rest = lines_of(s.skip(i + 1));
                assert(lines_of(s) =~= seq![first] + rest);
            },
        }
    }
}

proof fn lemma_decimal_is_single(n: nat)
    ensures
        one_line(decimal(n)),
{
    lemma_decimal_reads_back(n);
}

proof fn lemma_trimmed_end_part(s: Seq<char>)
    ensures
        trimmed_end(s).len() <= s.len(),
        trimmed_end(s) == s.take(trimmed_end(s).len() as int),
    decreases s.len(),
{
    if s.len() > 0 && is_space(s.last()) {
        lemma_trimmed_end_part(s.drop_last());
        let n = trimmed_end(s).len() as int;
        assert(s.drop_last().take(n) =~= s.take(n));
    } else {
        assert(s.take(s.len() as int) =~= s);
    }
}

proof fn lemma_trimmed_start_part(s: Seq<char>)
    ensures
        trimmed_start(s).len() <= s.len(),
        trimmed_start(s) == s.skip(s.len() - trimmed_start(s).len()),
    decreases s.len(),
{
    if s.len() > 0 && is_space(s[0]) {
        lemma_trimmed_start_part(s.drop_first());
        let n = s.len() - trimmed_start(s).len();
        assert(s.drop_first().skip(n - 1) =~= s.skip(n));
    } else {
        assert(s.skip(0) =~= s);
    }
}

proof fn lemma_trimmed_is_single(s: Seq<char>)
    requires
        one_line(s),
    ensures
        one_line(trimmed(s)),
{
    lemma_trimmed_start_part(s);
    lemma_trimmed_end_part(trimmed_start(s));
}

proof fn lemma_splits_are_single(s: Seq<char>, c: char)
    requires
        one_line(s),
    ensures
        split_first(s, c) matches Some(p) ==> one_line(p.0) && one_line(p.1),
        split_last(s, c) matches Some(p) ==> one_line(p.0) && one_line(p.1),
{
    s.index_of_first_ensures(c);
    s.index_of_last_ensures(c);
}

proof fn lemma_col_is_single(entries: Entries, source: Seq<char>, line: int, col: Seq<char>)
    requires
        one_line(col),
    ensures
        one_line(remapped_col(entries, source, line, col)),
{
    match isize_in(trimmed(col)) {
        Some(c) => lemma_decimal_is_single(original_col_of(entries, source, line, c) as nat),
        None => {},
    }
}

proof fn lemma_framed_is_single(entries: Entries, source: Seq<char>, line: Seq<char>)
    requires
        one_line(line),
    ensures
        one_line(remapped_framed(entries, source, line)),
{
    reveal_strlit(" |");
    lemma_splits_are_single(line, '|');
    match framed_number(line) {
        Some(n) => match original_line_of(entries, source, wrap_isize(n)) {
            Some(l) => lemma_decimal_is_single(l as nat),
            None => {},
        },
        None => {},
    }
}

proof fn lemma_arrow_is_single(entries: Entries, source: Seq<char>, line: Seq<char>)
    requires
        one_line(line),
    ensures
        remapped_arrow(entries, source, line) matches ControlFlow::Break(Some(new)) ==> one_line(
            new,
        ),
{
    reveal_strlit("-->");
    reveal_strlit(" ");
    reveal_strlit(":");
    match split_on(line, "-->"@) {
        None => {},
        Some((beginning, after)) => {
            lemma_split_on_parts(line, "-->"@);
            assert(one_line(beginning) && one_line(after));
            lemma_trimmed_is_single(after);
            let (loc, trailing) = split_colon(trimmed(after));
            assert(one_line(loc) && one_line(trailing));
            lemma_splits_are_single(loc, ':');
            match split_last(loc, ':') {
                None => {},
                Some((rest, col)) => {
                    lemma_splits_are_single(rest, ':');
                    match location_in(loc) {
                        None => {},
                        Some((path, n, col)) => match original_line_of(entries, source, n) {
                            None => {},
                            Some(l) => {
                                lemma_decimal_is_single(l as nat);
                                lemma_col_is_single(entries, source, l, col);
                            },
                        },
                    }
                },
            }
        },
    }
}

proof fn lemma_old_style_is_single(entries: Entries, source: Seq<char>, line: Seq<char>)
    requires
        one_line(line),
    ensures
        remapped_old_style(entries, source, line) matches Some(new) ==> one_line(new),
{
    reveal_strlit(":");
    match old_style_location(source, line) {
        None => {},
        Some((n, after)) => {
            assert(one_line(source)) by {
                assert forall|i: int| 0 <= i < source.len() implies #[trigger] source[i] != '\n' by {
                    assert(line.take(source.len() as int)[i] == line[i]);
                }
            }
            let rest = without_prefix(line, source)->0;
            let rest = without_prefix(rest, ":"@)->0;
            assert(one_line(rest));
            lemma_splits_are_single(rest, ':');
            assert(one_line(after));
            lemma_splits_are_single(after, ':');
            match original_line_of(entries, source, n) {
                None => {},
                Some(l) => {
                    lemma_decimal_is_single(l as nat);
                    match split_first(after, ':') {
                        Some((col, tail)) => lemma_col_is_single(entries, source, l, col),
                        None => {},
                    }
                },
            }
        },
    }
}

proof fn lemma_count_in_parts(a: Seq<char>, b: Seq<char>, c: char)
    ensures
        count_of(a + b, c) == count_of(a, c) + count_of(b, c),
    decreases b.len(),
{
    if b.len() == 0 {
        assert(a + b =~= a);
    } else {
        lemma_count_in_parts(a, b.drop_last(), c);
        assert((a + b).drop_last() =~= a + b.drop_last());
    }
}

proof fn lemma_no_break(s: Seq<char>)
    requires
        one_line(s),
    ensures
        count_of(s, '\n') == 0,
    decreases s.len(),
{
    if s.len() > 0 {
        lemma_no_break(s.drop_last());
    }
}

/// `line`, ended, holds one line break.
proof fn lemma_one_break(line: Seq<char>)
    requires
        one_line(line),
    ensures
        count_of(line + "\n"@, '\n') == 1,
{
    reveal_strlit("\n");
    lemma_no_break(line);
    lemma_count_in_parts(line, "\n"@, '\n');
    assert("\n"@.drop_last() =~= Seq::<char>::empty());
    assert(count_of("\n"@.drop_last(), '\n') == 0);
}

proof fn lemma_ended_breaks(lines: Seq<Seq<char>>)
    requires
        forall|i: int| 0 <= i < lines.len() ==> one_line(#[trigger] lines[i]),
    ensures
        count_of(ended(lines), '\n') == lines.len(),
    decreases lines.len(),
{
    if lines.len() > 0 {
        let rest = lines.drop_last();
        assert forall|i: int| 0 <= i < rest.len() implies one_line(#[trigger] rest[i]) by {
            assert(rest[i] == lines[i]);
        }
        lemma_ended_breaks(rest);
        assert(lines.last() == lines[lines.len() - 1]);
        lemma_one_break(lines.last());
        lemma_count_in_parts(ended(rest), lines.last() + "\n"@, '\n');
        assert(ended(lines) =~= ended(rest) + (lines.last() + "\n"@));
    }
}

proof fn lemma_framed_breaks(entries: Entries, source: Seq<char>, lines: Seq<Seq<char>>)
    requires
        forall|i: int| 0 <= i < lines.len() ==> one_line(#[trigger] lines[i]),
    ensures
        count_of(ended(all_framed(entries, source, lines)), '\n') == lines.len(),
{
    let new = all_framed(entries, source, lines);
    assert forall|i: int| 0 <= i < new.len() implies one_line(#[trigger] new[i]) by {
        lemma_framed_is_single(entries, source, lines[i]);
    }
    lemma_ended_breaks(new);
}

proof fn lemma_arrow_from_range(lines: Seq<Seq<char>>, i: int)
    requires
        0 <= i <= lines.len(),
    ensures
        i <= arrow_from(lines, i) <= lines.len(),
    decreases lines.len() - i,
{
    if i < lines.len() && !occurs(lines[i], "-->"@) {
        lemma_arrow_from_range(lines, i + 1);
    }
}

/// A remapped message has as many lines as the message had, and each of them is ended.
pub proof fn law_remapping_keeps_line_count(
    entries: Entries,
    source: Seq<char>,
    message: Seq<char>,
)
    ensures
        remapped_message(entries, source, message) matches Some(new) ==> count_of(new, '\n')
            == lines_of(message).len(),
{
    let lines = lines_of(message);
    lemma_lines_are_single(message);
    if lines.len() == 0 {
        assert(count_of(Seq::<char>::empty(), '\n') == 0);
    } else if is_old_style(lines[0]) {
        lemma_old_style_is_single(entries, source, lines[0]);
        match remapped_old_style(entries, source, lines[0]) {
            None => {},
            Some(first) => {
                let rest = lines.skip(1);
                assert forall|i: int| 0 <= i < rest.len() implies one_line(#[trigger] rest[i]) by {
                    assert(rest[i] == lines[i + 1]);
                }
                lemma_framed_breaks(entries, source, rest);
                lemma_one_break(first);
                lemma_count_in_parts(
                    first + "\n"@,
                    ended(all_framed(entries, source, rest)),
                    '\n',
                );
            },
        }
    } else {
        let k = arrow_from(lines, 1);
        lemma_arrow_from_range(lines, 1);
        if k >= lines.len() {
            lemma_ended_breaks(lines);
        } else {
            lemma_arrow_is_single(entries, source, lines[k]);
            let arrow = match remapped_arrow(entries, source, lines[k]) {
                ControlFlow::Break(new) => new,
                ControlFlow::Continue(_) => Some(lines[k]),
            };
            match arrow {
                None => {},
                Some(new) => {
                    assert(one_line(new));
                    let head = lines.take(k);
                    let rest = lines.skip(k + 1);
                    assert forall|i: int| 0 <= i < head.len() implies one_line(
                        #[trigger] head[i],
                    ) by {
                        assert(head[i] == lines[i]);
                    }
                    assert forall|i: int| 0 <= i < rest.len() implies one_line(
                        #[trigger] rest[i],
                    ) by {
                        assert(rest[i] == lines[i + k + 1]);
                    }
                    lemma_ended_breaks(head);
                    lemma_framed_breaks(entries, source, rest);
                    lemma_one_break(new);
                    let tail = ended(all_framed(entries, source, rest));
                    lemma_count_in_parts(ended(head), new + "\n"@, '\n');
                    lemma_count_in_parts(ended(head) + (new + "\n"@), tail, '\n');
                    assert(ended(head) + new + "\n"@ + tail =~= ended(head) + (new + "\n"@) + tail);
                },
            }
        }
    }
}

/// `path:LINE:COL`.
pub open spec fn location_text(path: Seq<char>, line: nat, col: nat) -> Seq<char> {
    path + ":"@ + decimal(line) + ":"@ + decimal(col)
}

/// A line that points to a location with an arrow; `trailing` follows the location.
pub open spec fn arrow_text(
    before: Seq<char>,
    path: Seq<char>,
    line: nat,
    col: nat,
    trailing: Seq<char>,
) -> Seq<char> {
    before + "-->"@ + " "@ + location_text(path, line, col) + trailing
}

/// Nothing, or one colon.
pub open spec fn at_most_a_colon(trailing: Seq<char>) -> bool {
    trailing.len() == 0 || trailing == seq![':']
}

proof fn lemma_split_last_at(a: Seq<char>, b: Seq<char>)
    requires
        forall|i: int| 0 <= i < b.len() ==> #[trigger] b[i] != ':',
    ensures
        split_last(a + ":"@ + b, ':') == Some((a, b)),
{
    reveal_strlit(":");
    let s = a + ":"@ + b;
    assert(s[a.len() as int] == ':');
    assert(s.contains(':'));
    s.index_of_last_ensures(':');
    let k = s.index_of_last(':')->0;
    if k < a.len() {
        assert(s[a.len() as int] != ':');
    }
    if k > a.len() {
        assert(s[k] == b[k - a.len() - 1]);
    }
    assert(s.take(k) =~= a);
    assert(s.skip(k + 1) =~= b);
}

proof fn lemma_decimal_reads(n: nat)
    requires
        n <= isize::MAX,
    ensures
        decimal(n).len() > 0,
        forall|i: int| 0 <= i < decimal(n).len() ==> is_digit(#[trigger] decimal(n)[i]),
        isize_in(decimal(n)) == Some(n as int),
        trimmed(decimal(n)) == decimal(n),
{
    lemma_decimal_reads_back(n);
    law_signed_decimal_round_trip(n as int);
}

proof fn lemma_arrow_splits(before: Seq<char>, rest: Seq<char>)
    requires
        !occurs(before, "-->"@),
    ensures
        split_on(before + "-->"@ + rest, "-->"@) == Some((before, rest)),
{
    reveal_strlit("-->");
    let s = before + "-->"@ + rest;
    let n = before.len() as int;
    assert(s.subrange(n, n + 3) =~= "-->"@);
    assert(occurs_at(s, "-->"@, n));
    assert forall|j: int| 0 <= j < n implies !occurs_at(s, "-->"@, j) by {
        if occurs_at(s, "-->"@, j) {
            assert(s.subrange(j, j + 3)[2] == s[j + 2]);
            assert(s[j + 2] == '>');
            if j + 3 <= n {
                assert(before.subrange(j, j + 3) =~= s.subrange(j, j + 3));
                assert(occurs_at(before, "-->"@, j));
            }
        }
    }
    assert(first_occurrence(s, "-->"@, n));
    let i = choose|i: int| first_occurrence(s, "-->"@, i);
    assert(i == n);
    assert(s.take(n) =~= before);
    assert(s.skip(n + 3) =~= rest);
}

proof fn lemma_spaced_is_trimmed(text: Seq<char>)
    requires
        text.len() > 0,
        !is_space(text[0]),
        !is_space(text.last()),
    ensures
        trimmed(" "@ + text) == text,
{
    reveal_strlit(" ");
    assert(" "@ + text =~= repeated(' ', 1) + text + repeated(' ', 0));
    law_white_space_around_is_removed(text, 1, 0);
}

/// How a location starts and ends.
proof fn lemma_location_ends(path: Seq<char>, line: nat, col: nat, trailing: Seq<char>)
    requires
        path.len() > 0 ==> !is_space(path[0]),
        at_most_a_colon(trailing),
        line <= isize::MAX,
        col <= isize::MAX,
    ensures
        ({
            let loc = location_text(path, line, col);
            let text = loc + trailing;
            &&& loc.len() > 0
            &&& is_digit(loc.last())
            &&& !is_space(text[0])
            &&& !is_space(text.last())
        }),
{
    reveal_strlit(":");
    lemma_decimal_reads(col);
    let loc = location_text(path, line, col);
    let digits = decimal(col);
    assert(loc.last() == digits[digits.len() - 1]);
    assert(is_digit(digits[digits.len() - 1]));
    let text = loc + trailing;
    assert(text[0] == if path.len() > 0 {
        path[0]
    } else {
        ':'
    });
    assert(text.last() == if trailing.len() > 0 {
        ':'
    } else {
        loc.last()
    });
}

proof fn lemma_location_reads(path: Seq<char>, line: nat, col: nat, trailing: Seq<char>)
    requires
        path.len() > 0 ==> !is_space(path[0]),
        at_most_a_colon(trailing),
        line <= isize::MAX,
        col <= isize::MAX,
    ensures
        trimmed(" "@ + (location_text(path, line, col) + trailing)) == location_text(
            path,
            line,
            col,
        ) + trailing,
        split_colon(location_text(path, line, col) + trailing) == (
            location_text(path, line, col),
            trailing,
        ),
        location_in(location_text(path, line, col)) == Some((path, line as int, decimal(col))),
{
    lemma_location_ends(path, line, col, trailing);
    let loc = location_text(path, line, col);
    let text = loc + trailing;
    lemma_spaced_is_trimmed(text);
    if trailing.len() > 0 {
        assert(text.drop_last() =~= loc);
    } else {
        assert(text =~= loc);
        assert(trailing =~= Seq::<char>::empty());
    }
    lemma_location_parts(path, line, col);
}

proof fn lemma_location_parts(path: Seq<char>, line: nat, col: nat)
    requires
        line <= isize::MAX,
        col <= isize::MAX,
    ensures
        location_in(location_text(path, line, col)) == Some((path, line as int, decimal(col))),
{
    lemma_decimal_reads(line);
    lemma_decimal_reads(col);
    let rest = path + ":"@ + decimal(line);
    assert forall|i: int| 0 <= i < decimal(col).len() implies #[trigger] decimal(col)[i] != ':' by {
        assert(is_digit(decimal(col)[i]));
    }
    assert forall|i: int|
        0 <= i < decimal(line).len() implies #[trigger] decimal(line)[i] != ':' by {
        assert(is_digit(decimal(line)[i]));
    }
    lemma_split_last_at(rest, decimal(col));
    lemma_split_last_at(path, decimal(line));
}

/// An error that the compiler locates on a line of the expanded source is located on the line of the
/// original source that stands there, and its column comes back with it. The location may end in a
/// colon.
pub proof fn law_error_moves_with_its_line(
    entries: Entries,
    source: Seq<char>,
    before: Seq<char>,
    path: Seq<char>,
    expanded: nat,
    line: nat,
    col: nat,
    trailing: Seq<char>,
)
    requires
        original_line_of(entries, source, expanded as int) == Some(line as int),
        expanded <= isize::MAX,
        col <= isize::MAX,
        !occurs(before, "-->"@),
        path.len() > 0 ==> !is_space(path[0]),
        at_most_a_colon(trailing),
    ensures
        remapped_arrow(
            entries,
            source,
            arrow_text(before, path, expanded, col, trailing),
        ) == ControlFlow::<Option<Seq<char>>, ()>::Break(
            Some(
                arrow_text(
                    before,
                    path,
                    line,
                    original_col_of(entries, source, line as int, col as int) as nat,
                    trailing,
                ),
            ),
        ),
{
    let loc = location_text(path, expanded, col) + trailing;
    lemma_location_reads(path, expanded, col, trailing);
    lemma_decimal_reads(col);
    lemma_arrow_splits(before, " "@ + loc);
    assert(arrow_text(before, path, expanded, col, trailing) =~= before + "-->"@ + (" "@ + loc));
    let new_col = original_col_of(entries, source, line as int, col as int);
    let new = before + "-->"@ + " "@ + path + ":"@ + decimal(line) + ":"@ + decimal(new_col as nat)
        + trailing;
    assert(new =~= arrow_text(before, path, line, new_col as nat, trailing));
}

/// An error that the compiler locates where a line of the original source stands after expansion is
/// located on that line again, and its column comes back with it.
pub proof fn law_located_error_comes_back(
    entries: Entries,
    source: Seq<char>,
    before: Seq<char>,
    path: Seq<char>,
    line: nat,
    col: nat,
    trailing: Seq<char>,
)
    requires
        lines_apart(entries, source),
        line_survives(entries, source, line as int),
        line <= usize::MAX,
        expanded_line(entries, source, line as int) <= isize::MAX,
        col <= isize::MAX,
        !occurs(before, "-->"@),
        path.len() > 0 ==> !is_space(path[0]),
        at_most_a_colon(trailing),
    ensures
        remapped_arrow(
            entries,
            source,
            arrow_text(
                before,
                path,
                expanded_line(entries, source, line as int) as nat,
                col,
                trailing,
            ),
        ) == ControlFlow::<Option<Seq<char>>, ()>::Break(
            Some(
                arrow_text(
                    before,
                    path,
                    line,
                    original_col_of(entries, source, line as int, col as int) as nat,
                    trailing,
                ),
            ),
        ),
{
    law_original_line_round_trip(entries, source, line as int);
    law_error_moves_with_its_line(
        entries,
        source,
        before,
        path,
        expanded_line(entries, source, line as int) as nat,
        line,
        col,
        trailing,
    );
}

/// The lines of a message whose line `k` became `new`: those in front of it stay as they are, and the
/// framed ones behind it are remapped.
pub open spec fn rewritten_at(
    entries: Entries,
    source: Seq<char>,
    lines: Seq<Seq<char>>,
    k: int,
    new: Seq<char>,
) -> Seq<Seq<char>> {
    Seq::new(
        lines.len(),
        |j: int|
            if j < k {
                lines[j]
            } else if j == k {
                new
            } else {
                remapped_framed(entries, source, lines[j])
            },
    )
}

proof fn lemma_ended_parts(a: Seq<Seq<char>>, b: Seq<Seq<char>>)
    ensures
        ended(a + b) == ended(a) + ended(b),
    decreases b.len(),
{
    if b.len() == 0 {
        assert(a + b =~= a);
        assert(ended(a) + ended(b) =~= ended(a));
    } else {
        lemma_ended_parts(a, b.drop_last());
        assert((a + b).drop_last() =~= a + b.drop_last());
        assert((a + b).last() == b.last());
        assert(ended(a + b) =~= ended(a) + ended(b));
    }
}

proof fn lemma_ended_one(line: Seq<char>)
    ensures
        ended(seq![line]) == line + "\n"@,
{
    reveal_with_fuel(ended, 2);
    assert(seq![line].drop_last() =~= Seq::<Seq<char>>::empty());
    assert(ended(seq![line]) =~= line + "\n"@);
}

proof fn lemma_rewritten_parts(
    entries: Entries,
    source: Seq<char>,
    lines: Seq<Seq<char>>,
    k: int,
    new: Seq<char>,
)
    requires
        0 <= k < lines.len(),
    ensures
        ended(rewritten_at(entries, source, lines, k, new)) == ended(lines.take(k)) + new + "\n"@
            + ended(all_framed(entries, source, lines.skip(k + 1))),
{
    let framed = all_framed(entries, source, lines.skip(k + 1));
    let all = rewritten_at(entries, source, lines, k, new);
    assert(all =~= lines.take(k) + seq![new] + framed);
    lemma_ended_parts(lines.take(k) + seq![new], framed);
    lemma_ended_parts(lines.take(k), seq![new]);
    lemma_ended_one(new);
    assert(ended(all) =~= ended(lines.take(k)) + new + "\n"@ + ended(framed));
}

proof fn lemma_first_arrow(lines: Seq<Seq<char>>, i: int, k: int)
    requires
        0 <= i <= k <= lines.len(),
        k < lines.len() ==> occurs(lines[k], "-->"@),
        forall|j: int| i <= j < k ==> !occurs(#[trigger] lines[j], "-->"@),
    ensures
        arrow_from(lines, i) == k,
    decreases k - i,
{
    if i < k {
        assert(!occurs(lines[i], "-->"@));
        lemma_first_arrow(lines, i + 1, k);
    }
}

/// The location that counts is the first one below the description: the first line with an arrow,
/// whatever other arrows follow. Where it points into macro-generated code the whole message does.
/// Otherwise that line is remapped, those in front of it stay as they are, and those behind it are
/// remapped as framed lines only.
pub proof fn law_first_arrow_counts(
    entries: Entries,
    source: Seq<char>,
    message: Seq<char>,
    k: int,
)
    requires
        1 <= k < lines_of(message).len(),
        !is_old_style(lines_of(message)[0]),
        occurs(lines_of(message)[k], "-->"@),
        forall|j: int| 1 <= j < k ==> !occurs(#[trigger] lines_of(message)[j], "-->"@),
    ensures
        match remapped_arrow(entries, source, lines_of(message)[k]) {
            ControlFlow::Break(None) => remapped_message(entries, source, message) is None,
            ControlFlow::Break(Some(new)) => remapped_message(entries, source, message) == Some(
                ended(rewritten_at(entries, source, lines_of(message), k, new)),
            ),
            ControlFlow::Continue(_) => remapped_message(entries, source, message) == Some(
                ended(rewritten_at(entries, source, lines_of(message), k, lines_of(message)[k])),
            ),
        },
{
    let lines = lines_of(message);
    lemma_first_arrow(lines, 1, k);
    match remapped_arrow(entries, source, lines[k]) {
        ControlFlow::Break(None) => {},
        ControlFlow::Break(Some(new)) => {
            lemma_rewritten_parts(entries, source, lines, k, new);
        },
        ControlFlow::Continue(_) => {
            lemma_rewritten_parts(entries, source, lines, k, lines[k]);
        },
    }
}

/// A message that locates its error nowhere keeps its lines, and one of the old style is decided by
/// its first line, whatever arrows follow.
pub proof fn law_message_without_arrow(entries: Entries, source: Seq<char>, message: Seq<char>)
    requires
        lines_of(message).len() > 0,
    ensures
        !is_old_style(lines_of(message)[0]) && (forall|j: int|
            1 <= j < lines_of(message).len() ==> !occurs(
                #[trigger] lines_of(message)[j],
                "-->"@,
            )) ==> remapped_message(entries, source, message) == Some(ended(lines_of(message))),
        is_old_style(lines_of(message)[0]) ==> match remapped_old_style(
            entries,
            source,
            lines_of(message)[0],
        ) {
            None => remapped_message(entries, source, message) is None,
            Some(first) => remapped_message(entries, source, message) == Some(
                ended(rewritten_at(entries, source, lines_of(message), 0, first)),
            ),
        },
{
    let lines = lines_of(message);
    if !is_old_style(lines[0]) {
        if forall|j: int| 1 <= j < lines.len() ==> !occurs(#[trigger] lines[j], "-->"@) {
            lemma_first_arrow(lines, 1, lines.len() as int);
        }
    } else {
        match remapped_old_style(entries, source, lines[0]) {
            None => {},
            Some(first) => {
                lemma_rewritten_parts(entries, source, lines, 0, first);
                assert(lines.take(0) =~= Seq::<Seq<char>>::empty());
                assert(ended(lines.take(0)) + first + "\n"@ + ended(
                    all_framed(entries, source, lines.skip(1)),
                ) =~= first + "\n"@ + ended(all_framed(entries, source, lines.skip(1))));
            },
        }
    }
}

/// Written lines are ended one by one.
pub proof fn law_lines_are_ended(lines: Seq<Seq<char>>, line: Seq<char>)
    ensures
        ended(lines.push(line)) == ended(lines) + line + seq!['\n'],
        ended(Seq::<Seq<char>>::empty()).len() == 0,
{
    reveal_strlit("\n");
    assert("\n"@ =~= seq!['\n']);
    assert(lines.push(line).drop_last() =~= lines);
}

/// A first line is of the old style exactly where it holds three colons or more, and a separator of
/// paths or the ending of a Solidity file.
pub proof fn law_old_style_has_three_colons(line: Seq<char>, i: int, j: int, k: int)
    ensures
        0 <= i < j < k < line.len() && line[i] == ':' && line[j] == ':' && line[k] == ':' && (
        line.contains('/') || line.contains('\\') || occurs(line, ".sol"@)) ==> is_old_style(line),
        is_old_style(line) ==> line.contains('/') || line.contains('\\') || occurs(line, ".sol"@),
        is_old_style(line) ==> exists|a: int, b: int, c: int|
            #![trigger line[a], line[b], line[c]]
            0 <= a < b < c < line.len() && line[a] == ':' && line[b] == ':' && line[c] == ':',
{
    if 0 <= i < j < k < line.len() && line[i] == ':' && line[j] == ':' && line[k] == ':' {
        lemma_count_behind(line, i);
        lemma_count_behind(line.take(k), j);
        lemma_count_behind(line.take(j), i);
        lemma_count_behind(line, k);
        assert(line.take(k).take(j) =~= line.take(j));
        assert(line.take(j).take(i) =~= line.take(i));
    }
    if is_old_style(line) {
        let c = lemma_last_colon(line);
        let b = lemma_last_colon(line.take(c));
        assert(line.take(c).take(b) =~= line.take(b));
        let a = lemma_last_colon(line.take(b));
        assert(line[a] == ':' && line[b] == ':' && line[c] == ':');
    }
}

proof fn lemma_count_behind(line: Seq<char>, i: int)
    requires
        0 <= i < line.len(),
        line[i] == ':',
    ensures
        count_of(line, ':') >= count_of(line.take(i), ':') + 1,
{
    law_count_goes_by_parts(line.take(i + 1), line.skip(i + 1), ':', ':');
    law_count_goes_by_parts(line.take(i), seq![':'], ':', ':');
    assert(line =~= line.take(i + 1) + line.skip(i + 1));
    assert(line.take(i + 1) =~= line.take(i) + seq![':']);
}

proof fn lemma_last_colon(line: Seq<char>) -> (i: int)
    requires
        count_of(line, ':') > 0,
    ensures
        0 <= i < line.len(),
        line[i] == ':',
        count_of(line.take(i), ':') == count_of(line, ':') - 1,
    decreases line.len(),
{
    let n = line.len() - 1;
    assert(line.drop_last() =~= line.take(n));
    if line.last() == ':' {
        n
    } else {
        let i = lemma_last_colon(line.take(n));
        assert(line.take(n).take(i) =~= line.take(i));
        i
    }
}

/// An error that the compiler locates on a generated line is attributed to the macro, and a line with
/// an arrow whose location cannot be read decides nothing.
pub proof fn law_arrow_into_macro(
    entries: Entries,
    source: Seq<char>,
    before: Seq<char>,
    path: Seq<char>,
    expanded: nat,
    col: nat,
    trailing: Seq<char>,
    other: Seq<char>,
)
    requires
        expanded <= isize::MAX,
        col <= isize::MAX,
        !occurs(before, "-->"@),
        path.len() > 0 ==> !is_space(path[0]),
        at_most_a_colon(trailing),
    ensures
        in_macro(entries, source, expanded as int) <==> remapped_arrow(
            entries,
            source,
            arrow_text(before, path, expanded, col, trailing),
        ) == ControlFlow::<Option<Seq<char>>, ()>::Break(None),
        !occurs(other, "-->"@) ==> remapped_arrow(entries, source, other) == ControlFlow::<
            Option<Seq<char>>,
            (),
        >::Continue(()),
        location_in(split_colon(trimmed(other)).0) is None ==> remapped_arrow(
            entries,
            source,
            before + "-->"@ + other,
        ) == ControlFlow::<Option<Seq<char>>, ()>::Continue(()),
{
    let loc = location_text(path, expanded, col) + trailing;
    lemma_location_reads(path, expanded, col, trailing);
    lemma_arrow_splits(before, " "@ + loc);
    lemma_arrow_splits(before, other);
    assert(arrow_text(before, path, expanded, col, trailing) =~= before + "-->"@ + (" "@ + loc));
}

proof fn lemma_split_first_at(a: Seq<char>, c: char, b: Seq<char>)
    requires
        !a.contains(c),
    ensures
        split_first(a + seq![c] + b, c) == Some((a, b)),
{
    let s = a + seq![c] + b;
    assert(s[a.len() as int] == c);
    assert(s.contains(c));
    s.index_of_first_ensures(c);
    let k = s.index_of_first(c)->0;
    if k < a.len() {
        assert(a[k] == c);
    }
    assert(s.take(k) =~= a);
    assert(s.skip(k + 1) =~= b);
}

/// A location of the old style moves with its line as one with an arrow does: the line and the column
/// become those of the original source, what follows stays, and a generated line is attributed to the
/// macro. A line that names another file stays as it is.
pub proof fn law_old_style_error_moves_with_its_line(
    entries: Entries,
    source: Seq<char>,
    expanded: nat,
    col: nat,
    tail: Seq<char>,
    other: Seq<char>,
)
    requires
        expanded <= isize::MAX,
        col <= isize::MAX,
    ensures
        remapped_old_style(
            entries,
            source,
            source + ":"@ + decimal(expanded) + ":"@ + decimal(col) + ":"@ + tail,
        ) == match original_line_of(entries, source, expanded as int) {
            None => None,
            Some(l) => Some(
                source + ":"@ + decimal(l as nat) + ":"@ + decimal(
                    original_col_of(entries, source, l, col as int) as nat,
                ) + ":"@ + tail,
            ),
        },
        !source.is_prefix_of(other) ==> remapped_old_style(entries, source, other) == Some(other),
{
    reveal_strlit(":");
    assert(":"@ =~= seq![':']);
    lemma_decimal_reads(expanded);
    lemma_decimal_reads(col);
    let after = decimal(col) + ":"@ + tail;
    let rest = decimal(expanded) + ":"@ + after;
    let line = source + ":"@ + decimal(expanded) + ":"@ + decimal(col) + ":"@ + tail;
    assert(line =~= source + (":"@ + rest));
    assert(line.take(source.len() as int) =~= source);
    assert(line.skip(source.len() as int) =~= ":"@ + rest);
    assert((":"@ + rest).take(1) =~= ":"@);
    assert((":"@ + rest).skip(1) =~= rest);
    assert(!decimal(expanded).contains(':')) by {
        if decimal(expanded).contains(':') {
            let i = choose|i: int| 0 <= i < decimal(expanded).len() && decimal(expanded)[i] == ':';
            assert(is_digit(decimal(expanded)[i]));
        }
    }
    assert(!decimal(col).contains(':')) by {
        if decimal(col).contains(':') {
            let i = choose|i: int| 0 <= i < decimal(col).len() && decimal(col)[i] == ':';
            assert(is_digit(decimal(col)[i]));
        }
    }
    lemma_split_first_at(decimal(expanded), ':', after);
    lemma_split_first_at(decimal(col), ':', tail);
    assert(old_style_location(source, line) == Some((expanded as int, after)));
    match original_line_of(entries, source, expanded as int) {
        None => {},
        Some(l) => {
            let new_col = decimal(original_col_of(entries, source, l, col as int) as nat);
            assert(source + ":"@ + decimal(l as nat) + ":"@ + (new_col + ":"@ + tail) =~= source
                + ":"@ + decimal(l as nat) + ":"@ + new_col + ":"@ + tail);
        },
    }
}

/// A column comes back with its line, and what is no number stays as it is.
pub proof fn law_column_is_remapped(
    entries: Entries,
    source: Seq<char>,
    line: int,
    col: nat,
    a: nat,
    b: nat,
    text: Seq<char>,
)
    requires
        col <= isize::MAX,
    ensures
        remapped_col(entries, source, line, repeated(' ', a) + decimal(col) + repeated(' ', b))
            == decimal(original_col_of(entries, source, line, col as int) as nat),
        isize_in(trimmed(text)) is None ==> remapped_col(entries, source, line, text) == text,
        isize_in(trimmed(text)) matches Some(c) ==> remapped_col(entries, source, line, text)
            == decimal(original_col_of(entries, source, line, c) as nat),
{
    lemma_decimal_reads(col);
    assert(is_digit(decimal(col)[0]) && is_digit(decimal(col)[decimal(col).len() - 1]));
    law_white_space_around_is_removed(decimal(col), a, b);
}

/// A framed line that shows line `n` of the expanded source shows the number of the line of the
/// original source that stands there, at the right end of the same field, and the same text. Where the
/// line is generated, and where there is no number in front of the bar, it stays as it is.
pub proof fn law_framed_line_moves(
    entries: Entries,
    source: Seq<char>,
    n: nat,
    a: nat,
    b: nat,
    rest: Seq<char>,
    other: Seq<char>,
)
    requires
        n <= isize::MAX,
    ensures
        remapped_framed(
            entries,
            source,
            repeated(' ', a) + decimal(n) + repeated(' ', b) + seq!['|'] + rest,
        ) == match original_line_of(entries, source, n as int) {
            Some(l) => repeated(
                ' ',
                if a + decimal(n).len() > decimal(l as nat).len() {
                    (a + decimal(n).len() - decimal(l as nat).len()) as nat
                } else {
                    0
                },
            ) + decimal(l as nat) + " |"@ + rest,
            None => repeated(' ', a) + decimal(n) + repeated(' ', b) + seq!['|'] + rest,
        },
        remapped_framed(entries, source, repeated(' ', a) + seq!['|'] + rest) == repeated(' ', a)
            + seq!['|'] + rest,
        !other.contains('|') ==> remapped_framed(entries, source, other) == other,
{
    lemma_decimal_reads(n);
    lemma_wrap_isize_fits(n as int);
    let d = decimal(n);
    assert(is_digit(d[0]) && is_digit(d[d.len() - 1]));
    law_white_space_around_is_removed(d, a, b);
    let prefix = repeated(' ', a) + d + repeated(' ', b);
    assert(!prefix.contains('|')) by {
        if prefix.contains('|') {
            let i = choose|i: int| 0 <= i < prefix.len() && prefix[i] == '|';
            if a <= i && i < a + d.len() {
                assert(is_digit(d[i - a]));
            }
        }
    }
    lemma_split_first_at(prefix, '|', rest);
    assert(prefix + seq!['|'] + rest =~= repeated(' ', a) + d + repeated(' ', b) + seq!['|']
        + rest);
    let field = repeated(' ', a) + d;
    assert(vstd::utf8::is_ascii_chars(field)) by {
        assert forall|i: int| 0 <= i < field.len() implies '\0' <= #[trigger] field[i]
            <= '\u{7f}' by {
            if i >= a {
                assert(is_digit(d[i - a]));
            }
        }
    }
    vstd::utf8::is_ascii_chars_encode_utf8(field);
    lemma_decimal_reads_back(n);
    assert(parse_unsigned(d) == Some(n));
    match original_line_of(entries, source, n as int) {
        None => {},
        Some(l) => {
            let number = decimal(l as nat);
            if number.len() < field.len() {
                assert((field.len() - number.len()) as nat == (a + d.len() - number.len()) as nat);
            } else {
                assert(repeated(' ', 0) + number =~= number);
            }
        },
    }
    let blank = repeated(' ', a);
    assert(!blank.contains('|'));
    lemma_split_first_at(blank, '|', rest);
    assert(parse_unsigned(trimmed(blank)) is None);
    other.index_of_first_ensures('|');
}

/// A number that does not fit is none.
pub proof fn law_numbers_that_fit(n: nat)
    ensures
        isize_in(decimal(n)) == if n <= isize::MAX {
            Some(n as int)
        } else {
            None
        },
        usize_in(decimal(n)) == if n <= usize::MAX {
            Some(n as int)
        } else {
            None
        },
        isize_in(seq!['-'] + decimal(n)) == if -(n as int) >= isize::MIN {
            Some(-(n as int))
        } else {
            None
        },
{
    law_numbers_are_read(decimal(n), n, 0);
}

/// A message without a line stays without one, and attributes nothing to a macro.
pub proof fn law_empty_message(entries: Entries, source: Seq<char>)
    ensures
        remapped_message(entries, source, Seq::<char>::empty()) == Some(Seq::<char>::empty()),
{
    assert(remapped_message(entries, source, Seq::<char>::empty())->0 =~= Seq::<char>::empty());
}

} // verus!
