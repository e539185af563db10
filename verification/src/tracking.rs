//! Following the bytes and lines of a text through edits.
use crate::offsets::newlines;
use crate::sources::spliced;
use vstd::prelude::*;

verus! {

/// `current` is `original` after some edits: every offset in `live` still has its byte, `moved` says
/// where it stands, and `lines` how many lines were added before it. The end of the text is always
/// live.
pub open spec fn follows(
    original: Seq<u8>,
    moved: spec_fn(int) -> int,
    lines: spec_fn(int) -> int,
    live: Set<int>,
    current: Seq<u8>,
) -> bool {
    &&& live.contains(original.len() as int)
    &&& moved(original.len() as int) == current.len()
    &&& forall|o: int|
        #![trigger live.contains(o)]
        live.contains(o) ==> {
            &&& 0 <= o <= original.len()
            &&& 0 <= moved(o) <= current.len()
            &&& o < original.len() ==> moved(o) < current.len() && current[moved(o)] == original[o]
            &&& newlines(current.take(moved(o))) == newlines(original.take(o)) + lines(o)
        }
    &&& forall|o: int, p: int|
        #![trigger live.contains(o), live.contains(p)]
        live.contains(o) && live.contains(p) && o < p ==> moved(o) < moved(p)
}

/// Newlines are counted part by part.
pub proof fn lemma_newlines_add(a: Seq<u8>, b: Seq<u8>)
    ensures
        newlines(a + b) == newlines(a) + newlines(b),
    decreases b.len(),
{
    if b.len() == 0 {
        assert(a + b =~= a);
    } else {
        lemma_newlines_add(a, b.drop_last());
        assert((a + b).drop_last() =~= a + b.drop_last());
        assert((a + b).last() == b.last());
    }
}

/// The newlines before an offset are those before an earlier one and those between.
pub proof fn lemma_newlines_between(bytes: Seq<u8>, a: int, b: int)
    requires
        0 <= a <= b <= bytes.len(),
    ensures
        newlines(bytes.take(b)) == newlines(bytes.take(a)) + newlines(bytes.subrange(a, b)),
{
    lemma_newlines_add(bytes.take(a), bytes.subrange(a, b));
    assert(bytes.take(a) + bytes.subrange(a, b) =~= bytes.take(b));
}

/// Where no newline is counted there is none.
pub proof fn lemma_no_newline(bytes: Seq<u8>, i: int)
    requires
        newlines(bytes) == 0,
        0 <= i < bytes.len(),
    ensures
        bytes[i] != 10u8,
    decreases bytes.len(),
{
    if i < bytes.len() - 1 {
        lemma_no_newline(bytes.drop_last(), i);
        assert(bytes.drop_last()[i] == bytes[i]);
    }
}

/// Where there is no newline none is counted.
pub proof fn lemma_count_no_newline(bytes: Seq<u8>)
    requires
        forall|i: int| 0 <= i < bytes.len() ==> bytes[i] != 10u8,
    ensures
        newlines(bytes) == 0,
    decreases bytes.len(),
{
    if bytes.len() > 0 {
        let rest = bytes.drop_last();
        assert forall|i: int| 0 <= i < rest.len() implies rest[i] != 10u8 by {
            assert(rest[i] == bytes[i]);
        }
        lemma_count_no_newline(rest);
    }
}

/// Putting `added` in place of the live original bytes from `start` to `end` keeps track of every
/// other live byte.
pub proof fn lemma_edit_is_followed(
    original: Seq<u8>,
    moved: spec_fn(int) -> int,
    lines: spec_fn(int) -> int,
    live: Set<int>,
    current: Seq<u8>,
    moved_after: spec_fn(int) -> int,
    lines_after: spec_fn(int) -> int,
    start: int,
    end: int,
    added: Seq<u8>,
)
    requires
        follows(original, moved, lines, live, current),
        live.contains(start),
        live.contains(end),
        start <= end,
        forall|o: int| #[trigger]
            moved_after(o) == moved(o) + if start <= o {
                added.len() - (moved(end) - moved(start))
            } else {
                0
            },
        forall|o: int| #[trigger]
            lines_after(o) == lines(o) + if start <= o {
                newlines(added) - newlines(current.subrange(moved(start), moved(end)))
            } else {
                0
            },
    ensures
        follows(
            original,
            moved_after,
            lines_after,
            live.difference(Set::new(|o: int| start <= o < end)),
            spliced(current, moved(start), moved(end), added),
        ),
{
    let left = live.difference(Set::new(|o: int| start <= o < end));
    let s = moved(start);
    let e = moved(end);
    let after = spliced(current, s, e, added);
    let n = original.len() as int;
    assert(start < end ==> moved(start) < moved(end));
    assert(0 <= s <= e <= current.len());
    assert(live.contains(n));
    assert(moved_after(n) == after.len());
    assert forall|o: int| #![trigger left.contains(o)] left.contains(o) implies {
        &&& 0 <= o <= original.len()
        &&& 0 <= moved_after(o) <= after.len()
        &&& o < original.len() ==> moved_after(o) < after.len() && after[moved_after(o)]
            == original[o]
        &&& newlines(after.take(moved_after(o))) == newlines(original.take(o)) + lines_after(o)
    } by {
        assert(live.contains(o));
        let m = moved(o);
        if o < start {
            assert(m < s);
            assert(after.take(m) =~= current.take(m));
        } else {
            assert(o >= end);
            assert(o > end ==> m > e);
            assert(m >= e);
            let gap = current.subrange(e, m);
            assert(after.take(moved_after(o)) =~= current.take(s) + added + gap);
            lemma_newlines_add(current.take(s) + added, gap);
            lemma_newlines_add(current.take(s), added);
            lemma_newlines_between(current, s, e);
            lemma_newlines_between(current, e, m);
        }
    }
    assert forall|o: int, p: int|
        #![trigger left.contains(o), left.contains(p)]
        left.contains(o) && left.contains(p) && o < p implies moved_after(o) < moved_after(p) by {
        assert(live.contains(o) && live.contains(p));
        if o < start && p >= start {
            assert(p >= end);
            assert(moved(o) < s);
            assert(p > end ==> moved(p) > e);
        }
    }
}

/// An untouched text follows itself.
pub proof fn lemma_untouched_is_followed(
    original: Seq<u8>,
    moved: spec_fn(int) -> int,
    lines: spec_fn(int) -> int,
)
    requires
        forall|o: int| #[trigger] moved(o) == o,
        forall|o: int| #[trigger] lines(o) == 0,
    ensures
        follows(original, moved, lines, Set::new(|o: int| 0 <= o <= original.len()), original),
{
    let live = Set::new(|o: int| 0 <= o <= original.len());
    assert forall|o: int| #![trigger live.contains(o)] live.contains(o) implies {
        &&& 0 <= o <= original.len()
        &&& 0 <= moved(o) <= original.len()
        &&& o < original.len() ==> moved(o) < original.len() && original[moved(o)] == original[o]
        &&& newlines(original.take(moved(o))) == newlines(original.take(o)) + lines(o)
    } by {
        assert(moved(o) == o);
        assert(lines(o) == 0);
    }
    assert forall|o: int, p: int|
        #![trigger live.contains(o), live.contains(p)]
        live.contains(o) && live.contains(p) && o < p implies moved(o) < moved(p) by {
        assert(moved(o) == o && moved(p) == p);
    }
    assert(moved(original.len() as int) == original.len());
}

} // verus!
