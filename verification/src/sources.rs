//! The source texts that the compiler is given, and edits to them.
use crate::paths::path_parts;
use foundry_compilers::artifacts::Sources;
use vstd::prelude::*;
use vstd::string::StringExecFns;
use vstd::string::StringSliceAdditionalSpecFns;
use vstd::utf8::encode_utf8;
use vstd::utf8::encode_utf8_valid_utf8;
use vstd::utf8::is_char_boundary;
use vstd::utf8::is_char_boundary_iff_not_is_continuation_byte;
use vstd::utf8::is_char_boundary_start_end_of_seq;
use vstd::utf8::valid_utf8_split;

verus! {

#[verifier::external_type_specification]
#[verifier::external_body]
pub struct ExPathBuf(std::path::PathBuf);

#[verifier::external_type_specification]
#[verifier::external_body]
pub struct ExSource(foundry_compilers::artifacts::Source);

#[verifier::external_type_specification]
#[verifier::external_body]
pub struct ExSources(foundry_compilers::artifacts::Sources);

/// The text of each file that `sources` holds, by the parts of its path.
pub uninterp spec fn source_texts(sources: Sources) -> Map<Seq<Seq<char>>, Seq<char>>;

/// Looks up a file with `BTreeMap::get_mut` on the map that `Sources` wraps, and hands out its
/// `content` through `Arc::make_mut`.
///
/// The map is ordered by `PathBuf`, whose comparison goes part by part, so the entry found is the
/// one whose path has the same parts. What the parts are is said for paths as Unix has them, where
/// `/` alone separates them. Writing through the returned reference changes that entry's
/// text alone: `Arc::make_mut` clones the text first where it is shared with another `Source`. The
/// lookup fails, and the call panics, where there is no such entry.
#[verifier::external_body]
pub(crate) fn source_mut<'a>(sources: &'a mut Sources, path: &str) -> (r: &'a mut String)
    requires
        source_texts(*old(sources)).contains_key(path_parts(path@)),
    ensures
        r@ == source_texts(*old(sources))[path_parts(path@)],
        source_texts(*final(sources)) == source_texts(*old(sources)).insert(
            path_parts(path@),
            final(r)@,
        ),
{
    std::sync::Arc::make_mut(&mut sources.get_mut(std::path::Path::new(path)).unwrap().content)
}

/// Looks up a file with `BTreeMap::get` on the map that `Sources` wraps, and copies its text. Paths
/// are compared as in [`source_mut`].
#[verifier::external_body]
pub(crate) fn source_text(sources: &Sources, path: &str) -> (r: Option<String>)
    ensures
        match r {
            Some(t) => source_texts(*sources).contains_key(path_parts(path@)) && t@
                == source_texts(*sources)[path_parts(path@)],
            None => !source_texts(*sources).contains_key(path_parts(path@)),
        },
{
    sources.get(std::path::Path::new(path)).map(|s| s.content.as_str().to_owned())
}

/// Whether `sources` holds the file at `path`.
pub fn has_source(sources: &Sources, path: &str) -> (r: bool)
    ensures
        r == source_texts(*sources).contains_key(path_parts(path@)),
{
    source_text(sources, path).is_some()
}

/// The text of the file at `path`, if `sources` holds it.
pub fn text_of(sources: &Sources, path: &str) -> (r: Option<String>)
    ensures
        match r {
            Some(t) => source_texts(*sources).contains_key(path_parts(path@)) && t@
                == source_texts(*sources)[path_parts(path@)],
            None => !source_texts(*sources).contains_key(path_parts(path@)),
        },
{
    source_text(sources, path)
}

/// `bytes` with `new` in place of the bytes from `start` to `end`.
pub open spec fn spliced(bytes: Seq<u8>, start: int, end: int, new: Seq<u8>) -> Seq<u8> {
    bytes.take(start) + new + bytes.skip(end)
}

/// Encoding goes character by character.
pub proof fn lemma_encode_add(a: Seq<char>, b: Seq<char>)
    ensures
        encode_utf8(a + b) == encode_utf8(a) + encode_utf8(b),
    decreases a.len(),
{
    if a.len() == 0 {
        assert(a + b =~= b);
        assert(encode_utf8(a) + encode_utf8(b) =~= encode_utf8(b));
    } else {
        lemma_encode_add(a.drop_first(), b);
        assert((a + b).drop_first() =~= a.drop_first() + b);
        assert(encode_utf8(a + b) =~= encode_utf8(a) + encode_utf8(b));
    }
}

/// A boundary of the whole text is a boundary of the text cut off at a later boundary.
proof fn lemma_boundary_of_prefix(s: Seq<char>, start: int, end: int)
    requires
        is_char_boundary(encode_utf8(s), start),
        is_char_boundary(encode_utf8(s), end),
        0 <= start <= end <= encode_utf8(s).len(),
    ensures
        is_char_boundary(encode_utf8(s).subrange(0, end), start),
{
    let bytes = encode_utf8(s);
    encode_utf8_valid_utf8(s);
    valid_utf8_split(bytes, end);
    let head = bytes.subrange(0, end);
    is_char_boundary_start_end_of_seq(head);
    if 0 < start < end {
        is_char_boundary_iff_not_is_continuation_byte(bytes, start);
        is_char_boundary_iff_not_is_continuation_byte(head, start);
        assert(head[start] == bytes[start]);
    }
}

/// Puts `new` in place of the bytes of `text` from `start` to `end`.
pub fn splice(text: &mut String, start: usize, end: usize, new: &str)
    requires
        start <= end <= encode_utf8(old(text)@).len(),
        is_char_boundary(encode_utf8(old(text)@), start as int),
        is_char_boundary(encode_utf8(old(text)@), end as int),
    ensures
        encode_utf8(final(text)@) == spliced(
            encode_utf8(old(text)@),
            start as int,
            end as int,
            new.spec_bytes(),
        ),
{
    let ghost bytes = encode_utf8(text@);
    let (head, tail) = text.as_str().split_at(end);
    proof {
        lemma_boundary_of_prefix(text@, start as int, end as int);
    }
    let (front, _) = head.split_at(start);
    let mut out = front.to_owned();
    out.append(new);
    out.append(tail);
    proof {
        lemma_encode_add(front@ + new@, tail@);
        lemma_encode_add(front@, new@);
        assert(encode_utf8(front@) =~= bytes.take(start as int));
        assert(encode_utf8(tail@) =~= bytes.skip(end as int));
    }
    *text = out;
}

/// The bytes of `text` from `start` to `end`.
pub fn cut_out(text: &str, start: usize, end: usize) -> (r: String)
    requires
        start <= end <= text.spec_bytes().len(),
        is_char_boundary(text.spec_bytes(), start as int),
        is_char_boundary(text.spec_bytes(), end as int),
    ensures
        encode_utf8(r@) == text.spec_bytes().subrange(start as int, end as int),
{
    let (head, _) = text.split_at(end);
    proof {
        lemma_boundary_of_prefix(text@, start as int, end as int);
    }
    let (_, middle) = head.split_at(start);
    assert(middle.spec_bytes() =~= text.spec_bytes().subrange(start as int, end as int));
    middle.to_owned()
}

} // verus!
