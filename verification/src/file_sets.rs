//! Sets of files, in the order of their paths.
use crate::ordered::is_before;
use crate::ordered::lemma_text_order_total;
use crate::ordered::lemma_text_order_transitive;
use crate::ordered::text_before;
use crate::paths::parts_of;
use crate::paths::path_eq;
use crate::paths::path_parts;
use crate::paths::same_path;
use crate::paths::same_text;
use crate::text::slices;
use crate::text::strings;
use vstd::prelude::*;

verus! {

/// The kind of a part: the root, the current directory, the directory above, or a name.
pub open spec fn part_kind(part: Seq<char>) -> int {
    if part == seq!['/'] {
        0
    } else if part == seq!['.'] {
        1
    } else if part == seq!['.', '.'] {
        2
    } else {
        3
    }
}

/// `a` comes before `b`: by its kind, and among names by its text.
pub open spec fn part_before(a: Seq<char>, b: Seq<char>) -> bool {
    part_kind(a) < part_kind(b) || (part_kind(a) == part_kind(b) && text_before(a, b))
}

/// `a` comes before `b`: at the first difference it has the part that comes first, or it ends.
pub open spec fn parts_before(a: Seq<Seq<char>>, b: Seq<Seq<char>>) -> bool
    decreases a.len(),
{
    if b.len() == 0 {
        false
    } else if a.len() == 0 {
        true
    } else if a[0] != b[0] {
        part_before(a[0], b[0])
    } else {
        parts_before(a.drop_first(), b.drop_first())
    }
}

/// The path `a` comes before the path `b`.
pub open spec fn path_before(a: Seq<char>, b: Seq<char>) -> bool {
    parts_before(path_parts(a), path_parts(b))
}

proof fn lemma_parts_order_total(a: Seq<Seq<char>>, b: Seq<Seq<char>>)
    ensures
        parts_before(a, b) ==> !parts_before(b, a) && a != b,
        a != b ==> parts_before(a, b) || parts_before(b, a),
    decreases a.len(),
{
    if a.len() > 0 && b.len() > 0 {
        lemma_text_order_total(a[0], b[0]);
        lemma_parts_order_total(a.drop_first(), b.drop_first());
        if a[0] == b[0] && a.drop_first() == b.drop_first() {
            assert(a =~= seq![a[0]] + a.drop_first());
            assert(b =~= seq![b[0]] + b.drop_first());
        }
    } else if a.len() == 0 && b.len() == 0 {
        assert(a =~= b);
    }
}

proof fn lemma_parts_order_transitive(a: Seq<Seq<char>>, b: Seq<Seq<char>>, c: Seq<Seq<char>>)
    requires
        parts_before(a, b),
        parts_before(b, c),
    ensures
        parts_before(a, c),
    decreases a.len(),
{
    if a.len() > 0 && b.len() > 0 && c.len() > 0 {
        if a[0] == b[0] && b[0] == c[0] {
            lemma_parts_order_transitive(a.drop_first(), b.drop_first(), c.drop_first());
        } else if a[0] != b[0] && b[0] != c[0] {
            if text_before(a[0], b[0]) && text_before(b[0], c[0]) {
                lemma_text_order_transitive(a[0], b[0], c[0]);
            }
            lemma_text_order_total(a[0], b[0]);
            lemma_text_order_total(b[0], c[0]);
        }
    }
}

fn kind_of(part: &str) -> (r: u8)
    ensures
        r == part_kind(part@),
{
    proof {
        reveal_strlit("/");
        reveal_strlit(".");
        reveal_strlit("..");
        assert("/"@ =~= seq!['/']);
        assert("."@ =~= seq!['.']);
        assert(".."@ =~= seq!['.', '.']);
    }
    if same_text(part, "/") {
        0
    } else if same_text(part, ".") {
        1
    } else if same_text(part, "..") {
        2
    } else {
        3
    }
}

/// Whether the path `a` comes before the path `b`.
pub fn is_path_before(a: &str, b: &str) -> (r: bool)
    ensures
        r == path_before(a@, b@),
{
    let v = parts_of(a);
    let w = parts_of(b);
    let ghost x = path_parts(a@);
    let ghost y = path_parts(b@);
    assert(x.skip(0) =~= x);
    assert(y.skip(0) =~= y);
    let mut i: usize = 0;
    loop
        invariant
            x == path_parts(a@),
            y == path_parts(b@),
            slices(v@) == x,
            slices(w@) == y,
            i <= v@.len(),
            i <= w@.len(),
            parts_before(x, y) == parts_before(x.skip(i as int), y.skip(i as int)),
        decreases v@.len() - i,
    {
        if i >= w.len() {
            return false;
        }
        if i >= v.len() {
            return true;
        }
        assert(slices(v@)[i as int] == v@[i as int]@);
        assert(slices(w@)[i as int] == w@[i as int]@);
        if !same_text(v[i], w[i]) {
            let k = kind_of(v[i]);
            let l = kind_of(w[i]);
            return k < l || (k == l && is_before(v[i], w[i]));
        }
        assert(x.skip(i as int).drop_first() =~= x.skip(i + 1));
        assert(y.skip(i as int).drop_first() =~= y.skip(i + 1));
        i = i + 1;
    }
}

/// `k` is where the file `path` first stands in `files`, under any of its paths.
pub open spec fn first_at(files: Seq<Seq<char>>, path: Seq<char>, k: int) -> bool {
    &&& 0 <= k < files.len()
    &&& path_eq(files[k], path)
    &&& forall|m: int| 0 <= m < k ==> !path_eq(#[trigger] files[m], path)
}

/// `path` stands in `files`, and no other path to the same file stands before it.
pub open spec fn came_first(files: Seq<Seq<char>>, path: Seq<char>) -> bool {
    exists|k: int| #[trigger] first_at(files, path, k) && files[k] == path
}

/// Some path in `set` leads to the file `path`.
pub open spec fn leads_to(set: Seq<Seq<char>>, path: Seq<char>) -> bool {
    exists|i: int| 0 <= i < set.len() && path_eq(#[trigger] set[i], path)
}

/// `set` holds each file of `files` once, under the path that came first, in the order of paths.
pub open spec fn is_set_of(set: Seq<Seq<char>>, files: Seq<Seq<char>>) -> bool {
    &&& forall|i: int, j: int|
        0 <= i < j < set.len() ==> path_before(#[trigger] set[i], #[trigger] set[j])
    &&& forall|i: int| 0 <= i < set.len() ==> came_first(files, #[trigger] set[i])
    &&& forall|k: int| 0 <= k < files.len() ==> leads_to(set, #[trigger] files[k])
}

proof fn lemma_stays_first(files: Seq<Seq<char>>, path: Seq<char>, file: Seq<char>)
    requires
        came_first(files, path),
    ensures
        came_first(files.push(file), path),
{
    let more = files.push(file);
    let k = choose|k: int| #[trigger] first_at(files, path, k) && files[k] == path;
    assert(more[k] == files[k]);
    assert forall|m: int| 0 <= m < k implies !path_eq(#[trigger] more[m], path) by {
        assert(more[m] == files[m]);
    }
    assert(first_at(more, path, k));
}

/// What happens to a set when another file arrives that it has already.
proof fn lemma_known_file(set: Seq<Seq<char>>, files: Seq<Seq<char>>, file: Seq<char>)
    requires
        is_set_of(set, files),
        leads_to(set, file),
    ensures
        is_set_of(set, files.push(file)),
{
    let more = files.push(file);
    assert forall|i: int| 0 <= i < set.len() implies came_first(more, #[trigger] set[i]) by {
        lemma_stays_first(files, set[i], file);
    }
    assert forall|k: int| 0 <= k < more.len() implies leads_to(set, #[trigger] more[k]) by {
        if k < files.len() {
            assert(more[k] == files[k]);
        }
    }
}

/// What happens to a set when another file arrives that it does not have.
proof fn lemma_new_file(set: Seq<Seq<char>>, files: Seq<Seq<char>>, file: Seq<char>, p: int)
    requires
        is_set_of(set, files),
        !leads_to(set, file),
        0 <= p <= set.len(),
        forall|j: int| 0 <= j < p ==> path_before(#[trigger] set[j], file),
        forall|j: int| p <= j < set.len() ==> path_before(file, #[trigger] set[j]),
    ensures
        is_set_of(set.insert(p, file), files.push(file)),
{
    let more = files.push(file);
    let grown = set.insert(p, file);
    assert forall|i: int, j: int| 0 <= i < j < grown.len() implies path_before(
        #[trigger] grown[i],
        #[trigger] grown[j],
    ) by {
        let a = if i < p { i } else { i - 1 };
        let b = if j < p { j } else { j - 1 };
        if i != p {
            assert(grown[i] == set[a]);
        }
        if j != p {
            assert(grown[j] == set[b]);
        }
    }
    assert forall|i: int| 0 <= i < grown.len() implies came_first(more, #[trigger] grown[i]) by {
        if i == p {
            let k = files.len() as int;
            assert(more[k] == file);
            assert forall|m: int| 0 <= m < k implies !path_eq(#[trigger] more[m], file) by {
                assert(more[m] == files[m]);
                if path_eq(files[m], file) {
                    assert(leads_to(set, files[m]));
                    let x = choose|x: int| 0 <= x < set.len() && path_eq(
                        #[trigger] set[x],
                        files[m],
                    );
                    assert(path_eq(set[x], file));
                }
            }
            assert(first_at(more, grown[i], k));
        } else {
            let a = if i < p { i } else { i - 1 };
            assert(grown[i] == set[a]);
            lemma_stays_first(files, set[a], file);
        }
    }
    assert forall|k: int| 0 <= k < more.len() implies leads_to(grown, #[trigger] more[k]) by {
        if k < files.len() {
            assert(more[k] == files[k]);
            let x = choose|x: int| 0 <= x < set.len() && path_eq(#[trigger] set[x], files[k]);
            let y = if x < p { x } else { x + 1 };
            assert(grown[y] == set[x]);
        } else {
            assert(grown[p] == file);
        }
    }
}

/// Puts a file into a set, unless it is there already.
fn insert_file(set: &mut Vec<String>, file: &str, Ghost(files): Ghost<Seq<Seq<char>>>)
    requires
        is_set_of(strings(old(set)@), files),
    ensures
        is_set_of(strings(final(set)@), files.push(file@)),
{
    let ghost before = strings(set@);
    let mut p: usize = 0;
    while p < set.len() && is_path_before(set[p].as_str(), file)
        invariant
            p <= set@.len(),
            before == strings(set@),
            forall|j: int| 0 <= j < p ==> path_before(#[trigger] before[j], file@),
        decreases set@.len() - p,
    {
        assert(before[p as int] == set@[p as int]@);
        p = p + 1;
    }
    if p < set.len() && same_path(set[p].as_str(), file) {
        proof {
            assert(before[p as int] == set@[p as int]@);
            lemma_known_file(before, files, file@);
        }
    } else {
        proof {
            assert forall|j: int| p <= j < before.len() implies path_before(
                file@,
                #[trigger] before[j],
            ) by {
                assert(before[p as int] == set@[p as int]@);
                lemma_parts_order_total(path_parts(before[p as int]), path_parts(file@));
                if j > p {
                    assert(path_before(before[p as int], before[j]));
                    lemma_parts_order_transitive(
                        path_parts(file@),
                        path_parts(before[p as int]),
                        path_parts(before[j]),
                    );
                }
            }
            if leads_to(before, file@) {
                let x = choose|x: int| 0 <= x < before.len() && path_eq(
                    #[trigger] before[x],
                    file@,
                );
                lemma_parts_order_total(path_parts(before[x]), path_parts(file@));
            }
            lemma_new_file(before, files, file@, p as int);
        }
        set.insert(p, file.to_owned());
        assert(strings(set@) =~= before.insert(p as int, file@));
    }
}

/// The files, each once, in the order of their paths.
pub fn file_set(files: &Vec<String>) -> (r: Vec<String>)
    ensures
        is_set_of(strings(r@), strings(files@)),
{
    let ghost all = strings(files@);
    let mut set: Vec<String> = Vec::new();
    assert(strings(set@) =~= Seq::<Seq<char>>::empty());
    let mut i: usize = 0;
    while i < files.len()
        invariant
            i <= files@.len(),
            all == strings(files@),
            is_set_of(strings(set@), all.take(i as int)),
        decreases files@.len() - i,
    {
        insert_file(&mut set, files[i].as_str(), Ghost(all.take(i as int)));
        assert(all.take(i + 1) =~= all.take(i as int).push(all[i as int]));
        i = i + 1;
    }
    assert(all.take(i as int) =~= all);
    set
}

/// A set of files leads to exactly the files that it was made of.
pub proof fn law_file_set_is_complete(
    set: Seq<Seq<char>>,
    files: Seq<Seq<char>>,
    path: Seq<char>,
)
    requires
        is_set_of(set, files),
    ensures
        leads_to(set, path) == leads_to(files, path),
{
    if leads_to(set, path) {
        let i = choose|i: int| 0 <= i < set.len() && path_eq(#[trigger] set[i], path);
        assert(came_first(files, set[i]));
        let k = choose|k: int| #[trigger] first_at(files, set[i], k) && files[k] == set[i];
        assert(path_eq(files[k], path));
    }
    if leads_to(files, path) {
        let k = choose|k: int| 0 <= k < files.len() && path_eq(#[trigger] files[k], path);
        assert(leads_to(set, files[k]));
        let i = choose|i: int| 0 <= i < set.len() && path_eq(#[trigger] set[i], files[k]);
        assert(path_eq(set[i], path));
    }
}

/// Paths are ordered by the first part in which they differ: the root comes first, then the current
/// directory, the directory above, and names by their texts. A path comes before what lies in it.
pub proof fn law_path_order_goes_by_the_first_difference(
    common: Seq<Seq<char>>,
    a: Seq<Seq<char>>,
    b: Seq<Seq<char>>,
    x: Seq<char>,
    y: Seq<char>,
)
    requires
        x != seq!['/'] && x != seq!['.'] && x != seq!['.', '.'],
        y != seq!['/'] && y != seq!['.'] && y != seq!['.', '.'],
    ensures
        text_before(x, y) ==> parts_before(common + seq![x] + a, common + seq![y] + b)
            && !parts_before(common + seq![y] + b, common + seq![x] + a),
        parts_before(common, common + seq![x] + a) && !parts_before(
            common + seq![x] + a,
            common,
        ),
        parts_before(common + seq![seq!['/']] + a, common + seq![seq!['.']] + b),
        parts_before(common + seq![seq!['.']] + a, common + seq![seq!['.', '.']] + b),
        parts_before(common + seq![seq!['.', '.']] + a, common + seq![x] + b),
    decreases common.len(),
{
    let root = seq!['/'];
    let dot = seq!['.'];
    let up = seq!['.', '.'];
    lemma_text_order_total(x, y);
    assert(root[0] != dot[0]);
    assert(dot.len() != up.len());
    assert(root.len() != up.len());
    if common.len() > 0 {
        let rest = common.drop_first();
        law_path_order_goes_by_the_first_difference(rest, a, b, x, y);
        assert forall|h: Seq<char>, t: Seq<Seq<char>>|
            #![trigger (common + seq![h] + t)]
            (common + seq![h] + t).drop_first() == rest + seq![h] + t && (common + seq![h] + t)[0]
                == common[0] by {
            assert((common + seq![h] + t).drop_first() =~= rest + seq![h] + t);
        }
    } else {
        assert forall|h: Seq<char>, t: Seq<Seq<char>>|
            #![trigger (common + seq![h] + t)]
            (common + seq![h] + t)[0] == h && (common + seq![h] + t).len() > 0 by {}
    }
}

/// A set of files is ordered, holds no file twice, and takes of several paths to a file the one that
/// came first.
pub proof fn law_file_set_takes_the_first_path(
    set: Seq<Seq<char>>,
    files: Seq<Seq<char>>,
    i: int,
    j: int,
    k: int,
)
    requires
        is_set_of(set, files),
        0 <= i < set.len(),
        0 <= j < set.len(),
        0 <= k < files.len(),
    ensures
        i < j ==> parts_before(path_parts(set[i]), path_parts(set[j])),
        path_parts(set[i]) == path_parts(set[j]) ==> i == j,
        files.contains(set[i]),
        path_parts(files[k]) == path_parts(set[i]) ==> exists|m: int|
            0 <= m <= k && #[trigger] files[m] == set[i],
{
    assert(came_first(files, set[i]));
    let m = choose|m: int| #[trigger] first_at(files, set[i], m) && files[m] == set[i];
    assert(files[m] == set[i]);
    if path_parts(files[k]) == path_parts(set[i]) && k < m {
        assert(!path_eq(files[k], set[i]));
    }
    if i < j {
        assert(path_before(set[i], set[j]));
        lemma_parts_order_total(path_parts(set[i]), path_parts(set[j]));
    }
    if j < i {
        assert(path_before(set[j], set[i]));
        lemma_parts_order_total(path_parts(set[j]), path_parts(set[i]));
    }
}

} // verus!
