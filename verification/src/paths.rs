//! File paths in text form, compared part by part.
//!
//! Parts are separated by `/`. Repeated separators, a trailing separator and a `.` that is not the
//! first part do not count, so `src//Foo.sol` and `src/./Foo.sol` name the same file.
use crate::text::chars_of;
use crate::text::slices;
use crate::text::split_all;
use crate::text::split_chars;
use vstd::prelude::*;
use vstd::string::StrSliceExecFns;

verus! {

/// A piece between two separators that names something.
pub open spec fn is_named(part: Seq<char>) -> bool {
    part.len() > 0 && part != seq!['.']
}

/// The pieces that name something.
pub open spec fn named_parts(pieces: Seq<Seq<char>>) -> Seq<Seq<char>>
    decreases pieces.len(),
{
    if pieces.len() == 0 {
        seq![]
    } else if is_named(pieces.last()) {
        named_parts(pieces.drop_last()).push(pieces.last())
    } else {
        named_parts(pieces.drop_last())
    }
}

/// What a path starts with besides its named parts: the root, or a leading `.`.
pub open spec fn path_start(p: Seq<char>) -> Seq<Seq<char>> {
    if p.len() > 0 && p[0] == '/' {
        seq![seq!['/']]
    } else if split_all(p, '/')[0] == seq!['.'] {
        seq![seq!['.']]
    } else {
        seq![]
    }
}

/// The parts of a path.
pub open spec fn path_parts(p: Seq<char>) -> Seq<Seq<char>> {
    path_start(p) + named_parts(split_all(p, '/'))
}

/// Two texts that name the same file.
pub open spec fn path_eq(a: Seq<char>, b: Seq<char>) -> bool {
    path_parts(a) == path_parts(b)
}

proof fn lemma_named_parts_add(a: Seq<Seq<char>>, b: Seq<Seq<char>>)
    ensures
        named_parts(a + b) == named_parts(a) + named_parts(b),
    decreases b.len(),
{
    if b.len() == 0 {
        assert(a + b =~= a);
        assert(named_parts(a) + named_parts(b) =~= named_parts(a));
    } else {
        lemma_named_parts_add(a, b.drop_last());
        assert((a + b).drop_last() =~= a + b.drop_last());
        assert(named_parts(a) + named_parts(b) =~= if is_named(b.last()) {
            (named_parts(a) + named_parts(b.drop_last())).push(b.last())
        } else {
            named_parts(a) + named_parts(b.drop_last())
        });
    }
}

/// Whether two texts are equal.
pub fn same_text(a: &str, b: &str) -> (r: bool)
    ensures
        r == (a@ == b@),
{
    let v = chars_of(a);
    let w = chars_of(b);
    if v.len() != w.len() {
        return false;
    }
    let mut i: usize = 0;
    while i < v.len()
        invariant
            v@ == a@,
            w@ == b@,
            i <= v@.len(),
            v@.len() == w@.len(),
            forall|j: int| 0 <= j < i ==> v@[j] == w@[j],
        decreases v@.len() - i,
    {
        if v[i] != w[i] {
            return false;
        }
        i = i + 1;
    }
    assert(v@ =~= w@);
    true
}

fn is_dot(s: &str) -> (r: bool)
    ensures
        r == (s@ == seq!['.']),
{
    proof {
        reveal_strlit(".");
        assert("."@ =~= seq!['.']);
    }
    same_text(s, ".")
}

/// The parts of a path.
pub fn parts_of<'a>(p: &'a str) -> (r: Vec<&'a str>)
    ensures
        slices(r@) == path_parts(p@),
{
    let pieces = split_chars(p, '/');
    let v = chars_of(p);
    let mut out: Vec<&'a str> = Vec::new();
    proof {
        assert(slices(pieces@).len() > 0);
        assert(slices(pieces@)[0] == pieces@[0]@);
    }
    if v.len() > 0 && v[0] == '/' {
        let root = p.substring_char(0, 1);
        assert(root@ =~= seq!['/']);
        out.push(root);
    } else if is_dot(pieces[0]) {
        out.push(pieces[0]);
    }
    let ghost start = path_start(p@);
    let ghost all = slices(pieces@);
    assert(slices(out@) =~= start);
    assert(all.take(0) =~= Seq::<Seq<char>>::empty());
    let mut i: usize = 0;
    while i < pieces.len()
        invariant
            i <= pieces@.len(),
            all == slices(pieces@),
            slices(out@) == start + named_parts(all.take(i as int)),
        decreases pieces@.len() - i,
    {
        let piece = pieces[i];
        let ghost before = out@;
        assert(all.take(i + 1).drop_last() =~= all.take(i as int));
        assert(all.take(i + 1).last() == piece@);
        if !piece.is_empty() && !is_dot(piece) {
            out.push(piece);
            assert(slices(out@) =~= slices(before).push(piece@));
            assert(slices(out@) =~= start + named_parts(all.take(i + 1)));
        }
        i = i + 1;
    }
    assert(all.take(i as int) =~= all);
    out
}

/// Whether the parts of `base` are the first parts of `path`.
pub fn path_starts_with(path: &str, base: &str) -> (r: bool)
    ensures
        r == path_parts(base@).is_prefix_of(path_parts(path@)),
{
    let p = parts_of(path);
    let b = parts_of(base);
    let ghost ps = slices(p@);
    let ghost bs = slices(b@);
    if b.len() > p.len() {
        return false;
    }
    let mut i: usize = 0;
    while i < b.len()
        invariant
            i <= b@.len() <= p@.len(),
            ps == slices(p@),
            bs == slices(b@),
            ps == path_parts(path@),
            bs == path_parts(base@),
            forall|j: int| 0 <= j < i ==> ps[j] == bs[j],
        decreases b@.len() - i,
    {
        assert(ps[i as int] == p@[i as int]@);
        assert(bs[i as int] == b@[i as int]@);
        if !same_text(p[i], b[i]) {
            proof {
                if bs.is_prefix_of(ps) {
                    assert(ps.take(bs.len() as int)[i as int] == bs[i as int]);
                }
            }
            return false;
        }
        i = i + 1;
    }
    assert(ps.take(bs.len() as int) =~= bs);
    true
}

/// Whether two paths name the same file.
pub fn same_path(a: &str, b: &str) -> (r: bool)
    ensures
        r == path_eq(a@, b@),
{
    if same_text(a, b) {
        return true;
    }
    let r = path_starts_with(a, b) && path_starts_with(b, a);
    proof {
        let x = path_parts(a@);
        let y = path_parts(b@);
        if x.is_prefix_of(y) && y.is_prefix_of(x) {
            assert(x.len() == y.len());
            assert(y.take(x.len() as int) =~= y);
        } else if x == y {
            assert(y.take(x.len() as int) =~= y);
        }
    }
    r
}

/// The path that leads from `root` to `file`, or `file` itself where `root` is not a prefix of it.
pub fn strip_root<'a>(file: &'a str, root: &str) -> (r: &'a str)
    ensures
        if path_parts(root@).is_prefix_of(path_parts(file@)) {
            path_parts(r@) == path_parts(file@).skip(path_parts(root@).len() as int)
        } else {
            r@ == file@
        },
        exists|k: int| 0 <= k <= file@.len() && r@ == #[trigger] file@.skip(k),
{
    assert(file@.skip(0) =~= file@);
    let n = parts_of(root).len();
    assert(n == path_parts(root@).len());
    if !path_starts_with(file, root) {
        return file;
    }
    let ghost all = path_parts(file@);
    if n == 0 {
        assert(all.skip(0) =~= all);
        return file;
    }
    let v = chars_of(file);
    let mut c: usize = 0;
    if v.len() > 0 && v[0] == '/' {
        c = 1;
    } else {
        let pieces = split_chars(file, '/');
        assert(slices(pieces@)[0] == pieces@[0]@);
        if is_dot(pieces[0]) {
            c = 1;
        }
    }
    let ghost mut done = path_start(file@);
    let mut k: usize = 0;
    loop
        invariant
            v@ == file@,
            k <= v@.len(),
            all == path_parts(file@),
            1 <= n <= all.len(),
            n == path_parts(root@).len(),
            path_parts(root@).is_prefix_of(all),
            c == done.len(),
            c <= n,
            all == done + named_parts(split_all(file@.skip(k as int), '/')),
        decreases v@.len() - k,
    {
        let ghost rest = file@.skip(k as int);
        let mut i: usize = k;
        while i < v.len() && v[i] != '/'
            invariant
                k <= i <= v@.len(),
                forall|j: int| k <= j < i ==> v@[j] != '/',
            decreases v@.len() - i,
        {
            i = i + 1;
        }
        let piece = file.substring_char(k, i);
        let ghost later = if i < v@.len() {
            split_all(file@.skip(i + 1), '/')
        } else {
            seq![]
        };
        proof {
            rest.index_of_first_ensures('/');
            if i < v@.len() {
                assert(rest[i - k] == '/');
                assert(rest.contains('/'));
                assert(rest.index_of_first('/') == Some(i - k)) by {
                    let f = rest.index_of_first('/').unwrap();
                    if f < i - k {
                        assert(v@[k + f] == '/');
                    }
                }
                assert(rest.take(i - k) =~= piece@);
                assert(rest.skip(i - k + 1) =~= file@.skip(i + 1));
            } else {
                assert(!rest.contains('/')) by {
                    if rest.contains('/') {
                        let j = choose|j: int| 0 <= j < rest.len() && rest[j] == '/';
                        assert(v@[k + j] == '/');
                    }
                }
                assert(rest =~= piece@);
                assert(split_all(rest, '/') =~= seq![piece@] + later);
            }
            assert(split_all(rest, '/') == seq![piece@] + later);
            lemma_named_parts_add(seq![piece@], later);
            assert(seq![piece@].drop_last() =~= Seq::<Seq<char>>::empty());
            assert(named_parts(Seq::<Seq<char>>::empty()) =~= Seq::<Seq<char>>::empty());
            assert(seq![piece@].last() == piece@);
            assert(named_parts(seq![piece@]) =~= if is_named(piece@) {
                seq![piece@]
            } else {
                seq![]
            });
        }
        if !piece.is_empty() && !is_dot(piece) {
            if c == n {
                let r = file.substring_char(k, v.len());
                proof {
                    assert(r@ =~= rest);
                    assert(r@[0] == piece@[0]);
                    assert(split_all(r@, '/')[0] == piece@);
                    assert(path_parts(r@) =~= named_parts(split_all(rest, '/')));
                    assert(all.skip(n as int) =~= path_parts(r@));
                }
                return r;
            }
            c = c + 1;
            proof {
                done = done.push(piece@);
            }
        }
        assert(all =~= done + named_parts(later));
        if i >= v.len() {
            let r = file.substring_char(v.len(), v.len());
            proof {
                assert(r@ =~= file@.skip(v@.len() as int));
                r@.index_of_first_ensures('/');
                assert(split_all(r@, '/') =~= seq![r@]);
                assert(split_all(r@, '/').drop_last() =~= Seq::<Seq<char>>::empty());
                assert(path_parts(r@) =~= Seq::<Seq<char>>::empty());
                assert(all.skip(n as int) =~= Seq::<Seq<char>>::empty());
            }
            return r;
        }
        k = i + 1;
    }
}

// ---------------------------------------------------------------------------
// Laws
// ---------------------------------------------------------------------------
proof fn lemma_split_at_separator(a: Seq<char>, b: Seq<char>)
    ensures
        split_all(a + seq!['/'] + b, '/') == split_all(a, '/') + split_all(b, '/'),
        split_all(a, '/').len() > 0,
    decreases a.len(),
{
    let s = a + seq!['/'] + b;
    a.index_of_first_ensures('/');
    s.index_of_first_ensures('/');
    assert(s[a.len() as int] == '/');
    assert(s.contains('/'));
    let k = s.index_of_first('/')->0;
    if a.contains('/') {
        let i = a.index_of_first('/')->0;
        assert(s[i] == '/');
        assert(k == i) by {
            if k < i {
                assert(a[k] == s[k]);
            }
        }
        let rest = a.skip(i + 1);
        lemma_split_at_separator(rest, b);
        assert(s.skip(k + 1) =~= rest + seq!['/'] + b);
        assert(s.take(k) =~= a.take(i));
        assert(seq![a.take(i)] + (split_all(rest, '/') + split_all(b, '/')) =~= seq![a.take(i)]
            + split_all(rest, '/') + split_all(b, '/'));
    } else {
        assert(k == a.len()) by {
            if k < a.len() {
                assert(a[k] == s[k]);
                assert(a.contains('/'));
            }
        }
        assert(s.take(k) =~= a);
        assert(s.skip(k + 1) =~= b);
    }
}

/// A path is made of its parts: behind a separator a name is one part more, while nothing and a dot
/// add none. A name alone is one part, and so are the root and a dot.
pub proof fn law_path_grows_by_its_names(p: Seq<char>, name: Seq<char>)
    requires
        !name.contains('/'),
    ensures
        p.len() > 0 && name.len() > 0 && name != seq!['.'] ==> path_parts(p + seq!['/'] + name)
            == path_parts(p).push(name),
        p.len() > 0 && (name.len() == 0 || name == seq!['.']) ==> path_parts(p + seq!['/'] + name)
            == path_parts(p),
        name.len() > 0 ==> path_parts(name) == seq![name],
        name.len() == 0 ==> path_parts(name).len() == 0,
        path_parts(seq!['/']) == seq![seq!['/']],
{
    name.index_of_first_ensures('/');
    assert(split_all(name, '/') =~= seq![name]);
    assert(seq![name].drop_last() =~= Seq::<Seq<char>>::empty());
    assert(named_parts(Seq::<Seq<char>>::empty()) =~= Seq::<Seq<char>>::empty());
    assert(named_parts(seq![name]) =~= if is_named(name) {
        seq![name]
    } else {
        seq![]
    });
    if name.len() > 0 {
        if name[0] == '/' {
            assert(name.contains('/'));
        }
        assert(path_parts(name) =~= seq![name]);
    }
    if p.len() > 0 {
        let whole = p + seq!['/'] + name;
        lemma_split_at_separator(p, name);
        lemma_named_parts_add(split_all(p, '/'), seq![name]);
        assert(whole[0] == p[0]);
        assert(split_all(whole, '/')[0] == split_all(p, '/')[0]);
        assert(path_parts(whole) =~= path_parts(p) + named_parts(seq![name]));
    }
    let none = Seq::<char>::empty();
    let root = seq!['/'];
    lemma_split_at_separator(none, none);
    assert(none + root + none =~= root);
    none.index_of_first_ensures('/');
    assert(split_all(none, '/') =~= seq![none]);
    assert(split_all(root, '/') =~= seq![none, none]);
    assert(seq![none, none].drop_last() =~= seq![none]);
    assert(seq![none].drop_last() =~= Seq::<Seq<char>>::empty());
    assert(named_parts(seq![none]) =~= Seq::<Seq<char>>::empty());
    assert(named_parts(seq![none, none]) =~= Seq::<Seq<char>>::empty());
    assert(path_parts(root) =~= seq![root]);
}

/// Two texts name the same file exactly where they have the same parts, and a separator more or a dot
/// between two separators makes no difference.
pub proof fn law_separators_do_not_count(a: Seq<char>, b: Seq<char>)
    requires
        a.len() > 0,
    ensures
        path_eq(a, b) <==> path_parts(a) == path_parts(b),
        path_eq(a + seq!['/'] + b, a + seq!['/', '/'] + b),
        path_eq(a + seq!['/'] + b, a + seq!['/', '.', '/'] + b),
{
    let none = Seq::<char>::empty();
    let dot = seq!['.'];
    let one = a + seq!['/'] + b;
    law_path_grows_by_its_names(a, none);
    law_path_grows_by_its_names(a, dot);
    assert(a + seq!['/', '/'] + b =~= (a + seq!['/'] + none) + seq!['/'] + b);
    assert(a + seq!['/', '.', '/'] + b =~= (a + seq!['/'] + dot) + seq!['/'] + b);
    lemma_parts_behind(a, b);
    lemma_parts_behind(a + seq!['/'] + none, b);
    lemma_parts_behind(a + seq!['/'] + dot, b);
}

proof fn lemma_parts_behind(a: Seq<char>, b: Seq<char>)
    requires
        a.len() > 0,
    ensures
        path_parts(a + seq!['/'] + b) == path_parts(a) + named_parts(split_all(b, '/')),
{
    let whole = a + seq!['/'] + b;
    lemma_split_at_separator(a, b);
    lemma_named_parts_add(split_all(a, '/'), split_all(b, '/'));
    assert(whole[0] == a[0]);
    assert(split_all(whole, '/')[0] == split_all(a, '/')[0]);
    assert(path_parts(whole) =~= path_parts(a) + named_parts(split_all(b, '/')));
}

/// The parts of a relative path that starts with a name follow those of the path in front of it.
pub proof fn law_parts_follow_each_other(a: Seq<char>, b: Seq<char>)
    requires
        a.len() > 0,
        b.len() > 0,
        b[0] != '/',
        b[0] != '.',
    ensures
        path_parts(a + seq!['/'] + b) == path_parts(a) + path_parts(b),
        a.last() == '/' ==> path_parts(a + b) == path_parts(a) + path_parts(b),
{
    lemma_parts_behind(a, b);
    b.index_of_first_ensures('/');
    assert(split_all(b, '/')[0] != seq!['.']) by {
        assert(split_all(b, '/')[0][0] == b[0]);
    }
    assert(path_parts(b) =~= named_parts(split_all(b, '/')));
    if a.last() == '/' {
        let front = a.drop_last();
        assert(a =~= front + seq!['/'] + Seq::<char>::empty());
        assert(a + b =~= front + seq!['/'] + b);
        lemma_split_at_separator(front, b);
        lemma_split_at_separator(front, Seq::<char>::empty());
        Seq::<char>::empty().index_of_first_ensures('/');
        let nothing = seq![Seq::<char>::empty()];
        assert(split_all(Seq::<char>::empty(), '/') =~= nothing);
        assert(nothing.drop_last() =~= Seq::<Seq<char>>::empty());
        assert(named_parts(Seq::<Seq<char>>::empty()) =~= Seq::<Seq<char>>::empty());
        assert(nothing.last() == Seq::<char>::empty());
        assert(named_parts(nothing) =~= Seq::<Seq<char>>::empty());
        lemma_named_parts_add(split_all(front, '/'), split_all(b, '/'));
        lemma_named_parts_add(split_all(front, '/'), nothing);
        assert((a + b)[0] == a[0]);
        assert(split_all(a + b, '/')[0] == split_all(a, '/')[0]);
        assert(path_parts(a + b) =~= path_parts(a) + path_parts(b));
    }
}

} // verus!
