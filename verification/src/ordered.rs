//! Ordering: texts, stable sorting by a number, and maps kept in the order of their keys.
use crate::text::chars_of;
use crate::text::strings;
use vstd::prelude::*;

verus! {

// ---------------------------------------------------------------------------
// The order of texts
// ---------------------------------------------------------------------------
/// `a` comes before `b`: at the first difference it has the smaller character, or it ends.
pub open spec fn text_before(a: Seq<char>, b: Seq<char>) -> bool
    decreases a.len(),
{
    if b.len() == 0 {
        false
    } else if a.len() == 0 {
        true
    } else if a[0] != b[0] {
        a[0] < b[0]
    } else {
        text_before(a.drop_first(), b.drop_first())
    }
}

/// Of two texts exactly one comes first, unless they are the same.
pub proof fn lemma_text_order_total(a: Seq<char>, b: Seq<char>)
    ensures
        text_before(a, b) ==> !text_before(b, a) && a != b,
        a != b ==> text_before(a, b) || text_before(b, a),
    decreases a.len(),
{
    if a.len() > 0 && b.len() > 0 {
        lemma_text_order_total(a.drop_first(), b.drop_first());
        if a[0] == b[0] && a.drop_first() == b.drop_first() {
            assert(a =~= seq![a[0]] + a.drop_first());
            assert(b =~= seq![b[0]] + b.drop_first());
        }
    } else if a.len() == 0 && b.len() == 0 {
        assert(a =~= b);
    }
}

pub proof fn lemma_text_order_transitive(a: Seq<char>, b: Seq<char>, c: Seq<char>)
    requires
        text_before(a, b),
        text_before(b, c),
    ensures
        text_before(a, c),
    decreases a.len(),
{
    if a.len() > 0 && b.len() > 0 && c.len() > 0 && a[0] == b[0] && b[0] == c[0] {
        lemma_text_order_transitive(a.drop_first(), b.drop_first(), c.drop_first());
    }
}

/// Whether `a` comes before `b`.
pub fn is_before(a: &str, b: &str) -> (r: bool)
    ensures
        r == text_before(a@, b@),
{
    let v = chars_of(a);
    let w = chars_of(b);
    let mut i: usize = 0;
    assert(a@.skip(0) =~= a@);
    assert(b@.skip(0) =~= b@);
    loop
        invariant
            v@ == a@,
            w@ == b@,
            i <= v@.len(),
            i <= w@.len(),
            text_before(a@, b@) == text_before(a@.skip(i as int), b@.skip(i as int)),
        decreases v@.len() - i,
    {
        if i >= w.len() {
            return false;
        }
        if i >= v.len() {
            return true;
        }
        if v[i] != w[i] {
            return v[i] < w[i];
        }
        assert(a@.skip(i as int).drop_first() =~= a@.skip(i + 1));
        assert(b@.skip(i as int).drop_first() =~= b@.skip(i + 1));
        i = i + 1;
    }
}

/// No text comes before one that stands to the left of it.
pub open spec fn texts_sorted(s: Seq<Seq<char>>) -> bool {
    forall|i: int, j: int| 0 <= i < j < s.len() ==> !text_before(#[trigger] s[j], #[trigger] s[i])
}

/// Sorts `v`.
pub fn sort_texts(v: Vec<String>) -> (r: Vec<String>)
    ensures
        is_sorted_form(strings(v@), strings(r@)),
{
    let ghost all = strings(v@);
    let mut left = v;
    let mut out: Vec<String> = Vec::new();
    assert(strings(out@) =~= Seq::<Seq<char>>::empty());
    assert(all.skip(all.len() as int) =~= Seq::<Seq<char>>::empty());
    loop
        invariant
            all == strings(v@),
            strings(left@) == all.take(left@.len() as int),
            left@.len() <= all.len(),
            texts_sorted(strings(out@)),
            strings(out@).to_multiset() == all.skip(left@.len() as int).to_multiset(),
        decreases left@.len(),
    {
        let ghost n = left@.len() as int;
        match left.pop() {
            None => {
                assert(all.skip(0) =~= all);
                return out;
            },
            Some(x) => {
                let ghost before = strings(out@);
                let mut p: usize = 0;
                while p < out.len() && is_before(out[p].as_str(), x.as_str())
                    invariant
                        p <= out@.len(),
                        before == strings(out@),
                        forall|j: int| 0 <= j < p ==> text_before(#[trigger] before[j], x@),
                    decreases out@.len() - p,
                {
                    assert(before[p as int] == out@[p as int]@);
                    p = p + 1;
                }
                proof {
                    assert(all.take(n).drop_last() =~= all.take(n - 1));
                    assert(strings(left@) =~= all.take(n - 1));
                    assert(x@ == all[n - 1]) by {
                        assert(all.take(n)[n - 1] == all[n - 1]);
                    }
                    if p < out@.len() {
                        assert(before[p as int] == out@[p as int]@);
                    }
                    lemma_insert_sorted(before, p as int, x@);
                    assert(all.skip(n - 1) =~= all.skip(n).insert(0, x@));
                    vstd::seq_lib::to_multiset_insert(before, p as int, x@);
                    vstd::seq_lib::to_multiset_insert(all.skip(n), 0, x@);
                }
                out.insert(p, x);
                assert(strings(out@) =~= before.insert(p as int, x@));
            },
        }
    }
}

/// `sorted` holds the texts of `all`, in order.
pub open spec fn is_sorted_form(all: Seq<Seq<char>>, sorted: Seq<Seq<char>>) -> bool {
    texts_sorted(sorted) && sorted.to_multiset() == all.to_multiset()
}

/// Sorting does not depend on the order that the texts came in.
pub proof fn law_sorted_form_is_unique(
    a: Seq<Seq<char>>,
    b: Seq<Seq<char>>,
    x: Seq<Seq<char>>,
    y: Seq<Seq<char>>,
)
    requires
        a.to_multiset() == b.to_multiset(),
        is_sorted_form(a, x),
        is_sorted_form(b, y),
    ensures
        x == y,
{
    let leq = |s: Seq<char>, t: Seq<char>| !text_before(t, s);
    assert(vstd::relations::total_ordering(leq)) by {
        assert forall|s: Seq<char>| #[trigger] leq(s, s) by {
            lemma_text_order_total(s, s);
        }
        assert forall|s: Seq<char>, t: Seq<char>| #[trigger] leq(s, t) && #[trigger] leq(t, s) implies s == t by {
            lemma_text_order_total(s, t);
        }
        assert forall|s: Seq<char>, t: Seq<char>, u: Seq<char>| #[trigger] leq(s, t) && #[trigger] leq(t, u) implies leq(s, u) by {
            lemma_text_order_total(s, t);
            lemma_text_order_total(t, u);
            lemma_text_order_total(s, u);
            if s != t && t != u {
                lemma_text_order_transitive(s, t, u);
            }
        }
        assert forall|s: Seq<char>, t: Seq<char>| #[trigger] leq(s, t) || #[trigger] leq(t, s) by {
            lemma_text_order_total(s, t);
        }
    }
    assert(vstd::relations::sorted_by(x, leq));
    assert(vstd::relations::sorted_by(y, leq));
    vstd::seq_lib::lemma_sorted_unique(x, y, leq);
}

proof fn lemma_insert_sorted(s: Seq<Seq<char>>, p: int, x: Seq<char>)
    requires
        texts_sorted(s),
        0 <= p <= s.len(),
        forall|j: int| 0 <= j < p ==> text_before(#[trigger] s[j], x),
        p < s.len() ==> !text_before(s[p], x),
    ensures
        texts_sorted(s.insert(p, x)),
{
    let t = s.insert(p, x);
    assert forall|i: int, j: int| 0 <= i < j < t.len() implies !text_before(
        #[trigger] t[j],
        #[trigger] t[i],
    ) by {
        let si = if i < p { i } else { i - 1 };
        let sj = if j < p { j } else { j - 1 };
        if i == p {
            assert(t[j] == s[sj]);
            if sj > p {
                // s[sj] before x would put it before s[p] as well, or make s[p] before x.
                lemma_text_order_total(s[p], x);
                lemma_text_order_total(s[sj], s[p]);
                if text_before(s[sj], x) && x != s[p] {
                    lemma_text_order_transitive(s[sj], x, s[p]);
                }
            }
        } else if j == p {
            assert(t[i] == s[si]);
            lemma_text_order_total(s[si], x);
        } else {
            assert(t[i] == s[si]);
            assert(t[j] == s[sj]);
        }
    }
}

// ---------------------------------------------------------------------------
// Stable sorting
// ---------------------------------------------------------------------------
/// Something that is sorted by a number. `By` tells the numbers apart that it can be sorted by.
pub trait Keyed<By>: Sized {
    /// The number.
    spec fn key(&self) -> int;

    /// The number.
    fn sort_key(&self) -> (r: u128)
        ensures
            r == self.key(),
    ;
}

/// `a` may stand to the left of `b`.
pub open spec fn in_order<By, T: Keyed<By>>(a: T, b: T, descending: bool) -> bool {
    if descending {
        a.key() >= b.key()
    } else {
        a.key() <= b.key()
    }
}

/// The items whose number is `k`.
pub open spec fn with_key<By, T: Keyed<By>>(s: Seq<T>, k: int) -> Seq<T> {
    s.filter(|x: T| x.key() == k)
}

/// `r` is `s` in order, and items with the same number stand as they did in `s`.
pub open spec fn is_stable_sort<By, T: Keyed<By>>(s: Seq<T>, r: Seq<T>, descending: bool) -> bool {
    &&& forall|i: int, j: int|
        0 <= i < j < r.len() ==> in_order::<By, T>(#[trigger] r[i], #[trigger] r[j], descending)
    &&& forall|k: int| #[trigger] with_key::<By, T>(r, k) == with_key::<By, T>(s, k)
}

proof fn lemma_with_key_one<By, T: Keyed<By>>(x: T, k: int)
    ensures
        with_key::<By, T>(seq![x], k) == if x.key() == k {
            seq![x]
        } else {
            seq![]
        },
{
    reveal_with_fuel(Seq::filter, 2);
    assert(seq![x].drop_last() =~= Seq::<T>::empty());
}

proof fn lemma_with_key_none<By, T: Keyed<By>>(s: Seq<T>, k: int)
    requires
        forall|i: int| 0 <= i < s.len() ==> (#[trigger] s[i]).key() != k,
    ensures
        with_key::<By, T>(s, k) == Seq::<T>::empty(),
    decreases s.len(),
{
    reveal(Seq::filter);
    if s.len() > 0 {
        assert forall|i: int| 0 <= i < s.drop_last().len() implies (
        #[trigger] s.drop_last()[i]).key() != k by {
            assert(s.drop_last()[i] == s[i]);
        }
        lemma_with_key_none::<By, T>(s.drop_last(), k);
        assert(s.last() == s[s.len() - 1]);
    }
}

/// Putting `x` in front of everything that may not stand to its left keeps the sort stable.
proof fn lemma_stable_insert<By, T: Keyed<By>>(s: Seq<T>, r: Seq<T>, p: int, x: T, descending: bool)
    requires
        is_stable_sort::<By, T>(s, r, descending),
        0 <= p <= r.len(),
        forall|j: int| 0 <= j < p ==> !in_order::<By, T>(x, #[trigger] r[j], descending),
        p < r.len() ==> in_order::<By, T>(x, r[p], descending),
    ensures
        is_stable_sort::<By, T>(seq![x] + s, r.insert(p, x), descending),
{
    let t = r.insert(p, x);
    let head = r.take(p);
    let tail = r.skip(p);
    assert(t =~= head + seq![x] + tail);
    assert(r =~= head + tail);
    assert forall|k: int| #[trigger] with_key::<By, T>(t, k) == with_key::<By, T>(seq![x] + s, k) by {
        let pred = |y: T| y.key() == k;
        Seq::filter_distributes_over_add(head + seq![x], tail, pred);
        Seq::filter_distributes_over_add(head, seq![x], pred);
        Seq::filter_distributes_over_add(head, tail, pred);
        Seq::filter_distributes_over_add(seq![x], s, pred);
        lemma_with_key_one::<By, T>(x, k);
        assert(with_key::<By, T>(r, k) == with_key::<By, T>(s, k));
        if x.key() == k {
            assert forall|i: int| 0 <= i < head.len() implies (#[trigger] head[i]).key() != k by {
                assert(head[i] == r[i]);
            }
            lemma_with_key_none::<By, T>(head, k);
            assert(with_key::<By, T>(t, k) =~= seq![x] + with_key::<By, T>(r, k));
        } else {
            assert(with_key::<By, T>(t, k) =~= with_key::<By, T>(r, k));
            assert(with_key::<By, T>(seq![x] + s, k) =~= with_key::<By, T>(s, k));
        }
    }
    assert forall|i: int, j: int| 0 <= i < j < t.len() implies in_order::<By, T>(
        #[trigger] t[i],
        #[trigger] t[j],
        descending,
    ) by {
        let ri = if i < p { i } else { i - 1 };
        let rj = if j < p { j } else { j - 1 };
        if i == p {
            assert(t[j] == r[rj]);
            if rj > p {
                assert(in_order::<By, T>(r[p], r[rj], descending));
            }
        } else if j == p {
            assert(t[i] == r[ri]);
        } else {
            assert(t[i] == r[ri] && t[j] == r[rj]);
        }
    }
}

/// Whether `a` may stand to the left of `b`.
fn may_precede<By, T: Keyed<By>>(a: &T, b: &T, descending: bool) -> (r: bool)
    ensures
        r == in_order::<By, T>(*a, *b, descending),
{
    if descending {
        a.sort_key() >= b.sort_key()
    } else {
        a.sort_key() <= b.sort_key()
    }
}

/// Sorts `v` by its numbers; items with the same number keep their order.
pub fn sort_by_key<By, T: Keyed<By>>(v: Vec<T>, descending: bool) -> (r: Vec<T>)
    ensures
        is_stable_sort::<By, T>(v@, r@, descending),
{
    let ghost all = v@;
    let mut left = v;
    let mut out: Vec<T> = Vec::new();
    assert(all.skip(all.len() as int) =~= Seq::<T>::empty());
    loop
        invariant
            all == v@,
            left@ == all.take(left@.len() as int),
            left@.len() <= all.len(),
            is_stable_sort::<By, T>(all.skip(left@.len() as int), out@, descending),
        decreases left@.len(),
    {
        let ghost n = left@.len() as int;
        match left.pop() {
            None => {
                assert(all.skip(0) =~= all);
                return out;
            },
            Some(x) => {
                let mut p: usize = 0;
                while p < out.len() && !may_precede::<By, T>(&x, &out[p], descending)
                    invariant
                        p <= out@.len(),
                        forall|j: int| 0 <= j < p ==> !in_order::<By, T>(x, #[trigger] out@[j], descending),
                    decreases out@.len() - p,
                {
                    p = p + 1;
                }
                proof {
                    assert(left@ =~= all.take(n - 1));
                    assert(all.skip(n - 1) =~= seq![x] + all.skip(n));
                    lemma_stable_insert::<By, T>(all.skip(n), out@, p as int, x, descending);
                }
                out.insert(p, x);
            },
        }
    }
}

/// Sorting loses and adds nothing.
pub proof fn law_stable_sort_is_permutation<By, T: Keyed<By>>(s: Seq<T>, r: Seq<T>, descending: bool)
    requires
        is_stable_sort::<By, T>(s, r, descending),
    ensures
        r.to_multiset() == s.to_multiset(),
{
    assert forall|x: T| r.to_multiset().count(x) == s.to_multiset().count(x) by {
        lemma_count_with_key::<By, T>(r, x);
        lemma_count_with_key::<By, T>(s, x);
        assert(with_key::<By, T>(r, x.key()) == with_key::<By, T>(s, x.key()));
    }
    assert(r.to_multiset() =~= s.to_multiset());
}

proof fn lemma_count_with_key<By, T: Keyed<By>>(s: Seq<T>, x: T)
    ensures
        s.to_multiset().count(x) == with_key::<By, T>(s, x.key()).to_multiset().count(x),
    decreases s.len(),
{
    broadcast use vstd::seq_lib::group_to_multiset_ensures;

    reveal(Seq::filter);
    if s.len() > 0 {
        let rest = s.drop_last();
        lemma_count_with_key::<By, T>(rest, x);
        assert(s =~= rest.push(s.last()));
        vstd::seq_lib::to_multiset_build(rest, s.last());
        if s.last().key() == x.key() {
            assert(with_key::<By, T>(s, x.key()) =~= with_key::<By, T>(rest, x.key()).push(s.last()));
            vstd::seq_lib::to_multiset_build(with_key::<By, T>(rest, x.key()), s.last());
        }
    } else {
        assert(with_key::<By, T>(s, x.key()) =~= s);
    }
}

// ---------------------------------------------------------------------------
// Maps in the order of their keys
// ---------------------------------------------------------------------------
/// A map from texts, kept in the order of its keys.
#[derive(Debug)]
pub struct TextMap<V> {
    pub entries: Vec<(String, V)>,
}

/// The keys strictly ascend.
pub open spec fn keys_ascend<V>(entries: Seq<(String, V)>) -> bool {
    forall|i: int, j: int|
        0 <= i < j < entries.len() ==> text_before((#[trigger] entries[i]).0@, (
        #[trigger] entries[j]).0@)
}

/// `k` is the key of entry `i`.
pub open spec fn key_at<V>(entries: Seq<(String, V)>, k: Seq<char>, i: int) -> bool {
    0 <= i < entries.len() && entries[i].0@ == k
}

impl<V> View for TextMap<V> {
    type V = Map<Seq<char>, V>;

    open spec fn view(&self) -> Map<Seq<char>, V> {
        Map::new(
            |k: Seq<char>| exists|i: int| key_at(self.entries@, k, i),
            |k: Seq<char>| self.entries@[choose|i: int| key_at(self.entries@, k, i)].1,
        )
    }
}

impl<V> TextMap<V> {
    /// The keys are in order, and none occurs twice.
    pub open spec fn wf(&self) -> bool {
        keys_ascend(self.entries@)
    }

    /// A key leads to the value beside it.
    pub proof fn lemma_entry(&self, i: int)
        requires
            self.wf(),
            0 <= i < self.entries@.len(),
        ensures
            self@.contains_key(self.entries@[i].0@),
            self@[self.entries@[i].0@] == self.entries@[i].1,
    {
        let k = self.entries@[i].0@;
        assert(key_at(self.entries@, k, i));
        let j = choose|j: int| key_at(self.entries@, k, j);
        lemma_text_order_total(k, k);
        assert(i == j);
    }

    /// An empty map.
    pub fn new() -> (r: Self)
        ensures
            r.wf(),
            r@ == Map::<Seq<char>, V>::empty(),
    {
        let r = TextMap { entries: Vec::new() };
        assert(r@ =~= Map::<Seq<char>, V>::empty()) by {
            assert forall|k: Seq<char>| !r@.contains_key(k) by {
                if r@.contains_key(k) {
                    let i = choose|i: int| key_at(r.entries@, k, i);
                    assert(key_at(r.entries@, k, i));
                }
            }
        }
        r
    }

    /// The number of keys.
    pub fn len(&self) -> (r: usize)
        ensures
            r == self.entries@.len(),
    {
        self.entries.len()
    }

    /// The first entry whose key does not come before `key`.
    pub fn position(&self, key: &str) -> (r: usize)
        requires
            self.wf(),
        ensures
            r <= self.entries@.len(),
            forall|j: int| 0 <= j < r ==> text_before((#[trigger] self.entries@[j]).0@, key@),
            forall|j: int|
                r <= j < self.entries@.len() ==> !text_before(
                    (#[trigger] self.entries@[j]).0@,
                    key@,
                ),
            self@.contains_key(key@) <==> r < self.entries@.len() && self.entries@[r as int].0@
                == key@,
    {
        let mut p: usize = 0;
        while p < self.entries.len() && is_before(self.entries[p].0.as_str(), key)
            invariant
                p <= self.entries@.len(),
                forall|j: int| 0 <= j < p ==> text_before((#[trigger] self.entries@[j]).0@, key@),
            decreases self.entries@.len() - p,
        {
            p = p + 1;
        }
        proof {
            assert forall|j: int| p <= j < self.entries@.len() implies !text_before(
                (#[trigger] self.entries@[j]).0@,
                key@,
            ) by {
                if j > p && text_before(self.entries@[j].0@, key@) {
                    assert(text_before(self.entries@[p as int].0@, self.entries@[j].0@));
                    lemma_text_order_transitive(
                        self.entries@[p as int].0@,
                        self.entries@[j].0@,
                        key@,
                    );
                }
            }
            if self@.contains_key(key@) {
                let i = choose|i: int| key_at(self.entries@, key@, i);
                assert(key_at(self.entries@, key@, i));
                lemma_text_order_total(key@, key@);
                if i > p {
                    assert(text_before(self.entries@[p as int].0@, self.entries@[i].0@));
                }
            }
            if p < self.entries@.len() && self.entries@[p as int].0@ == key@ {
                self.lemma_entry(p as int);
            }
        }
        p
    }

    /// The value at `key`.
    pub fn get(&self, key: &str) -> (r: Option<&V>)
        requires
            self.wf(),
        ensures
            match r {
                Some(v) => self@.contains_key(key@) && *v == self@[key@],
                None => !self@.contains_key(key@),
            },
    {
        let p = self.position(key);
        if p < self.entries.len() && crate::paths::same_text(self.entries[p].0.as_str(), key) {
            proof {
                self.lemma_entry(p as int);
            }
            Some(&self.entries[p].1)
        } else {
            None
        }
    }

    /// Puts `value` at `key`.
    pub fn insert(&mut self, key: String, value: V)
        requires
            old(self).wf(),
        ensures
            final(self).wf(),
            final(self)@ == old(self)@.insert(key@, value),
    {
        let p = self.position(key.as_str());
        let ghost before = *self;
        let ghost k = key@;
        if p < self.entries.len() && crate::paths::same_text(
            self.entries[p].0.as_str(),
            key.as_str(),
        ) {
            self.entries[p].1 = value;
            proof {
                assert(self.entries@ =~= before.entries@.update(
                    p as int,
                    (before.entries@[p as int].0, value),
                ));
                lemma_insert_effect(before, *self, p as int, k, value);
            }
        } else {
            self.entries.insert(p, (key, value));
            proof {
                let e = self.entries@;
                assert forall|i: int, j: int| 0 <= i < j < e.len() implies text_before(
                    (#[trigger] e[i]).0@,
                    (#[trigger] e[j]).0@,
                ) by {
                    let old_i = if i < p { i } else { i - 1 };
                    let old_j = if j < p { j } else { j - 1 };
                    if i != p {
                        assert(e[i] == before.entries@[old_i]);
                    }
                    if j != p {
                        assert(e[j] == before.entries@[old_j]);
                    }
                    if i == p {
                        lemma_text_order_total(k, e[j].0@);
                        if j == p + 1 {
                            assert(e[j] == before.entries@[p as int]);
                        }
                        if e[j].0@ == k {
                            before.lemma_entry(old_j);
                        }
                    }
                }
                lemma_insert_effect(before, *self, p as int, k, value);
            }
        }
    }
}

impl<V> TextMap<V> {
    /// Takes the value at `key` out of the map.
    pub fn take(&mut self, key: &str) -> (r: Option<V>)
        requires
            old(self).wf(),
        ensures
            final(self).wf(),
            final(self)@ == old(self)@.remove(key@),
            match r {
                Some(v) => old(self)@.contains_key(key@) && v == old(self)@[key@],
                None => !old(self)@.contains_key(key@),
            },
    {
        let p = self.position(key);
        let ghost before = *self;
        if p < self.entries.len() && crate::paths::same_text(self.entries[p].0.as_str(), key) {
            let (_, value) = self.entries.remove(p);
            proof {
                before.lemma_entry(p as int);
                lemma_remove_effect(before, *self, p as int);
            }
            Some(value)
        } else {
            assert(self@.remove(key@) =~= self@);
            None
        }
    }
}

/// How the map changes when entry `p` is taken out.
proof fn lemma_remove_effect<V>(before: TextMap<V>, after: TextMap<V>, p: int)
    requires
        before.wf(),
        0 <= p < before.entries@.len(),
        after.entries@ == before.entries@.remove(p),
    ensures
        after.wf(),
        after@ == before@.remove(before.entries@[p].0@),
{
    let k = before.entries@[p].0@;
    let b = before.entries@;
    let a = after.entries@;
    assert forall|i: int, j: int| 0 <= i < j < a.len() implies text_before(
        (#[trigger] a[i]).0@,
        (#[trigger] a[j]).0@,
    ) by {
        assert(a[i] == b[if i < p { i } else { i + 1 }]);
        assert(a[j] == b[if j < p { j } else { j + 1 }]);
    }
    assert forall|q: Seq<char>| after@.contains_key(q) == before@.remove(k).contains_key(q) by {
        if after@.contains_key(q) {
            let i = choose|i: int| key_at(a, q, i);
            assert(key_at(a, q, i));
            let j = if i < p { i } else { i + 1 };
            assert(a[i] == b[j]);
            assert(key_at(b, q, j));
            lemma_text_order_total(k, k);
            if j < p {
                assert(text_before(b[j].0@, b[p].0@));
            } else {
                assert(text_before(b[p].0@, b[j].0@));
            }
        }
        if before@.contains_key(q) && q != k {
            let j = choose|j: int| key_at(b, q, j);
            assert(key_at(b, q, j));
            let i = if j < p { j } else { j - 1 };
            assert(a[i] == b[j]);
            assert(key_at(a, q, i));
        }
    }
    assert forall|q: Seq<char>| after@.contains_key(q) implies #[trigger] after@[q]
        == before@.remove(k)[q] by {
        let i = choose|i: int| key_at(a, q, i);
        assert(key_at(a, q, i));
        after.lemma_entry(i);
        let j = if i < p { i } else { i + 1 };
        assert(a[i] == b[j]);
        before.lemma_entry(j);
    }
    assert(after@ =~= before@.remove(k));
}

/// How the map changes when entry `p` becomes `(k, value)`.
proof fn lemma_insert_effect<V>(
    before: TextMap<V>,
    after: TextMap<V>,
    p: int,
    k: Seq<char>,
    value: V,
)
    requires
        before.wf(),
        after.wf(),
        0 <= p < after.entries@.len(),
        p <= before.entries@.len(),
        after.entries@[p].0@ == k,
        after.entries@[p].1 == value,
        ({
            ||| before.entries@.len() == after.entries@.len() && before.entries@[p].0@ == k
                && forall|i: int|
                #![trigger after.entries@[i]]
                0 <= i < after.entries@.len() && i != p ==> after.entries@[i]
                    == before.entries@[i]
            ||| after.entries@ == before.entries@.insert(p, after.entries@[p])
        }),
    ensures
        after@ == before@.insert(k, value),
{
    assert forall|q: Seq<char>| after@.contains_key(q) == before@.insert(k, value).contains_key(
        q,
    ) by {
        if after@.contains_key(q) {
            let i = choose|i: int| key_at(after.entries@, q, i);
            assert(key_at(after.entries@, q, i));
            if i != p {
                let j = if before.entries@.len() == after.entries@.len() || i < p {
                    i
                } else {
                    i - 1
                };
                assert(key_at(before.entries@, q, j));
            }
        }
        if before@.contains_key(q) {
            let j = choose|j: int| key_at(before.entries@, q, j);
            assert(key_at(before.entries@, q, j));
            let i = if before.entries@.len() == after.entries@.len() || j < p {
                j
            } else {
                j + 1
            };
            assert(after.entries@[i].0@ == q);
            assert(key_at(after.entries@, q, i));
        }
        assert(key_at(after.entries@, k, p));
    }
    assert forall|q: Seq<char>| after@.contains_key(q) implies #[trigger] after@[q]
        == before@.insert(k, value)[q] by {
        let i = choose|i: int| key_at(after.entries@, q, i);
        assert(key_at(after.entries@, q, i));
        after.lemma_entry(i);
        after.lemma_entry(p);
        if q != k {
            let j = if before.entries@.len() == after.entries@.len() || i < p {
                i
            } else {
                i - 1
            };
            assert(after.entries@[i] == before.entries@[j]);
            before.lemma_entry(j);
        }
    }
    assert(after@ =~= before@.insert(k, value));
}

// ---------------------------------------------------------------------------
// Laws
// ---------------------------------------------------------------------------
/// Texts are ordered by the first character in which they differ, and a text comes before those that
/// continue it.
pub proof fn law_text_order_goes_by_the_first_difference(
    common: Seq<char>,
    a: Seq<char>,
    b: Seq<char>,
    x: char,
    y: char,
)
    ensures
        x < y ==> text_before(common + seq![x] + a, common + seq![y] + b) && !text_before(
            common + seq![y] + b,
            common + seq![x] + a,
        ),
        text_before(common, common + seq![x] + a),
        !text_before(common + seq![x] + a, common),
        !text_before(common, common),
    decreases common.len(),
{
    let s = common + seq![x] + a;
    let t = common + seq![y] + b;
    if common.len() > 0 {
        let rest = common.drop_first();
        law_text_order_goes_by_the_first_difference(rest, a, b, x, y);
        assert(s.drop_first() =~= rest + seq![x] + a);
        assert(t.drop_first() =~= rest + seq![y] + b);
    } else {
        assert(s[0] == x && t[0] == y);
    }
}

/// A map leads from a key to a value exactly where an entry pairs the two.
pub proof fn law_map_is_that_of_its_entries<V>(map: TextMap<V>, key: Seq<char>, value: V)
    requires
        map.wf(),
    ensures
        map@.contains_key(key) && map@[key] == value <==> exists|i: int|
            #![trigger map.entries@[i]]
            0 <= i < map.entries@.len() && map.entries@[i].0@ == key && map.entries@[i].1 == value,
{
    if map@.contains_key(key) {
        let i = choose|i: int| key_at(map.entries@, key, i);
        map.lemma_entry(i);
        assert(map.entries@[i].0@ == key);
    }
    if exists|i: int|
        #![trigger map.entries@[i]]
        0 <= i < map.entries@.len() && map.entries@[i].0@ == key && map.entries@[i].1 == value {
        let i = choose|i: int|
            #![trigger map.entries@[i]]
            0 <= i < map.entries@.len() && map.entries@[i].0@ == key && map.entries@[i].1 == value;
        map.lemma_entry(i);
    }
}

} // verus!
