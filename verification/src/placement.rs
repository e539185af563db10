//! Where edits of a sequence of positions stand once all of them have been made.
//!
//! An edit takes some positions away and adds others in their place. Edits are made in any order; in
//! the end each is moved by those that come before it in the original sequence. Where an edit took
//! away what another had added, the latter stands no earlier than the former ends.
use vstd::prelude::*;

verus! {

/// An edit of a sequence of positions.
pub ghost struct Placed {
    /// Whether the edit counts.
    pub counts: bool,
    /// The original position of the edit.
    pub at: int,
    /// What edits at the same position are ordered by; of two with the same key the one made first
    /// comes first.
    pub key: int,
    /// How many positions it took away.
    pub removed: int,
    /// How many positions it added.
    pub added: int,
}

/// Edit `k` comes before edit `i`.
pub open spec fn precedes(edits: Seq<Placed>, k: int, i: int) -> bool {
    ||| edits[k].at < edits[i].at
    ||| edits[k].at == edits[i].at && edits[k].key < edits[i].key
    ||| edits[k].at == edits[i].at && edits[k].key == edits[i].key && k < i
}

/// How far the edits that `chosen` picks out of the first `n` move what follows them.
pub open spec fn total(edits: Seq<Placed>, n: int, chosen: spec_fn(int) -> bool) -> int
    decreases n,
{
    if n <= 0 {
        0
    } else {
        total(edits, n - 1, chosen) + if edits[n - 1].counts && chosen(n - 1) {
            edits[n - 1].added - edits[n - 1].removed
        } else {
            0
        }
    }
}

/// How many positions the edits that `chosen` picks out of the first `n` took away.
pub open spec fn taken(edits: Seq<Placed>, n: int, chosen: spec_fn(int) -> bool) -> int
    decreases n,
{
    if n <= 0 {
        0
    } else {
        taken(edits, n - 1, chosen) + if edits[n - 1].counts && chosen(n - 1) {
            edits[n - 1].removed
        } else {
            0
        }
    }
}

/// The edits that come before edit `i`.
pub open spec fn those_before(edits: Seq<Placed>, i: int) -> spec_fn(int) -> bool {
    |k: int| precedes(edits, k, i)
}

/// Where edit `i` stands once all edits have been made, if no other took away what it added: its
/// original position, moved by the edits that come before it.
pub open spec fn place(edits: Seq<Placed>, i: int) -> int {
    edits[i].at + total(edits, edits.len() as int, those_before(edits, i))
}

/// Where what edit `i` added ends, if no other took it away.
pub open spec fn end(edits: Seq<Placed>, i: int) -> int {
    place(edits, i) + edits[i].added
}

/// Edit `i` stands before `x`, and so does all that the edits which come before it added.
pub open spec fn stands_before(edits: Seq<Placed>, i: int, x: int) -> bool {
    &&& place(edits, i) < x
    &&& forall|k: int|
        #![trigger edits[k]]
        0 <= k < edits.len() && edits[k].counts && precedes(edits, k, i) ==> end(edits, k) < x
}

/// The position `x` is one that edit `i` added and that no edit which comes before it reaches.
pub open spec fn covers(edits: Seq<Placed>, i: int, x: int) -> bool {
    &&& place(edits, i) <= x < end(edits, i)
    &&& forall|k: int|
        #![trigger edits[k]]
        0 <= k < edits.len() && edits[k].counts && precedes(edits, k, i) ==> end(edits, k) <= x
}

/// The position `x` is one that edit `i` added and that no edit which was made later but comes before
/// it reaches.
pub open spec fn shows(edits: Seq<Placed>, i: int, x: int) -> bool {
    &&& place(edits, i) <= x < end(edits, i)
    &&& forall|k: int|
        #![trigger edits[k]]
        i < k < edits.len() && edits[k].counts && precedes(edits, k, i) ==> end(edits, k) <= x
}

/// The edits that stand before `x`.
pub open spec fn those_standing_before(edits: Seq<Placed>, x: int) -> spec_fn(int) -> bool {
    |k: int| stands_before(edits, k, x)
}

/// What an edit took away ends at or before the next edit.
pub open spec fn apart(edits: Seq<Placed>) -> bool {
    &&& forall|i: int, j: int|
        #![trigger edits[i], edits[j]]
        0 <= i < edits.len() && 0 <= j < edits.len() && edits[i].counts && edits[j].counts
            && precedes(edits, i, j) ==> edits[i].at + edits[i].removed <= edits[j].at
    &&& forall|i: int|
        #![trigger edits[i]]
        0 <= i < edits.len() && edits[i].counts ==> {
            &&& 0 <= edits[i].key
            &&& 0 <= edits[i].at
            &&& 0 <= edits[i].removed
            &&& 0 <= edits[i].added
        }
}

/// The edits that move position `x` are those that `moved` picks: with an edit all those before it,
/// and what they took away lies before `x`, while the others stand at `x` or behind it.
pub open spec fn parts_at(edits: Seq<Placed>, x: int, moved: spec_fn(int) -> bool) -> bool {
    &&& forall|i: int, j: int|
        #![trigger edits[i], edits[j]]
        0 <= i < edits.len() && 0 <= j < edits.len() && edits[i].counts && edits[j].counts && moved(
            j,
        ) && precedes(edits, i, j) ==> moved(i)
    &&& forall|i: int|
        #![trigger edits[i]]
        0 <= i < edits.len() && edits[i].counts ==> if moved(i) {
            edits[i].at + edits[i].removed <= x
        } else {
            x <= edits[i].at
        }
}

/// Where position `x` stands once all edits have been made, those that `moved` picks moving it.
pub open spec fn arrives(edits: Seq<Placed>, x: int, moved: spec_fn(int) -> bool) -> int {
    x + total(edits, edits.len() as int, moved)
}

/// Selections that agree on the edits that count give the same total.
pub proof fn lemma_total_agree(
    edits: Seq<Placed>,
    n: int,
    one: spec_fn(int) -> bool,
    two: spec_fn(int) -> bool,
)
    requires
        0 <= n <= edits.len(),
        forall|k: int|
            #![trigger edits[k]]
            0 <= k < n && edits[k].counts ==> one(k) == two(k),
    ensures
        total(edits, n, one) == total(edits, n, two),
        taken(edits, n, one) == taken(edits, n, two),
    decreases n,
{
    if n > 0 {
        lemma_total_agree(edits, n - 1, one, two);
        assert(edits[n - 1].counts ==> one(n - 1) == two(n - 1));
    }
}

/// Selections that agree on the edits that count and change the number of positions give the same
/// total.
pub proof fn lemma_total_agree_where_it_counts(
    edits: Seq<Placed>,
    n: int,
    one: spec_fn(int) -> bool,
    two: spec_fn(int) -> bool,
)
    requires
        0 <= n <= edits.len(),
        forall|k: int|
            #![trigger edits[k]]
            0 <= k < n && edits[k].counts ==> one(k) == two(k) || edits[k].added
                == edits[k].removed,
    ensures
        total(edits, n, one) == total(edits, n, two),
    decreases n,
{
    if n > 0 {
        lemma_total_agree_where_it_counts(edits, n - 1, one, two);
        assert(edits[n - 1].counts ==> one(n - 1) == two(n - 1) || edits[n - 1].added
            == edits[n - 1].removed);
    }
}

/// One edit more adds its own change.
proof fn lemma_total_one_more(
    edits: Seq<Placed>,
    n: int,
    less: spec_fn(int) -> bool,
    more: spec_fn(int) -> bool,
    m: int,
)
    requires
        0 <= m < edits.len(),
        0 <= n <= edits.len(),
        edits[m].counts,
        !less(m),
        forall|k: int|
            #![trigger edits[k]]
            0 <= k < n && edits[k].counts ==> more(k) == (less(k) || k == m),
    ensures
        total(edits, n, more) == total(edits, n, less) + if m < n {
            edits[m].added - edits[m].removed
        } else {
            0
        },
        taken(edits, n, more) == taken(edits, n, less) + if m < n {
            edits[m].removed
        } else {
            0
        },
    decreases n,
{
    if n > 0 {
        lemma_total_one_more(edits, n - 1, less, more, m);
        assert(edits[n - 1].counts ==> more(n - 1) == (less(n - 1) || n - 1 == m));
    }
}

/// Without a chosen edit nothing moves.
pub proof fn lemma_total_none(edits: Seq<Placed>, n: int, chosen: spec_fn(int) -> bool)
    requires
        0 <= n <= edits.len(),
        forall|k: int| #![trigger edits[k]] 0 <= k < n && edits[k].counts ==> !chosen(k),
    ensures
        total(edits, n, chosen) == 0,
        taken(edits, n, chosen) == 0,
    decreases n,
{
    if n > 0 {
        lemma_total_none(edits, n - 1, chosen);
        assert(edits[n - 1].counts ==> !chosen(n - 1));
    }
}

/// Chosen edits move nothing back by more than they took away.
proof fn lemma_total_bounds(edits: Seq<Placed>, n: int, chosen: spec_fn(int) -> bool)
    requires
        apart(edits),
        0 <= n <= edits.len(),
    ensures
        -taken(edits, n, chosen) <= total(edits, n, chosen),
    decreases n,
{
    if n > 0 {
        assert(edits[n - 1].counts ==> 0 <= edits[n - 1].added);
        lemma_total_bounds(edits, n - 1, chosen);
    }
}

/// The last of the chosen edits, if there is one.
proof fn lemma_last_of(edits: Seq<Placed>, n: int, chosen: spec_fn(int) -> bool) -> (r: Option<int>)
    requires
        0 <= n <= edits.len(),
    ensures
        match r {
            Some(m) => {
                &&& 0 <= m < n
                &&& edits[m].counts
                &&& chosen(m)
                &&& forall|k: int|
                    #![trigger edits[k]]
                    0 <= k < n && edits[k].counts && chosen(k) ==> k == m || precedes(edits, k, m)
            },
            None => forall|k: int|
                #![trigger edits[k]]
                0 <= k < n && edits[k].counts ==> !chosen(k),
        },
    decreases n,
{
    if n == 0 {
        None
    } else {
        let rest = lemma_last_of(edits, n - 1, chosen);
        if edits[n - 1].counts && chosen(n - 1) {
            match rest {
                Some(m) => if precedes(edits, m, n - 1) {
                    Some(n - 1)
                } else {
                    Some(m)
                },
                None => Some(n - 1),
            }
        } else {
            rest
        }
    }
}

/// The last edit before edit `i`, if there is one, and what it does to the place of edit `i`.
proof fn lemma_last_before(edits: Seq<Placed>, i: int) -> (r: Option<int>)
    requires
        0 <= i < edits.len(),
    ensures
        match r {
            Some(m) => {
                &&& 0 <= m < edits.len()
                &&& edits[m].counts
                &&& precedes(edits, m, i)
                &&& forall|k: int|
                    #![trigger edits[k]]
                    0 <= k < edits.len() && edits[k].counts && precedes(edits, k, i) ==> k == m
                        || precedes(edits, k, m)
                &&& place(edits, i) == edits[i].at + place(edits, m) - edits[m].at + edits[m].added
                    - edits[m].removed
                &&& taken(edits, edits.len() as int, those_before(edits, i)) == taken(
                    edits,
                    edits.len() as int,
                    those_before(edits, m),
                ) + edits[m].removed
            },
            None => {
                &&& forall|k: int|
                    #![trigger edits[k]]
                    0 <= k < edits.len() && edits[k].counts ==> !precedes(edits, k, i)
                &&& place(edits, i) == edits[i].at
                &&& taken(edits, edits.len() as int, those_before(edits, i)) == 0
            },
        },
{
    let n = edits.len() as int;
    let r = lemma_last_of(edits, n, those_before(edits, i));
    match r {
        Some(m) => {
            assert(those_before(edits, i)(m));
            assert forall|k: int|
                #![trigger edits[k]]
                0 <= k < n && edits[k].counts && precedes(edits, k, i) implies k == m || precedes(
                edits,
                k,
                m,
            ) by {
                assert(those_before(edits, i)(k));
            }
            assert forall|k: int|
                #![trigger edits[k]]
                0 <= k < n && edits[k].counts implies those_before(edits, i)(k) == (those_before(
                edits,
                m,
            )(k) || k == m) by {}
            lemma_total_one_more(edits, n, those_before(edits, m), those_before(edits, i), m);
        },
        None => {
            assert forall|k: int|
                #![trigger edits[k]]
                0 <= k < n && edits[k].counts implies !precedes(edits, k, i) by {
                assert(!those_before(edits, i)(k));
            }
            lemma_total_none(edits, n, those_before(edits, i));
        },
    }
    r
}

/// What the edits before edit `i` took away lies before it.
proof fn lemma_taken_before(edits: Seq<Placed>, i: int)
    requires
        apart(edits),
        0 <= i < edits.len(),
        edits[i].counts,
    ensures
        taken(edits, edits.len() as int, those_before(edits, i)) <= edits[i].at,
    decreases edits[i].at, edits[i].key, i,
{
    match lemma_last_before(edits, i) {
        Some(m) => {
            lemma_taken_before(edits, m);
            assert(edits[m].at + edits[m].removed <= edits[i].at);
        },
        None => {},
    }
}

/// What an edit added ends at or before the place of the next one.
pub proof fn lemma_places_ascend(edits: Seq<Placed>, i: int, j: int)
    requires
        apart(edits),
        0 <= i < edits.len(),
        0 <= j < edits.len(),
        edits[i].counts,
        edits[j].counts,
        precedes(edits, i, j),
    ensures
        place(edits, i) + edits[i].added <= place(edits, j),
    decreases edits[j].at, edits[j].key, j,
{
    match lemma_last_before(edits, j) {
        Some(m) => {
            assert(edits[m].at + edits[m].removed <= edits[j].at);
            if i != m {
                assert(precedes(edits, i, m));
                lemma_places_ascend(edits, i, m);
            }
        },
        None => {
            assert(!precedes(edits, i, j));
        },
    }
}

/// An edit that moves `x` ends at or before the place at which `x` arrives. It starts before it where
/// every edit that only takes away leaves something between it and `x`.
pub proof fn lemma_moved_stands_before(
    edits: Seq<Placed>,
    x: int,
    moved: spec_fn(int) -> bool,
    i: int,
)
    requires
        apart(edits),
        parts_at(edits, x, moved),
        0 <= i < edits.len(),
        edits[i].counts,
        moved(i),
    ensures
        place(edits, i) + edits[i].added <= arrives(edits, x, moved),
        (forall|k: int|
            #![trigger edits[k]]
            0 <= k < edits.len() && edits[k].counts && moved(k) && edits[k].added == 0
                ==> edits[k].at + edits[k].removed < x) ==> place(edits, i) < arrives(
            edits,
            x,
            moved,
        ),
{
    let n = edits.len() as int;
    match lemma_last_of(edits, n, moved) {
        Some(m) => {
            assert forall|k: int|
                #![trigger edits[k]]
                0 <= k < n && edits[k].counts implies moved(k) == (those_before(edits, m)(k) || k
                == m) by {}
            lemma_total_one_more(edits, n, those_before(edits, m), moved, m);
            assert(edits[m].at + edits[m].removed <= x);
            if i != m {
                assert(precedes(edits, i, m));
                lemma_places_ascend(edits, i, m);
            }
        },
        None => {
            assert(!moved(i));
        },
    }
}

/// An edit that does not move `x` stands at the place at which `x` arrives or behind it; behind it
/// where all such edits stand behind `x`.
pub proof fn lemma_unmoved_stands_behind(
    edits: Seq<Placed>,
    x: int,
    moved: spec_fn(int) -> bool,
    j: int,
)
    requires
        apart(edits),
        parts_at(edits, x, moved),
        0 <= j < edits.len(),
        edits[j].counts,
        !moved(j),
    ensures
        arrives(edits, x, moved) <= place(edits, j),
        (forall|k: int|
            #![trigger edits[k]]
            0 <= k < edits.len() && edits[k].counts && !moved(k) ==> x < edits[k].at) ==> arrives(
            edits,
            x,
            moved,
        ) < place(edits, j),
    decreases edits[j].at, edits[j].key, j,
{
    let n = edits.len() as int;
    // Every edit that moves `x` comes before `j`.
    assert forall|k: int|
        #![trigger edits[k]]
        0 <= k < n && edits[k].counts && moved(k) implies precedes(edits, k, j) by {
        if precedes(edits, j, k) {
            assert(edits[j].counts && edits[k].counts);
            assert(moved(j));
        }
    }
    assert(x <= edits[j].at);
    match lemma_last_before(edits, j) {
        Some(m) => {
            if moved(m) {
                assert forall|k: int|
                    #![trigger edits[k]]
                    0 <= k < n && edits[k].counts implies moved(k) == those_before(edits, j)(k) by {
                    if precedes(edits, k, j) && k != m {
                        assert(precedes(edits, k, m));
                        assert(edits[k].counts && edits[m].counts);
                    }
                }
                lemma_total_agree(edits, n, moved, those_before(edits, j));
            } else {
                lemma_unmoved_stands_behind(edits, x, moved, m);
                lemma_places_ascend(edits, m, j);
            }
        },
        None => {
            lemma_total_none(edits, n, moved);
        },
    }
}

/// No position arrives before the start.
pub proof fn lemma_arrives_in_range(edits: Seq<Placed>, x: int, moved: spec_fn(int) -> bool)
    requires
        apart(edits),
        parts_at(edits, x, moved),
        0 <= x,
    ensures
        0 <= arrives(edits, x, moved),
{
    let len = edits.len() as int;
    lemma_total_bounds(edits, len, moved);
    match lemma_last_of(edits, len, moved) {
        Some(m) => {
            assert forall|k: int|
                #![trigger edits[k]]
                0 <= k < len && edits[k].counts implies moved(k) == (those_before(edits, m)(k) || k
                == m) by {}
            lemma_total_one_more(edits, len, those_before(edits, m), moved, m);
            lemma_taken_before(edits, m);
            assert(edits[m].at + edits[m].removed <= x);
        },
        None => {
            lemma_total_none(edits, len, moved);
        },
    }
}

/// Where edits are apart, an edit stands before `x`, or covers it, as its place says.
pub proof fn lemma_apart_stands(edits: Seq<Placed>, i: int, x: int)
    requires
        apart(edits),
        0 <= i < edits.len(),
        edits[i].counts,
    ensures
        stands_before(edits, i, x) == (place(edits, i) < x),
        covers(edits, i, x) == (place(edits, i) <= x < end(edits, i)),
        shows(edits, i, x) == (place(edits, i) <= x < end(edits, i)),
{
    assert forall|k: int|
        #![trigger edits[k]]
        0 <= k < edits.len() && edits[k].counts && precedes(edits, k, i) implies end(edits, k)
        <= place(edits, i) by {
        lemma_places_ascend(edits, k, i);
    }
}

/// No position is covered twice.
pub proof fn lemma_covers_once(edits: Seq<Placed>, i: int, j: int, x: int)
    requires
        0 <= i < edits.len(),
        0 <= j < edits.len(),
        edits[i].counts,
        edits[j].counts,
        covers(edits, i, x),
        covers(edits, j, x),
    ensures
        i == j,
{
    if i != j {
        if precedes(edits, i, j) {
            assert(end(edits, i) <= x);
        } else {
            assert(precedes(edits, j, i));
            assert(end(edits, j) <= x);
        }
    }
}

/// Where all edits are at `x` or behind it, none stands before it.
pub proof fn lemma_nothing_before(edits: Seq<Placed>, x: int, i: int)
    requires
        forall|k: int|
            #![trigger edits[k]]
            0 <= k < edits.len() && edits[k].counts ==> x <= edits[k].at && 0 <= edits[k].added,
        0 <= i < edits.len(),
        edits[i].counts,
    ensures
        !stands_before(edits, i, x),
{
    match lemma_first_of(edits, edits.len() as int, those_before(edits, i)) {
        Some(f) => {
            assert(those_before(edits, i)(f));
            assert forall|k: int|
                #![trigger edits[k]]
                0 <= k < edits.len() && edits[k].counts implies !those_before(edits, f)(k) by {
                if precedes(edits, k, f) {
                    assert(those_before(edits, i)(k));
                }
            }
            lemma_total_none(edits, edits.len() as int, those_before(edits, f));
            assert(end(edits, f) >= x);
        },
        None => {
            lemma_total_none(edits, edits.len() as int, those_before(edits, i));
        },
    }
}

/// The first of the chosen edits, if there is one.
proof fn lemma_first_of(edits: Seq<Placed>, n: int, chosen: spec_fn(int) -> bool) -> (r: Option<
    int,
>)
    requires
        0 <= n <= edits.len(),
    ensures
        match r {
            Some(m) => {
                &&& 0 <= m < n
                &&& edits[m].counts
                &&& chosen(m)
                &&& forall|k: int|
                    #![trigger edits[k]]
                    0 <= k < n && edits[k].counts && chosen(k) ==> k == m || precedes(edits, m, k)
            },
            None => forall|k: int|
                #![trigger edits[k]]
                0 <= k < n && edits[k].counts ==> !chosen(k),
        },
    decreases n,
{
    if n == 0 {
        None
    } else {
        let rest = lemma_first_of(edits, n - 1, chosen);
        if edits[n - 1].counts && chosen(n - 1) {
            match rest {
                Some(m) => if precedes(edits, m, n - 1) {
                    Some(m)
                } else {
                    Some(n - 1)
                },
                None => Some(n - 1),
            }
        } else {
            rest
        }
    }
}

/// An edit more that does not count changes no total.
pub proof fn lemma_total_ignores(
    edits: Seq<Placed>,
    extra: Placed,
    one: spec_fn(int) -> bool,
    two: spec_fn(int) -> bool,
    n: int,
)
    requires
        !extra.counts,
        0 <= n <= edits.len(),
        forall|k: int|
            #![trigger edits[k]]
            0 <= k < edits.len() && edits[k].counts ==> one(k) == two(k),
    ensures
        total(edits.push(extra), n, one) == total(edits, n, two),
        total(edits.push(extra), edits.len() as int + 1, one) == total(
            edits.push(extra),
            edits.len() as int,
            one,
        ),
    decreases n,
{
    let more = edits.push(extra);
    assert(more[edits.len() as int] == extra);
    if n > 0 {
        lemma_total_ignores(edits, extra, one, two, n - 1);
        assert(more[n - 1] == edits[n - 1]);
        assert(edits[n - 1].counts ==> one(n - 1) == two(n - 1));
    }
}

/// An edit more that does not count moves no other.
pub proof fn lemma_place_ignores(edits: Seq<Placed>, extra: Placed, i: int)
    requires
        !extra.counts,
        0 <= i < edits.len(),
    ensures
        place(edits.push(extra), i) == place(edits, i),
        end(edits.push(extra), i) == end(edits, i),
{
    let more = edits.push(extra);
    assert(more[i] == edits[i]);
    assert forall|k: int|
        #![trigger edits[k]]
        0 <= k < edits.len() && edits[k].counts implies those_before(more, i)(k) == those_before(
        edits,
        i,
    )(k) by {
        assert(more[k] == edits[k]);
    }
    lemma_total_ignores(
        edits,
        extra,
        those_before(more, i),
        those_before(edits, i),
        edits.len() as int,
    );
}

/// An edit more that does not count changes nothing of the others.
pub proof fn lemma_stands_ignores(edits: Seq<Placed>, extra: Placed, i: int, x: int)
    requires
        !extra.counts,
        0 <= i < edits.len(),
    ensures
        stands_before(edits.push(extra), i, x) == stands_before(edits, i, x),
        covers(edits.push(extra), i, x) == covers(edits, i, x),
        shows(edits.push(extra), i, x) == shows(edits, i, x),
{
    let more = edits.push(extra);
    lemma_place_ignores(edits, extra, i);
    assert forall|k: int|
        #![trigger edits[k]]
        0 <= k < edits.len() implies more[k] == edits[k] && end(more, k) == end(edits, k)
        && precedes(more, k, i) == precedes(edits, k, i) by {
        lemma_place_ignores(edits, extra, k);
    }
    assert(more[edits.len() as int] == extra);
    if stands_before(more, i, x) {
        assert forall|k: int|
            #![trigger edits[k]]
            0 <= k < edits.len() && edits[k].counts && precedes(edits, k, i) implies end(edits, k)
            < x by {
            assert(more[k] == edits[k]);
        }
    }
    if covers(more, i, x) {
        assert forall|k: int|
            #![trigger edits[k]]
            0 <= k < edits.len() && edits[k].counts && precedes(edits, k, i) implies end(edits, k)
            <= x by {
            assert(more[k] == edits[k]);
        }
    }
    if shows(more, i, x) {
        assert forall|k: int|
            #![trigger edits[k]]
            i < k < edits.len() && edits[k].counts && precedes(edits, k, i) implies end(edits, k)
            <= x by {
            assert(more[k] == edits[k]);
        }
    }
    if stands_before(edits, i, x) {
        assert forall|k: int|
            #![trigger more[k]]
            0 <= k < more.len() && more[k].counts && precedes(more, k, i) implies end(more, k)
            < x by {
            assert(more[k] == edits[k]);
        }
    }
    if covers(edits, i, x) {
        assert forall|k: int|
            #![trigger more[k]]
            0 <= k < more.len() && more[k].counts && precedes(more, k, i) implies end(more, k)
            <= x by {
            assert(more[k] == edits[k]);
        }
    }
    if shows(edits, i, x) {
        assert forall|k: int|
            #![trigger more[k]]
            i < k < more.len() && more[k].counts && precedes(more, k, i) implies end(more, k)
            <= x by {
            assert(more[k] == edits[k]);
        }
    }
}

// ---------------------------------------------------------------------------
// Working out places
// ---------------------------------------------------------------------------
/// An edit of a sequence of positions.
#[derive(Debug, Clone, Copy)]
pub struct Edit {
    pub counts: bool,
    pub at: usize,
    pub key: usize,
    pub added: usize,
    /// Positions added less positions taken away.
    pub delta: isize,
}

impl View for Edit {
    type V = Placed;

    open spec fn view(&self) -> Placed {
        Placed {
            counts: self.counts,
            at: self.at as int,
            key: self.key as int,
            removed: self.added - self.delta,
            added: self.added as int,
        }
    }
}

/// The edits of a list.
pub open spec fn placed(edits: Seq<Edit>) -> Seq<Placed> {
    edits.map_values(|e: Edit| e@)
}

fn comes_before(edits: &Vec<Edit>, k: usize, i: usize) -> (r: bool)
    requires
        k < edits@.len(),
        i < edits@.len(),
    ensures
        r == precedes(placed(edits@), k as int, i as int),
{
    let a = &edits[k];
    let b = &edits[i];
    a.at < b.at || (a.at == b.at && (a.key < b.key || (a.key == b.key && k < i)))
}

/// No sum over a list leaves the range of a wide integer.
pub proof fn lemma_total_is_narrow(edits: Seq<Edit>, n: int, chosen: spec_fn(int) -> bool)
    requires
        0 <= n <= edits.len(),
    ensures
        -n * 0x8000_0000_0000_0000 <= total(placed(edits), n, chosen) <= n * 0x7fff_ffff_ffff_ffff,
    decreases n,
{
    if n > 0 {
        lemma_total_is_narrow(edits, n - 1, chosen);
        assert(placed(edits)[n - 1] == edits[n - 1]@);
        assert(i64::MIN <= edits[n - 1].delta <= i64::MAX);
    }
}

/// The places of the edits.
pub fn places(edits: &Vec<Edit>) -> (r: Vec<i128>)
    ensures
        r@.len() == edits@.len(),
        forall|i: int| 0 <= i < r@.len() ==> #[trigger] r@[i] == place(placed(edits@), i),
{
    let mut out: Vec<i128> = Vec::new();
    let mut i: usize = 0;
    while i < edits.len()
        invariant
            i <= edits@.len(),
            out@.len() == i,
            forall|j: int| 0 <= j < i ==> #[trigger] out@[j] == place(placed(edits@), j),
        decreases edits@.len() - i,
    {
        out.push(place_of(edits, i));
        i = i + 1;
    }
    out
}

fn place_of(edits: &Vec<Edit>, i: usize) -> (r: i128)
    requires
        i < edits@.len(),
    ensures
        r == place(placed(edits@), i as int),
{
    let ghost all = placed(edits@);
    let ghost chosen = those_before(all, i as int);
    let mut sum: i128 = 0;
    let mut k: usize = 0;
    while k < edits.len()
        invariant
            k <= edits@.len(),
            i < edits@.len(),
            all == placed(edits@),
            chosen == those_before(all, i as int),
            sum == total(all, k as int, chosen),
        decreases edits@.len() - k,
    {
        proof {
            lemma_total_is_narrow(edits@, k as int, chosen);
            lemma_total_is_narrow(edits@, k + 1, chosen);
            assert(all[k as int] == edits@[k as int]@);
        }
        if edits[k].counts && comes_before(edits, k, i) {
            sum = sum + edits[k].delta as i128;
        }
        k = k + 1;
    }
    proof {
        lemma_total_is_narrow(edits@, k as int, chosen);
        assert(all[i as int] == edits@[i as int]@);
    }
    edits[i].at as i128 + sum
}

/// Whether what an edit at `place` added ends behind `x`.
fn ends_behind(place: i128, added: usize, x: i128) -> (r: bool)
    requires
        -0x1_0000_0000_0000_0000 <= x <= 0x1_0000_0000_0000_0000,
    ensures
        r == (place + added > x),
{
    place > x - added as i128
}

/// Whether edit `i` stands before `x`.
pub fn is_before(edits: &Vec<Edit>, places: &Vec<i128>, i: usize, x: i128) -> (r: bool)
    requires
        i < edits@.len(),
        places@.len() == edits@.len(),
        forall|k: int| 0 <= k < places@.len() ==> #[trigger] places@[k] == place(placed(edits@), k),
        -0x1_0000_0000_0000_0000 < x <= 0x1_0000_0000_0000_0000,
    ensures
        r == stands_before(placed(edits@), i as int, x as int),
{
    let ghost all = placed(edits@);
    if places[i] >= x {
        return false;
    }
    let mut k: usize = 0;
    while k < edits.len()
        invariant
            k <= edits@.len(),
            i < edits@.len(),
            places@.len() == edits@.len(),
            all == placed(edits@),
            forall|j: int| 0 <= j < places@.len() ==> #[trigger] places@[j] == place(all, j),
            -0x1_0000_0000_0000_0000 < x <= 0x1_0000_0000_0000_0000,
            forall|j: int|
                #![trigger all[j]]
                0 <= j < k && all[j].counts && precedes(all, j, i as int) ==> end(all, j) < x,
        decreases edits@.len() - k,
    {
        assert(all[k as int] == edits@[k as int]@);
        if edits[k].counts && comes_before(edits, k, i) && ends_behind(
            places[k],
            edits[k].added,
            x - 1,
        ) {
            return false;
        }
        k = k + 1;
    }
    true
}

/// Whether edit `i` covers `x`, or shows it where only later edits are asked.
pub fn is_added_by(
    edits: &Vec<Edit>,
    places: &Vec<i128>,
    i: usize,
    x: i128,
    only_later: bool,
) -> (r: bool)
    requires
        i < edits@.len(),
        places@.len() == edits@.len(),
        forall|k: int| 0 <= k < places@.len() ==> #[trigger] places@[k] == place(placed(edits@), k),
        -0x1_0000_0000_0000_0000 < x <= 0x1_0000_0000_0000_0000,
    ensures
        r == if only_later {
            shows(placed(edits@), i as int, x as int)
        } else {
            covers(placed(edits@), i as int, x as int)
        },
{
    let ghost all = placed(edits@);
    assert(all[i as int] == edits@[i as int]@);
    if places[i] > x || !ends_behind(places[i], edits[i].added, x) {
        return false;
    }
    let n = edits.len();
    let mut k: usize = if only_later {
        i + 1
    } else {
        0
    };
    let ghost first = k as int;
    while k < n
        invariant
            n == edits@.len(),
            first <= k <= n,
            first == if only_later {
                i + 1
            } else {
                0
            },
            i < edits@.len(),
            places@.len() == edits@.len(),
            all == placed(edits@),
            place(all, i as int) <= x < end(all, i as int),
            forall|j: int| 0 <= j < places@.len() ==> #[trigger] places@[j] == place(all, j),
            -0x1_0000_0000_0000_0000 < x <= 0x1_0000_0000_0000_0000,
            forall|j: int|
                #![trigger all[j]]
                first <= j < k && all[j].counts && precedes(all, j, i as int) ==> end(all, j) <= x,
        decreases edits@.len() - k,
    {
        assert(all[k as int] == edits@[k as int]@);
        if edits[k].counts && comes_before(edits, k, i) && ends_behind(
            places[k],
            edits[k].added,
            x,
        ) {
            return false;
        }
        k = k + 1;
    }
    true
}

} // verus!
