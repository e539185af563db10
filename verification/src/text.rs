//! Text as a sequence of characters: searching, splitting, trimming, and numbers in decimal.
use crate::arith::fits_isize;
use vstd::prelude::*;
use vstd::string::StrSliceExecFns;
use vstd::string::StringExecFns;

verus! {

// ---------------------------------------------------------------------------
// Splitting
// ---------------------------------------------------------------------------
/// What stands before and after the first `c` in `s`.
pub open spec fn split_first(s: Seq<char>, c: char) -> Option<(Seq<char>, Seq<char>)> {
    match s.index_of_first(c) {
        Some(i) => Some((s.take(i), s.skip(i + 1))),
        None => None,
    }
}

/// What stands before and after the last `c` in `s`.
pub open spec fn split_last(s: Seq<char>, c: char) -> Option<(Seq<char>, Seq<char>)> {
    match s.index_of_last(c) {
        Some(i) => Some((s.take(i), s.skip(i + 1))),
        None => None,
    }
}

/// `pat` stands in `s` at index `i`.
pub open spec fn occurs_at(s: Seq<char>, pat: Seq<char>, i: int) -> bool {
    0 <= i && i + pat.len() <= s.len() && s.subrange(i, i + pat.len()) == pat
}

/// `pat` stands somewhere in `s`.
pub open spec fn occurs(s: Seq<char>, pat: Seq<char>) -> bool {
    exists|i: int| occurs_at(s, pat, i)
}

/// `i` is the first index at which `pat` stands in `s`.
pub open spec fn first_occurrence(s: Seq<char>, pat: Seq<char>, i: int) -> bool {
    occurs_at(s, pat, i) && forall|j: int| 0 <= j < i ==> !occurs_at(s, pat, j)
}

/// Where `pat` stands at index `i`, it has a first occurrence.
proof fn lemma_occurrence_has_first(s: Seq<char>, pat: Seq<char>, i: int)
    requires
        occurs_at(s, pat, i),
    ensures
        exists|j: int| first_occurrence(s, pat, j),
    decreases i,
{
    if exists|j: int| 0 <= j < i && occurs_at(s, pat, j) {
        let j = choose|j: int| 0 <= j < i && occurs_at(s, pat, j);
        lemma_occurrence_has_first(s, pat, j);
    } else {
        assert(first_occurrence(s, pat, i));
    }
}

/// Splitting on `pat` gives two parts of `s`.
pub proof fn lemma_split_on_parts(s: Seq<char>, pat: Seq<char>)
    requires
        occurs(s, pat),
    ensures
        exists|i: int|
            #![trigger s.take(i)]
            0 <= i && i + pat.len() <= s.len() && split_on(s, pat) == Some(
                (s.take(i), s.skip(i + pat.len())),
            ),
{
    let k = choose|k: int| occurs_at(s, pat, k);
    lemma_occurrence_has_first(s, pat, k);
    let i = choose|i: int| first_occurrence(s, pat, i);
    assert(split_on(s, pat) == Some((s.take(i), s.skip(i + pat.len()))));
}

/// What stands before and after the first occurrence of `pat` in `s`.
pub open spec fn split_on(s: Seq<char>, pat: Seq<char>) -> Option<(Seq<char>, Seq<char>)> {
    if occurs(s, pat) {
        let i = choose|i: int| first_occurrence(s, pat, i);
        Some((s.take(i), s.skip(i + pat.len())))
    } else {
        None
    }
}

/// `s` without `prefix`, if it starts with it.
pub open spec fn without_prefix(s: Seq<char>, prefix: Seq<char>) -> Option<Seq<char>> {
    if prefix.is_prefix_of(s) {
        Some(s.skip(prefix.len() as int))
    } else {
        None
    }
}

/// `s` cut at every `c`; there is always at least one piece.
pub open spec fn split_all(s: Seq<char>, c: char) -> Seq<Seq<char>>
    decreases s.len(),
{
    match s.index_of_first(c) {
        None => seq![s],
        Some(i) => if 0 <= i < s.len() {
            seq![s.take(i)] + split_all(s.skip(i + 1), c)
        } else {
            seq![s]
        },
    }
}

/// The texts that a list of string slices holds.
pub open spec fn slices(v: Seq<&str>) -> Seq<Seq<char>> {
    v.map_values(|x: &str| x@)
}

/// The texts that a list of strings holds.
pub open spec fn strings(v: Seq<String>) -> Seq<Seq<char>> {
    v.map_values(|x: String| x@)
}

proof fn lemma_first_index(s: Seq<char>, c: char, i: int)
    requires
        0 <= i < s.len(),
        s[i] == c,
        forall|j: int| 0 <= j < i ==> s[j] != c,
    ensures
        s.index_of_first(c) == Some(i),
{
    s.index_of_first_ensures(c);
}

proof fn lemma_last_index(s: Seq<char>, c: char, i: int)
    requires
        0 <= i < s.len(),
        s[i] == c,
        forall|j: int| i < j < s.len() ==> s[j] != c,
    ensures
        s.index_of_last(c) == Some(i),
{
    s.index_of_last_ensures(c);
}

/// The characters of `s`.
pub fn chars_of(s: &str) -> (r: Vec<char>)
    ensures
        r@ == s@,
{
    let mut out: Vec<char> = Vec::new();
    for c in it: s.chars()
        invariant
            out@ == it.seq().take(it.index() as int),
            it.seq() == s@,
    {
        out.push(c);
    }
    out
}

/// The first index from `start` on that holds `c`, or the length.
fn find_from(v: &Vec<char>, c: char, start: usize) -> (r: usize)
    requires
        start <= v@.len(),
    ensures
        start <= r <= v@.len(),
        r < v@.len() ==> v@[r as int] == c,
        forall|j: int| start <= j < r ==> v@[j] != c,
{
    let mut i: usize = start;
    while i < v.len() && v[i] != c
        invariant
            start <= i <= v@.len(),
            forall|j: int| start <= j < i ==> v@[j] != c,
        decreases v@.len() - i,
    {
        i = i + 1;
    }
    i
}

/// Splits `s` at the first `c`.
pub fn split_once<'a>(s: &'a str, c: char) -> (r: Option<(&'a str, &'a str)>)
    ensures
        match split_first(s@, c) {
            Some(p) => r matches Some(q) && q.0@ == p.0 && q.1@ == p.1,
            None => r is None,
        },
{
    let v = chars_of(s);
    let i = find_from(&v, c, 0);
    if i < v.len() {
        proof {
            lemma_first_index(s@, c, i as int);
        }
        Some((s.substring_char(0, i), s.substring_char(i + 1, v.len())))
    } else {
        proof {
            s@.index_of_first_ensures(c);
        }
        None
    }
}

/// Splits `s` at the last `c`.
pub fn rsplit_once<'a>(s: &'a str, c: char) -> (r: Option<(&'a str, &'a str)>)
    ensures
        match split_last(s@, c) {
            Some(p) => r matches Some(q) && q.0@ == p.0 && q.1@ == p.1,
            None => r is None,
        },
{
    let v = chars_of(s);
    let mut i: usize = v.len();
    while i > 0 && v[i - 1] != c
        invariant
            i <= v@.len(),
            forall|j: int| i <= j < v@.len() ==> v@[j] != c,
        decreases i,
    {
        i = i - 1;
    }
    if i > 0 {
        proof {
            lemma_last_index(s@, c, i - 1);
        }
        Some((s.substring_char(0, i - 1), s.substring_char(i, v.len())))
    } else {
        proof {
            s@.index_of_last_ensures(c);
        }
        None
    }
}

/// Whether `pat` stands in `v` at index `i`.
fn matches_at(v: &Vec<char>, pat: &Vec<char>, i: usize) -> (r: bool)
    requires
        i <= v@.len(),
    ensures
        r == occurs_at(v@, pat@, i as int),
{
    if v.len() - i < pat.len() {
        return false;
    }
    let n: usize = v.len();
    let mut k: usize = 0;
    while k < pat.len()
        invariant
            n == v@.len(),
            k <= pat@.len(),
            i + pat@.len() <= n,
            forall|j: int| 0 <= j < k ==> v@[i + j] == pat@[j],
        decreases pat@.len() - k,
    {
        if v[i + k] != pat[k] {
            proof {
                if v@.subrange(i as int, i + pat@.len()) == pat@ {
                    assert(v@.subrange(i as int, i + pat@.len())[k as int] == pat@[k as int]);
                }
            }
            return false;
        }
        k = k + 1;
    }
    assert(v@.subrange(i as int, i + pat@.len()) =~= pat@);
    true
}

/// The first index at which `pat` stands in `v`.
fn find_sub(v: &Vec<char>, pat: &Vec<char>) -> (r: Option<usize>)
    ensures
        match r {
            Some(i) => first_occurrence(v@, pat@, i as int),
            None => !occurs(v@, pat@),
        },
{
    let mut i: usize = 0;
    loop
        invariant
            i <= v@.len(),
            forall|j: int| 0 <= j < i ==> !occurs_at(v@, pat@, j),
        decreases v@.len() - i,
    {
        if matches_at(v, pat, i) {
            return Some(i);
        }
        if i >= v.len() {
            return None;
        }
        i = i + 1;
    }
}

/// Splits `s` at the first occurrence of `pat`.
pub fn split_once_str<'a>(s: &'a str, pat: &str) -> (r: Option<(&'a str, &'a str)>)
    ensures
        match split_on(s@, pat@) {
            Some(p) => r matches Some(q) && q.0@ == p.0 && q.1@ == p.1,
            None => r is None,
        },
{
    let v = chars_of(s);
    let p = chars_of(pat);
    let n: usize = v.len();
    match find_sub(&v, &p) {
        Some(i) => {
            proof {
                assert(occurs(s@, pat@));
                assert(i + p@.len() <= n);
                let k = choose|k: int| first_occurrence(s@, pat@, k);
                assert(first_occurrence(s@, pat@, k));
                assert(k == i);
            }
            Some((s.substring_char(0, i), s.substring_char(i + p.len(), n)))
        },
        None => None,
    }
}

/// Whether `pat` stands somewhere in `s`.
pub fn contains_str(s: &str, pat: &str) -> (r: bool)
    ensures
        r == occurs(s@, pat@),
{
    let v = chars_of(s);
    let p = chars_of(pat);
    find_sub(&v, &p).is_some()
}

/// Whether `c` stands somewhere in `s`.
pub fn contains_char(s: &str, c: char) -> (r: bool)
    ensures
        r == s@.contains(c),
{
    let v = chars_of(s);
    let i = find_from(&v, c, 0);
    i < v.len()
}

/// How often `c` stands in `s`.
pub open spec fn count_of<T>(s: Seq<T>, c: T) -> nat
    decreases s.len(),
{
    if s.len() == 0 {
        0
    } else {
        count_of(s.drop_last(), c) + if s.last() == c {
            1nat
        } else {
            0
        }
    }
}

pub proof fn lemma_count_bound<T>(s: Seq<T>, c: T)
    ensures
        count_of(s, c) <= s.len(),
    decreases s.len(),
{
    if s.len() > 0 {
        lemma_count_bound(s.drop_last(), c);
    }
}

/// How often `c` stands in `s`.
pub fn count_char(s: &str, c: char) -> (r: usize)
    ensures
        r == count_of(s@, c),
{
    let v = chars_of(s);
    let mut n: usize = 0;
    let mut i: usize = 0;
    while i < v.len()
        invariant
            i <= v@.len(),
            n == count_of(v@.take(i as int), c),
        decreases v@.len() - i,
    {
        proof {
            lemma_count_bound(v@.take(i as int), c);
            assert(v@.take(i + 1).drop_last() =~= v@.take(i as int));
        }
        if v[i] == c {
            n = n + 1;
        }
        i = i + 1;
    }
    assert(v@.take(i as int) =~= v@);
    n
}

/// Removes `prefix` from the start of `s`.
pub fn strip_prefix<'a>(s: &'a str, prefix: &str) -> (r: Option<&'a str>)
    ensures
        match without_prefix(s@, prefix@) {
            Some(t) => r matches Some(q) && q@ == t,
            None => r is None,
        },
{
    let v = chars_of(s);
    let p = chars_of(prefix);
    if matches_at(&v, &p, 0) {
        Some(s.substring_char(p.len(), v.len()))
    } else {
        proof {
            if prefix@.is_prefix_of(s@) {
                assert(s@.subrange(0, prefix@.len() as int) =~= prefix@);
            }
        }
        None
    }
}

/// Removes one `c` from the end of `s`.
pub fn strip_suffix_char<'a>(s: &'a str, c: char) -> (r: Option<&'a str>)
    ensures
        if s@.len() > 0 && s@.last() == c {
            r matches Some(q) && q@ == s@.drop_last()
        } else {
            r is None
        },
{
    let v = chars_of(s);
    if v.len() > 0 && v[v.len() - 1] == c {
        Some(s.substring_char(0, v.len() - 1))
    } else {
        None
    }
}

/// Cuts `s` at every `c`.
pub fn split_chars<'a>(s: &'a str, c: char) -> (r: Vec<&'a str>)
    ensures
        slices(r@) == split_all(s@, c),
{
    let v = chars_of(s);
    let mut out: Vec<&'a str> = Vec::new();
    let mut start: usize = 0;
    assert(s@.skip(0) =~= s@);
    loop
        invariant
            v@ == s@,
            start <= v@.len(),
            split_all(s@, c) == slices(out@) + split_all(s@.skip(start as int), c),
        decreases v@.len() - start,
    {
        let i = find_from(&v, c, start);
        let ghost rest = s@.skip(start as int);
        let ghost before = out@;
        out.push(s.substring_char(start, i));
        assert(slices(out@) =~= slices(before).push(s@.subrange(start as int, i as int)));
        if i >= v.len() {
            proof {
                rest.index_of_first_ensures(c);
                assert(!rest.contains(c)) by {
                    if rest.contains(c) {
                        let j = choose|j: int| 0 <= j < rest.len() && rest[j] == c;
                        assert(v@[start + j] == c);
                    }
                }
                assert(s@.subrange(start as int, i as int) =~= rest);
            }
            assert(slices(out@) =~= split_all(s@, c));
            return out;
        }
        proof {
            lemma_first_index(rest, c, i - start);
            assert(rest.take(i - start) =~= s@.subrange(start as int, i as int));
            assert(rest.skip(i - start + 1) =~= s@.skip(i + 1));
            assert(slices(out@) + split_all(s@.skip(i + 1), c) =~= slices(before) + (seq![
                rest.take(i - start),
            ] + split_all(rest.skip(i - start + 1), c)));
        }
        start = i + 1;
    }
}

// ---------------------------------------------------------------------------
// White space
// ---------------------------------------------------------------------------
/// Unicode `White_Space`.
pub open spec fn is_space(c: char) -> bool {
    ||| '\u{9}' <= c <= '\u{d}'
    ||| c == ' '
    ||| c == '\u{85}'
    ||| c == '\u{a0}'
    ||| c == '\u{1680}'
    ||| '\u{2000}' <= c <= '\u{200a}'
    ||| c == '\u{2028}'
    ||| c == '\u{2029}'
    ||| c == '\u{202f}'
    ||| c == '\u{205f}'
    ||| c == '\u{3000}'
}

/// `s` without the white space at its start.
pub open spec fn trimmed_start(s: Seq<char>) -> Seq<char>
    decreases s.len(),
{
    if s.len() > 0 && is_space(s[0]) {
        trimmed_start(s.drop_first())
    } else {
        s
    }
}

/// `s` without the white space at its end.
pub open spec fn trimmed_end(s: Seq<char>) -> Seq<char>
    decreases s.len(),
{
    if s.len() > 0 && is_space(s.last()) {
        trimmed_end(s.drop_last())
    } else {
        s
    }
}

/// `s` without the white space at either end.
pub open spec fn trimmed(s: Seq<char>) -> Seq<char> {
    trimmed_end(trimmed_start(s))
}

fn space(c: char) -> (r: bool)
    ensures
        r == is_space(c),
{
    ('\u{9}' <= c && c <= '\u{d}') || c == ' ' || c == '\u{85}' || c == '\u{a0}' || c == '\u{1680}'
        || ('\u{2000}' <= c && c <= '\u{200a}') || c == '\u{2028}' || c == '\u{2029}' || c
        == '\u{202f}' || c == '\u{205f}' || c == '\u{3000}'
}

/// Removes the white space at the end of `s`.
pub fn trim_end<'a>(s: &'a str) -> (r: &'a str)
    ensures
        r@ == trimmed_end(s@),
{
    let v = chars_of(s);
    let mut n: usize = v.len();
    assert(s@.take(n as int) =~= s@);
    while n > 0 && space(v[n - 1])
        invariant
            v@ == s@,
            n <= v@.len(),
            trimmed_end(s@) == trimmed_end(s@.take(n as int)),
        decreases n,
    {
        assert(s@.take(n as int).drop_last() =~= s@.take(n - 1));
        n = n - 1;
    }
    s.substring_char(0, n)
}

/// Removes the white space at both ends of `s`.
pub fn trim<'a>(s: &'a str) -> (r: &'a str)
    ensures
        r@ == trimmed(s@),
{
    let v = chars_of(s);
    let mut i: usize = 0;
    assert(s@.skip(0) =~= s@);
    while i < v.len() && space(v[i])
        invariant
            v@ == s@,
            i <= v@.len(),
            trimmed_start(s@) == trimmed_start(s@.skip(i as int)),
        decreases v@.len() - i,
    {
        assert(s@.skip(i as int).drop_first() =~= s@.skip(i + 1));
        i = i + 1;
    }
    assert(s@.subrange(i as int, s@.len() as int) =~= s@.skip(i as int));
    trim_end(s.substring_char(i, v.len()))
}

// ---------------------------------------------------------------------------
// Lines
// ---------------------------------------------------------------------------
/// `s` without one carriage return at its end.
pub open spec fn without_cr(s: Seq<char>) -> Seq<char> {
    if s.len() > 0 && s.last() == '\r' {
        s.drop_last()
    } else {
        s
    }
}

/// The lines of `s`: each ends in `\n` or `\r\n`, and the last one need not be ended.
pub open spec fn lines_of(s: Seq<char>) -> Seq<Seq<char>>
    decreases s.len(),
{
    if s.len() == 0 {
        seq![]
    } else {
        match s.index_of_first('\n') {
            None => seq![s],
            Some(i) => if 0 <= i < s.len() {
                seq![without_cr(s.take(i))] + lines_of(s.skip(i + 1))
            } else {
                seq![s]
            },
        }
    }
}

/// The lines of `s`.
pub fn lines<'a>(s: &'a str) -> (r: Vec<&'a str>)
    ensures
        slices(r@) == lines_of(s@),
{
    let v = chars_of(s);
    let mut out: Vec<&'a str> = Vec::new();
    let mut start: usize = 0;
    assert(s@.skip(0) =~= s@);
    assert(slices(out@) + lines_of(s@) =~= lines_of(s@));
    while start < v.len()
        invariant
            v@ == s@,
            start <= v@.len(),
            lines_of(s@) == slices(out@) + lines_of(s@.skip(start as int)),
        decreases v@.len() - start,
    {
        let i = find_from(&v, '\n', start);
        let ghost rest = s@.skip(start as int);
        let ghost before = out@;
        if i >= v.len() {
            proof {
                rest.index_of_first_ensures('\n');
                assert(!rest.contains('\n')) by {
                    if rest.contains('\n') {
                        let j = choose|j: int| 0 <= j < rest.len() && rest[j] == '\n';
                        assert(v@[start + j] == '\n');
                    }
                }
                assert(s@.subrange(start as int, i as int) =~= rest);
            }
            out.push(s.substring_char(start, i));
            assert(slices(out@) =~= slices(before).push(rest));
            assert(slices(out@) =~= lines_of(s@));
            return out;
        }
        let end = if i > start && v[i - 1] == '\r' {
            i - 1
        } else {
            i
        };
        out.push(s.substring_char(start, end));
        proof {
            lemma_first_index(rest, '\n', i - start);
            assert(rest.take(i - start) =~= s@.subrange(start as int, i as int));
            assert(without_cr(rest.take(i - start)) =~= s@.subrange(start as int, end as int));
            assert(rest.skip(i - start + 1) =~= s@.skip(i + 1));
            assert(slices(out@) =~= slices(before).push(s@.subrange(start as int, end as int)));
            assert(slices(out@) + lines_of(s@.skip(i + 1)) =~= slices(before) + (seq![
                without_cr(rest.take(i - start)),
            ] + lines_of(rest.skip(i - start + 1))));
        }
        start = i + 1;
    }
    assert(s@.skip(start as int) =~= Seq::<char>::empty());
    assert(slices(out@) =~= lines_of(s@));
    out
}

// ---------------------------------------------------------------------------
// Numbers
// ---------------------------------------------------------------------------
/// A decimal digit.
pub open spec fn is_digit(c: char) -> bool {
    '0' <= c <= '9'
}

/// The number that a string of digits stands for.
pub open spec fn digits_value(s: Seq<char>) -> nat
    decreases s.len(),
{
    if s.len() == 0 {
        0
    } else {
        (10 * digits_value(s.drop_last()) + (s.last() as int - '0' as int)) as nat
    }
}

/// `s` is one digit or more.
pub open spec fn all_digits(s: Seq<char>) -> bool {
    s.len() > 0 && forall|i: int| 0 <= i < s.len() ==> is_digit(#[trigger] s[i])
}

/// The number that `s` stands for: digits, after at most one `+`.
pub open spec fn parse_unsigned(s: Seq<char>) -> Option<nat> {
    let digits = if s.len() > 0 && s[0] == '+' {
        s.skip(1)
    } else {
        s
    };
    if all_digits(digits) {
        Some(digits_value(digits))
    } else {
        None
    }
}

/// The number that `s` stands for: digits, after at most one sign.
pub open spec fn parse_signed(s: Seq<char>) -> Option<int> {
    if s.len() > 0 && s[0] == '-' {
        if all_digits(s.skip(1)) {
            Some(-digits_value(s.skip(1)))
        } else {
            None
        }
    } else {
        match parse_unsigned(s) {
            Some(n) => Some(n as int),
            None => None,
        }
    }
}

/// The digit that stands for `d`.
pub open spec fn digit(d: int) -> char {
    ('0' as int + d) as char
}

/// `n` in decimal, without leading zeros.
pub open spec fn decimal(n: nat) -> Seq<char>
    decreases n,
{
    if n < 10 {
        seq![digit(n as int)]
    } else {
        decimal(n / 10).push(digit(n as int % 10))
    }
}

/// `x` in decimal, with a minus sign where it is negative.
pub open spec fn decimal_signed(x: int) -> Seq<char> {
    if x < 0 {
        seq!['-'] + decimal((-x) as nat)
    } else {
        decimal(x as nat)
    }
}

/// A number written in decimal reads back as itself.
pub proof fn lemma_decimal_reads_back(n: nat)
    ensures
        all_digits(decimal(n)),
        digits_value(decimal(n)) == n,
    decreases n,
{
    if n < 10 {
        assert(decimal(n).drop_last() =~= Seq::<char>::empty());
        assert(digits_value(decimal(n).drop_last()) == 0);
    } else {
        lemma_decimal_reads_back(n / 10);
        assert(decimal(n).drop_last() =~= decimal(n / 10));
        assert(digits_value(decimal(n)) == (10 * digits_value(decimal(n / 10)) + n as int % 10));
    }
}

/// Writing a signed number in decimal and reading it gives the number.
pub proof fn law_signed_decimal_round_trip(x: int)
    ensures
        parse_signed(decimal_signed(x)) == Some(x),
{
    let n = if x < 0 {
        (-x) as nat
    } else {
        x as nat
    };
    lemma_decimal_reads_back(n);
    if x < 0 {
        assert(decimal_signed(x).skip(1) =~= decimal(n));
    } else {
        assert(is_digit(decimal(n)[0]));
    }
}

proof fn lemma_digits_grow(s: Seq<char>, i: int)
    requires
        0 <= i <= s.len(),
        forall|j: int| 0 <= j < s.len() ==> is_digit(#[trigger] s[j]),
    ensures
        digits_value(s.take(i)) <= digits_value(s),
    decreases s.len() - i,
{
    if i < s.len() {
        lemma_digits_grow(s, i + 1);
        assert(s.take(i + 1).drop_last() =~= s.take(i));
        assert(is_digit(s[i]));
    } else {
        assert(s.take(i) =~= s);
    }
}

/// Reads the digits of `v` from `start` on, if their number fits.
fn read_digits(v: &Vec<char>, start: usize) -> (r: Option<usize>)
    requires
        start <= v@.len(),
    ensures
        ({
            let s = v@.skip(start as int);
            match r {
                Some(n) => all_digits(s) && n == digits_value(s),
                None => !all_digits(s) || digits_value(s) > usize::MAX,
            }
        }),
{
    let ghost s = v@.skip(start as int);
    if start >= v.len() {
        return None;
    }
    let mut n: usize = 0;
    let mut i: usize = start;
    assert(s.take(0) =~= Seq::<char>::empty());
    while i < v.len()
        invariant
            s == v@.skip(start as int),
            start <= i <= v@.len(),
            forall|j: int| 0 <= j < i - start ==> is_digit(#[trigger] s[j]),
            n == digits_value(s.take(i - start)),
        decreases v@.len() - i,
    {
        let c = v[i];
        assert(s[i - start] == c);
        if !('0' <= c && c <= '9') {
            return None;
        }
        let d: usize = (c as u32 - '0' as u32) as usize;
        proof {
            assert(s.take(i + 1 - start).drop_last() =~= s.take(i - start));
            assert(digits_value(s.take(i + 1 - start)) == 10 * n + d);
            if all_digits(s) {
                lemma_digits_grow(s, i + 1 - start);
            }
        }
        if n > usize::MAX / 10 {
            return None;
        }
        match (n * 10).checked_add(d) {
            Some(m) => {
                n = m;
            },
            None => {
                return None;
            },
        }
        i = i + 1;
    }
    assert(s.take(i - start) =~= s);
    Some(n)
}

/// Reads an `isize`.
pub fn parse_isize(s: &str) -> (r: Option<isize>)
    ensures
        match parse_signed(s@) {
            Some(x) => if fits_isize(x) {
                r == Some(x as isize)
            } else {
                r is None
            },
            None => r is None,
        },
{
    let v = chars_of(s);
    assert(s@.skip(0) =~= s@);
    if v.len() > 0 && v[0] == '-' {
        match read_digits(&v, 1) {
            Some(n) => {
                if n <= isize::MAX as usize {
                    Some(-(n as isize))
                } else if n == isize::MAX as usize + 1 {
                    Some(isize::MIN)
                } else {
                    None
                }
            },
            None => None,
        }
    } else {
        let start: usize = if v.len() > 0 && v[0] == '+' {
            1
        } else {
            0
        };
        match read_digits(&v, start) {
            Some(n) => {
                if n <= isize::MAX as usize {
                    Some(n as isize)
                } else {
                    None
                }
            },
            None => None,
        }
    }
}

/// Reads a `usize`.
pub fn parse_usize(s: &str) -> (r: Option<usize>)
    ensures
        match parse_unsigned(s@) {
            Some(n) => if n <= usize::MAX {
                r == Some(n as usize)
            } else {
                r is None
            },
            None => r is None,
        },
{
    let v = chars_of(s);
    assert(s@.skip(0) =~= s@);
    let start: usize = if v.len() > 0 && v[0] == '+' {
        1
    } else {
        0
    };
    read_digits(&v, start)
}

/// Appends `n` in decimal.
pub fn push_decimal(out: &mut String, n: u128)
    ensures
        final(out)@ == old(out)@ + decimal(n as nat),
    decreases n,
{
    if n >= 10 {
        push_decimal(out, n / 10);
    }
    let d = (n % 10) as usize;
    let all = "0123456789";
    proof {
        reveal_strlit("0123456789");
    }
    let one = all.substring_char(d, d + 1);
    assert(one@ =~= seq![digit(d as int)]);
    out.append(one);
    assert(out@ =~= old(out)@ + decimal(n as nat));
}

/// `n` in decimal.
pub fn decimal_text(n: u128) -> (r: String)
    ensures
        r@ == decimal(n as nat),
{
    let mut out = String::new();
    push_decimal(&mut out, n);
    assert(out@ =~= decimal(n as nat));
    out
}

/// `x` in decimal, with a minus sign where it is negative.
pub fn signed_text(x: i128) -> (r: String)
    ensures
        r@ == decimal_signed(x as int),
{
    if x >= 0 {
        decimal_text(x as u128)
    } else {
        let mut out = "-".to_owned();
        proof {
            reveal_strlit("-");
        }
        let n: u128 = (-(x + 1)) as u128 + 1;
        push_decimal(&mut out, n);
        assert(out@ =~= decimal_signed(x as int));
        out
    }
}

// ---------------------------------------------------------------------------
// Building
// ---------------------------------------------------------------------------
/// `parts` with `sep` between them.
pub open spec fn joined(parts: Seq<Seq<char>>, sep: Seq<char>) -> Seq<char>
    decreases parts.len(),
{
    if parts.len() == 0 {
        seq![]
    } else if parts.len() == 1 {
        parts[0]
    } else {
        joined(parts.drop_last(), sep) + sep + parts.last()
    }
}

/// `n` copies of `c`.
pub open spec fn repeated(c: char, n: nat) -> Seq<char> {
    Seq::new(n, |i: int| c)
}

/// Joins `parts` with `sep` between them.
pub fn join(parts: &Vec<String>, sep: &str) -> (r: String)
    ensures
        r@ == joined(strings(parts@), sep@),
{
    let mut out = String::new();
    let ghost views = strings(parts@);
    let mut i: usize = 0;
    while i < parts.len()
        invariant
            i <= parts@.len(),
            views == strings(parts@),
            out@ == joined(views.take(i as int), sep@),
        decreases parts@.len() - i,
    {
        let ghost before = out@;
        if i > 0 {
            out.append(sep);
        }
        out.append(parts[i].as_str());
        proof {
            assert(views.take(i + 1).drop_last() =~= views.take(i as int));
            assert(views.take(i + 1).last() == parts@[i as int]@);
            if i == 0 {
                assert(out@ =~= parts@[0]@);
            }
        }
        i = i + 1;
    }
    assert(views.take(i as int) =~= views);
    out
}

/// The first part can be split off in front.
proof fn lemma_joined_front(parts: Seq<Seq<char>>, sep: Seq<char>)
    requires
        parts.len() >= 2,
    ensures
        joined(parts, sep) == parts[0] + sep + joined(parts.drop_first(), sep),
    decreases parts.len(),
{
    let rest = parts.drop_first();
    if parts.len() == 2 {
        assert(parts.drop_last() =~= seq![parts[0]]);
        assert(rest =~= seq![parts[1]]);
        assert(joined(parts.drop_last(), sep) == parts[0]);
        assert(joined(rest, sep) == parts[1]);
    } else {
        lemma_joined_front(parts.drop_last(), sep);
        assert(parts.drop_last().drop_first() =~= rest.drop_last());
        assert(joined(parts, sep) =~= parts[0] + sep + joined(rest, sep));
    }
}

/// Parts that were joined by a character that stands in none of them are found again by cutting at
/// it.
pub proof fn lemma_joined_is_split(parts: Seq<Seq<char>>, c: char)
    requires
        parts.len() > 0,
        forall|i: int| 0 <= i < parts.len() ==> !(#[trigger] parts[i]).contains(c),
    ensures
        split_all(joined(parts, seq![c]), c) == parts,
    decreases parts.len(),
{
    let text = joined(parts, seq![c]);
    text.index_of_first_ensures(c);
    if parts.len() == 1 {
        assert(!parts[0].contains(c));
        assert(parts =~= seq![parts[0]]);
    } else {
        let rest = parts.drop_first();
        lemma_joined_front(parts, seq![c]);
        assert forall|i: int| 0 <= i < rest.len() implies !(#[trigger] rest[i]).contains(c) by {
            assert(rest[i] == parts[i + 1]);
        }
        lemma_joined_is_split(rest, c);
        let n = parts[0].len() as int;
        assert(text[n] == c);
        assert forall|j: int| 0 <= j < n implies text[j] != c by {
            assert(text[j] == parts[0][j]);
            assert(!parts[0].contains(c));
        }
        lemma_first_index(text, c, n);
        assert(text.take(n) =~= parts[0]);
        assert(text.skip(n + 1) =~= joined(rest, seq![c]));
        assert(parts =~= seq![parts[0]] + rest);
    }
}

// ---------------------------------------------------------------------------
// Laws
// ---------------------------------------------------------------------------
/// A pattern stands in a text exactly where the text is something, the pattern and something more.
pub proof fn law_occurrence_is_a_part(s: Seq<char>, pat: Seq<char>, a: Seq<char>, b: Seq<char>)
    ensures
        occurs(a + pat + b, pat),
        occurs(s, pat) ==> exists|x: Seq<char>, y: Seq<char>| s == #[trigger] (x + pat + y),
{
    let whole = a + pat + b;
    assert(whole.subrange(a.len() as int, (a.len() + pat.len()) as int) =~= pat);
    assert(occurs_at(whole, pat, a.len() as int));
    if occurs(s, pat) {
        let i = choose|i: int| occurs_at(s, pat, i);
        let x = s.take(i);
        let y = s.skip(i + pat.len());
        assert(s =~= x + pat + y);
    }
}

/// Characters are counted part by part, each as one where it is the one that is looked for.
pub proof fn law_count_goes_by_parts<T>(a: Seq<T>, b: Seq<T>, x: T, c: T)
    ensures
        count_of(a + b, c) == count_of(a, c) + count_of(b, c),
        count_of(seq![x], c) == if x == c {
            1nat
        } else {
            0
        },
        count_of(Seq::<T>::empty(), c) == 0,
        count_of(a, c) == 0 <==> !a.contains(c),
    decreases b.len() + a.len(),
{
    reveal_with_fuel(count_of, 2);
    assert(seq![x].drop_last() =~= Seq::<T>::empty());
    if b.len() == 0 {
        assert(a + b =~= a);
        if a.len() > 0 {
            law_count_goes_by_parts(a.drop_last(), b, x, c);
            assert(a.drop_last() + b =~= a.drop_last());
            if a.contains(c) {
                let i = choose|i: int| 0 <= i < a.len() && a[i] == c;
                if i < a.len() - 1 {
                    assert(a.drop_last()[i] == c);
                }
            }
            if a.drop_last().contains(c) {
                let i = choose|i: int| 0 <= i < a.drop_last().len() && a.drop_last()[i] == c;
                assert(a[i] == c);
            }
            if a.last() == c {
                assert(a[a.len() - 1] == c);
            }
        }
    } else {
        law_count_goes_by_parts(a, b.drop_last(), x, c);
        assert((a + b).drop_last() =~= a + b.drop_last());
        assert((a + b).last() == b.last());
    }
}

/// A line is what stands before a line break, without the carriage return that may stand there. What
/// follows the last line break is a line unless it is empty.
pub proof fn law_lines_end_at_line_breaks(line: Seq<char>, rest: Seq<char>)
    requires
        !line.contains('\n'),
    ensures
        line.len() == 0 || line.last() != '\r' ==> lines_of(line + seq!['\n'] + rest) == seq![line]
            + lines_of(rest),
        lines_of(line + seq!['\r', '\n'] + rest) == seq![line] + lines_of(rest),
        line.len() > 0 ==> lines_of(line) == seq![line],
        line.len() == 0 ==> lines_of(line).len() == 0,
{
    line.index_of_first_ensures('\n');
    let one = line + seq!['\n'] + rest;
    assert forall|j: int| 0 <= j < line.len() implies one[j] != '\n' by {
        assert(line[j] == one[j]);
        assert(!line.contains('\n'));
    }
    lemma_first_index(one, '\n', line.len() as int);
    assert(one.take(line.len() as int) =~= line);
    assert(one.skip(line.len() as int + 1) =~= rest);
    let two = line + seq!['\r', '\n'] + rest;
    let n = line.len() as int + 1;
    assert forall|j: int| 0 <= j < n implies two[j] != '\n' by {
        if j < line.len() {
            assert(line[j] == two[j]);
            assert(!line.contains('\n'));
        }
    }
    lemma_first_index(two, '\n', n);
    assert(two.take(n).drop_last() =~= line);
    assert(two.take(n).last() == '\r');
    assert(two.skip(n + 1) =~= rest);
}

/// A number is written by its digits, the last one behind those of its tenth.
pub proof fn law_decimal_is_written_by_digits(n: nat, d: nat)
    requires
        d < 10,
    ensures
        decimal(d) == seq![('0' as u8 + d) as char],
        n > 0 ==> decimal(10 * n + d) == decimal(n).push(('0' as u8 + d) as char),
{
    assert(n > 0 ==> (10 * n + d) / 10 == n && (10 * n + d) % 10 == d) by (nonlinear_arith)
        requires
            d < 10,
    ;
}

/// What holds no white space at its ends is what is left of it between white space.
pub proof fn law_white_space_around_is_removed(s: Seq<char>, a: nat, b: nat)
    requires
        s.len() > 0,
        !is_space(s[0]),
        !is_space(s.last()),
    ensures
        trimmed(repeated(' ', a) + s + repeated(' ', b)) == s,
        trimmed_end(repeated(' ', a) + s + repeated(' ', b)) == repeated(' ', a) + s,
        trimmed(repeated(' ', a)).len() == 0,
        trimmed_end(repeated(' ', a)).len() == 0,
    decreases a + b,
{
    let text = repeated(' ', a) + s + repeated(' ', b);
    if b > 0 {
        law_white_space_around_is_removed(s, a, (b - 1) as nat);
        assert(text.drop_last() =~= repeated(' ', a) + s + repeated(' ', (b - 1) as nat));
        lemma_trimmed_start_of_longer(s, a, b);
        lemma_trimmed_start_of_longer(s, a, (b - 1) as nat);
        let t = s + repeated(' ', b);
        assert(t.drop_last() =~= s + repeated(' ', (b - 1) as nat));
    } else {
        assert(text =~= repeated(' ', a) + s);
        lemma_trimmed_start_of_longer(s, a, 0);
        assert(s + repeated(' ', 0) =~= s);
    }
    lemma_blank_is_trimmed(a);
}

proof fn lemma_trimmed_start_of_longer(s: Seq<char>, a: nat, b: nat)
    requires
        s.len() > 0,
        !is_space(s[0]),
    ensures
        trimmed_start(repeated(' ', a) + s + repeated(' ', b)) == s + repeated(' ', b),
    decreases a,
{
    let text = repeated(' ', a) + s + repeated(' ', b);
    if a > 0 {
        lemma_trimmed_start_of_longer(s, (a - 1) as nat, b);
        assert(text.drop_first() =~= repeated(' ', (a - 1) as nat) + s + repeated(' ', b));
    } else {
        assert(text =~= s + repeated(' ', b));
    }
}

proof fn lemma_blank_is_trimmed(a: nat)
    ensures
        trimmed_start(repeated(' ', a)).len() == 0,
        trimmed_end(repeated(' ', a)).len() == 0,
        trimmed(repeated(' ', a)).len() == 0,
    decreases a,
{
    let text = repeated(' ', a);
    if a > 0 {
        lemma_blank_is_trimmed((a - 1) as nat);
        assert(text.drop_first() =~= repeated(' ', (a - 1) as nat));
        assert(text.drop_last() =~= repeated(' ', (a - 1) as nat));
    }
}

/// A text is split at the first occurrence of a character, or at the last one, and not at all where it
/// does not hold the character.
pub proof fn law_texts_are_split_at_a_character(a: Seq<char>, b: Seq<char>, c: char)
    ensures
        !a.contains(c) ==> split_first(a + seq![c] + b, c) == Some((a, b)),
        !b.contains(c) ==> split_last(a + seq![c] + b, c) == Some((a, b)),
        !a.contains(c) ==> split_first(a, c) is None && split_last(a, c) is None,
        !a.contains(c) ==> split_all(a + seq![c] + b, c) == seq![a] + split_all(b, c),
        !a.contains(c) ==> split_all(a, c) == seq![a],
{
    let s = a + seq![c] + b;
    let n = a.len() as int;
    assert(s[n] == c);
    a.index_of_first_ensures(c);
    a.index_of_last_ensures(c);
    assert(s.take(n) =~= a);
    assert(s.skip(n + 1) =~= b);
    if !a.contains(c) {
        assert forall|j: int| 0 <= j < n implies s[j] != c by {
            assert(a[j] == s[j]);
        }
        lemma_first_index(s, c, n);
    }
    if !b.contains(c) {
        assert forall|j: int| n < j < s.len() implies s[j] != c by {
            assert(b[j - n - 1] == s[j]);
        }
        lemma_last_index(s, c, n);
    }
}

/// A text is split at the first occurrence of a pattern, and not at all where it does not hold it.
pub proof fn law_texts_are_split_at_a_pattern(s: Seq<char>, pat: Seq<char>)
    ensures
        split_on(s, pat) is None <==> !occurs(s, pat),
        split_on(s, pat) matches Some((a, b)) ==> s == a + pat + b && (pat.len() > 0 ==> !occurs(
            (a + pat).drop_last(),
            pat,
        )),
{
    if occurs(s, pat) {
        lemma_split_on_parts(s, pat);
        let k = choose|k: int| occurs_at(s, pat, k);
        lemma_occurrence_has_first(s, pat, k);
        let i = choose|i: int| first_occurrence(s, pat, i);
        let a = s.take(i);
        let b = s.skip(i + pat.len());
        assert(s =~= a + pat + b);
        if pat.len() > 0 {
            let head = (a + pat).drop_last();
            if occurs(head, pat) {
                let j = choose|j: int| occurs_at(head, pat, j);
                assert(head.subrange(j, j + pat.len()) =~= s.subrange(j, j + pat.len()));
                assert(occurs_at(s, pat, j));
                assert(j < i);
            }
        }
    }
}

/// A prefix is removed exactly where it is there.
pub proof fn law_prefix_is_removed(prefix: Seq<char>, s: Seq<char>)
    ensures
        without_prefix(prefix + s, prefix) == Some(s),
        without_prefix(s, prefix) matches Some(rest) ==> s == prefix + rest,
        without_prefix(s, prefix) is None ==> !prefix.is_prefix_of(s),
{
    let whole = prefix + s;
    assert(whole.take(prefix.len() as int) =~= prefix);
    assert(whole.skip(prefix.len() as int) =~= s);
    if prefix.is_prefix_of(s) {
        assert(s =~= prefix + s.skip(prefix.len() as int));
    }
}

/// Digits are read as a number, with or without a plus sign and with leading zeros, and as a negative
/// one behind a minus sign. A text that holds anything else is no number.
pub proof fn law_numbers_are_read(s: Seq<char>, n: nat, i: int)
    ensures
        parse_unsigned(decimal(n)) == Some(n),
        parse_signed(decimal(n)) == Some(n as int),
        parse_unsigned(seq!['+'] + decimal(n)) == Some(n),
        parse_signed(seq!['+'] + decimal(n)) == Some(n as int),
        parse_signed(seq!['-'] + decimal(n)) == Some(-(n as int)),
        parse_unsigned(seq!['-'] + s) is None,
        all_digits(s) ==> parse_unsigned(seq!['0'] + s) == parse_unsigned(s),
        0 < i < s.len() && !is_digit(s[i]) ==> parse_unsigned(s) is None && parse_signed(s) is None,
        s.len() > 0 && !is_digit(s[0]) && s[0] != '+' && s[0] != '-' ==> parse_unsigned(s) is None
            && parse_signed(s) is None,
        s.len() == 0 ==> parse_unsigned(s) is None && parse_signed(s) is None,
{
    lemma_decimal_reads_back(n);
    assert(is_digit(decimal(n)[0]));
    assert((seq!['+'] + decimal(n)).skip(1) =~= decimal(n));
    assert((seq!['-'] + decimal(n)).skip(1) =~= decimal(n));
    let minus = seq!['-'] + s;
    assert(minus[0] == '-');
    assert(!is_digit(minus[0]));
    if all_digits(s) {
        lemma_leading_zero(s);
        let t = seq!['0'] + s;
        assert forall|j: int| 0 <= j < t.len() implies is_digit(#[trigger] t[j]) by {
            if j > 0 {
                assert(is_digit(s[j - 1]));
            }
        }
        assert(is_digit(s[0]));
    }
    if 0 < i < s.len() && !is_digit(s[i]) {
        assert(s.skip(1)[i - 1] == s[i]);
    }
}

proof fn lemma_leading_zero(s: Seq<char>)
    ensures
        digits_value(seq!['0'] + s) == digits_value(s),
    decreases s.len(),
{
    let t = seq!['0'] + s;
    if s.len() > 0 {
        lemma_leading_zero(s.drop_last());
        assert(t.drop_last() =~= seq!['0'] + s.drop_last());
        assert(t.last() == s.last());
    } else {
        reveal_with_fuel(digits_value, 2);
        assert(t.drop_last() =~= Seq::<char>::empty());
        assert(t.last() == '0');
    }
}

/// Trimming leaves a part of the text that neither starts nor ends with white space, and takes nothing
/// but white space away.
pub proof fn law_trimming_takes_white_space_only(s: Seq<char>)
    ensures
        trimmed(s).len() > 0 ==> !is_space(trimmed(s)[0]) && !is_space(trimmed(s).last()),
        exists|i: int, j: int|
            #![trigger s.subrange(i, j)]
            0 <= i <= j <= s.len() && trimmed(s) == s.subrange(i, j) && (forall|k: int|
                0 <= k < i || j <= k < s.len() ==> is_space(#[trigger] s[k])),
{
    let i = lemma_trimmed_start_at(s);
    let t = trimmed_start(s);
    let n = lemma_trimmed_end_at(t);
    let j = i + n;
    assert(s.subrange(i, j) =~= t.take(n));
    assert forall|k: int| 0 <= k < i || j <= k < s.len() implies is_space(#[trigger] s[k]) by {
        if k >= j {
            assert(t[k - i] == s[k]);
        }
    }
    assert(trimmed(s) == s.subrange(i, j));
}

proof fn lemma_trimmed_start_at(s: Seq<char>) -> (i: int)
    ensures
        0 <= i <= s.len(),
        trimmed_start(s) == s.skip(i),
        i < s.len() ==> !is_space(s[i]),
        forall|k: int| 0 <= k < i ==> is_space(#[trigger] s[k]),
    decreases s.len(),
{
    if s.len() > 0 && is_space(s[0]) {
        let rest = s.drop_first();
        let i = lemma_trimmed_start_at(rest);
        assert(rest.skip(i) =~= s.skip(i + 1));
        assert forall|k: int| 0 <= k < i + 1 implies is_space(#[trigger] s[k]) by {
            if k > 0 {
                assert(rest[k - 1] == s[k]);
            }
        }
        i + 1
    } else {
        assert(s.skip(0) =~= s);
        0
    }
}

proof fn lemma_trimmed_end_at(s: Seq<char>) -> (n: int)
    ensures
        0 <= n <= s.len(),
        trimmed_end(s) == s.take(n),
        n > 0 ==> !is_space(s[n - 1]),
        forall|k: int| n <= k < s.len() ==> is_space(#[trigger] s[k]),
        s.len() > 0 && !is_space(s[0]) ==> n > 0,
    decreases s.len(),
{
    if s.len() > 0 && is_space(s.last()) {
        let rest = s.drop_last();
        let n = lemma_trimmed_end_at(rest);
        assert(rest.take(n) =~= s.take(n));
        assert forall|k: int| n <= k < s.len() implies is_space(#[trigger] s[k]) by {
            if k < rest.len() {
                assert(rest[k] == s[k]);
            }
        }
        n
    } else {
        assert(s.take(s.len() as int) =~= s);
        s.len() as int
    }
}

/// The texts of a list are those of its items, in order.
pub proof fn law_texts_of_a_list(v: Seq<String>, w: Seq<&str>, i: int)
    ensures
        strings(v).len() == v.len(),
        slices(w).len() == w.len(),
        0 <= i < v.len() ==> strings(v)[i] == v[i]@,
        0 <= i < w.len() ==> slices(w)[i] == w[i]@,
{
}

} // verus!
