//! Character sequences: conversions between `str` and `Vec<char>`, and the
//! splitting, searching and replacing that the configuration lines need.

use vstd::prelude::*;
use crate::std_calls::push_char;

verus! {

broadcast use vstd::string::group_string_axioms;

/// Whether a character has the Unicode `White_Space` property (what
/// `char::is_whitespace` answers): the tab to carriage return (U+0009 to
/// U+000D), the space, U+0085, U+00A0, U+1680, U+2000 to U+200A, U+2028,
/// U+2029, U+202F, U+205F and U+3000.
pub open spec fn is_space(c: char) -> bool {
    let n = c as u32;
    ||| 9 <= n <= 13
    ||| n == 32
    ||| n == 0x85
    ||| n == 0xa0
    ||| n == 0x1680
    ||| 0x2000 <= n <= 0x200a
    ||| n == 0x2028
    ||| n == 0x2029
    ||| n == 0x202f
    ||| n == 0x205f
    ||| n == 0x3000
}

/// Whether `c` is whitespace in the sense of `is_space`.
pub fn char_is_whitespace(c: char) -> (b: bool)
    ensures
        b == is_space(c),
{
    let n = c as u32;
    (9 <= n && n <= 13) || n == 32 || n == 0x85 || n == 0xa0 || n == 0x1680 || (0x2000 <= n && n
        <= 0x200a) || n == 0x2028 || n == 0x2029 || n == 0x202f || n == 0x205f || n == 0x3000
}

/// The characters of `s`, in order.
pub fn to_chars(s: &str) -> (r: Vec<char>)
    ensures
        r@ == s@,
{
    let mut v: Vec<char> = Vec::new();
    for c in it: s.chars()
        invariant
            v@ == it.seq().take(it.index() as int),
    {
        v.push(c);
    }
    v
}

/// The string made of the characters of `v`, in order.
pub fn from_chars(v: &Vec<char>) -> (r: String)
    ensures
        r@ == v@,
{
    let mut s = String::new();
    for i in 0..v.len()
        invariant
            s@ == v@.take(i as int),
    {
        push_char(&mut s, v[i]);
        assert(s@ =~= v@.take(i + 1));
    }
    assert(v@.take(v.len() as int) =~= v@);
    s
}

/// `p` is a prefix of `s`.
pub open spec fn starts_with(s: Seq<char>, p: Seq<char>) -> bool {
    p.len() <= s.len() && forall|j: int| 0 <= j < p.len() ==> #[trigger] s[j] == p[j]
}

/// `p` occurs somewhere in `s`.
pub open spec fn contains(s: Seq<char>, p: Seq<char>) -> bool {
    exists|i: int| 0 <= i <= s.len() && #[trigger] starts_with(s.skip(i), p)
}

/// The pieces of `s` between the non-overlapping occurrences of the
/// non-empty separator `p`, found from the left (as `str::split` gives them).
pub open spec fn split(s: Seq<char>, p: Seq<char>) -> Seq<Seq<char>>
    decreases s.len(),
{
    if p.len() == 0 {
        seq![s]
    } else if starts_with(s, p) {
        seq![Seq::<char>::empty()] + split(s.skip(p.len() as int), p)
    } else if s.len() == 0 {
        seq![Seq::<char>::empty()]
    } else {
        prepend(seq![s[0]], split(s.drop_first(), p))
    }
}

/// `ps` with `x` put in front of its first piece.
pub open spec fn prepend(x: Seq<char>, ps: Seq<Seq<char>>) -> Seq<Seq<char>> {
    ps.update(0, x + ps[0])
}

/// `s` with every non-overlapping occurrence of the non-empty `p`, found
/// from the left, replaced by `r` (as `str::replace` does).
pub open spec fn replace_all(s: Seq<char>, p: Seq<char>, r: Seq<char>) -> Seq<char>
    decreases s.len(),
{
    if p.len() == 0 {
        s
    } else if starts_with(s, p) {
        r + replace_all(s.skip(p.len() as int), p, r)
    } else if s.len() == 0 {
        s
    } else {
        seq![s[0]] + replace_all(s.drop_first(), p, r)
    }
}

/// The views of a vector of character vectors.
pub open spec fn views(v: Seq<Vec<char>>) -> Seq<Seq<char>> {
    v.map_values(|x: Vec<char>| x@)
}

pub proof fn lemma_split_len(s: Seq<char>, p: Seq<char>)
    ensures
        split(s, p).len() >= 1,
    decreases s.len(),
{
    if p.len() > 0 && !starts_with(s, p) && s.len() > 0 {
        lemma_split_len(s.drop_first(), p);
    } else if p.len() > 0 && starts_with(s, p) {
        lemma_split_len(s.skip(p.len() as int), p);
    }
}

/// A piece without the separator is split off whole before it.
pub proof fn lemma_split_at_sep(a: Seq<char>, b: Seq<char>, c: char)
    requires
        !a.contains(c),
    ensures
        split(a + seq![c] + b, seq![c]) == seq![a] + split(b, seq![c]),
    decreases a.len(),
{
    let s = a + seq![c] + b;
    if a.len() == 0 {
        assert(s =~= seq![c] + b);
        assert(starts_with(s, seq![c]));
        assert(s.skip(1) =~= b);
        assert(a =~= Seq::<char>::empty());
    } else {
        assert(a[0] != c) by {
            assert(a.contains(a[0]));
        }
        assert(s[0] == a[0]);
        assert(!starts_with(s, seq![c]));
        assert(s.drop_first() =~= a.drop_first() + seq![c] + b);
        assert(!a.drop_first().contains(c)) by {
            if a.drop_first().contains(c) {
                let k = choose|k: int| 0 <= k < a.drop_first().len() && a.drop_first()[k] == c;
                assert(a[k + 1] == c);
            }
        }
        lemma_split_at_sep(a.drop_first(), b, c);
        lemma_split_len(b, seq![c]);
        assert(seq![s[0]] + a.drop_first() =~= a);
        assert(prepend(seq![s[0]], seq![a.drop_first()] + split(b, seq![c])) =~= seq![a] + split(
            b,
            seq![c],
        ));
    }
}

/// A sequence without the separator splits into itself alone.
pub proof fn lemma_split_no_sep(a: Seq<char>, c: char)
    requires
        !a.contains(c),
    ensures
        split(a, seq![c]) == seq![a],
    decreases a.len(),
{
    if a.len() == 0 {
        assert(!starts_with(a, seq![c]));
        assert(a =~= Seq::<char>::empty());
    } else {
        assert(a[0] != c) by {
            assert(a.contains(a[0]));
        }
        assert(!starts_with(a, seq![c]));
        assert(!a.drop_first().contains(c)) by {
            if a.drop_first().contains(c) {
                let k = choose|k: int| 0 <= k < a.drop_first().len() && a.drop_first()[k] == c;
                assert(a[k + 1] == c);
            }
        }
        lemma_split_no_sep(a.drop_first(), c);
        assert(seq![a[0]] + a.drop_first() =~= a);
        assert(prepend(seq![a[0]], seq![a.drop_first()]) =~= seq![a]);
    }
}

/// The first piece of a split at a single character does not hold it.
pub proof fn lemma_split_first_no_sep(s: Seq<char>, c: char)
    ensures
        !split(s, seq![c])[0].contains(c),
    decreases s.len(),
{
    lemma_split_len(s, seq![c]);
    if starts_with(s, seq![c]) {
        assert(split(s, seq![c])[0] =~= Seq::<char>::empty());
    } else if s.len() > 0 {
        assert(s[0] != c) by {
            assert(seq![c][0] == c);
        }
        lemma_split_first_no_sep(s.drop_first(), c);
        lemma_split_len(s.drop_first(), seq![c]);
        let rest = split(s.drop_first(), seq![c])[0];
        assert(split(s, seq![c])[0] =~= seq![s[0]] + rest);
        assert(!(seq![s[0]] + rest).contains(c)) by {
            if (seq![s[0]] + rest).contains(c) {
                let k = choose|k: int| 0 <= k < (seq![s[0]] + rest).len() && (seq![s[0]] + rest)[k] == c;
                if k > 0 {
                    assert(rest[k - 1] == c);
                }
            }
        }
    }
}

/// Scanning characters that are not whitespace only grows the word being read.
pub proof fn lemma_words_scan_word(x: Seq<char>, y: Seq<char>)
    requires
        forall|k: int| 0 <= k < y.len() ==> !is_space(#[trigger] y[k]),
    ensures
        words_scan(x + y) == (words_scan(x).0, words_scan(x).1 + y),
    decreases y.len(),
{
    if y.len() == 0 {
        assert(x + y =~= x);
        assert(words_scan(x).1 + y =~= words_scan(x).1);
    } else {
        lemma_words_scan_word(x, y.drop_last());
        assert((x + y).drop_last() =~= x + y.drop_last());
        assert((x + y).last() == y.last());
        assert(!is_space(y[y.len() - 1]));
        assert(words_scan(x).1 + y.drop_last() + seq![y.last()] =~= words_scan(x).1 + y);
        assert((words_scan(x).1 + y.drop_last()).push(y.last()) =~= words_scan(x).1 + y);
    }
}

/// A whitespace character ends the word being read.
pub proof fn lemma_words_scan_space(x: Seq<char>, c: char)
    requires
        is_space(c),
    ensures
        words_scan(x.push(c)) == (if words_scan(x).1.len() > 0 {
            words_scan(x).0.push(words_scan(x).1)
        } else {
            words_scan(x).0
        }, Seq::<char>::empty()),
{
    assert(x.push(c).drop_last() =~= x);
}

/// Scanning only whitespace finds no word.
pub proof fn lemma_words_scan_blank(x: Seq<char>)
    requires
        forall|k: int| 0 <= k < x.len() ==> is_space(#[trigger] x[k]),
    ensures
        words_scan(x) == (Seq::<Seq<char>>::empty(), Seq::<char>::empty()),
    decreases x.len(),
{
    if x.len() > 0 {
        lemma_words_scan_blank(x.drop_last());
        assert(is_space(x[x.len() - 1]));
    }
}

/// The words found in a prefix stay the first words found.
pub proof fn lemma_words_scan_prefix(x: Seq<char>, y: Seq<char>)
    ensures
        words_scan(x).0.len() <= words_scan(x + y).0.len(),
        forall|k: int| 0 <= k < words_scan(x).0.len() ==> #[trigger] words_scan(x + y).0[k]
            == words_scan(x).0[k],
    decreases y.len(),
{
    if y.len() == 0 {
        assert(x + y =~= x);
    } else {
        lemma_words_scan_prefix(x, y.drop_last());
        assert((x + y).drop_last() =~= x + y.drop_last());
    }
}

/// Leading whitespace before a non-whitespace character is all that
/// `trim_start` removes.
pub proof fn lemma_trim_start_blank(a: Seq<char>, b: Seq<char>)
    requires
        forall|k: int| 0 <= k < a.len() ==> is_space(#[trigger] a[k]),
        b.len() > 0 ==> !is_space(b[0]),
    ensures
        trim_start(a + b) == b,
    decreases a.len(),
{
    if a.len() == 0 {
        assert(a + b =~= b);
    } else {
        assert(is_space(a[0]));
        assert((a + b)[0] == a[0]);
        assert((a + b).drop_first() =~= a.drop_first() + b);
        lemma_trim_start_blank(a.drop_first(), b);
    }
}

/// Replacing a pattern whose first character `s` does not hold keeps `s`.
pub proof fn lemma_replace_absent(s: Seq<char>, p: Seq<char>, r: Seq<char>)
    requires
        p.len() > 0,
        forall|k: int| 0 <= k < s.len() ==> #[trigger] s[k] != p[0],
    ensures
        replace_all(s, p, r) == s,
    decreases s.len(),
{
    if s.len() > 0 {
        assert(s[0] != p[0]);
        assert(!starts_with(s, p));
        lemma_replace_absent(s.drop_first(), p, r);
        assert(seq![s[0]] + s.drop_first() =~= s);
    }
}

/// A piece in which no occurrence of the separator starts is split off whole
/// before the separator that follows it.
pub proof fn lemma_split_before(a: Seq<char>, p: Seq<char>, b: Seq<char>)
    requires
        p.len() > 0,
        forall|i: int| 0 <= i < a.len() ==> !#[trigger] starts_with((a + p + b).skip(i), p),
    ensures
        split(a + p + b, p) == seq![a] + split(b, p),
    decreases a.len(),
{
    let s = a + p + b;
    if a.len() == 0 {
        assert(s =~= p + b);
        assert(starts_with(s, p)) by {
            assert forall|j: int| 0 <= j < p.len() implies #[trigger] s[j] == p[j] by {
                assert(s[j] == (p + b)[j]);
            }
        }
        assert(s.skip(p.len() as int) =~= b);
        assert(a =~= Seq::<char>::empty());
    } else {
        assert(s.skip(0) =~= s);
        assert(!starts_with(s, p));
        let a1 = a.drop_first();
        assert(s.drop_first() =~= a1 + p + b);
        assert forall|i: int| 0 <= i < a1.len() implies !#[trigger] starts_with(
            (a1 + p + b).skip(i),
            p,
        ) by {
            assert((a1 + p + b).skip(i) =~= s.skip(i + 1));
        }
        lemma_split_before(a1, p, b);
        lemma_split_len(b, p);
        assert(seq![s[0]] + a1 =~= a);
        assert(prepend(seq![s[0]], seq![a1] + split(b, p)) =~= seq![a] + split(b, p));
    }
}

/// A sequence in which no occurrence of the separator starts splits into
/// itself alone.
pub proof fn lemma_split_whole(s: Seq<char>, p: Seq<char>)
    requires
        p.len() > 0,
        forall|i: int| 0 <= i <= s.len() ==> !#[trigger] starts_with(s.skip(i), p),
    ensures
        split(s, p) == seq![s],
    decreases s.len(),
{
    assert(s.skip(0) =~= s);
    if s.len() == 0 {
        assert(s =~= Seq::<char>::empty());
    } else {
        let s1 = s.drop_first();
        assert forall|i: int| 0 <= i <= s1.len() implies !#[trigger] starts_with(s1.skip(i), p) by {
            assert(s1.skip(i) =~= s.skip(i + 1));
        }
        lemma_split_whole(s1, p);
        assert(seq![s[0]] + s1 =~= s);
        assert(prepend(seq![s[0]], seq![s1]) =~= seq![s]);
    }
}

/// `p` occurs in `a + p + b`.
pub proof fn lemma_contains_middle(a: Seq<char>, p: Seq<char>, b: Seq<char>)
    ensures
        contains(a + p + b, p),
{
    let s = a + p + b;
    assert(starts_with(s.skip(a.len() as int), p)) by {
        assert forall|j: int| 0 <= j < p.len() implies #[trigger] s.skip(a.len() as int)[j] == p[j] by {
            assert(s[a.len() + j] == p[j]);
        }
    }
}

/// Whether `p` occurs in `s` at index `i`.
pub fn starts_at(s: &Vec<char>, p: &Vec<char>, i: usize) -> (b: bool)
    requires
        i <= s.len(),
    ensures
        b == starts_with(s@.skip(i as int), p@),
{
    if p.len() > s.len() - i {
        return false;
    }
    let mut j: usize = 0;
    while j < p.len()
        invariant
            i + p.len() <= s.len(),
            j <= p.len(),
            forall|k: int| 0 <= k < j ==> s@.skip(i as int)[k] == p@[k],
        decreases p.len() - j,
    {
        if s[i + j] != p[j] {
            assert(s@.skip(i as int)[j as int] != p@[j as int]);
            return false;
        }
        j += 1;
    }
    true
}

/// The pieces of `s` between the occurrences of the non-empty separator `p`.
pub fn split_chars(s: &Vec<char>, p: &Vec<char>) -> (r: Vec<Vec<char>>)
    requires
        p.len() > 0,
    ensures
        views(r@) == split(s@, p@),
{
    let mut done: Vec<Vec<char>> = Vec::new();
    let mut cur: Vec<char> = Vec::new();
    let mut i: usize = 0;
    proof {
        lemma_split_len(s@, p@);
        assert(s@.skip(0) =~= s@);
        assert(prepend(cur@, split(s@, p@)) =~= split(s@, p@));
    }
    while i < s.len()
        invariant
            p.len() > 0,
            i <= s.len(),
            split(s@, p@) == views(done@) + prepend(cur@, split(s@.skip(i as int), p@)),
        decreases s.len() - i,
    {
        let ghost rest = s@.skip(i as int);
        proof { lemma_split_len(rest, p@); }
        if starts_at(s, p, i) {
            let ghost next = rest.skip(p.len() as int);
            proof {
                assert(next =~= s@.skip(i + p.len()));
                lemma_split_len(next, p@);
                assert(split(rest, p@) == seq![Seq::<char>::empty()] + split(next, p@));
                assert(prepend(cur@, split(rest, p@)) =~= seq![cur@] + split(next, p@));
                assert(prepend(Seq::<char>::empty(), split(next, p@)) =~= split(next, p@));
            }
            let ghost done_before = done@;
            let piece = cur;
            cur = Vec::new();
            done.push(piece);
            i = i + p.len();
            proof {
                assert(views(done@) =~= views(done_before).push(piece@));
            }
        } else {
            let ghost next = rest.drop_first();
            proof {
                assert(next =~= s@.skip(i + 1));
                lemma_split_len(next, p@);
                assert(split(rest, p@) == prepend(seq![rest[0]], split(next, p@)));
                let ps = split(next, p@);
                assert(cur@ + (seq![rest[0]] + ps[0]) =~= cur@.push(s@[i as int]) + ps[0]);
                assert(prepend(cur@, split(rest, p@)) =~= prepend(cur@.push(s@[i as int]), ps));
            }
            cur.push(s[i]);
            i = i + 1;
        }
    }
    proof {
        assert(s@.skip(i as int) =~= Seq::<char>::empty());
        assert(prepend(cur@, split(s@.skip(i as int), p@)) =~= seq![cur@]);
    }
    let ghost done_before = done@;
    let ghost last = cur@;
    done.push(cur);
    proof {
        assert(views(done@) =~= views(done_before).push(last));
        assert(views(done@) =~= split(s@, p@));
    }
    done
}

/// `s` with every occurrence of the non-empty `p` replaced by `r`.
pub fn replace_chars(s: &Vec<char>, p: &Vec<char>, r: &Vec<char>) -> (out: Vec<char>)
    requires
        p.len() > 0,
    ensures
        out@ == replace_all(s@, p@, r@),
{
    let mut out: Vec<char> = Vec::new();
    let mut i: usize = 0;
    proof { assert(s@.skip(0) =~= s@); }
    while i < s.len()
        invariant
            p.len() > 0,
            i <= s.len(),
            replace_all(s@, p@, r@) == out@ + replace_all(s@.skip(i as int), p@, r@),
        decreases s.len() - i,
    {
        let ghost rest = s@.skip(i as int);
        let ghost out_before = out@;
        if starts_at(s, p, i) {
            proof { assert(rest.skip(p.len() as int) =~= s@.skip(i + p.len())); }
            let mut k: usize = 0;
            while k < r.len()
                invariant
                    k <= r.len(),
                    out@ == out_before + r@.take(k as int),
                decreases r.len() - k,
            {
                out.push(r[k]);
                k += 1;
                proof { assert(out@ =~= out_before + r@.take(k as int)); }
            }
            i = i + p.len();
            proof {
                assert(r@.take(r.len() as int) =~= r@);
                assert(out_before + (r@ + replace_all(s@.skip(i as int), p@, r@)) =~= out@
                    + replace_all(s@.skip(i as int), p@, r@));
            }
        } else {
            proof { assert(rest.drop_first() =~= s@.skip(i + 1)); }
            out.push(s[i]);
            i = i + 1;
            proof {
                assert(out_before + (seq![rest[0]] + replace_all(s@.skip(i as int), p@, r@)) =~= out@
                    + replace_all(s@.skip(i as int), p@, r@));
            }
        }
    }
    proof {
        assert(s@.skip(i as int) =~= Seq::<char>::empty());
        assert(out@ + Seq::<char>::empty() =~= out@);
    }
    out
}

/// Whether `p` occurs in `s`.
pub fn contains_chars(s: &Vec<char>, p: &Vec<char>) -> (b: bool)
    ensures
        b == contains(s@, p@),
{
    let mut i: usize = 0;
    while i < s.len()
        invariant
            i <= s.len(),
            forall|j: int| 0 <= j < i ==> !#[trigger] starts_with(s@.skip(j), p@),
        decreases s.len() - i,
    {
        if starts_at(s, p, i) {
            return true;
        }
        i += 1;
    }
    starts_at(s, p, i)
}

/// The characters of a string literal or slice, as a vector.
pub fn lit(s: &str) -> (r: Vec<char>)
    ensures
        r@ == s@,
{
    to_chars(s)
}

/// Scanning `s` from the left: the words finished so far and the word
/// being read.
pub open spec fn words_scan(s: Seq<char>) -> (Seq<Seq<char>>, Seq<char>)
    decreases s.len(),
{
    if s.len() == 0 {
        (seq![], seq![])
    } else {
        let (done, cur) = words_scan(s.drop_last());
        if is_space(s.last()) {
            if cur.len() > 0 {
                (done.push(cur), seq![])
            } else {
                (done, seq![])
            }
        } else {
            (done, cur.push(s.last()))
        }
    }
}

/// The maximal runs of non-whitespace characters of `s`, in order (as
/// `str::split_whitespace` gives them).
pub open spec fn words(s: Seq<char>) -> Seq<Seq<char>> {
    let (done, cur) = words_scan(s);
    if cur.len() > 0 {
        done.push(cur)
    } else {
        done
    }
}

/// The words of `s`.
pub fn words_of(s: &Vec<char>) -> (r: Vec<Vec<char>>)
    ensures
        views(r@) == words(s@),
{
    let mut done: Vec<Vec<char>> = Vec::new();
    let mut cur: Vec<char> = Vec::new();
    let mut i: usize = 0;
    proof { assert(s@.take(0) =~= Seq::<char>::empty()); }
    while i < s.len()
        invariant
            i <= s.len(),
            words_scan(s@.take(i as int)) == (views(done@), cur@),
        decreases s.len() - i,
    {
        proof { assert(s@.take(i + 1).drop_last() =~= s@.take(i as int)); }
        let c = s[i];
        if char_is_whitespace(c) {
            if cur.len() > 0 {
                let ghost done_before = done@;
                let piece = cur;
                cur = Vec::new();
                done.push(piece);
                proof { assert(views(done@) =~= views(done_before).push(piece@)); }
            }
        } else {
            cur.push(c);
        }
        i += 1;
    }
    proof { assert(s@.take(i as int) =~= s@); }
    if cur.len() > 0 {
        let ghost done_before = done@;
        let ghost last = cur@;
        done.push(cur);
        proof { assert(views(done@) =~= views(done_before).push(last)); }
    }
    done
}

/// `s` without its leading whitespace.
pub open spec fn trim_start(s: Seq<char>) -> Seq<char>
    decreases s.len(),
{
    if s.len() > 0 && is_space(s[0]) {
        trim_start(s.drop_first())
    } else {
        s
    }
}

/// `s` without its trailing whitespace.
pub open spec fn trim_end(s: Seq<char>) -> Seq<char>
    decreases s.len(),
{
    if s.len() > 0 && is_space(s.last()) {
        trim_end(s.drop_last())
    } else {
        s
    }
}

/// `s` without leading and trailing whitespace (as `str::trim` gives it).
pub open spec fn trim(s: Seq<char>) -> Seq<char> {
    trim_end(trim_start(s))
}

/// `s` trimmed of whitespace at both ends.
pub fn trim_chars(s: &Vec<char>) -> (r: Vec<char>)
    ensures
        r@ == trim(s@),
{
    let mut a: usize = 0;
    proof { assert(s@.skip(0) =~= s@); }
    while a < s.len() && char_is_whitespace(s[a])
        invariant
            a <= s.len(),
            trim_start(s@) == trim_start(s@.skip(a as int)),
        decreases s.len() - a,
    {
        proof { assert(s@.skip(a as int).drop_first() =~= s@.skip(a + 1)); }
        a += 1;
    }
    let ghost t = s@.skip(a as int);
    let mut b: usize = s.len();
    proof { assert(t.take(t.len() as int) =~= t); }
    while b > a && char_is_whitespace(s[b - 1])
        invariant
            a <= b <= s.len(),
            t == s@.skip(a as int),
            trim_end(t) == trim_end(t.take(b - a)),
        decreases b,
    {
        proof { assert(t.take(b - a).drop_last() =~= t.take(b - 1 - a)); }
        b -= 1;
    }
    let mut r: Vec<char> = Vec::new();
    let mut k: usize = a;
    while k < b
        invariant
            a <= k <= b <= s.len(),
            r@ == s@.subrange(a as int, k as int),
        decreases b - k,
    {
        r.push(s[k]);
        k += 1;
        proof { assert(r@ =~= s@.subrange(a as int, k as int)); }
    }
    proof { assert(r@ =~= t.take(b - a)); }
    r
}

/// `x` without one trailing carriage return.
pub open spec fn strip_cr(x: Seq<char>) -> Seq<char> {
    if x.len() > 0 && x.last() == '\r' {
        x.drop_last()
    } else {
        x
    }
}

/// The lines of `s` (as `str::lines` gives them): the pieces between line
/// feeds, each line that a line feed ends without a carriage return before
/// it, and no empty last line after a final line feed.
pub open spec fn lines(s: Seq<char>) -> Seq<Seq<char>> {
    let ps = split(s, seq!['\n']);
    let n: int = if ps.last().len() == 0 { ps.len() - 1 } else { ps.len() as int };
    Seq::new(n as nat, |i: int| if i < ps.len() - 1 { strip_cr(ps[i]) } else { ps[i] })
}

/// The lines of `s`.
pub fn lines_of(s: &Vec<char>) -> (r: Vec<Vec<char>>)
    ensures
        views(r@) == lines(s@),
{
    let nl = vec!['\n'];
    proof { assert(nl@ =~= seq!['\n']); }
    let ps = split_chars(s, &nl);
    proof { lemma_split_len(s@, nl@); }
    let ghost pv = views(ps@);
    let last_empty = ps[ps.len() - 1].len() == 0;
    let n: usize = if last_empty { ps.len() - 1 } else { ps.len() };
    let mut r: Vec<Vec<char>> = Vec::new();
    let mut i: usize = 0;
    while i < n
        invariant
            pv == views(ps@),
            pv == split(s@, nl@),
            nl@ == seq!['\n'],
            n <= ps.len(),
            n == (if pv.last().len() == 0 { pv.len() - 1 } else { pv.len() as int }),
            i <= n,
            views(r@) == lines(s@).take(i as int),
        decreases n - i,
    {
        let piece = &ps[i];
        let mut line: Vec<char> = piece.clone();
        proof { assert(line@ =~= piece@); }
        if i + 1 < ps.len() && line.len() > 0 && line[line.len() - 1] == '\r' {
            line.pop();
        }
        let ghost r_before = r@;
        proof {
            assert(piece@ == pv[i as int]);
            assert(lines(s@).len() == n);
            assert(line@ == lines(s@)[i as int]);
        }
        let ghost lv = line@;
        r.push(line);
        i += 1;
        proof {
            assert(views(r@) =~= views(r_before).push(lv));
            assert(views(r@) =~= lines(s@).take(i as int));
        }
    }
    proof { assert(lines(s@).take(n as int) =~= lines(s@)); }
    r
}

/// Appends the characters of `s` to `v`.
pub fn push_all(v: &mut Vec<char>, s: &Vec<char>)
    ensures
        final(v)@ == old(v)@ + s@,
{
    let ghost start = v@;
    for i in 0..s.len()
        invariant
            v@ == start + s@.take(i as int),
    {
        v.push(s[i]);
        proof { assert(v@ =~= start + s@.take(i + 1)); }
    }
    proof { assert(s@.take(s.len() as int) =~= s@); }
}

/// Appends the characters of the string `s` to `v`.
pub fn push_str(v: &mut Vec<char>, s: &str)
    ensures
        final(v)@ == old(v)@ + s@,
{
    let c = to_chars(s);
    push_all(v, &c);
}

/// The strings made of the character vectors of `v`.
pub fn to_strings(v: &Vec<Vec<char>>) -> (r: Vec<String>)
    ensures
        r@.len() == v@.len(),
        forall|i: int| 0 <= i < v@.len() ==> #[trigger] r@[i]@ == v@[i]@,
{
    let mut r: Vec<String> = Vec::new();
    for i in 0..v.len()
        invariant
            r@.len() == i,
            forall|k: int| 0 <= k < i ==> #[trigger] r@[k]@ == v@[k]@,
    {
        r.push(from_chars(&v[i]));
    }
    r
}

/// The views of a vector of strings.
pub open spec fn string_views(v: Seq<String>) -> Seq<Seq<char>> {
    v.map_values(|x: String| x@)
}

/// The view of an optional string.
pub open spec fn opt_view(o: Option<String>) -> Option<Seq<char>> {
    match o {
        Some(s) => Some(s@),
        None => None,
    }
}

/// Whether the UTF-8 encoding of `s` is two or three bytes long.
pub fn byte_len_is_2_or_3(s: &Vec<char>) -> (b: bool)
    ensures
        b == (vstd::utf8::encode_utf8(s@).len() == 2 || vstd::utf8::encode_utf8(s@).len() == 3),
{
    let mut i: usize = s.len();
    let mut acc: usize = 0;
    proof { assert(s@.skip(s.len() as int) =~= Seq::<char>::empty()); }
    while i > 0
        invariant
            i <= s.len(),
            acc <= 4,
            acc == (if vstd::utf8::encode_utf8(s@.skip(i as int)).len() >= 4 { 4 } else {
                vstd::utf8::encode_utf8(s@.skip(i as int)).len()
            }),
        decreases i,
    {
        let c = s[i - 1];
        let cu = c as u32;
        let w: usize = if cu < 0x80 { 1 } else if cu < 0x800 { 2 } else if cu < 0x10000 { 3 } else { 4 };
        proof {
            let t = s@.skip(i - 1);
            assert(t.drop_first() =~= s@.skip(i as int));
            assert(t[0] == c);
            vstd::utf8::char_is_scalar(c);
            assert(vstd::utf8::encode_scalar(cu).len() == w);
            assert(vstd::utf8::encode_utf8(t).len() == w + vstd::utf8::encode_utf8(s@.skip(i as int)).len());
        }
        acc = if acc + w >= 4 { 4 } else { acc + w };
        i -= 1;
    }
    proof { assert(s@.skip(0) =~= s@); }
    acc == 2 || acc == 3
}

/// Whether `s` begins with the string `p`.
pub fn has_prefix(s: &Vec<char>, p: &str) -> (b: bool)
    ensures
        b == starts_with(s@, p@),
{
    let pc = to_chars(p);
    proof { assert(s@.skip(0) =~= s@); }
    starts_at(s, &pc, 0)
}

/// Whether `s` holds the string `p` somewhere.
pub fn has_substring(s: &Vec<char>, p: &str) -> (b: bool)
    ensures
        b == contains(s@, p@),
{
    let pc = to_chars(p);
    contains_chars(s, &pc)
}

/// The pieces of `s` between the occurrences of the string `p` (all of `s`
/// when `p` is empty).
pub fn split_by(s: &Vec<char>, p: &str) -> (r: Vec<Vec<char>>)
    ensures
        views(r@) == split(s@, p@),
        r@.len() >= 1,
{
    let pc = to_chars(p);
    proof { lemma_split_len(s@, p@); }
    if pc.len() == 0 {
        let whole = s.clone();
        let r = vec![whole];
        proof {
            assert(whole@ =~= s@);
            assert(views(r@) =~= seq![s@]);
        }
        return r;
    }
    split_chars(s, &pc)
}

/// The first piece of `s` before the string `p` (all of `s` when `p` does
/// not occur).
pub fn before(s: &Vec<char>, p: &str) -> (r: Vec<char>)
    ensures
        r@ == split(s@, p@)[0],
{
    let ps = split_by(s, p);
    let r = ps[0].clone();
    proof { assert(r@ =~= ps@[0]@); }
    r
}

/// The piece of `s` after the `n`-th occurrence of the string `p`, if there
/// are that many.
pub fn piece(s: &Vec<char>, p: &str, n: usize) -> (r: Option<Vec<char>>)
    ensures
        match r {
            Some(x) => n < split(s@, p@).len() && x@ == split(s@, p@)[n as int],
            None => n >= split(s@, p@).len(),
        },
{
    let ps = split_by(s, p);
    if n < ps.len() {
        let r = ps[n].clone();
        proof { assert(r@ =~= ps@[n as int]@); }
        Some(r)
    } else {
        None
    }
}

/// Whether two character vectors are equal.
pub fn chars_eq(a: &Vec<char>, b: &Vec<char>) -> (r: bool)
    ensures
        r == (a@ == b@),
{
    proof { assert(a@.skip(0) =~= a@); }
    let r = a.len() == b.len() && starts_at(a, b, 0);
    proof {
        if r {
            assert(a@ =~= b@);
        }
    }
    r
}

} // verus!
