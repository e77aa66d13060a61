//! Character-sequence utilities shared by the parsers: collecting the
//! characters of a string, splitting on a separator, and trimming
//! whitespace.

use vstd::prelude::*;
use vstd::string::StrSliceExecFns;

verus! {

/// The whitespace characters removed by trimming: the ASCII white-space set.
pub open spec fn is_space(c: char) -> bool {
    c == ' ' || c == '\t' || c == '\n' || c == '\r' || c == '\u{b}' || c == '\u{c}'
}

/// The suffix of `s` that remains after dropping leading whitespace.
pub open spec fn trim_front(s: Seq<char>) -> Seq<char>
    decreases s.len(),
{
    if s.len() > 0 && is_space(s[0]) {
        trim_front(s.drop_first())
    } else {
        s
    }
}

/// The prefix of `s` that remains after dropping trailing whitespace.
pub open spec fn trim_back(s: Seq<char>) -> Seq<char>
    decreases s.len(),
{
    if s.len() > 0 && is_space(s[s.len() - 1]) {
        trim_back(s.drop_last())
    } else {
        s
    }
}

/// `s` with surrounding whitespace removed.
pub open spec fn trim(s: Seq<char>) -> Seq<char> {
    trim_back(trim_front(s))
}

/// The segments of `s` between occurrences of `sep`, in order.  An empty
/// input yields one empty segment, and `n` separators always yield `n + 1`
/// segments, as `str::split` does.
pub open spec fn split_on(s: Seq<char>, sep: char) -> Seq<Seq<char>>
    decreases s.len(),
{
    if s.len() == 0 {
        seq![Seq::<char>::empty()]
    } else if s[0] == sep {
        seq![Seq::<char>::empty()] + split_on(s.drop_first(), sep)
    } else {
        let rest = split_on(s.drop_first(), sep);
        seq![seq![s[0]] + rest[0]] + rest.drop_first()
    }
}

/// Splitting always yields at least one segment.
pub proof fn lemma_split_on_nonempty(s: Seq<char>, sep: char)
    ensures
        split_on(s, sep).len() >= 1,
    decreases s.len(),
{
    if s.len() > 0 {
        lemma_split_on_nonempty(s.drop_first(), sep);
    }
}

/// If the first occurrence of `sep` in `s` is at position `e` (or `e` is the
/// length of `s` when there is none), the split is the prefix before `e`
/// followed by the split of the suffix after `e`.
pub proof fn lemma_split_on_first(s: Seq<char>, sep: char, e: int)
    requires
        0 <= e <= s.len(),
        forall|j: int| 0 <= j < e ==> s[j] != sep,
        e < s.len() ==> s[e] == sep,
    ensures
        e == s.len() ==> split_on(s, sep) == seq![s],
        e < s.len() ==> split_on(s, sep) == seq![s.take(e)] + split_on(s.skip(e + 1), sep),
    decreases s.len(),
{
    lemma_split_on_nonempty(s, sep);
    if s.len() == 0 {
        assert(split_on(s, sep) =~~= seq![s]);
    } else if e == 0 {
        if e < s.len() {
            assert(s.drop_first() =~= s.skip(1));
            assert(split_on(s, sep) =~~= seq![s.take(0)] + split_on(s.skip(1), sep));
        }
    } else {
        let t = s.drop_first();
        lemma_split_on_nonempty(t, sep);
        lemma_split_on_first(t, sep, e - 1);
        let rest = split_on(t, sep);
        if e == s.len() {
            assert(rest == seq![t]);
            assert(seq![s[0]] + rest[0] =~= s);
            assert(split_on(s, sep) =~~= seq![s]);
        } else {
            assert(rest == seq![t.take(e - 1)] + split_on(t.skip(e), sep));
            assert(rest[0] == t.take(e - 1));
            assert(rest.drop_first() =~~= split_on(t.skip(e), sep));
            assert(seq![s[0]] + t.take(e - 1) =~= s.take(e));
            assert(t.skip(e) =~= s.skip(e + 1));
            assert(split_on(s, sep) =~~= seq![s.take(e)] + split_on(s.skip(e + 1), sep));
        }
    }
}

/// A sequence without the separator splits into itself alone.
pub proof fn lemma_split_on_absent(s: Seq<char>, sep: char)
    requires
        forall|j: int| 0 <= j < s.len() ==> s[j] != sep,
    ensures
        split_on(s, sep) == seq![s],
{
    lemma_split_on_first(s, sep, s.len() as int);
}

/// Collects the characters of a string into a vector.
pub fn chars_of(s: &str) -> (r: Vec<char>)
    ensures
        r@ == s@,
{
    let n: usize = s.unicode_len();
    let mut r: Vec<char> = Vec::new();
    let mut i: usize = 0;
    while i < n
        invariant
            i <= n,
            n == s@.len(),
            r@ =~= s@.take(i as int),
        decreases n - i,
    {
        r.push(s.get_char(i));
        i += 1;
    }
    proof {
        assert(r@ =~= s@);
    }
    r
}

/// The position of the first `sep` in `s[from..to]`, or `to` when there is
/// none.
pub fn find_from(s: &Vec<char>, from: usize, to: usize, sep: char) -> (r: usize)
    requires
        from <= to <= s@.len(),
    ensures
        from <= r <= to,
        forall|j: int| from <= j < r ==> s@[j] != sep,
        r < to ==> s@[r as int] == sep,
{
    let mut i: usize = from;
    while i < to
        invariant
            from <= i <= to <= s@.len(),
            forall|j: int| from <= j < i ==> s@[j] != sep,
        decreases to - i,
    {
        if s[i] == sep {
            return i;
        }
        i += 1;
    }
    i
}

/// The views of a vector of character vectors.
pub open spec fn views_of(parts: Seq<Vec<char>>) -> Seq<Seq<char>> {
    parts.map_values(|p: Vec<char>| p@)
}

proof fn lemma_views_of_push(parts: Seq<Vec<char>>, p: Vec<char>)
    ensures
        views_of(parts.push(p)) == views_of(parts).push(p@),
{
    assert(views_of(parts.push(p)) =~~= views_of(parts).push(p@));
}

/// The split of the first segment reattached in front of the rest.
spec fn glue_first(p: Seq<char>, parts: Seq<Seq<char>>) -> Seq<Seq<char>> {
    seq![p + parts[0]] + parts.drop_first()
}

/// Splits the suffix of `s` that starts at `from` on the separator `sep`.
pub fn split_from(s: &Vec<char>, from: usize, sep: char) -> (parts: Vec<Vec<char>>)
    requires
        from <= s@.len(),
    ensures
        views_of(parts@) == split_on(s@.skip(from as int), sep),
        parts@.len() >= 1,
{
    let mut parts: Vec<Vec<char>> = Vec::new();
    let mut cur: Vec<char> = Vec::new();
    let mut i: usize = from;
    proof {
        assert(views_of(parts@) =~~= Seq::<Seq<char>>::empty());
    }
    while i < s.len()
        invariant
            from <= i <= s@.len(),
            split_on(s@.skip(from as int), sep) == views_of(parts@) + glue_first(
                cur@,
                split_on(s@.skip(i as int), sep),
            ),
        decreases s@.len() - i,
    {
        let ghost pre = s@.skip(i as int);
        let ghost post = split_on(s@.skip(i as int + 1), sep);
        proof {
            assert(pre.len() > 0);
            assert(pre[0] == s@[i as int]);
            assert(pre.drop_first() =~= s@.skip(i as int + 1));
            lemma_split_on_nonempty(s@.skip(i as int + 1), sep);
        }
        let c = s[i];
        if c == sep {
            let ghost pv = parts@;
            let ghost cv = cur;
            let ghost done = views_of(parts@);
            let ghost c0 = cur@;
            proof {
                assert(split_on(pre, sep) == seq![Seq::<char>::empty()] + post);
                assert(glue_first(c0, split_on(pre, sep)) =~~= seq![c0] + post);
            }
            parts.push(cur);
            cur = Vec::new();
            proof {
                lemma_views_of_push(pv, cv);
                assert(views_of(parts@) == done.push(c0));
                assert(glue_first(cur@, post) =~~= post);
                assert(done.push(c0) + post =~~= done + (seq![c0] + post));
            }
        } else {
            proof {
                assert(split_on(pre, sep) == seq![seq![pre[0]] + post[0]] + post.drop_first());
                assert(cur@ + (seq![c] + post[0]) =~= cur@.push(c) + post[0]);
                assert(glue_first(cur@, split_on(pre, sep)) =~~= glue_first(cur@.push(c), post));
            }
            cur.push(c);
        }
        i += 1;
    }
    let ghost pv = parts@;
    let ghost cv = cur;
    let ghost done = views_of(parts@);
    let ghost c0 = cur@;
    proof {
        assert(s@.skip(i as int).len() == 0);
        assert(split_on(s@.skip(i as int), sep) == seq![Seq::<char>::empty()]);
        assert(glue_first(c0, seq![Seq::<char>::empty()]) =~~= seq![c0]);
    }
    parts.push(cur);
    proof {
        lemma_views_of_push(pv, cv);
        assert(views_of(parts@) == done.push(c0));
        assert(done.push(c0) =~~= done + seq![c0]);
        lemma_split_on_nonempty(s@.skip(from as int), sep);
    }
    parts
}

/// Dropping exactly the leading run of whitespace gives `trim_front`.
pub proof fn lemma_trim_front_at(s: Seq<char>, k: int)
    requires
        0 <= k <= s.len(),
        forall|j: int| 0 <= j < k ==> is_space(s[j]),
        k < s.len() ==> !is_space(s[k]),
    ensures
        trim_front(s) == s.skip(k),
    decreases k,
{
    if k == 0 {
        assert(s.skip(0) =~= s);
    } else {
        lemma_trim_front_at(s.drop_first(), k - 1);
        assert(s.drop_first().skip(k - 1) =~= s.skip(k));
    }
}

/// Dropping exactly the trailing run of whitespace gives `trim_back`.
pub proof fn lemma_trim_back_at(s: Seq<char>, k: int)
    requires
        0 <= k <= s.len(),
        forall|j: int| k <= j < s.len() ==> is_space(s[j]),
        k > 0 ==> !is_space(s[k - 1]),
    ensures
        trim_back(s) == s.take(k),
    decreases s.len() - k,
{
    if k == s.len() {
        assert(s.take(k) =~= s);
    } else {
        lemma_trim_back_at(s.drop_last(), k);
        assert(s.drop_last().take(k) =~= s.take(k));
    }
}

/// The trimmed bounds of `s@` between `from` and `to`: the subrange
/// `[r.0, r.1)` holds the trim of the subrange `[from, to)`.
pub fn trim_range(s: &Vec<char>, from: usize, to: usize) -> (r: (usize, usize))
    requires
        from <= to <= s@.len(),
    ensures
        from <= r.0 <= r.1 <= to,
        s@.subrange(r.0 as int, r.1 as int) == trim(s@.subrange(from as int, to as int)),
{
    let ghost u = s@.subrange(from as int, to as int);
    let mut a: usize = from;
    while a < to && is_space_exec(s[a])
        invariant
            from <= a <= to <= s@.len(),
            forall|j: int| from <= j < a ==> is_space(s@[j]),
        decreases to - a,
    {
        a += 1;
    }
    proof {
        lemma_trim_front_at(u, a - from);
        assert(u.skip(a - from) =~= s@.subrange(a as int, to as int));
    }
    let ghost v = s@.subrange(a as int, to as int);
    let mut b: usize = to;
    while b > a && is_space_exec(s[b - 1])
        invariant
            a <= b <= to <= s@.len(),
            forall|j: int| b <= j < to ==> is_space(s@[j]),
        decreases b,
    {
        b -= 1;
    }
    proof {
        lemma_trim_back_at(v, b - a);
        assert(v.take(b - a) =~= s@.subrange(a as int, b as int));
        assert(trim(u) == s@.subrange(a as int, b as int));
    }
    (a, b)
}

/// Whether `c` is one of the whitespace characters that trimming removes.
pub fn is_space_exec(c: char) -> (r: bool)
    ensures
        r == is_space(c),
{
    c == ' ' || c == '\t' || c == '\n' || c == '\r' || c == '\u{b}' || c == '\u{c}'
}

/// Whether two strings hold the same characters.
pub fn str_equal(a: &str, b: &str) -> (r: bool)
    ensures
        r == (a@ == b@),
{
    let na: usize = a.unicode_len();
    let nb: usize = b.unicode_len();
    if na != nb {
        return false;
    }
    let mut i: usize = 0;
    while i < na
        invariant
            i <= na,
            na == a@.len(),
            na == b@.len(),
            forall|j: int| 0 <= j < i ==> a@[j] == b@[j],
        decreases na - i,
    {
        if a.get_char(i) != b.get_char(i) {
            return false;
        }
        i += 1;
    }
    proof {
        assert(a@ =~= b@);
    }
    true
}

} // verus!
