//! Character-level text operations the matcher and the parser share: trimming
//! a line's outer whitespace and splitting text at a separator character.

use vstd::prelude::*;

verus! {

/// Whitespace as this library understands it: the characters that trimming
/// removes from the ends of a line or of a captured stream.
pub open spec fn is_ws(c: char) -> bool {
    c == ' ' || c == '\t' || c == '\r' || c == '\n'
}

/// `s` with its leading whitespace removed.
pub open spec fn trimmed_start(s: Seq<char>) -> Seq<char>
    decreases s.len(),
{
    if s.len() > 0 && is_ws(s[0]) {
        trimmed_start(s.drop_first())
    } else {
        s
    }
}

/// `s` with its trailing whitespace removed.
pub open spec fn trimmed_end(s: Seq<char>) -> Seq<char>
    decreases s.len(),
{
    if s.len() > 0 && is_ws(s.last()) {
        trimmed_end(s.drop_last())
    } else {
        s
    }
}

/// `s` with whitespace removed from both ends.
pub open spec fn trimmed(s: Seq<char>) -> Seq<char> {
    trimmed_end(trimmed_start(s))
}

/// The views of a sequence of character vectors, each in turn.
pub open spec fn views(s: Seq<Vec<char>>) -> Seq<Seq<char>> {
    s.map_values(|v: Vec<char>| v@)
}

/// The position of the first occurrence of `sep` in `s` at or after `from`,
/// or `s.len()` if there is none.
pub open spec fn find_ch(s: Seq<char>, sep: char, from: nat) -> nat
    decreases s.len() - from,
{
    if from >= s.len() {
        s.len()
    } else if s[from as int] == sep {
        from
    } else {
        find_ch(s, sep, (from + 1) as nat)
    }
}

/// `s` split at every occurrence of `sep`; the separators themselves are
/// dropped, and `n` separators yield `n + 1` pieces.
pub open spec fn split_at_ch(s: Seq<char>, sep: char) -> Seq<Seq<char>>
    decreases s.len(),
{
    let j = find_ch(s, sep, 0);
    if j >= s.len() {
        seq![s]
    } else {
        seq![s.take(j as int)] + split_at_ch(s.skip(j + 1 as int), sep)
    }
}

pub proof fn lemma_trimmed_start_is_skip(s: Seq<char>, i: int)
    requires
        0 <= i <= s.len(),
        forall|k: int| 0 <= k < i ==> is_ws(s[k]),
        i < s.len() ==> !is_ws(s[i]),
    ensures
        trimmed_start(s) == s.skip(i),
    decreases i,
{
    if i == 0 {
        assert(s.skip(0) =~= s);
    } else {
        assert(is_ws(s[0]));
        lemma_trimmed_start_is_skip(s.drop_first(), i - 1);
        assert(s.drop_first().skip(i - 1) =~= s.skip(i));
    }
}

pub proof fn lemma_trimmed_end_is_take(s: Seq<char>, j: int)
    requires
        0 <= j <= s.len(),
        forall|k: int| j <= k < s.len() ==> is_ws(s[k]),
        j > 0 ==> !is_ws(s[j - 1]),
    ensures
        trimmed_end(s) == s.take(j),
    decreases s.len() - j,
{
    if j == s.len() {
        assert(s.take(j) =~= s);
        if s.len() > 0 {
            assert(!is_ws(s.last()));
        }
    } else {
        assert(is_ws(s.last()));
        lemma_trimmed_end_is_take(s.drop_last(), j);
        assert(s.drop_last().take(j) =~= s.take(j));
    }
}

/// The first occurrence characterises `find_ch`.
pub proof fn lemma_find_ch_at(s: Seq<char>, sep: char, from: nat, m: nat)
    requires
        from <= m <= s.len(),
        forall|k: int| from <= k < m ==> s[k] != sep,
        m < s.len() ==> s[m as int] == sep,
    ensures
        find_ch(s, sep, from) == m,
    decreases m - from,
{
    if from == m {
    } else {
        lemma_find_ch_at(s, sep, (from + 1) as nat, m);
    }
}

/// A line whose whitespace has already been removed trims to itself.
pub proof fn lemma_trimmed_of_clean(s: Seq<char>)
    requires
        s.len() > 0 ==> !is_ws(s[0]) && !is_ws(s.last()),
    ensures
        trimmed(s) == s,
{
    lemma_trimmed_start_is_skip(s, 0);
    assert(trimmed_start(s) == s.skip(0));
    assert(s.skip(0) =~= s);
    lemma_trimmed_end_is_take(s, s.len() as int);
    assert(s.take(s.len() as int) =~= s);
}

/// Trimming leaves no whitespace at either end.
pub proof fn lemma_trimmed_clean(s: Seq<char>)
    ensures
        trimmed(s).len() > 0 ==> !is_ws(trimmed(s)[0]) && !is_ws(trimmed(s).last()),
    decreases s.len(),
{
    lemma_trimmed_start_clean(s);
    lemma_trimmed_end_keeps_first(trimmed_start(s));
}

proof fn lemma_trimmed_start_clean(s: Seq<char>)
    ensures
        trimmed_start(s).len() > 0 ==> !is_ws(trimmed_start(s)[0]),
    decreases s.len(),
{
    if s.len() > 0 && is_ws(s[0]) {
        lemma_trimmed_start_clean(s.drop_first());
    }
}

proof fn lemma_trimmed_end_keeps_first(s: Seq<char>)
    ensures
        trimmed_end(s).len() > 0 ==> !is_ws(trimmed_end(s).last()),
        trimmed_end(s).len() > 0 ==> trimmed_end(s)[0] == s[0],
    decreases s.len(),
{
    if s.len() > 0 && is_ws(s.last()) {
        lemma_trimmed_end_keeps_first(s.drop_last());
    }
}

/// The characters of `s`, one vector element per character.
pub fn chars_of(s: &str) -> (r: Vec<char>)
    ensures
        r@ == s@,
{
    let n = s.unicode_len();
    let mut r: Vec<char> = Vec::new();
    let mut i: usize = 0;
    while i < n
        invariant
            n == s@.len(),
            i <= n,
            r@ == s@.take(i as int),
        decreases n - i,
    {
        let c = s.get_char(i);
        r.push(c);
        i = i + 1;
        assert(r@ =~= s@.take(i as int));
    }
    assert(r@ =~= s@);
    r
}

/// Whether the two vectors hold the same characters.
pub fn chars_eq(a: &Vec<char>, b: &Vec<char>) -> (r: bool)
    ensures
        r == (a@ == b@),
{
    if a.len() != b.len() {
        return false;
    }
    let mut i: usize = 0;
    while i < a.len()
        invariant
            a@.len() == b@.len(),
            i <= a@.len(),
            forall|k: int| 0 <= k < i ==> a@[k] == b@[k],
        decreases a@.len() - i,
    {
        if a[i] != b[i] {
            return false;
        }
        i = i + 1;
    }
    assert(a@ =~= b@);
    true
}

/// Whether trimming removes `c`.
pub fn is_ws_char(c: char) -> (r: bool)
    ensures
        r == is_ws(c),
{
    c == ' ' || c == '\t' || c == '\r' || c == '\n'
}

/// The characters of `v` from `from` (inclusive) to `to` (exclusive).
pub fn copy_range(v: &Vec<char>, from: usize, to: usize) -> (r: Vec<char>)
    requires
        from <= to <= v@.len(),
    ensures
        r@ == v@.subrange(from as int, to as int),
{
    let mut r: Vec<char> = Vec::new();
    let mut i: usize = from;
    while i < to
        invariant
            from <= i <= to <= v@.len(),
            r@ == v@.subrange(from as int, i as int),
        decreases to - i,
    {
        r.push(v[i]);
        i = i + 1;
        assert(r@ =~= v@.subrange(from as int, i as int));
    }
    r
}

/// `v` with whitespace removed from both ends.
pub fn trim_line(v: &Vec<char>) -> (r: Vec<char>)
    ensures
        r@ == trimmed(v@),
{
    let n = v.len();
    let mut i: usize = 0;
    while i < n && is_ws_char(v[i])
        invariant
            n == v@.len(),
            i <= n,
            forall|k: int| 0 <= k < i ==> is_ws(v@[k]),
        decreases n - i,
    {
        i = i + 1;
    }
    proof {
        lemma_trimmed_start_is_skip(v@, i as int);
    }
    let mut j: usize = n;
    while j > i && is_ws_char(v[j - 1])
        invariant
            i <= j <= n,
            n == v@.len(),
            forall|k: int| j <= k < n ==> is_ws(v@[k]),
        decreases j,
    {
        j = j - 1;
    }
    proof {
        lemma_trimmed_end_is_take(v@.skip(i as int), j - i);
        assert(v@.skip(i as int).take(j - i) =~= v@.subrange(i as int, j as int));
    }
    copy_range(v, i, j)
}

/// A copy of `v`.
pub fn copy_chars(v: &Vec<char>) -> (r: Vec<char>)
    ensures
        r@ == v@,
{
    let r = copy_range(v, 0, v.len());
    assert(v@.subrange(0, v@.len() as int) =~= v@);
    r
}

/// `v` with whitespace removed from its end only.
pub fn trim_end_line(v: &Vec<char>) -> (r: Vec<char>)
    ensures
        r@ == trimmed_end(v@),
{
    let n = v.len();
    let mut j: usize = n;
    while j > 0 && is_ws_char(v[j - 1])
        invariant
            j <= n,
            n == v@.len(),
            forall|k: int| j <= k < n ==> is_ws(v@[k]),
        decreases j,
    {
        j = j - 1;
    }
    proof {
        lemma_trimmed_end_is_take(v@, j as int);
    }
    copy_range(v, 0, j)
}

/// The position of the first occurrence of `sep` in `v`, or `v.len()`.
pub fn find_char(v: &Vec<char>, sep: char) -> (r: usize)
    ensures
        r == find_ch(v@, sep, 0),
        r <= v@.len(),
{
    let mut i: usize = 0;
    while i < v.len()
        invariant
            i <= v@.len(),
            find_ch(v@, sep, 0) == find_ch(v@, sep, i as nat),
        decreases v@.len() - i,
    {
        if v[i] == sep {
            return i;
        }
        i = i + 1;
    }
    i
}

/// `v` split at every occurrence of `sep`.
pub fn split_by(v: &Vec<char>, sep: char) -> (r: Vec<Vec<char>>)
    ensures
        views(r@) == split_at_ch(v@, sep),
{
    let n = v.len();
    let mut r: Vec<Vec<char>> = Vec::new();
    let mut start: usize = 0;
    let mut i: usize = 0;
    proof {
        assert(v@.skip(0) =~= v@);
        assert(views(r@) =~= Seq::<Seq<char>>::empty());
        assert(split_at_ch(v@, sep) =~= views(r@) + split_at_ch(v@.skip(0), sep));
    }
    while i < n
        invariant
            n == v@.len(),
            start <= i <= n,
            forall|k: int| start <= k < i ==> v@[k] != sep,
            split_at_ch(v@, sep) =~= views(r@) + split_at_ch(v@.skip(start as int), sep),
        decreases n - i,
    {
        if v[i] == sep {
            let piece = copy_range(v, start, i);
            proof {
                let rest = v@.skip(start as int);
                lemma_find_ch_at(rest, sep, 0, (i - start) as nat);
                assert(rest.take(i - start) =~= v@.subrange(start as int, i as int));
                assert(rest.skip(i - start + 1) =~= v@.skip(i + 1));
                assert(views(r@.push(piece)) =~= views(r@).push(piece@));
            }
            r.push(piece);
            start = i + 1;
        }
        i = i + 1;
    }
    let last = copy_range(v, start, n);
    proof {
        let rest = v@.skip(start as int);
        lemma_find_ch_at(rest, sep, 0, (n - start) as nat);
        assert(rest.take(n - start) =~= v@.subrange(start as int, n as int));
        assert(split_at_ch(rest, sep) =~= seq![last@]);
        assert(views(r@.push(last)) =~= views(r@).push(last@));
        assert(views(r@).push(last@) =~= views(r@) + seq![last@]);
    }
    r.push(last);
    r
}

} // verus!
