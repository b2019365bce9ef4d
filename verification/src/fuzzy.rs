//! The fuzzy line matcher: decides whether captured text satisfies a pattern
//! of trimmed lines, where the token `...` on a line of its own skips zero or
//! more actual lines, `...text` matches a line by its suffix, and `text...`
//! matches a line by its prefix.
//!
//! The algorithm is greedy and never backtracks: a wildcard scan always stops
//! at the first actual line that satisfies the following pattern line, and a
//! mismatch on a non-wildcard line fails at once. Leaving the walk because
//! either the pattern or the actual lines ran out counts as a match.

use vstd::prelude::*;

use crate::text::{chars_of, copy_range, chars_eq, split_at_ch, split_by, trim_line, trimmed, views};

verus! {

/// The wildcard token.
pub open spec fn wildcard() -> Seq<char> {
    seq!['.', '.', '.']
}

/// Whether the whole line is the wildcard token.
pub open spec fn is_wildcard_line(l: Seq<char>) -> bool {
    l == wildcard()
}

/// Whether `s` begins with `p`.
pub open spec fn begins_with(s: Seq<char>, p: Seq<char>) -> bool {
    s.len() >= p.len() && s.take(p.len() as int) == p
}

/// Whether `s` ends with `p`.
pub open spec fn ends_with(s: Seq<char>, p: Seq<char>) -> bool {
    s.len() >= p.len() && s.skip(s.len() - p.len()) == p
}

/// Whether one pattern line is satisfied by one actual line: the two are
/// equal, or the pattern line starts with the wildcard token and the actual
/// line ends with the rest of it, or the pattern line ends with the wildcard
/// token and the actual line starts with the rest of it.
pub open spec fn line_matches(p: Seq<char>, s: Seq<char>) -> bool {
    p == s || (begins_with(p, wildcard()) && ends_with(s, p.skip(3))) || (ends_with(
        p,
        wildcard(),
    ) && begins_with(s, p.take(p.len() - 3)))
}

/// The first index at or after `from` of a line that satisfies the pattern
/// line `p`, or `lines.len()` if there is none.
pub open spec fn first_line_match(p: Seq<char>, lines: Seq<Seq<char>>, from: nat) -> nat
    decreases lines.len() - from,
{
    if from >= lines.len() {
        lines.len()
    } else if line_matches(p, lines[from as int]) {
        from
    } else {
        first_line_match(p, lines, (from + 1) as nat)
    }
}

/// The matcher's walk from the cursors `pi` (over pattern lines) and `si`
/// (over actual lines). Either cursor running out ends the walk with a match;
/// a wildcard pattern line skips forward to the first actual line satisfying
/// the next pattern line; any other pattern line must be satisfied at once.
pub open spec fn match_vec_from(p: Seq<Seq<char>>, s: Seq<Seq<char>>, pi: nat, si: nat) -> bool
    decreases p.len() - pi,
{
    if pi >= p.len() || si >= s.len() {
        true
    } else if is_wildcard_line(p[pi as int]) {
        if pi + 1 >= p.len() {
            true
        } else {
            let j = first_line_match(p[pi as int + 1], s, si);
            if j >= s.len() {
                false
            } else {
                match_vec_from(p, s, (pi + 1) as nat, j)
            }
        }
    } else if line_matches(p[pi as int], s[si as int]) {
        match_vec_from(p, s, (pi + 1) as nat, (si + 1) as nat)
    } else {
        false
    }
}

/// Captured text as the matcher sees it: outer whitespace removed, split into
/// lines, each line trimmed. Text that trims to nothing has no lines at all.
pub open spec fn normalized_lines(t: Seq<char>) -> Seq<Seq<char>> {
    if trimmed(t).len() == 0 {
        Seq::empty()
    } else {
        split_at_ch(trimmed(t), '\n').map_values(|l: Seq<char>| trimmed(l))
    }
}

/// Whether the pattern lines `p` are satisfied by the captured text `t`.
pub open spec fn fuzzy_matches(p: Seq<Seq<char>>, t: Seq<char>) -> bool {
    match_vec_from(p, normalized_lines(t), 0, 0)
}

/// The construction-time invariant of a pattern: no two consecutive lines are
/// both the literal wildcard token.
pub open spec fn no_consecutive_wildcards(p: Seq<Seq<char>>) -> bool {
    forall|i: int|
        0 <= i && i + 1 < p.len() ==> !(is_wildcard_line(#[trigger] p[i]) && is_wildcard_line(
            p[i + 1],
        ))
}

/// The views of the string slices in `v`, each in turn.
pub open spec fn str_views(v: Seq<&str>) -> Seq<Seq<char>> {
    v.map_values(|p: &str| p@)
}

/// A pattern line with no wildcard in either position.
pub open spec fn plain_line(l: Seq<char>) -> bool {
    !begins_with(l, wildcard()) && !ends_with(l, wildcard())
}

/// A pattern in which no line carries a wildcard.
pub open spec fn plain_pattern(p: Seq<Seq<char>>) -> bool {
    forall|i: int| 0 <= i < p.len() ==> plain_line(#[trigger] p[i])
}

/// Whether `a` is a proper prefix of `b`.
pub open spec fn proper_prefix(a: Seq<Seq<char>>, b: Seq<Seq<char>>) -> bool {
    a.len() < b.len() && a == b.take(a.len() as int)
}

/// Whether one pattern line is satisfied by one actual line.
pub fn match_line(p: &str, s: &str) -> (r: bool)
    ensures
        r == line_matches(p@, s@),
{
    let pc = chars_of(p);
    let sc = chars_of(s);
    match_line_chars(&pc, &sc)
}

/// Whether `s` ends with the characters of `p`.
fn ends_with_chars(s: &Vec<char>, p: &Vec<char>) -> (r: bool)
    ensures
        r == ends_with(s@, p@),
{
    if p.len() > s.len() {
        return false;
    }
    let n = s.len();
    let off = n - p.len();
    let mut k: usize = 0;
    while k < p.len()
        invariant
            p@.len() <= s@.len(),
            n == s@.len(),
            off == s@.len() - p@.len(),
            k <= p@.len(),
            forall|m: int| 0 <= m < k ==> s@[off + m] == p@[m],
        decreases p@.len() - k,
    {
        if s[off + k] != p[k] {
            assert(s@.skip(off as int)[k as int] != p@[k as int]);
            return false;
        }
        k = k + 1;
    }
    assert(s@.skip(off as int) =~= p@);
    true
}

/// Whether `s` begins with the characters of `p`.
fn begins_with_chars(s: &Vec<char>, p: &Vec<char>) -> (r: bool)
    ensures
        r == begins_with(s@, p@),
{
    if p.len() > s.len() {
        return false;
    }
    let mut k: usize = 0;
    while k < p.len()
        invariant
            p@.len() <= s@.len(),
            k <= p@.len(),
            forall|m: int| 0 <= m < k ==> s@[m] == p@[m],
        decreases p@.len() - k,
    {
        if s[k] != p[k] {
            assert(s@.take(p@.len() as int)[k as int] != p@[k as int]);
            return false;
        }
        k = k + 1;
    }
    assert(s@.take(p@.len() as int) =~= p@);
    true
}

/// Whether the line is the literal wildcard token.
pub fn is_wildcard_chars(l: &Vec<char>) -> (r: bool)
    ensures
        r == is_wildcard_line(l@),
{
    let r = l.len() == 3 && l[0] == '.' && l[1] == '.' && l[2] == '.';
    proof {
        if r {
            assert(l@ =~= wildcard());
        }
    }
    r
}

/// Whether one pattern line is satisfied by one actual line, over character
/// vectors.
pub fn match_line_chars(p: &Vec<char>, s: &Vec<char>) -> (r: bool)
    ensures
        r == line_matches(p@, s@),
{
    if chars_eq(p, s) {
        return true;
    }
    let starts = p.len() >= 3 && p[0] == '.' && p[1] == '.' && p[2] == '.';
    proof {
        if starts {
            assert(p@.take(3) =~= wildcard());
        }
        if begins_with(p@, wildcard()) {
            assert(p@[0] == p@.take(3)[0] && p@[1] == p@.take(3)[1] && p@[2] == p@.take(3)[2]);
        }
    }
    if starts {
        let suffix = copy_range(p, 3, p.len());
        assert(suffix@ =~= p@.skip(3));
        if ends_with_chars(s, &suffix) {
            return true;
        }
    }
    let n = p.len();
    let tail_starts = n >= 3 && p[n - 3] == '.' && p[n - 2] == '.' && p[n - 1] == '.';
    proof {
        if tail_starts {
            assert(p@.skip(n - 3) =~= wildcard());
        }
        if ends_with(p@, wildcard()) {
            let t = p@.skip(p@.len() - 3);
            assert(p@[p@.len() - 3] == t[0]);
            assert(p@[p@.len() - 2] == t[1]);
            assert(p@[p@.len() - 1] == t[2]);
        }
    }
    if tail_starts {
        let prefix = copy_range(p, 0, n - 3);
        assert(prefix@ =~= p@.take(p@.len() - 3));
        if begins_with_chars(s, &prefix) {
            return true;
        }
    }
    false
}

/// Captured text split into trimmed lines, as the matcher sees it.
pub fn normalize_text(s: &str) -> (r: Vec<Vec<char>>)
    ensures
        views(r@) == normalized_lines(s@),
{
    let cv = chars_of(s);
    let t = trim_line(&cv);
    if t.len() == 0 {
        let r: Vec<Vec<char>> = Vec::new();
        assert(views(r@) =~= normalized_lines(s@));
        return r;
    }
    let parts = split_by(&t, '\n');
    let mut out: Vec<Vec<char>> = Vec::new();
    let mut i: usize = 0;
    while i < parts.len()
        invariant
            i <= parts@.len(),
            views(parts@) == split_at_ch(trimmed(cv@), '\n'),
            cv@ == s@,
            trimmed(cv@).len() > 0,
            views(out@) =~= views(parts@).take(i as int).map_values(|l: Seq<char>| trimmed(l)),
        decreases parts@.len() - i,
    {
        let line = trim_line(&parts[i]);
        let ghost before = out@;
        out.push(line);
        proof {
            let f = |l: Seq<char>| trimmed(l);
            assert(views(out@) =~= views(before).push(line@));
            assert(line@ == f(views(parts@)[i as int]));
            assert(views(parts@).take(i + 1).map_values(f) =~= views(parts@).take(
                i as int,
            ).map_values(f).push(f(views(parts@)[i as int])));
        }
        i = i + 1;
    }
    proof {
        assert(views(parts@).take(parts@.len() as int) =~= views(parts@));
        assert(views(out@) =~= normalized_lines(s@));
    }
    out
}

/// The first index at or after `from` of a line in `lines` that satisfies the
/// pattern line `p`, or the number of lines if there is none.
fn scan_for_match(lines: &Vec<Vec<char>>, p: &Vec<char>, from: usize) -> (r: usize)
    requires
        from <= lines@.len(),
    ensures
        r == first_line_match(p@, views(lines@), from as nat),
        from <= r <= lines@.len(),
{
    let mut i: usize = from;
    while i < lines.len()
        invariant
            from <= i <= lines@.len(),
            first_line_match(p@, views(lines@), from as nat) == first_line_match(
                p@,
                views(lines@),
                i as nat,
            ),
        decreases lines@.len() - i,
    {
        if match_line_chars(p, &lines[i]) {
            return i;
        }
        i = i + 1;
    }
    i
}

/// Does the captured text `s` conform to the fuzzy pattern `plines`? The
/// pattern may not carry the literal wildcard token on two consecutive lines:
/// that is a construction-time invariant violation, which building a
/// `Pattern` already rejects.
pub fn match_vec(plines: &Vec<&str>, s: &str) -> (r: bool)
    requires
        no_consecutive_wildcards(str_views(plines@)),
    ensures
        r == fuzzy_matches(str_views(plines@), s@),
{
    let ghost p = str_views(plines@);
    let mut pc: Vec<Vec<char>> = Vec::new();
    let mut k: usize = 0;
    while k < plines.len()
        invariant
            k <= plines@.len(),
            views(pc@) =~= str_views(plines@).take(k as int),
        decreases plines@.len() - k,
    {
        let ghost before = pc@;
        let line = chars_of(plines[k]);
        pc.push(line);
        proof {
            assert(views(pc@) =~= views(before).push(line@));
            assert(str_views(plines@).take(k + 1) =~= str_views(plines@).take(k as int).push(
                str_views(plines@)[k as int],
            ));
        }
        k = k + 1;
    }
    proof {
        assert(str_views(plines@).take(plines@.len() as int) =~= p);
    }
    match_chars_vec(&pc, s)
}

/// Does the captured text `s` conform to the fuzzy pattern `plines`, given as
/// character vectors?
pub fn match_chars_vec(plines: &Vec<Vec<char>>, s: &str) -> (r: bool)
    requires
        no_consecutive_wildcards(views(plines@)),
    ensures
        r == fuzzy_matches(views(plines@), s@),
{
    let ghost p = views(plines@);
    let pc = plines;
    let slines = normalize_text(s);
    let ghost sl = views(slines@);

    let mut pi: usize = 0;
    let mut si: usize = 0;
    while pi < pc.len() && si < slines.len()
        invariant
            pi <= pc.len(),
            si <= slines.len(),
            views(pc@) == p,
            views(slines@) == sl,
            p == views(plines@),
            sl == normalized_lines(s@),
            pc@.len() == p.len(),
            slines@.len() == sl.len(),
            no_consecutive_wildcards(p),
            match_vec_from(p, sl, 0, 0) == match_vec_from(p, sl, pi as nat, si as nat),
        decreases p.len() - pi,
    {
        let ghost pi0 = pi as nat;
        let ghost si0 = si as nat;
        proof {
            assert(p[pi0 as int] == pc@[pi0 as int]@);
            assert(sl[si0 as int] == slines@[si0 as int]@);
        }
        if is_wildcard_chars(&pc[pi]) {
            pi = pi + 1;
            if pi == pc.len() {
                proof {
                    assert(match_vec_from(p, sl, pi0, si0));
                }
                return true;
            }
            proof {
                assert(p[pi0 as int + 1] == pc@[pi0 as int + 1]@);
                assert(!is_wildcard_line(p[pi0 as int + 1]));
            }
            si = scan_for_match(&slines, &pc[pi], si);
            let ghost j = first_line_match(p[pi0 as int + 1], sl, si0);
            if si == slines.len() {
                proof {
                    assert(j >= sl.len());
                    assert(!match_vec_from(p, sl, pi0, si0));
                }
                return false;
            }
            proof {
                assert(match_vec_from(p, sl, pi0, si0) == match_vec_from(p, sl, pi0 + 1, j));
            }
        } else if match_line_chars(&pc[pi], &slines[si]) {
            proof {
                assert(match_vec_from(p, sl, pi0, si0) == match_vec_from(
                    p,
                    sl,
                    pi0 + 1,
                    si0 + 1,
                ));
            }
            pi = pi + 1;
            si = si + 1;
        } else {
            proof {
                assert(!match_vec_from(p, sl, pi0, si0));
            }
            return false;
        }
    }
    proof {
        assert(match_vec_from(p, sl, pi as nat, si as nat));
    }
    true
}

/// A pattern with no wildcard anywhere is satisfied exactly by its own line
/// sequence: matching holds if and only if the normalized captured text is
/// equal to the pattern, as long as neither is a proper prefix of the other
/// (the matcher treats running out of either side as a match, so a proper
/// prefix on either side also passes).
pub proof fn lemma_plain_pattern_exact(p: Seq<Seq<char>>, t: Seq<char>)
    requires
        plain_pattern(p),
        !proper_prefix(p, normalized_lines(t)),
        !proper_prefix(normalized_lines(t), p),
    ensures
        fuzzy_matches(p, t) <==> p == normalized_lines(t),
{
    let s = normalized_lines(t);
    lemma_plain_walk(p, s, 0);
    if fuzzy_matches(p, t) {
        if p.len() < s.len() {
            assert(p =~= s.take(p.len() as int));
            assert(false);
        } else if s.len() < p.len() {
            assert(s =~= p.take(s.len() as int));
            assert(false);
        } else {
            assert(p =~= s);
        }
    }
    if p == s {
        assert(fuzzy_matches(p, t));
    }
}

/// For a pattern without wildcards, the walk from equal cursors succeeds
/// exactly when the two sides agree on every position both of them have.
proof fn lemma_plain_walk(p: Seq<Seq<char>>, s: Seq<Seq<char>>, i: nat)
    requires
        plain_pattern(p),
        i <= p.len(),
        i <= s.len(),
    ensures
        match_vec_from(p, s, i, i) <==> (forall|k: int|
            i <= k < p.len() && k < s.len() ==> p[k] == s[k]),
    decreases p.len() - i,
{
    if i >= p.len() || i >= s.len() {
    } else {
        assert(wildcard().take(3) =~= wildcard());
        assert(begins_with(wildcard(), wildcard()));
        assert(!is_wildcard_line(p[i as int]));
        if line_matches(p[i as int], s[i as int]) {
            assert(p[i as int] == s[i as int]);
            lemma_plain_walk(p, s, (i + 1) as nat);
        } else {
            assert(p[i as int] != s[i as int]);
        }
    }
}

/// A pattern consisting solely of the wildcard token matches any captured
/// text, including text that trims to nothing.
pub proof fn lemma_wildcard_alone_matches(t: Seq<char>)
    ensures
        fuzzy_matches(seq![wildcard()], t),
{
    let p = seq![wildcard()];
    let s = normalized_lines(t);
    assert(p[0] == wildcard());
    if s.len() == 0 {
        assert(match_vec_from(p, s, 0, 0));
    } else {
        assert(match_vec_from(p, s, 0, 0));
    }
}

} // verus!
