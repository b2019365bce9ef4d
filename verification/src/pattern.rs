//! Patterns: the parsed, line-oriented expected-output specification that the
//! fuzzy matcher compares against captured text.
//!
//! A pattern block is cleaned on construction: every line is trimmed, and
//! leading and trailing blank lines are dropped while interior blank lines
//! are kept. Construction rejects a block that carries the literal wildcard
//! token on two consecutive lines — such a pattern would silently skip
//! anything, so it is an invariant violation rather than a runtime mismatch.

use vstd::prelude::*;

use crate::fuzzy::{
    fuzzy_matches, is_wildcard_chars, is_wildcard_line, match_chars_vec, no_consecutive_wildcards,
};
use crate::text::{
    chars_of, copy_range, split_at_ch, split_by, trim_line, trimmed, views, lemma_trimmed_clean,
    lemma_trimmed_of_clean,
};

verus! {

/// Why constructing a pattern failed.
#[derive(Clone, Copy, Debug, PartialEq, Eq, Structural)]
pub enum PatternError {
    /// The cleaned block carries the literal wildcard token on two
    /// consecutive lines.
    ConsecutiveWildcards,
}

/// `block` with its leading blank lines dropped.
pub open spec fn strip_leading_blanks(block: Seq<Seq<char>>) -> Seq<Seq<char>>
    decreases block.len(),
{
    if block.len() > 0 && block[0].len() == 0 {
        strip_leading_blanks(block.drop_first())
    } else {
        block
    }
}

/// `block` with its trailing blank lines dropped.
pub open spec fn strip_trailing_blanks(block: Seq<Seq<char>>) -> Seq<Seq<char>>
    decreases block.len(),
{
    if block.len() > 0 && block.last().len() == 0 {
        strip_trailing_blanks(block.drop_last())
    } else {
        block
    }
}

/// A raw block of lines cleaned into pattern form: each line trimmed, then
/// blank lines dropped from both ends (interior blank lines stay).
pub open spec fn clean_block(block: Seq<Seq<char>>) -> Seq<Seq<char>> {
    strip_trailing_blanks(strip_leading_blanks(block.map_values(|l: Seq<char>| trimmed(l))))
}

/// What holds of every constructed pattern: each line is trimmed, the first
/// and last lines are non-blank, and no two consecutive lines are the literal
/// wildcard token.
pub open spec fn pattern_lines_wf(p: Seq<Seq<char>>) -> bool {
    &&& forall|i: int| 0 <= i < p.len() ==> trimmed(#[trigger] p[i]) == p[i]
    &&& p.len() > 0 ==> p[0].len() > 0 && p.last().len() > 0
    &&& no_consecutive_wildcards(p)
}

/// An ordered sequence of expected lines for one output stream.
#[derive(Debug)]
pub struct Pattern {
    /// The cleaned pattern lines.
    pub lines: Vec<Vec<char>>,
}

impl View for Pattern {
    type V = Seq<Seq<char>>;

    open spec fn view(&self) -> Seq<Seq<char>> {
        views(self.lines@)
    }
}

impl Pattern {
    /// The construction invariant.
    pub open spec fn wf(&self) -> bool {
        pattern_lines_wf(self@)
    }

    /// Builds a pattern from the raw lines of a block: trims each line,
    /// strips blank lines from both ends, and fails if the literal wildcard
    /// token stands on two consecutive remaining lines.
    pub fn from_lines(block: &Vec<Vec<char>>) -> (r: Result<Pattern, PatternError>)
        ensures
            r matches Ok(p) ==> p@ == clean_block(views(block@)) && p.wf(),
            r is Ok <==> no_consecutive_wildcards(clean_block(views(block@))),
    {
        let ghost cb = clean_block(views(block@));
        let mut cleaned: Vec<Vec<char>> = Vec::new();
        let mut i: usize = 0;
        proof {
            assert(views(cleaned@) =~= views(block@).take(0).map_values(|l: Seq<char>| trimmed(l)));
        }
        while i < block.len()
            invariant
                i <= block@.len(),
                views(cleaned@) =~= views(block@).take(i as int).map_values(
                    |l: Seq<char>| trimmed(l),
                ),
            decreases block@.len() - i,
        {
            let line = trim_line(&block[i]);
            let ghost before = cleaned@;
            cleaned.push(line);
            proof {
                let f = |l: Seq<char>| trimmed(l);
                assert(views(cleaned@) =~= views(before).push(line@));
                assert(line@ == f(views(block@)[i as int]));
                assert(views(block@).take(i + 1).map_values(f) =~= views(block@).take(
                    i as int,
                ).map_values(f).push(f(views(block@)[i as int])));
            }
            i = i + 1;
        }
        proof {
            assert(views(block@).take(block@.len() as int) =~= views(block@));
        }
        let n = cleaned.len();
        let mut start: usize = 0;
        while start < n && cleaned[start].len() == 0
            invariant
                n == cleaned@.len(),
                start <= n,
                forall|k: int| 0 <= k < start ==> views(cleaned@)[k].len() == 0,
            decreases n - start,
        {
            start = start + 1;
        }
        let mut end: usize = n;
        while end > start && cleaned[end - 1].len() == 0
            invariant
                n == cleaned@.len(),
                start <= end <= n,
                forall|k: int| end <= k < n ==> views(cleaned@)[k].len() == 0,
            decreases end,
        {
            end = end - 1;
        }
        proof {
            lemma_strip_leading_is_skip(views(cleaned@), start as int);
            lemma_strip_trailing_is_take(views(cleaned@).skip(start as int), end - start);
            assert(views(cleaned@).skip(start as int).take(end - start) =~= views(
                cleaned@,
            ).subrange(start as int, end as int));
            assert(cb == views(cleaned@).subrange(start as int, end as int));
        }
        let mut lines: Vec<Vec<char>> = Vec::new();
        let mut k: usize = start;
        while k < end
            invariant
                start <= k <= end <= cleaned@.len(),
                views(lines@) =~= views(cleaned@).subrange(start as int, k as int),
            decreases end - k,
        {
            let ghost before = lines@;
            let line = copy_range(&cleaned[k], 0, cleaned[k].len());
            proof {
                assert(line@ =~= views(cleaned@)[k as int]);
            }
            lines.push(line);
            proof {
                assert(views(lines@) =~= views(before).push(line@));
                assert(views(cleaned@).subrange(start as int, k + 1) =~= views(cleaned@).subrange(
                    start as int,
                    k as int,
                ).push(views(cleaned@)[k as int]));
            }
            k = k + 1;
        }
        proof {
            assert(views(lines@) == cb);
        }
        let m = lines.len();
        if m > 0 {
            let mut j: usize = 0;
            while j < m - 1
                invariant
                    m == lines@.len(),
                    m > 0,
                    j <= m - 1,
                    views(lines@) == cb,
                    cb == clean_block(views(block@)),
                    forall|t: int|
                        0 <= t && t + 1 < j + 1 ==> !(is_wildcard_line(#[trigger] cb[t])
                            && is_wildcard_line(cb[t + 1])),
                decreases m - j,
            {
                if is_wildcard_chars(&lines[j]) && is_wildcard_chars(&lines[j + 1]) {
                    proof {
                        assert(is_wildcard_line(cb[j as int]) && is_wildcard_line(cb[j + 1]));
                        assert(!no_consecutive_wildcards(cb));
                    }
                    return Err(PatternError::ConsecutiveWildcards);
                }
                j = j + 1;
            }
        }
        proof {
            assert(no_consecutive_wildcards(cb));
            lemma_clean_block_wf(views(block@));
        }
        Ok(Pattern { lines })
    }

    /// Builds a pattern from raw block text, split at line breaks.
    pub fn from_text(text: &str) -> (r: Result<Pattern, PatternError>)
        ensures
            r matches Ok(p) ==> p@ == clean_block(split_at_ch(text@, '\n')) && p.wf(),
            r is Ok <==> no_consecutive_wildcards(clean_block(split_at_ch(text@, '\n'))),
    {
        let cv = chars_of(text);
        let raw = split_by(&cv, '\n');
        Pattern::from_lines(&raw)
    }

    /// Whether the captured text `s` satisfies this pattern.
    pub fn matches_text(&self, s: &str) -> (r: bool)
        requires
            self.wf(),
        ensures
            r == fuzzy_matches(self@, s@),
    {
        match_chars_vec(&self.lines, s)
    }

    /// The number of pattern lines.
    pub fn len(&self) -> (r: usize)
        ensures
            r == self@.len(),
    {
        self.lines.len()
    }

    /// A copy of this pattern.
    pub fn duplicate(&self) -> (r: Pattern)
        ensures
            r@ == self@,
            r.wf() == self.wf(),
    {
        let mut lines: Vec<Vec<char>> = Vec::new();
        let mut k: usize = 0;
        while k < self.lines.len()
            invariant
                k <= self.lines@.len(),
                views(lines@) =~= views(self.lines@).take(k as int),
            decreases self.lines@.len() - k,
        {
            let ghost before = lines@;
            let line = copy_range(&self.lines[k], 0, self.lines[k].len());
            proof {
                assert(line@ =~= views(self.lines@)[k as int]);
            }
            lines.push(line);
            proof {
                assert(views(lines@) =~= views(before).push(line@));
                assert(views(self.lines@).take(k + 1) =~= views(self.lines@).take(k as int).push(
                    views(self.lines@)[k as int],
                ));
            }
            k = k + 1;
        }
        proof {
            assert(views(self.lines@).take(self.lines@.len() as int) =~= views(self.lines@));
            assert(views(lines@) == self@);
        }
        Pattern { lines }
    }
}

proof fn lemma_strip_leading_is_skip(p: Seq<Seq<char>>, i: int)
    requires
        0 <= i <= p.len(),
        forall|k: int| 0 <= k < i ==> p[k].len() == 0,
        i < p.len() ==> p[i].len() > 0,
    ensures
        strip_leading_blanks(p) == p.skip(i),
    decreases i,
{
    if i == 0 {
        assert(p.skip(0) =~= p);
    } else {
        lemma_strip_leading_is_skip(p.drop_first(), i - 1);
        assert(p.drop_first().skip(i - 1) =~= p.skip(i));
    }
}

proof fn lemma_strip_trailing_is_take(p: Seq<Seq<char>>, j: int)
    requires
        0 <= j <= p.len(),
        forall|k: int| j <= k < p.len() ==> p[k].len() == 0,
        j > 0 ==> p[j - 1].len() > 0,
    ensures
        strip_trailing_blanks(p) == p.take(j),
    decreases p.len() - j,
{
    if j == p.len() {
        assert(p.take(j) =~= p);
    } else {
        lemma_strip_trailing_is_take(p.drop_last(), j);
        assert(p.drop_last().take(j) =~= p.take(j));
    }
}

proof fn lemma_strip_leading_keeps(p: Seq<Seq<char>>)
    ensures
        strip_leading_blanks(p).len() <= p.len(),
        strip_leading_blanks(p).len() > 0 ==> strip_leading_blanks(p)[0].len() > 0,
        forall|k: int|
            0 <= k < strip_leading_blanks(p).len() ==> #[trigger] strip_leading_blanks(p)[k]
                == p[p.len() - strip_leading_blanks(p).len() + k],
    decreases p.len(),
{
    if p.len() > 0 && p[0].len() == 0 {
        lemma_strip_leading_keeps(p.drop_first());
    }
}

proof fn lemma_strip_trailing_keeps(p: Seq<Seq<char>>)
    ensures
        strip_trailing_blanks(p).len() <= p.len(),
        strip_trailing_blanks(p).len() > 0 ==> strip_trailing_blanks(p).last().len() > 0,
        forall|k: int|
            0 <= k < strip_trailing_blanks(p).len() ==> #[trigger] strip_trailing_blanks(p)[k]
                == p[k],
    decreases p.len(),
{
    if p.len() > 0 && p.last().len() == 0 {
        lemma_strip_trailing_keeps(p.drop_last());
    }
}

/// Cleaning is idempotent: a block whose lines already satisfy the pattern
/// invariant comes out of cleaning unchanged, so rebuilding a pattern from a
/// constructed pattern's own lines yields the same pattern.
pub proof fn lemma_clean_of_wf_pattern(p: Seq<Seq<char>>)
    requires
        pattern_lines_wf(p),
    ensures
        clean_block(p) == p,
{
    assert(p.map_values(|l: Seq<char>| trimmed(l)) =~= p);
    if p.len() > 0 {
        assert(p[0].len() > 0);
        assert(strip_leading_blanks(p) == p);
        assert(strip_trailing_blanks(p) == p);
    } else {
        assert(strip_leading_blanks(p) == p);
        assert(strip_trailing_blanks(p) == p);
    }
}

/// A cleaned block has trimmed lines and non-blank edges; with the wildcard
/// check it is a well-formed pattern.
pub proof fn lemma_clean_block_wf(block: Seq<Seq<char>>)
    ensures
        forall|i: int|
            0 <= i < clean_block(block).len() ==> trimmed(#[trigger] clean_block(block)[i])
                == clean_block(block)[i],
        clean_block(block).len() > 0 ==> clean_block(block)[0].len() > 0 && clean_block(
            block,
        ).last().len() > 0,
{
    let mapped = block.map_values(|l: Seq<char>| trimmed(l));
    let led = strip_leading_blanks(mapped);
    let cb = clean_block(block);
    lemma_strip_leading_keeps(mapped);
    lemma_strip_trailing_keeps(led);
    assert forall|i: int| 0 <= i < cb.len() implies trimmed(#[trigger] cb[i]) == cb[i] by {
        assert(cb[i] == led[i]);
        let j = mapped.len() - led.len() + i;
        assert(led[i] == mapped[j]);
        assert(mapped[j] == trimmed(block[j]));
        lemma_trimmed_clean(block[j]);
        lemma_trimmed_of_clean(trimmed(block[j]));
    }
    if cb.len() > 0 {
        assert(cb[0] == led[0]);
    }
}

} // verus!
