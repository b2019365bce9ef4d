//! The specification parser: turns raw extracted comment text into an
//! ordered collection of named test groups, each holding up to one `status`,
//! `stdout` and `stderr` sub-test.
//!
//! The grammar has two levels of indentation. A top-level line names one or
//! more groups (comma separated) and ends with `:`. One level deeper stand
//! the sub-test lines `key: value`; `stdout` and `stderr` may carry their
//! expected pattern inline, in a further-indented block, or both, and a bare
//! `stdout:`/`stderr:` with no content expects exactly empty output. The
//! indentation unit is established by the first indented line, and every
//! deeper line must sit a whole number of units in. Malformed input — bad
//! indentation, an unknown key, a bad status value, duplicate keys or group
//! names, or a pattern with consecutive wildcard lines — is a fatal
//! specification error, reported with the offending line's index.

use vstd::prelude::*;

use crate::pattern::{clean_block, Pattern};
use crate::fuzzy::no_consecutive_wildcards;
use crate::status::{parsed_status, parse_status, Status};
use crate::text::{
    chars_of, chars_eq, copy_chars, copy_range, find_ch, find_char, is_ws, split_at_ch, split_by,
    trim_end_line, trim_line, trimmed, trimmed_end, views,
};

verus! {

/// Why parsing a specification failed. Each variant carries the index of the
/// offending line (counting from zero) in the raw extracted text.
#[derive(Clone, Copy, Debug, PartialEq, Eq, Structural)]
pub enum SpecError {
    /// A line's indentation fits no nesting level.
    Indentation { line: usize },
    /// A top-level line does not name groups (no trailing `:`, or a blank
    /// group name).
    MalformedGroup { line: usize },
    /// A sub-test line without `:` between key and value.
    MalformedSubTest { line: usize },
    /// A sub-test key other than `status`, `stdout` or `stderr`.
    UnknownKey { line: usize },
    /// A `status` value that is neither `success`, `failure` nor a signed
    /// exit code.
    BadStatusValue { line: usize },
    /// The same sub-test key twice within one group.
    DuplicateKey { line: usize },
    /// The same group name twice within one specification.
    DuplicateGroup { line: usize },
    /// A pattern block carrying the literal wildcard token on two
    /// consecutive lines.
    ConsecutiveWildcards { line: usize },
}

/// The parsed form of one test group.
pub ghost struct GroupModel {
    pub name: Seq<char>,
    pub status: Option<Status>,
    pub stdout: Option<Seq<Seq<char>>>,
    pub stderr: Option<Seq<Seq<char>>>,
}

/// The sub-tests gathered so far for the group block being parsed.
pub ghost struct SubTestsModel {
    pub status: Option<Status>,
    pub stdout: Option<Seq<Seq<char>>>,
    pub stderr: Option<Seq<Seq<char>>>,
}

/// The raw text as structural lines: split at line breaks, each line with
/// its trailing whitespace removed (indentation is leading and so survives).
pub open spec fn raw_lines(t: Seq<char>) -> Seq<Seq<char>> {
    split_at_ch(t, '\n').map_values(|l: Seq<char>| trimmed_end(l))
}

/// The number of leading whitespace characters of a line.
pub open spec fn indent_of(l: Seq<char>) -> nat
    decreases l.len(),
{
    if l.len() > 0 && is_ws(l[0]) {
        1 + indent_of(l.drop_first())
    } else {
        0
    }
}

/// The first non-blank line at or after `from`, or `lines.len()`.
pub open spec fn first_nonblank(lines: Seq<Seq<char>>, from: nat) -> nat
    decreases lines.len() - from,
{
    if from >= lines.len() {
        lines.len()
    } else if lines[from as int].len() > 0 {
        from
    } else {
        first_nonblank(lines, (from + 1) as nat)
    }
}

/// The first non-blank line at or after `from` that is indented deeper than
/// `base`, or `lines.len()`.
pub open spec fn first_deeper(lines: Seq<Seq<char>>, from: nat, base: nat) -> nat
    decreases lines.len() - from,
{
    if from >= lines.len() {
        lines.len()
    } else if lines[from as int].len() > 0 && indent_of(lines[from as int]) > base {
        from
    } else {
        first_deeper(lines, (from + 1) as nat, base)
    }
}

/// The end of a pattern block that starts at `k`: the block takes every
/// following line that is blank or sits at least two units deep on a whole
/// multiple of the unit.
pub open spec fn block_end(lines: Seq<Seq<char>>, k: nat, base: nat, unit: nat) -> nat
    decreases lines.len() - k,
{
    if k >= lines.len() {
        lines.len()
    } else if lines[k as int].len() == 0 {
        block_end(lines, (k + 1) as nat, base, unit)
    } else if indent_of(lines[k as int]) >= base + 2 * unit && (indent_of(lines[k as int]) - base)
        % (unit as int) == 0 {
        block_end(lines, (k + 1) as nat, base, unit)
    } else {
        k
    }
}

/// The group names of a header line's text (without the trailing `:`):
/// comma-separated, each trimmed.
pub open spec fn header_names(head: Seq<char>) -> Seq<Seq<char>> {
    split_at_ch(head, ',').map_values(|n: Seq<char>| trimmed(n))
}

/// Whether some name in the list is blank.
pub open spec fn any_blank(names: Seq<Seq<char>>) -> bool {
    exists|k: int| 0 <= k < names.len() && #[trigger] names[k].len() == 0
}

/// Whether the names are pairwise distinct and none was seen before.
pub open spec fn distinct_names(names: Seq<Seq<char>>, seen: Seq<Seq<char>>) -> bool {
    (forall|a: int, b: int| 0 <= a < b < names.len() ==> names[a] != names[b]) && (forall|a: int|
        0 <= a < names.len() ==> !seen.contains(#[trigger] names[a]))
}

/// The key `status`.
pub open spec fn status_key() -> Seq<char> {
    seq!['s', 't', 'a', 't', 'u', 's']
}

/// The key `stdout`.
pub open spec fn stdout_key() -> Seq<char> {
    seq!['s', 't', 'd', 'o', 'u', 't']
}

/// The key `stderr`.
pub open spec fn stderr_key() -> Seq<char> {
    seq!['s', 't', 'd', 'e', 'r', 'r']
}

/// The raw lines of one output pattern: the inline value, if any, followed
/// by the block's lines.
pub open spec fn block_source(value: Seq<char>, lines: Seq<Seq<char>>, from: int, to: int) -> Seq<
    Seq<char>,
> {
    (if value.len() > 0 {
        seq![value]
    } else {
        Seq::empty()
    }) + lines.subrange(from, to)
}

/// Parses the sub-test lines of one group block, starting at line `i`,
/// returning the gathered sub-tests and the index of the first line after
/// the block.
pub open spec fn parse_subtests(
    lines: Seq<Seq<char>>,
    i: nat,
    base: nat,
    unit: nat,
    cur: SubTestsModel,
) -> Result<(SubTestsModel, nat), SpecError>
    decreases lines.len() - i,
{
    let j0 = first_nonblank(lines, i);
    let j = if j0 >= i {
        j0
    } else {
        i
    };
    if j >= lines.len() {
        Ok((cur, j))
    } else {
        let ind = indent_of(lines[j as int]);
        if ind <= base {
            Ok((cur, j))
        } else if ind != base + unit {
            Err(SpecError::Indentation { line: j as usize })
        } else {
            let content = lines[j as int].skip(ind as int);
            let c = find_ch(content, ':', 0);
            if c >= content.len() {
                Err(SpecError::MalformedSubTest { line: j as usize })
            } else {
                let key = trimmed(content.take(c as int));
                let value = trimmed(content.skip(c + 1 as int));
                if key == status_key() {
                    if cur.status is Some {
                        Err(SpecError::DuplicateKey { line: j as usize })
                    } else {
                        match parsed_status(value) {
                            Option::None => Err(SpecError::BadStatusValue { line: j as usize }),
                            Option::Some(st) => parse_subtests(
                                lines,
                                (j + 1) as nat,
                                base,
                                unit,
                                SubTestsModel { status: Some(st), ..cur },
                            ),
                        }
                    }
                } else if key == stdout_key() || key == stderr_key() {
                    let is_out = key == stdout_key();
                    if (is_out && cur.stdout is Some) || (!is_out && cur.stderr is Some) {
                        Err(SpecError::DuplicateKey { line: j as usize })
                    } else {
                        let e0 = block_end(lines, (j + 1) as nat, base, unit);
                        let e1 = if e0 >= j + 1 {
                            e0
                        } else {
                            (j + 1) as nat
                        };
                        let e = if e1 <= lines.len() {
                            e1
                        } else {
                            lines.len()
                        };
                        let pat = clean_block(block_source(value, lines, j + 1 as int, e as int));
                        if !no_consecutive_wildcards(pat) {
                            Err(SpecError::ConsecutiveWildcards { line: j as usize })
                        } else if is_out {
                            parse_subtests(
                                lines,
                                e,
                                base,
                                unit,
                                SubTestsModel { stdout: Some(pat), ..cur },
                            )
                        } else {
                            parse_subtests(
                                lines,
                                e,
                                base,
                                unit,
                                SubTestsModel { stderr: Some(pat), ..cur },
                            )
                        }
                    }
                } else {
                    Err(SpecError::UnknownKey { line: j as usize })
                }
            }
        }
    }
}

/// Parses group blocks from line `i` on. `seen` holds the group names of
/// earlier blocks, for the duplicate check.
pub open spec fn parse_groups(
    lines: Seq<Seq<char>>,
    i: nat,
    base: nat,
    unit: nat,
    seen: Seq<Seq<char>>,
) -> Result<Seq<GroupModel>, SpecError>
    decreases lines.len() - i,
{
    let j0 = first_nonblank(lines, i);
    let j = if j0 >= i {
        j0
    } else {
        i
    };
    if j >= lines.len() {
        Ok(Seq::empty())
    } else if indent_of(lines[j as int]) != base {
        Err(SpecError::Indentation { line: j as usize })
    } else {
        let content = lines[j as int].skip(indent_of(lines[j as int]) as int);
        if content.len() == 0 || content.last() != ':' {
            Err(SpecError::MalformedGroup { line: j as usize })
        } else {
            let names = header_names(content.take(content.len() - 1));
            if any_blank(names) {
                Err(SpecError::MalformedGroup { line: j as usize })
            } else if !distinct_names(names, seen) {
                Err(SpecError::DuplicateGroup { line: j as usize })
            } else {
                match parse_subtests(
                    lines,
                    (j + 1) as nat,
                    base,
                    unit,
                    SubTestsModel { status: None, stdout: None, stderr: None },
                ) {
                    Result::Err(e) => Err(e),
                    Result::Ok(done) => {
                        let next0 = done.1;
                        let next1 = if next0 >= j + 1 {
                            next0
                        } else {
                            (j + 1) as nat
                        };
                        let next = if next1 <= lines.len() {
                            next1
                        } else {
                            lines.len()
                        };
                        match parse_groups(lines, next, base, unit, seen + names) {
                            Result::Err(e) => Err(e),
                            Result::Ok(rest) => Ok(
                                names.map_values(
                                    |n: Seq<char>|
                                        GroupModel {
                                            name: n,
                                            status: done.0.status,
                                            stdout: done.0.stdout,
                                            stderr: done.0.stderr,
                                        },
                                ) + rest,
                            ),
                        }
                    },
                }
            }
        }
    }
}

/// The whole specification: the indentation base is the indent of the first
/// non-blank line, the unit is set by the first line indented deeper, and
/// the group blocks follow. Text with no non-blank line parses to zero
/// groups.
pub open spec fn parsed_spec(t: Seq<char>) -> Result<Seq<GroupModel>, SpecError> {
    let lines = raw_lines(t);
    let b = first_nonblank(lines, 0);
    if b >= lines.len() {
        Ok(Seq::empty())
    } else {
        let base = indent_of(lines[b as int]);
        let d = first_deeper(lines, 0, base);
        let unit = if d >= lines.len() {
            1 as nat
        } else {
            (indent_of(lines[d as int]) - base) as nat
        };
        parse_groups(lines, b, base, unit, Seq::empty())
    }
}

/// A one-group, status-only specification rendered back to text: the group
/// header on one line, the status sub-test indented by one unit of two
/// spaces on the next.
pub open spec fn rendered_single(name: Seq<char>, st: Status) -> Seq<char> {
    (name + seq![':']) + seq!['\n'] + (rendered_status_line(st) + seq!['\n'])
}

/// The line `  status: <value>`.
pub open spec fn rendered_status_line(st: Status) -> Seq<char> {
    seq![' ', ' '] + status_key() + seq![':', ' '] + crate::status::rendered_status(st)
}

proof fn lemma_split_head(a: Seq<char>, b: Seq<char>)
    requires
        forall|i: int| 0 <= i < a.len() ==> a[i] != '\n',
    ensures
        split_at_ch(a + seq!['\n'] + b, '\n') == seq![a] + split_at_ch(b, '\n'),
{
    let t = a + seq!['\n'] + b;
    crate::text::lemma_find_ch_at(t, '\n', 0, a.len() as nat);
    assert(t.take(a.len() as int) =~= a);
    assert(t.skip(a.len() + 1 as int) =~= b);
}

proof fn lemma_trimmed_start_ws_prefix(pre: Seq<char>, x: Seq<char>)
    requires
        forall|i: int| 0 <= i < pre.len() ==> is_ws(#[trigger] pre[i]),
    ensures
        crate::text::trimmed_start(pre + x) == crate::text::trimmed_start(x),
    decreases pre.len(),
{
    if pre.len() == 0 {
        assert(pre + x =~= x);
    } else {
        assert(is_ws((pre + x)[0]));
        lemma_trimmed_start_ws_prefix(pre.drop_first(), x);
        assert((pre + x).drop_first() =~= pre.drop_first() + x);
    }
}

proof fn lemma_rendered_status_clean(st: Status)
    ensures
        crate::status::rendered_status(st).len() > 0,
        !is_ws(crate::status::rendered_status(st)[0]),
        !is_ws(crate::status::rendered_status(st).last()),
        forall|i: int|
            0 <= i < crate::status::rendered_status(st).len()
                ==> #[trigger] crate::status::rendered_status(st)[i] != '\n',
{
    let v = crate::status::rendered_status(st);
    match st {
        Status::Success => {
            assert forall|i: int| 0 <= i < v.len() implies #[trigger] v[i] != '\n' by {
                assert(v == crate::status::success_word());
            }
        },
        Status::Failure => {
            assert forall|i: int| 0 <= i < v.len() implies #[trigger] v[i] != '\n' by {
                assert(v == crate::status::failure_word());
            }
        },
        Status::Code(c) => {
            let m: nat = if c < 0 {
                (-(c as int)) as nat
            } else {
                c as nat
            };
            lemma_digits_ws_free(m);
            let ds = crate::status::digits_of(m);
            if c < 0 {
                assert(v == seq!['-'] + ds);
                assert(v[0] == '-');
                assert(v.last() == ds.last());
                assert forall|i: int| 0 <= i < v.len() implies #[trigger] v[i] != '\n' by {
                    if i > 0 {
                        assert(v[i] == ds[i - 1]);
                    }
                }
            } else {
                assert(v == ds);
            }
        },
    }
}

proof fn lemma_digits_ws_free(m: nat)
    ensures
        crate::status::digits_of(m).len() > 0,
        forall|i: int|
            0 <= i < crate::status::digits_of(m).len() ==> !is_ws(
                #[trigger] crate::status::digits_of(m)[i],
            ) && crate::status::digits_of(m)[i] != '\n',
    decreases m,
{
    if m >= 10 {
        lemma_digits_ws_free(m / 10);
    }
}

/// Parsing the rendered form of a one-group, status-only specification gives
/// back exactly that group: the single-group, status-only instance of the
/// parse-render round trip. The name must be a usable group name: non-blank,
/// trimmed, without line breaks or commas.
pub proof fn lemma_single_group_round_trip(name: Seq<char>, st: Status)
    requires
        name.len() > 0,
        trimmed(name) == name,
        forall|i: int| 0 <= i < name.len() ==> name[i] != '\n' && name[i] != ',',
    ensures
        parsed_spec(rendered_single(name, st)) == Ok::<Seq<GroupModel>, SpecError>(
            seq![GroupModel { name: name, status: Some(st), stdout: None, stderr: None }],
        ),
{
    let v = crate::status::rendered_status(st);
    let line1 = name + seq![':'];
    let line2 = rendered_status_line(st);
    let t = rendered_single(name, st);
    crate::text::lemma_trimmed_clean(name);
    lemma_rendered_status_clean(st);

    // The raw lines of the rendered text are the two lines and one final
    // blank piece after the trailing line break.
    assert(forall|i: int| 0 <= i < line1.len() ==> #[trigger] line1[i] != '\n');
    assert forall|i: int| 0 <= i < line2.len() implies #[trigger] line2[i] != '\n' by {
        lemma_line2_shape(st, i);
    }
    lemma_split_head(line1, line2 + seq!['\n']);
    assert(line2 + seq!['\n'] =~= line2 + seq!['\n'] + Seq::<char>::empty());
    lemma_split_head(line2, Seq::empty());
    assert(split_at_ch(Seq::empty(), '\n') == seq![Seq::<char>::empty()]);
    assert(split_at_ch(t, '\n') =~= seq![line1, line2, Seq::<char>::empty()]);

    crate::text::lemma_trimmed_end_is_take(line1, line1.len() as int);
    assert(line1.take(line1.len() as int) =~= line1);
    crate::text::lemma_trimmed_end_is_take(line2, line2.len() as int);
    assert(line2.take(line2.len() as int) =~= line2);
    assert(line2.last() == v.last());
    let lines = raw_lines(t);
    assert(lines =~= seq![line1, line2, Seq::<char>::empty()]);

    // Base and unit: the header sits at indent zero, the status line two in.
    lemma_indent_at(line1, 0);
    assert(line2[0] == ' ' && line2[1] == ' ' && line2[2] == 's');
    lemma_indent_at(line2, 2);
    assert(first_nonblank(lines, 0) == 0);
    assert(lines[0].len() > 0);
    assert(lines[1].len() > 0);
    assert(indent_of(lines[0]) == 0);
    assert(indent_of(lines[1]) == 2);
    assert(first_deeper(lines, 1, 0) == 1);
    assert(first_deeper(lines, 0, 0) == 1);

    // The header yields the one name.
    let content = lines[0].skip(0);
    assert(content =~= line1);
    assert(content.last() == ':');
    assert(content.take(content.len() - 1) =~= name);
    crate::text::lemma_find_ch_at(name, ',', 0, name.len() as nat);
    assert(split_at_ch(name, ',') == seq![name]);
    let names = header_names(name);
    assert(names =~= seq![name]);
    assert(!any_blank(names));
    assert(distinct_names(names, Seq::empty()));

    // The status line parses back to the same status.
    let m0 = SubTestsModel { status: None, stdout: None, stderr: None };
    let content2 = lines[1].skip(2);
    assert(content2 =~= crate::status::success_word().take(0) + status_key() + seq![':', ' ']
        + v) by {
        assert(crate::status::success_word().take(0) =~= Seq::<char>::empty());
    }
    assert forall|k: int| 0 <= k < 6 implies content2[k] != ':' by {
        assert(content2[k] == status_key()[k]);
    }
    assert(content2[6] == ':');
    crate::text::lemma_find_ch_at(content2, ':', 0, 6);
    assert(content2.take(6) =~= status_key());
    crate::text::lemma_trimmed_of_clean(status_key());
    assert(content2.skip(7) =~= seq![' '] + v);
    lemma_trimmed_start_ws_prefix(seq![' '], v);
    crate::text::lemma_trimmed_of_clean(v);
    assert(trimmed(content2.skip(7)) == v) by {
        assert(crate::text::trimmed_start(v) == v) by {
            crate::text::lemma_trimmed_of_clean(v);
            assert(trimmed(v) == v);
            if crate::text::trimmed_start(v) != v {
                assert(v.len() > 0 && is_ws(v[0]));
            }
        }
    }
    crate::status::lemma_status_round_trip(st);

    // The walk after the status line runs off the end.
    assert(first_nonblank(lines, 2) == 3);
    let m1 = SubTestsModel { status: Some(st), stdout: None, stderr: None };
    assert(parse_subtests(lines, 2, 0, 2, m1) == Ok::<(SubTestsModel, nat), SpecError>((m1, 3)));
    assert(parse_subtests(lines, 1, 0, 2, m0) == Ok::<(SubTestsModel, nat), SpecError>((m1, 3)));
    assert(parse_groups(lines, 3, 0, 2, Seq::empty() + names) == Ok::<Seq<GroupModel>, SpecError>(
        Seq::empty(),
    ));
    let g = GroupModel { name: name, status: Some(st), stdout: None, stderr: None };
    assert(parse_groups(lines, 0, 0, 2, Seq::empty()) == Ok::<Seq<GroupModel>, SpecError>(
        seq![g],
    )) by {
        assert(names.map_values(
            |n: Seq<char>| GroupModel { name: n, status: Some(st), stdout: None, stderr: None },
        ) + Seq::<GroupModel>::empty() =~= seq![g]);
    }
    assert(parsed_spec(t) == Ok::<Seq<GroupModel>, SpecError>(seq![g]));
}

proof fn lemma_line2_shape(st: Status, i: int)
    requires
        0 <= i < rendered_status_line(st).len(),
    ensures
        rendered_status_line(st)[i] != '\n',
{
    let v = crate::status::rendered_status(st);
    let l = rendered_status_line(st);
    lemma_rendered_status_clean(st);
    if i < 2 {
        assert(l[i] == ' ');
    } else if i < 10 {
        assert(l[i] == (status_key() + seq![':', ' '])[i - 2]);
    } else {
        assert(l[i] == v[i - 10]);
    }
}

/// The given lines joined into one text, each line ending in a line break.
pub open spec fn joined(ls: Seq<Seq<char>>) -> Seq<char>
    decreases ls.len(),
{
    if ls.len() == 0 {
        Seq::empty()
    } else {
        ls[0] + seq!['\n'] + joined(ls.drop_first())
    }
}

/// The line `  stdout:`.
pub open spec fn stdout_header_line() -> Seq<char> {
    seq![' ', ' '] + stdout_key() + seq![':']
}

/// Pattern lines rendered as a block: two units of indentation ahead of
/// each non-blank line, blank lines kept bare.
pub open spec fn block_lines(p: Seq<Seq<char>>) -> Seq<Seq<char>> {
    p.map_values(
        |l: Seq<char>|
            if l.len() == 0 {
                l
            } else {
                seq![' ', ' ', ' ', ' '] + l
            },
    )
}

/// A one-group specification with a status and a stdout pattern rendered
/// back to text.
pub open spec fn rendered_single_with_output(
    name: Seq<char>,
    st: Status,
    p: Seq<Seq<char>>,
) -> Seq<char> {
    joined(seq![name + seq![':'], rendered_status_line(st), stdout_header_line()] + block_lines(p))
}

proof fn lemma_raw_of_joined(ls: Seq<Seq<char>>)
    requires
        forall|i: int, k: int| 0 <= i < ls.len() && 0 <= k < ls[i].len() ==> ls[i][k] != '\n',
        forall|i: int| 0 <= i < ls.len() ==> trimmed_end(#[trigger] ls[i]) == ls[i],
    ensures
        raw_lines(joined(ls)) == ls + seq![Seq::<char>::empty()],
    decreases ls.len(),
{
    let f = |l: Seq<char>| trimmed_end(l);
    if ls.len() == 0 {
        assert(split_at_ch(Seq::empty(), '\n') == seq![Seq::<char>::empty()]);
        assert(raw_lines(joined(ls)) =~= ls + seq![Seq::<char>::empty()]);
    } else {
        let rest = ls.drop_first();
        assert(forall|i: int, k: int|
            0 <= i < rest.len() && 0 <= k < rest[i].len() ==> rest[i][k] != '\n');
        assert(forall|i: int| 0 <= i < rest.len() ==> trimmed_end(#[trigger] rest[i]) == rest[i]);
        lemma_raw_of_joined(rest);
        assert(forall|k: int| 0 <= k < ls[0].len() ==> ls[0][k] != '\n');
        lemma_split_head(ls[0], joined(rest));
        assert(raw_lines(joined(ls)) =~= (seq![ls[0]] + split_at_ch(joined(rest), '\n')).map_values(
            f,
        ));
        assert((seq![ls[0]] + split_at_ch(joined(rest), '\n')).map_values(f) =~= seq![f(ls[0])]
            + split_at_ch(joined(rest), '\n').map_values(f));
        assert(f(ls[0]) == ls[0]);
        assert(raw_lines(joined(ls)) =~= ls + seq![Seq::<char>::empty()]);
    }
}

proof fn lemma_block_end_walk(lines: Seq<Seq<char>>, k: nat, base: nat, unit: nat)
    requires
        k <= lines.len(),
        forall|t: int|
            k <= t < lines.len() ==> (#[trigger] lines[t]).len() == 0 || (indent_of(lines[t])
                >= base + 2 * unit && (indent_of(lines[t]) - base) % (unit as int) == 0),
    ensures
        block_end(lines, k, base, unit) == lines.len(),
    decreases lines.len() - k,
{
    if k < lines.len() {
        lemma_block_end_walk(lines, (k + 1) as nat, base, unit);
    }
}

proof fn lemma_rendered_lines_shape(name: Seq<char>, st: Status, p: Seq<Seq<char>>)
    requires
        name.len() > 0,
        trimmed(name) == name,
        forall|i: int| 0 <= i < name.len() ==> name[i] != '\n',
        crate::pattern::pattern_lines_wf(p),
        forall|i: int, k: int| 0 <= i < p.len() && 0 <= k < p[i].len() ==> p[i][k] != '\n',
    ensures
        ({
            let ls = seq![
                name + seq![':'],
                rendered_status_line(st),
                stdout_header_line(),
            ] + block_lines(p);
            (forall|i: int, k: int|
                0 <= i < ls.len() && 0 <= k < ls[i].len() ==> ls[i][k] != '\n') && (forall|i: int|
                0 <= i < ls.len() ==> trimmed_end(#[trigger] ls[i]) == ls[i])
        }),
{
    let v = crate::status::rendered_status(st);
    let line1 = name + seq![':'];
    let line2 = rendered_status_line(st);
    let line3 = stdout_header_line();
    let ls = seq![line1, line2, line3] + block_lines(p);
    crate::text::lemma_trimmed_clean(name);
    lemma_rendered_status_clean(st);
    assert forall|i: int| 0 <= i < p.len() implies trimmed(#[trigger] p[i]) == p[i] && (p[i].len()
        > 0 ==> !is_ws(p[i][0]) && !is_ws(p[i].last())) by {
        crate::text::lemma_trimmed_clean(p[i]);
    }
    assert forall|i: int, k: int|
        0 <= i < ls.len() && 0 <= k < ls[i].len() implies ls[i][k] != '\n' by {
        if i == 0 {
            if k < name.len() {
                assert(line1[k] == name[k]);
            } else {
                assert(line1[k] == ':');
            }
        } else if i == 1 {
            lemma_line2_shape(st, k);
        } else if i == 2 {
            if k < 2 {
                assert(line3[k] == ' ');
            } else if k < 8 {
                assert(line3[k] == stdout_key()[k - 2]);
            } else {
                assert(line3[k] == ':');
            }
        } else {
            let l = p[i - 3];
            if l.len() == 0 {
            } else {
                assert(ls[i] == seq![' ', ' ', ' ', ' '] + l);
                if k < 4 {
                    assert(ls[i][k] == ' ');
                } else {
                    assert(ls[i][k] == l[k - 4]);
                }
            }
        }
    }
    assert forall|i: int| 0 <= i < ls.len() implies trimmed_end(#[trigger] ls[i]) == ls[i] by {
        if i == 0 {
            crate::text::lemma_trimmed_end_is_take(line1, line1.len() as int);
            assert(line1.take(line1.len() as int) =~= line1);
        } else if i == 1 {
            assert(line2.last() == v.last());
            crate::text::lemma_trimmed_end_is_take(line2, line2.len() as int);
            assert(line2.take(line2.len() as int) =~= line2);
        } else if i == 2 {
            assert(line3.last() == ':');
            crate::text::lemma_trimmed_end_is_take(line3, line3.len() as int);
            assert(line3.take(line3.len() as int) =~= line3);
        } else {
            let l = p[i - 3];
            if l.len() == 0 {
                assert(ls[i].len() == 0);
            } else {
                assert(ls[i] == seq![' ', ' ', ' ', ' '] + l);
                assert(ls[i].last() == l.last());
                crate::text::lemma_trimmed_end_is_take(ls[i], ls[i].len() as int);
                assert(ls[i].take(ls[i].len() as int) =~= ls[i]);
            }
        }
    }
}

proof fn lemma_block_cleans(p: Seq<Seq<char>>)
    requires
        crate::pattern::pattern_lines_wf(p),
    ensures
        clean_block(block_lines(p) + seq![Seq::<char>::empty()]) == p,
{
    let bl = block_lines(p);
    let src = bl + seq![Seq::<char>::empty()];
    let mapped = src.map_values(|l: Seq<char>| trimmed(l));
    assert forall|i: int| 0 <= i < p.len() implies mapped[i] == p[i] by {
        let l = p[i];
        crate::text::lemma_trimmed_clean(l);
        if l.len() == 0 {
            assert(src[i] == l);
        } else {
            assert(src[i] == seq![' ', ' ', ' ', ' '] + l);
            lemma_trimmed_start_ws_prefix(seq![' ', ' ', ' ', ' '], l);
            crate::text::lemma_trimmed_of_clean(l);
            assert(crate::text::trimmed_start(l) == l);
        }
    }
    assert(trimmed(Seq::<char>::empty()) == Seq::<char>::empty());
    assert(mapped[p.len() as int].len() == 0);
    assert(mapped =~= p + seq![Seq::<char>::empty()]);
    if p.len() == 0 {
        assert(mapped.drop_first() =~= Seq::<Seq<char>>::empty());
        assert(crate::pattern::strip_leading_blanks(Seq::<Seq<char>>::empty())
            =~= Seq::<Seq<char>>::empty());
        assert(crate::pattern::strip_leading_blanks(mapped) =~= Seq::<Seq<char>>::empty());
        assert(clean_block(src) =~= p);
    } else {
        assert(mapped[0].len() > 0);
        assert(crate::pattern::strip_leading_blanks(mapped) == mapped);
        assert(mapped.drop_last() =~= p);
        assert(crate::pattern::strip_trailing_blanks(mapped)
            == crate::pattern::strip_trailing_blanks(p));
        assert(p.last().len() > 0);
        assert(crate::pattern::strip_trailing_blanks(p) == p);
        assert(clean_block(src) == p);
    }
}

/// Parsing the rendered form of a one-group specification with a status and
/// a stdout pattern gives back exactly that group: the instance of the
/// parse-render round trip that covers output patterns. The name must be a
/// usable group name, and the pattern well formed with no line break inside
/// a line.
#[verifier::rlimit(100)]
pub proof fn lemma_single_group_output_round_trip(name: Seq<char>, st: Status, p: Seq<Seq<char>>)
    requires
        name.len() > 0,
        trimmed(name) == name,
        forall|i: int| 0 <= i < name.len() ==> name[i] != '\n' && name[i] != ',',
        crate::pattern::pattern_lines_wf(p),
        forall|i: int, k: int| 0 <= i < p.len() && 0 <= k < p[i].len() ==> p[i][k] != '\n',
    ensures
        parsed_spec(rendered_single_with_output(name, st, p)) == Ok::<Seq<GroupModel>, SpecError>(
            seq![GroupModel { name: name, status: Some(st), stdout: Some(p), stderr: None }],
        ),
{
    let v = crate::status::rendered_status(st);
    let line1 = name + seq![':'];
    let line2 = rendered_status_line(st);
    let line3 = stdout_header_line();
    let bl = block_lines(p);
    let ls = seq![line1, line2, line3] + bl;
    let t = rendered_single_with_output(name, st, p);
    crate::text::lemma_trimmed_clean(name);
    lemma_rendered_status_clean(st);
    assert forall|i: int| 0 <= i < p.len() implies trimmed(#[trigger] p[i]) == p[i] && (p[i].len()
        > 0 ==> !is_ws(p[i][0]) && !is_ws(p[i].last())) by {
        crate::text::lemma_trimmed_clean(p[i]);
    }

    // The raw lines of the rendered text.
    lemma_rendered_lines_shape(name, st, p);
    lemma_raw_of_joined(ls);
    let lines = raw_lines(t);
    assert(lines == ls + seq![Seq::<char>::empty()]);
    let n = lines.len();
    assert(n == p.len() + 4);

    // Base and unit.
    lemma_indent_at(line1, 0);
    assert(line2[0] == ' ' && line2[1] == ' ' && line2[2] == 's');
    lemma_indent_at(line2, 2);
    assert(lines[0] == line1 && lines[1] == line2 && lines[2] == line3);
    assert(first_nonblank(lines, 0) == 0);
    assert(first_deeper(lines, 1, 0) == 1);
    assert(first_deeper(lines, 0, 0) == 1);

    // The header yields the one name.
    assert(lines[0].skip(0) =~= line1);
    assert(line1.last() == ':');
    assert(line1.take(line1.len() - 1) =~= name);
    crate::text::lemma_find_ch_at(name, ',', 0, name.len() as nat);
    assert(split_at_ch(name, ',') == seq![name]);
    let names = header_names(name);
    assert(names =~= seq![name]);
    assert(!any_blank(names));
    assert(distinct_names(names, Seq::empty()));

    // The status line parses back to the same status.
    let m0 = SubTestsModel { status: None, stdout: None, stderr: None };
    let content2 = lines[1].skip(2);
    assert(content2 =~= status_key() + seq![':', ' '] + v);
    assert forall|k: int| 0 <= k < 6 implies content2[k] != ':' by {
        assert(content2[k] == status_key()[k]);
    }
    assert(content2[6] == ':');
    crate::text::lemma_find_ch_at(content2, ':', 0, 6);
    assert(content2.take(6) =~= status_key());
    crate::text::lemma_trimmed_of_clean(status_key());
    assert(content2.skip(7) =~= seq![' '] + v);
    lemma_trimmed_start_ws_prefix(seq![' '], v);
    crate::text::lemma_trimmed_of_clean(v);
    assert(trimmed(content2.skip(7)) == v);
    crate::status::lemma_status_round_trip(st);

    // The stdout line opens a block with an empty inline value.
    assert(first_nonblank(lines, 2) == 2);
    assert(line3[0] == ' ' && line3[1] == ' ' && line3[2] == 's');
    lemma_indent_at(line3, 2);
    let content3 = lines[2].skip(2);
    assert(content3 =~= stdout_key() + seq![':']);
    assert forall|k: int| 0 <= k < 6 implies content3[k] != ':' by {
        assert(content3[k] == stdout_key()[k]);
    }
    assert(content3[6] == ':');
    crate::text::lemma_find_ch_at(content3, ':', 0, 6);
    assert(content3.take(6) =~= stdout_key());
    crate::text::lemma_trimmed_of_clean(stdout_key());
    assert(status_key()[2] != stdout_key()[2]);
    assert(content3.skip(7) =~= Seq::<char>::empty());
    assert(trimmed(Seq::<char>::empty()) == Seq::<char>::empty());

    // The block takes every remaining line, the final blank one included.
    assert forall|u: int|
        3 <= u < n implies (#[trigger] lines[u]).len() == 0 || (indent_of(lines[u]) >= 0 + 2 * 2
        && (indent_of(lines[u]) - 0) % (2int) == 0) by {
        if u < n - 1 {
            let l = p[u - 3];
            if l.len() > 0 {
                assert(lines[u] == seq![' ', ' ', ' ', ' '] + l);
                assert(lines[u][0] == ' ' && lines[u][1] == ' ' && lines[u][2] == ' '
                    && lines[u][3] == ' ');
                assert(!is_ws(lines[u][4]));
                lemma_indent_at(lines[u], 4);
            }
        }
    }
    lemma_block_end_walk(lines, 3, 0, 2);
    assert(block_end(lines, 3, 0, 2) == n);

    // The collected block cleans to exactly the pattern.
    let src = block_source(Seq::empty(), lines, 3, n as int);
    assert(src =~= bl + seq![Seq::<char>::empty()]);
    lemma_block_cleans(p);
    let pat = clean_block(src);
    assert(pat == p);
    assert(no_consecutive_wildcards(pat));

    // The walk after the block runs off the end.
    let m1 = SubTestsModel { status: Some(st), stdout: None, stderr: None };
    let m2 = SubTestsModel { status: Some(st), stdout: Some(p), stderr: None };
    assert(first_nonblank(lines, n as nat) == n);
    assert(parse_subtests(lines, n as nat, 0, 2, m2) == Ok::<(SubTestsModel, nat), SpecError>(
        (m2, n as nat),
    ));
    assert(parse_subtests(lines, 2, 0, 2, m1) == Ok::<(SubTestsModel, nat), SpecError>(
        (m2, n as nat),
    ));
    assert(parse_subtests(lines, 1, 0, 2, m0) == Ok::<(SubTestsModel, nat), SpecError>(
        (m2, n as nat),
    ));
    assert(parse_groups(lines, n as nat, 0, 2, Seq::empty() + names) == Ok::<
        Seq<GroupModel>,
        SpecError,
    >(Seq::empty()));
    let g = GroupModel { name: name, status: Some(st), stdout: Some(p), stderr: None };
    assert(parse_groups(lines, 0, 0, 2, Seq::empty()) == Ok::<Seq<GroupModel>, SpecError>(
        seq![g],
    )) by {
        assert(names.map_values(
            |nm: Seq<char>|
                GroupModel { name: nm, status: Some(st), stdout: Some(p), stderr: None },
        ) + Seq::<GroupModel>::empty() =~= seq![g]);
    }
    assert(parsed_spec(t) == Ok::<Seq<GroupModel>, SpecError>(seq![g]));
}

/// One named test group: a command label with up to one expectation each for
/// exit status, stdout and stderr. An absent expectation means "not checked"
/// — distinct from a present pattern with no lines, which means "checked and
/// expected empty".
#[derive(Debug)]
pub struct TestGroup {
    /// The command label this group applies to.
    pub name: Vec<char>,
    /// The expected exit status, if checked.
    pub status: Option<Status>,
    /// The expected stdout pattern, if checked.
    pub stdout: Option<Pattern>,
    /// The expected stderr pattern, if checked.
    pub stderr: Option<Pattern>,
}

/// The view of an optional pattern.
pub open spec fn opt_pattern_view(o: Option<Pattern>) -> Option<Seq<Seq<char>>> {
    match o {
        Option::Some(p) => Some(p@),
        Option::None => None,
    }
}

impl View for TestGroup {
    type V = GroupModel;

    open spec fn view(&self) -> GroupModel {
        GroupModel {
            name: self.name@,
            status: self.status,
            stdout: opt_pattern_view(self.stdout),
            stderr: opt_pattern_view(self.stderr),
        }
    }
}

impl TestGroup {
    /// Both present patterns satisfy the pattern invariant.
    pub open spec fn wf(&self) -> bool {
        &&& match self.stdout {
            Option::Some(p) => p.wf(),
            Option::None => true,
        }
        &&& match self.stderr {
            Option::Some(p) => p.wf(),
            Option::None => true,
        }
    }
}

/// The sub-tests gathered while a group block is being parsed.
pub struct SubTests {
    /// The `status` sub-test seen so far, if any.
    pub status: Option<Status>,
    /// The `stdout` sub-test seen so far, if any.
    pub stdout: Option<Pattern>,
    /// The `stderr` sub-test seen so far, if any.
    pub stderr: Option<Pattern>,
}

impl View for SubTests {
    type V = SubTestsModel;

    open spec fn view(&self) -> SubTestsModel {
        SubTestsModel {
            status: self.status,
            stdout: opt_pattern_view(self.stdout),
            stderr: opt_pattern_view(self.stderr),
        }
    }
}

impl SubTests {
    /// Both present patterns satisfy the pattern invariant.
    pub open spec fn wf(&self) -> bool {
        &&& match self.stdout {
            Option::Some(p) => p.wf(),
            Option::None => true,
        }
        &&& match self.stderr {
            Option::Some(p) => p.wf(),
            Option::None => true,
        }
    }
}

/// The views of a sequence of test groups, each in turn.
pub open spec fn group_views(s: Seq<TestGroup>) -> Seq<GroupModel> {
    s.map_values(|g: TestGroup| g@)
}

/// The full ordered collection of test groups parsed from one extracted
/// comment block. Order is significant, and group names are unique.
#[derive(Debug)]
pub struct TestSpecification {
    /// The groups, in the order their headers stand in the text.
    pub groups: Vec<TestGroup>,
}

impl View for TestSpecification {
    type V = Seq<GroupModel>;

    open spec fn view(&self) -> Seq<GroupModel> {
        group_views(self.groups@)
    }
}

impl TestSpecification {
    /// Group names are pairwise distinct and every present pattern satisfies
    /// the pattern invariant.
    pub open spec fn wf(&self) -> bool {
        &&& forall|a: int, b: int|
            0 <= a < b < self@.len() ==> self@[a].name != self@[b].name
        &&& forall|k: int| 0 <= k < self.groups@.len() ==> (#[trigger] self.groups@[k]).wf()
    }

    /// The number of groups.
    pub fn len(&self) -> (r: usize)
        ensures
            r == self@.len(),
    {
        self.groups.len()
    }

    /// The index of the group named `label`, if there is one.
    pub fn find_group(&self, label: &str) -> (r: Option<usize>)
        ensures
            r matches Some(idx) ==> idx < self@.len() && self@[idx as int].name == label@,
            r is None ==> forall|k: int| 0 <= k < self@.len() ==> self@[k].name != label@,
    {
        let lc = chars_of(label);
        let mut k: usize = 0;
        while k < self.groups.len()
            invariant
                k <= self.groups@.len(),
                lc@ == label@,
                forall|t: int| 0 <= t < k ==> group_views(self.groups@)[t].name != label@,
            decreases self.groups@.len() - k,
        {
            if chars_eq(&self.groups[k].name, &lc) {
                proof {
                    assert(group_views(self.groups@)[k as int].name == label@);
                }
                return Some(k);
            }
            k = k + 1;
        }
        None
    }
}

/// The number of leading whitespace characters of a line.
fn indent_len(v: &Vec<char>) -> (r: usize)
    ensures
        r == indent_of(v@),
        r <= v@.len(),
{
    let n = v.len();
    let mut i: usize = 0;
    while i < n && is_ws_char_at(v, i)
        invariant
            n == v@.len(),
            i <= n,
            forall|k: int| 0 <= k < i ==> is_ws(v@[k]),
        decreases n - i,
    {
        i = i + 1;
    }
    proof {
        lemma_indent_at(v@, i as int);
    }
    i
}

/// Whether the character at `i` is whitespace.
fn is_ws_char_at(v: &Vec<char>, i: usize) -> (r: bool)
    requires
        i < v@.len(),
    ensures
        r == is_ws(v@[i as int]),
{
    let c = v[i];
    c == ' ' || c == '\t' || c == '\r' || c == '\n'
}

proof fn lemma_indent_at(l: Seq<char>, i: int)
    requires
        0 <= i <= l.len(),
        forall|k: int| 0 <= k < i ==> is_ws(l[k]),
        i < l.len() ==> !is_ws(l[i]),
    ensures
        indent_of(l) == i,
    decreases i,
{
    if i > 0 {
        lemma_indent_at(l.drop_first(), i - 1);
    }
}

/// The first non-blank line at or after `from`.
fn next_nonblank(lines: &Vec<Vec<char>>, from: usize) -> (r: usize)
    requires
        from <= lines@.len(),
    ensures
        r == first_nonblank(views(lines@), from as nat),
        from <= r <= lines@.len(),
        r < lines@.len() ==> views(lines@)[r as int].len() > 0,
{
    let mut i: usize = from;
    while i < lines.len()
        invariant
            from <= i <= lines@.len(),
            first_nonblank(views(lines@), from as nat) == first_nonblank(
                views(lines@),
                i as nat,
            ),
        decreases lines@.len() - i,
    {
        if lines[i].len() > 0 {
            return i;
        }
        i = i + 1;
    }
    i
}

/// The first non-blank line at or after `from` indented deeper than `base`.
fn next_deeper(lines: &Vec<Vec<char>>, from: usize, base: usize) -> (r: usize)
    requires
        from <= lines@.len(),
    ensures
        r == first_deeper(views(lines@), from as nat, base as nat),
        from <= r <= lines@.len(),
        r < lines@.len() ==> indent_of(views(lines@)[r as int]) > base && views(lines@)[
            r as int
        ].len() > 0,
{
    let mut i: usize = from;
    while i < lines.len()
        invariant
            from <= i <= lines@.len(),
            first_deeper(views(lines@), from as nat, base as nat) == first_deeper(
                views(lines@),
                i as nat,
                base as nat,
            ),
        decreases lines@.len() - i,
    {
        if lines[i].len() > 0 {
            let ind = indent_len(&lines[i]);
            if ind > base {
                return i;
            }
        }
        i = i + 1;
    }
    i
}

/// The end of the pattern block that starts at `k`.
fn block_end_scan(lines: &Vec<Vec<char>>, k: usize, base: usize, unit: usize) -> (r: usize)
    requires
        k <= lines@.len(),
        unit >= 1,
    ensures
        r == block_end(views(lines@), k as nat, base as nat, unit as nat),
        k <= r <= lines@.len(),
{
    let mut i: usize = k;
    while i < lines.len()
        invariant
            k <= i <= lines@.len(),
            unit >= 1,
            block_end(views(lines@), k as nat, base as nat, unit as nat) == block_end(
                views(lines@),
                i as nat,
                base as nat,
                unit as nat,
            ),
        decreases lines@.len() - i,
    {
        if lines[i].len() > 0 {
            let ind = indent_len(&lines[i]);
            let deep = ind >= base && ind - base >= unit && (ind - base) - unit >= unit;
            proof {
                assert(deep == (indent_of(views(lines@)[i as int]) >= base + 2 * unit));
            }
            if !(deep && (ind - base) % unit == 0) {
                return i;
            }
        }
        i = i + 1;
    }
    i
}

/// The comma-separated, trimmed group names of a header's text.
fn split_names(head: &Vec<char>) -> (r: Vec<Vec<char>>)
    ensures
        views(r@) == header_names(head@),
{
    let parts = split_by(head, ',');
    let mut out: Vec<Vec<char>> = Vec::new();
    let mut i: usize = 0;
    while i < parts.len()
        invariant
            i <= parts@.len(),
            views(parts@) == split_at_ch(head@, ','),
            views(out@) =~= views(parts@).take(i as int).map_values(|n: Seq<char>| trimmed(n)),
        decreases parts@.len() - i,
    {
        let name = trim_line(&parts[i]);
        let ghost before = out@;
        out.push(name);
        proof {
            let f = |n: Seq<char>| trimmed(n);
            assert(views(out@) =~= views(before).push(name@));
            assert(name@ == f(views(parts@)[i as int]));
            assert(views(parts@).take(i + 1).map_values(f) =~= views(parts@).take(
                i as int,
            ).map_values(f).push(f(views(parts@)[i as int])));
        }
        i = i + 1;
    }
    proof {
        assert(views(parts@).take(parts@.len() as int) =~= views(parts@));
    }
    out
}

/// Whether some name in the list is blank.
fn any_blank_name(names: &Vec<Vec<char>>) -> (r: bool)
    ensures
        r == any_blank(views(names@)),
{
    let mut i: usize = 0;
    while i < names.len()
        invariant
            i <= names@.len(),
            forall|k: int| 0 <= k < i ==> views(names@)[k].len() > 0,
        decreases names@.len() - i,
    {
        if names[i].len() == 0 {
            proof {
                assert(views(names@)[i as int].len() == 0);
            }
            return true;
        }
        i = i + 1;
    }
    false
}

/// Whether `seen` holds a name equal to `x`.
fn contains_name(seen: &Vec<Vec<char>>, x: &Vec<char>) -> (r: bool)
    ensures
        r == views(seen@).contains(x@),
{
    let mut i: usize = 0;
    while i < seen.len()
        invariant
            i <= seen@.len(),
            forall|k: int| 0 <= k < i ==> views(seen@)[k] != x@,
        decreases seen@.len() - i,
    {
        if chars_eq(&seen[i], x) {
            proof {
                assert(views(seen@)[i as int] == x@);
            }
            return true;
        }
        i = i + 1;
    }
    proof {
        assert(!views(seen@).contains(x@));
    }
    false
}

/// Whether the names are pairwise distinct and none was seen before.
fn names_distinct(names: &Vec<Vec<char>>, seen: &Vec<Vec<char>>) -> (r: bool)
    ensures
        r == distinct_names(views(names@), views(seen@)),
{
    let mut a: usize = 0;
    while a < names.len()
        invariant
            a <= names@.len(),
            forall|x: int, y: int|
                0 <= x < y < a ==> views(names@)[x] != views(names@)[y],
            forall|x: int| 0 <= x < a ==> !views(seen@).contains(#[trigger] views(names@)[x]),
        decreases names@.len() - a,
    {
        if contains_name(seen, &names[a]) {
            proof {
                assert(views(seen@).contains(views(names@)[a as int]));
            }
            return false;
        }
        let mut b: usize = 0;
        while b < a
            invariant
                b <= a < names@.len(),
                forall|y: int| 0 <= y < b ==> views(names@)[y] != views(names@)[a as int],
            decreases a - b,
        {
            if chars_eq(&names[b], &names[a]) {
                proof {
                    assert(views(names@)[b as int] == views(names@)[a as int]);
                }
                return false;
            }
            b = b + 1;
        }
        a = a + 1;
    }
    true
}

/// `seen` extended by `names`.
fn extend_seen(seen: &Vec<Vec<char>>, names: &Vec<Vec<char>>) -> (r: Vec<Vec<char>>)
    ensures
        views(r@) == views(seen@) + views(names@),
{
    let mut r: Vec<Vec<char>> = Vec::new();
    let mut i: usize = 0;
    while i < seen.len()
        invariant
            i <= seen@.len(),
            views(r@) =~= views(seen@).take(i as int),
        decreases seen@.len() - i,
    {
        let ghost before = r@;
        let c = copy_chars(&seen[i]);
        r.push(c);
        proof {
            assert(views(r@) =~= views(before).push(c@));
            assert(views(seen@).take(i + 1) =~= views(seen@).take(i as int).push(
                views(seen@)[i as int],
            ));
        }
        i = i + 1;
    }
    proof {
        assert(views(r@) =~= views(seen@));
    }
    let mut j: usize = 0;
    while j < names.len()
        invariant
            j <= names@.len(),
            views(r@) =~= views(seen@) + views(names@).take(j as int),
        decreases names@.len() - j,
    {
        let ghost before = r@;
        let c = copy_chars(&names[j]);
        r.push(c);
        proof {
            assert(views(r@) =~= views(before).push(c@));
            assert(views(seen@) + views(names@).take(j + 1) =~= (views(seen@) + views(
                names@,
            ).take(j as int)).push(views(names@)[j as int]));
        }
        j = j + 1;
    }
    proof {
        assert(views(names@).take(names@.len() as int) =~= views(names@));
    }
    r
}

/// Parses the sub-test lines of one group block, mirroring `parse_subtests`.
fn parse_subtests_block(
    lines: &Vec<Vec<char>>,
    i: usize,
    base: usize,
    unit: usize,
    cur: SubTests,
) -> (r: Result<(SubTests, usize), SpecError>)
    requires
        i <= lines@.len(),
        unit >= 1,
    ensures
        ({
            let res = parse_subtests(views(lines@), i as nat, base as nat, unit as nat, cur@);
            match r {
                Result::Ok(p) => res == Ok::<(SubTestsModel, nat), SpecError>((p.0@, p.1 as nat))
                    && i <= p.1 <= lines@.len() && (cur.wf() ==> p.0.wf()),
                Result::Err(e) => res == Err::<(SubTestsModel, nat), SpecError>(e),
            }
        }),
    decreases lines@.len() - i,
{
    let ghost vl = views(lines@);
    let ghost curm = cur@;
    let j = next_nonblank(lines, i);
    if j == lines.len() {
        return Ok((cur, j));
    }
    let ind = indent_len(&lines[j]);
    proof {
        assert(vl[j as int] == lines@[j as int]@);
    }
    if ind <= base {
        return Ok((cur, j));
    }
    if ind - base != unit {
        return Err(SpecError::Indentation { line: j });
    }
    let content = copy_range(&lines[j], ind, lines[j].len());
    proof {
        assert(content@ =~= vl[j as int].skip(ind as int));
    }
    let c = find_char(&content, ':');
    if c == content.len() {
        return Err(SpecError::MalformedSubTest { line: j });
    }
    let keyv = copy_range(&content, 0, c);
    let key = trim_line(&keyv);
    proof {
        assert(keyv@ =~= content@.take(c as int));
    }
    let valv = copy_range(&content, c + 1, content.len());
    let value = trim_line(&valv);
    proof {
        assert(valv@ =~= content@.skip(c + 1));
    }
    let skw = chars_of("status");
    let sow = chars_of("stdout");
    let sew = chars_of("stderr");
    proof {
        reveal_strlit("status");
        reveal_strlit("stdout");
        reveal_strlit("stderr");
        assert(skw@ =~= status_key());
        assert(sow@ =~= stdout_key());
        assert(sew@ =~= stderr_key());
    }
    if chars_eq(&key, &skw) {
        if cur.status.is_some() {
            return Err(SpecError::DuplicateKey { line: j });
        }
        match parse_status(&value) {
            Option::None => Err(SpecError::BadStatusValue { line: j }),
            Option::Some(st) => {
                let cur2 = SubTests { status: Some(st), stdout: cur.stdout, stderr: cur.stderr };
                proof {
                    assert(cur2@ == SubTestsModel { status: Some(st), ..curm });
                }
                parse_subtests_block(lines, j + 1, base, unit, cur2)
            },
        }
    } else {
        let is_out = chars_eq(&key, &sow);
        let is_err = chars_eq(&key, &sew);
        if is_out || is_err {
            if (is_out && cur.stdout.is_some()) || (!is_out && cur.stderr.is_some()) {
                return Err(SpecError::DuplicateKey { line: j });
            }
            let e = block_end_scan(lines, j + 1, base, unit);
            let ghost valm = value@;
            let mut raw: Vec<Vec<char>> = Vec::new();
            if value.len() > 0 {
                raw.push(value);
            }
            proof {
                assert(views(raw@) =~= (if valm.len() > 0 {
                    seq![valm]
                } else {
                    Seq::<Seq<char>>::empty()
                }) + vl.subrange(j + 1, j + 1));
            }
            let mut k2: usize = j + 1;
            while k2 < e
                invariant
                    j + 1 <= k2 <= e <= lines@.len(),
                    vl == views(lines@),
                    views(raw@) =~= (if valm.len() > 0 {
                        seq![valm]
                    } else {
                        Seq::<Seq<char>>::empty()
                    }) + vl.subrange(j + 1, k2 as int),
                decreases e - k2,
            {
                let ghost before = raw@;
                let piece = copy_chars(&lines[k2]);
                raw.push(piece);
                proof {
                    assert(views(raw@) =~= views(before).push(piece@));
                    assert(piece@ == vl[k2 as int]);
                    assert(vl.subrange(j + 1, k2 + 1) =~= vl.subrange(j + 1, k2 as int).push(
                        vl[k2 as int],
                    ));
                }
                k2 = k2 + 1;
            }
            proof {
                assert(views(raw@) =~= block_source(valm, vl, j + 1, e as int));
            }
            match Pattern::from_lines(&raw) {
                Result::Err(_) => Err(SpecError::ConsecutiveWildcards { line: j }),
                Result::Ok(p) => {
                    if is_out {
                        let cur2 = SubTests {
                            status: cur.status,
                            stdout: Some(p),
                            stderr: cur.stderr,
                        };
                        proof {
                            assert(cur2@ == SubTestsModel { stdout: Some(p@), ..curm });
                        }
                        parse_subtests_block(lines, e, base, unit, cur2)
                    } else {
                        let cur2 = SubTests {
                            status: cur.status,
                            stdout: cur.stdout,
                            stderr: Some(p),
                        };
                        proof {
                            assert(cur2@ == SubTestsModel { stderr: Some(p@), ..curm });
                        }
                        parse_subtests_block(lines, e, base, unit, cur2)
                    }
                },
            }
        } else {
            Err(SpecError::UnknownKey { line: j })
        }
    }
}

/// Parses group blocks from line `i` on, mirroring `parse_groups`.
fn parse_group_blocks(
    lines: &Vec<Vec<char>>,
    i: usize,
    base: usize,
    unit: usize,
    seen: &Vec<Vec<char>>,
) -> (r: Result<Vec<TestGroup>, SpecError>)
    requires
        i <= lines@.len(),
        unit >= 1,
    ensures
        ({
            let res = parse_groups(views(lines@), i as nat, base as nat, unit as nat, views(seen@));
            match r {
                Result::Ok(gs) => res == Ok::<Seq<GroupModel>, SpecError>(group_views(gs@))
                    && (forall|k: int| 0 <= k < gs@.len() ==> (#[trigger] gs@[k]).wf()),
                Result::Err(e) => res == Err::<Seq<GroupModel>, SpecError>(e),
            }
        }),
    decreases lines@.len() - i,
{
    let ghost vl = views(lines@);
    let j = next_nonblank(lines, i);
    if j == lines.len() {
        let gs: Vec<TestGroup> = Vec::new();
        proof {
            assert(group_views(gs@) =~= Seq::<GroupModel>::empty());
        }
        return Ok(gs);
    }
    let ind = indent_len(&lines[j]);
    proof {
        assert(vl[j as int] == lines@[j as int]@);
    }
    if ind != base {
        return Err(SpecError::Indentation { line: j });
    }
    let content = copy_range(&lines[j], ind, lines[j].len());
    proof {
        assert(content@ =~= vl[j as int].skip(ind as int));
    }
    if content.len() == 0 {
        return Err(SpecError::MalformedGroup { line: j });
    }
    if content[content.len() - 1] != ':' {
        return Err(SpecError::MalformedGroup { line: j });
    }
    let head = copy_range(&content, 0, content.len() - 1);
    proof {
        assert(head@ =~= content@.take(content@.len() - 1));
    }
    let names = split_names(&head);
    if any_blank_name(&names) {
        return Err(SpecError::MalformedGroup { line: j });
    }
    if !names_distinct(&names, seen) {
        return Err(SpecError::DuplicateGroup { line: j });
    }
    let sub0 = SubTests { status: None, stdout: None, stderr: None };
    proof {
        assert(sub0@ == SubTestsModel { status: None, stdout: None, stderr: None });
        assert(sub0.wf());
    }
    match parse_subtests_block(lines, j + 1, base, unit, sub0) {
        Result::Err(e) => Err(e),
        Result::Ok((st, next)) => {
            let seen2 = extend_seen(seen, &names);
            match parse_group_blocks(lines, next, base, unit, &seen2) {
                Result::Err(e) => Err(e),
                Result::Ok(rest) => {
                    let ghost stm = st@;
                    let ghost namesv = views(names@);
                    let ghost f = |n: Seq<char>|
                        GroupModel {
                            name: n,
                            status: stm.status,
                            stdout: stm.stdout,
                            stderr: stm.stderr,
                        };
                    let mut gs: Vec<TestGroup> = Vec::new();
                    let mut a: usize = 0;
                    proof {
                        assert(group_views(gs@) =~= namesv.take(0).map_values(f));
                    }
                    while a < names.len()
                        invariant
                            a <= names@.len(),
                            namesv == views(names@),
                            st@ == stm,
                            st.wf(),
                            f == (|n: Seq<char>|
                                GroupModel {
                                    name: n,
                                    status: stm.status,
                                    stdout: stm.stdout,
                                    stderr: stm.stderr,
                                }),
                            group_views(gs@) =~= namesv.take(a as int).map_values(f),
                            forall|k: int| 0 <= k < gs@.len() ==> (#[trigger] gs@[k]).wf(),
                        decreases names@.len() - a,
                    {
                        let g = TestGroup {
                            name: copy_chars(&names[a]),
                            status: st.status,
                            stdout: copy_opt_pattern(&st.stdout),
                            stderr: copy_opt_pattern(&st.stderr),
                        };
                        proof {
                            assert(g@ == f(namesv[a as int]));
                            assert(g.wf());
                        }
                        let ghost before = gs@;
                        gs.push(g);
                        proof {
                            assert(group_views(gs@) =~= group_views(before).push(g@));
                            assert(namesv.take(a + 1).map_values(f) =~= namesv.take(
                                a as int,
                            ).map_values(f).push(f(namesv[a as int])));
                        }
                        a = a + 1;
                    }
                    proof {
                        assert(namesv.take(names@.len() as int) =~= namesv);
                    }
                    let ghost mapped = namesv.map_values(f);
                    let ghost restm = group_views(rest@);
                    let mut rest2 = rest;
                    while rest2.len() > 0
                        invariant
                            group_views(gs@) + group_views(rest2@) =~= mapped + restm,
                            forall|k: int| 0 <= k < gs@.len() ==> (#[trigger] gs@[k]).wf(),
                            forall|k: int|
                                0 <= k < rest2@.len() ==> (#[trigger] rest2@[k]).wf(),
                        decreases rest2@.len(),
                    {
                        let ghost gsb = gs@;
                        let ghost rb = rest2@;
                        let g0 = rest2.remove(0);
                        gs.push(g0);
                        proof {
                            assert(rest2@ =~= rb.drop_first());
                            assert(group_views(gs@) =~= group_views(gsb).push(g0@));
                            assert(group_views(gs@) + group_views(rest2@) =~= group_views(gsb)
                                + group_views(rb));
                        }
                    }
                    proof {
                        assert(group_views(rest2@) =~= Seq::<GroupModel>::empty());
                        assert(group_views(gs@) =~= mapped + restm);
                    }
                    Ok(gs)
                },
            }
        },
    }
}

/// Group names that `parse_groups` accepts are pairwise distinct and avoid
/// every name seen before.
proof fn lemma_parse_groups_distinct(
    lines: Seq<Seq<char>>,
    i: nat,
    base: nat,
    unit: nat,
    seen: Seq<Seq<char>>,
)
    ensures
        parse_groups(lines, i, base, unit, seen) matches Ok(gs) ==> (forall|a: int, b: int|
            0 <= a < b < gs.len() ==> gs[a].name != gs[b].name) && (forall|a: int|
            0 <= a < gs.len() ==> !seen.contains(#[trigger] gs[a].name)),
    decreases lines.len() - i,
{
    let j0 = first_nonblank(lines, i);
    let j = if j0 >= i {
        j0
    } else {
        i
    };
    if j >= lines.len() {
    } else if indent_of(lines[j as int]) != base {
    } else {
        let content = lines[j as int].skip(indent_of(lines[j as int]) as int);
        if content.len() == 0 || content.last() != ':' {
        } else {
            let names = header_names(content.take(content.len() - 1));
            if any_blank(names) {
            } else if !distinct_names(names, seen) {
            } else {
                match parse_subtests(
                    lines,
                    (j + 1) as nat,
                    base,
                    unit,
                    SubTestsModel { status: None, stdout: None, stderr: None },
                ) {
                    Result::Err(_) => {},
                    Result::Ok(done) => {
                        let next0 = done.1;
                        let next1 = if next0 >= j + 1 {
                            next0
                        } else {
                            (j + 1) as nat
                        };
                        let next = if next1 <= lines.len() {
                            next1
                        } else {
                            lines.len()
                        };
                        lemma_parse_groups_distinct(lines, next, base, unit, seen + names);
                        match parse_groups(lines, next, base, unit, seen + names) {
                            Result::Err(_) => {},
                            Result::Ok(rest) => {
                                let mapped = names.map_values(
                                    |n: Seq<char>|
                                        GroupModel {
                                            name: n,
                                            status: done.0.status,
                                            stdout: done.0.stdout,
                                            stderr: done.0.stderr,
                                        },
                                );
                                let gs = mapped + rest;
                                assert forall|a: int, b: int|
                                    0 <= a < b < gs.len() implies gs[a].name != gs[b].name by {
                                    let nl = names.len() as int;
                                    if b < nl {
                                        assert(gs[a].name == names[a]);
                                        assert(gs[b].name == names[b]);
                                    } else if a < nl {
                                        assert(gs[a].name == names[a]);
                                        assert(!(seen + names).contains(rest[b - nl].name));
                                        assert((seen + names)[seen.len() + a] == names[a]);
                                        assert(gs[b].name == rest[b - nl].name);
                                    } else {
                                        assert(gs[a].name == rest[a - nl].name);
                                        assert(gs[b].name == rest[b - nl].name);
                                    }
                                }
                                assert forall|a: int| 0 <= a < gs.len() implies !seen.contains(
                                    #[trigger] gs[a].name,
                                ) by {
                                    let nl = names.len() as int;
                                    if a < nl {
                                        assert(gs[a].name == names[a]);
                                        assert(!seen.contains(names[a]));
                                    } else {
                                        assert(gs[a].name == rest[a - nl].name);
                                        assert(!(seen + names).contains(rest[a - nl].name));
                                        if seen.contains(rest[a - nl].name) {
                                            let x = rest[a - nl].name;
                                            let k = choose|k: int|
                                                0 <= k < seen.len() && seen[k] == x;
                                            assert((seen + names)[k] == x);
                                        }
                                    }
                                }
                            },
                        }
                    },
                }
            }
        }
    }
}

/// Parses raw extracted text, given as characters, into a specification.
pub fn parse_chars(v: &Vec<char>) -> (r: Result<TestSpecification, SpecError>)
    ensures
        r matches Ok(ts) ==> parsed_spec(v@) == Ok::<Seq<GroupModel>, SpecError>(ts@) && ts.wf(),
        r matches Err(e) ==> parsed_spec(v@) == Err::<Seq<GroupModel>, SpecError>(e),
{
    let parts = split_by(v, '\n');
    let mut rl: Vec<Vec<char>> = Vec::new();
    let mut i: usize = 0;
    proof {
        assert(views(rl@) =~= views(parts@).take(0).map_values(|l: Seq<char>| trimmed_end(l)));
    }
    while i < parts.len()
        invariant
            i <= parts@.len(),
            views(parts@) == split_at_ch(v@, '\n'),
            views(rl@) =~= views(parts@).take(i as int).map_values(|l: Seq<char>| trimmed_end(l)),
        decreases parts@.len() - i,
    {
        let line = trim_end_line(&parts[i]);
        let ghost before = rl@;
        rl.push(line);
        proof {
            let f = |l: Seq<char>| trimmed_end(l);
            assert(views(rl@) =~= views(before).push(line@));
            assert(line@ == f(views(parts@)[i as int]));
            assert(views(parts@).take(i + 1).map_values(f) =~= views(parts@).take(
                i as int,
            ).map_values(f).push(f(views(parts@)[i as int])));
        }
        i = i + 1;
    }
    proof {
        assert(views(parts@).take(parts@.len() as int) =~= views(parts@));
        assert(views(rl@) == raw_lines(v@));
    }
    let b = next_nonblank(&rl, 0);
    if b == rl.len() {
        let ts = TestSpecification { groups: Vec::new() };
        proof {
            assert(ts@ =~= Seq::<GroupModel>::empty());
        }
        return Ok(ts);
    }
    let base = indent_len(&rl[b]);
    proof {
        assert(views(rl@)[b as int] == rl@[b as int]@);
    }
    let d = next_deeper(&rl, 0, base);
    let unit: usize = if d == rl.len() {
        1
    } else {
        proof {
            assert(views(rl@)[d as int] == rl@[d as int]@);
        }
        indent_len(&rl[d]) - base
    };
    let empty_seen: Vec<Vec<char>> = Vec::new();
    proof {
        assert(views(empty_seen@) =~= Seq::<Seq<char>>::empty());
    }
    match parse_group_blocks(&rl, b, base, unit, &empty_seen) {
        Result::Err(e) => Err(e),
        Result::Ok(gs) => {
            proof {
                lemma_parse_groups_distinct(
                    views(rl@),
                    b as nat,
                    base as nat,
                    unit as nat,
                    Seq::empty(),
                );
            }
            let ts = TestSpecification { groups: gs };
            Ok(ts)
        },
    }
}

/// Parses the raw extracted comment text of one test file into its
/// specification: the ordered groups with their sub-tests, or the first
/// fatal specification error.
pub fn parse(text: &str) -> (r: Result<TestSpecification, SpecError>)
    ensures
        r matches Ok(ts) ==> parsed_spec(text@) == Ok::<Seq<GroupModel>, SpecError>(ts@)
            && ts.wf(),
        r matches Err(e) ==> parsed_spec(text@) == Err::<Seq<GroupModel>, SpecError>(e),
{
    let cv = chars_of(text);
    parse_chars(&cv)
}

/// A copy of an optional pattern.
fn copy_opt_pattern(o: &Option<Pattern>) -> (r: Option<Pattern>)
    ensures
        opt_pattern_view(r) == opt_pattern_view(*o),
        (match *o {
            Option::Some(p) => p.wf(),
            Option::None => true,
        }) ==> (match r {
            Option::Some(q) => q.wf(),
            Option::None => true,
        }),
{
    match o {
        Option::Some(p) => Some(p.duplicate()),
        Option::None => None,
    }
}

} // verus!
