//! The sub-pattern parser: splits a pattern string into an ordered sequence
//! of typed sub-patterns (literal runs, bracket classes, parenthesized
//! alternations), validating delimiters, escaping and quantifier suffixes.

use vstd::prelude::*;

use crate::lexical::{
    escaped_at, expand_ranges, expanded, first_match, first_match_from, is_escape,
    is_escape_character, is_literal, is_special_character, lemma_first_match_bounds, lit_ok_at,
    match_at, pop_quantifier, seek_to_unescaped, spec_pop_quantifier, unescape, unescaped,
};

verus! {

/// The kind of one sub-pattern.  A parenthesized group carries the offsets
/// of its top-level `|` separators within the stored interior, or `None`
/// when the group has a single alternative.
#[derive(Debug, PartialEq, Clone)]
pub enum SubPatternKind {
    Literal,
    Brackets,
    Parentheses { pipe_positions: Option<Vec<usize>> },
}

/// One contiguous unit of a pattern: the source span it was parsed from
/// (delimiters and quantifier suffix already stripped, ranges already
/// expanded for brackets), its kind, and its repeat count.
#[derive(Debug, PartialEq)]
pub struct SubPattern {
    pub value: String,
    pub kind: SubPatternKind,
    pub quantifier: u8,
}

/// A whole parsed pattern: an ordered sequence of sub-patterns.
#[derive(Debug, PartialEq)]
pub struct Pattern {
    pub subpatterns: Vec<SubPattern>,
}

/// Rejection of a malformed pattern; the whole pattern is rejected
/// atomically.
#[derive(Debug)]
pub struct ParseError;

/// The mathematical model of a sub-pattern kind.
#[verifier::ext_equal]
pub enum SpecSubPatternKind {
    Literal,
    Brackets,
    Parentheses { pipe_positions: Option<Seq<int>> },
}

/// The mathematical model of a sub-pattern.
#[verifier::ext_equal]
pub struct SpecSubPattern {
    pub value: Seq<char>,
    pub kind: SpecSubPatternKind,
    pub quantifier: u8,
}

impl View for SubPatternKind {
    type V = SpecSubPatternKind;

    open spec fn view(&self) -> SpecSubPatternKind {
        match self {
            SubPatternKind::Literal => SpecSubPatternKind::Literal,
            SubPatternKind::Brackets => SpecSubPatternKind::Brackets,
            SubPatternKind::Parentheses { pipe_positions } => SpecSubPatternKind::Parentheses {
                pipe_positions: match pipe_positions {
                    None => None,
                    Some(v) => Some(v@.map_values(|x: usize| x as int)),
                },
            },
        }
    }
}

impl View for SubPattern {
    type V = SpecSubPattern;

    open spec fn view(&self) -> SpecSubPattern {
        SpecSubPattern { value: self.value@, kind: self.kind@, quantifier: self.quantifier }
    }
}

impl View for Pattern {
    type V = Seq<SpecSubPattern>;

    open spec fn view(&self) -> Seq<SpecSubPattern> {
        self.subpatterns@.map_values(|p: SubPattern| p@)
    }
}

/// The model of a valid literal span: the span itself, kind `Literal`,
/// repeat count 1 (literals never carry a quantifier suffix).
pub open spec fn spec_literal_sub(s: Seq<char>) -> SpecSubPattern {
    SpecSubPattern { value: s, kind: SpecSubPatternKind::Literal, quantifier: 1 }
}

/// Validates a span as a literal: scanning left to right with escape
/// tracking, every unescaped character must be ordinary and no escape may
/// dangle at the end.
pub fn parse_as_literal_kind(string: &str) -> (r: Result<SubPattern, ParseError>)
    ensures
        r is Ok <==> is_literal(string@),
        r matches Ok(sp) ==> sp@ == spec_literal_sub(string@),
{
    let n = string.unicode_len();
    let mut escaped = false;
    let mut i: usize = 0;
    while i < n
        invariant
            i <= n,
            n == string@.len(),
            escaped == escaped_at(string@, i as int),
            forall|j: int| 0 <= j < i ==> lit_ok_at(string@, j),
        decreases n - i,
    {
        let c = string.get_char(i);
        if escaped {
            escaped = false;
        } else if is_escape_character(c) {
            if i + 1 < n {
                escaped = true;
            } else {
                assert(!lit_ok_at(string@, i as int));
                return Err(ParseError);
            }
        } else if is_special_character(c) {
            assert(!lit_ok_at(string@, i as int));
            return Err(ParseError);
        }
        i += 1;
    }
    Ok(SubPattern { value: string.to_owned(), kind: SubPatternKind::Literal, quantifier: 1 })
}

/// An unescaped top-level alternation separator at position `j`.
pub open spec fn is_pipe_at(s: Seq<char>, j: int) -> bool {
    s[j] == '|' && !escaped_at(s, j)
}

/// The positions of the unescaped `|` characters at or after `j`, in order.
pub open spec fn pipes_from(s: Seq<char>, j: int) -> Seq<int>
    decreases s.len() - j,
{
    if j < 0 || j >= s.len() {
        Seq::empty()
    } else if is_pipe_at(s, j) {
        seq![j] + pipes_from(s, j + 1)
    } else {
        pipes_from(s, j + 1)
    }
}

/// The positions of all unescaped `|` characters of a span, in order.
pub open spec fn pipe_positions(s: Seq<char>) -> Seq<int> {
    pipes_from(s, 0)
}

/// The pipe positions at or after `j` lie in `[j, s.len())`, are exactly the
/// unescaped `|` positions there, and are strictly increasing.
pub proof fn lemma_pipes_from_props(s: Seq<char>, j: int)
    requires
        0 <= j <= s.len(),
    ensures
        forall|k: int|
            0 <= k < pipes_from(s, j).len() ==> j <= #[trigger] pipes_from(s, j)[k] < s.len()
                && is_pipe_at(s, pipes_from(s, j)[k]),
        forall|k: int|
            0 < k < pipes_from(s, j).len() ==> #[trigger] pipes_from(s, j)[k - 1] < pipes_from(
                s,
                j,
            )[k],
        forall|m: int| j <= m < s.len() && is_pipe_at(s, m) ==> pipes_from(s, j).contains(m),
    decreases s.len() - j,
{
    if j < s.len() {
        lemma_pipes_from_props(s, j + 1);
        assert forall|m: int| j <= m < s.len() && is_pipe_at(s, m) implies pipes_from(
            s,
            j,
        ).contains(m) by {
            if m == j {
                assert(pipes_from(s, j)[0] == m);
            } else {
                let k = choose|k: int|
                    0 <= k < pipes_from(s, j + 1).len() && #[trigger] pipes_from(s, j + 1)[k]
                        == m;
                if is_pipe_at(s, j) {
                    assert(pipes_from(s, j)[k + 1] == m);
                } else {
                    assert(pipes_from(s, j)[k] == m);
                }
            }
        }
    }
}

/// Finds the split boundaries of a parenthesized span: index 0 for the
/// opening `(`, the position of each unescaped `|`, and the index of the
/// final `)`.  Fails when the span does not start with `(` and end with `)`.
pub fn find_parentheses_boundaries(string: &str) -> (r: Result<Vec<usize>, ParseError>)
    ensures
        r is Ok <==> string@.len() >= 1 && string@[0] == '(' && string@.last() == ')',
        r matches Ok(b) ==> b@.map_values(|x: usize| x as int) == seq![0int] + pipe_positions(
            string@,
        ) + seq![string@.len() - 1],
{
    let n = string.unicode_len();
    if n == 0 || string.get_char(0) != '(' || string.get_char(n - 1) != ')' {
        return Err(ParseError);
    }
    let ghost s = string@;
    let mut indexes: Vec<usize> = Vec::new();
    indexes.push(0);
    let mut escaped = false;
    let mut i: usize = 0;
    proof {
        assert(indexes@.map_values(|x: usize| x as int) =~= seq![0int]);
    }
    while i < n
        invariant
            s == string@,
            i <= n,
            n == s.len(),
            escaped == escaped_at(s, i as int),
            seq![0int] + pipes_from(s, 0) =~= indexes@.map_values(|x: usize| x as int)
                + pipes_from(s, i as int),
        decreases n - i,
    {
        let c = string.get_char(i);
        let ghost before = indexes@.map_values(|x: usize| x as int);
        if escaped {
            escaped = false;
            assert(!is_pipe_at(s, i as int));
        } else if is_escape_character(c) {
            escaped = true;
            assert(!is_pipe_at(s, i as int));
        } else if c == '|' {
            assert(is_pipe_at(s, i as int));
            indexes.push(i);
            proof {
                assert(pipes_from(s, i as int) =~= seq![i as int] + pipes_from(s, i + 1));
                assert(indexes@.map_values(|x: usize| x as int) =~= before.push(i as int));
                assert(seq![0int] + pipes_from(s, 0) =~= indexes@.map_values(|x: usize| x as int)
                    + pipes_from(s, i + 1));
            }
        } else {
            assert(!is_pipe_at(s, i as int));
        }
        proof {
            if !is_pipe_at(s, i as int) {
                assert(pipes_from(s, i as int) =~= pipes_from(s, i + 1));
            }
        }
        i += 1;
    }
    indexes.push(n - 1);
    proof {
        let ghost mapped = indexes@.map_values(|x: usize| x as int);
        assert(pipes_from(s, n as int) =~= Seq::<int>::empty());
        assert(mapped =~= seq![0int] + pipe_positions(s) + seq![s.len() - 1]);
    }
    Ok(indexes)
}

/// The `i`-th segment of `t` split at the ordered positions `pos`: the spans
/// `[0, pos[0])`, `(pos[0], pos[1])`, ..., `(pos[last], t.len())`, with the
/// split positions themselves left out.
pub open spec fn seg_of(t: Seq<char>, pos: Seq<int>, i: int) -> Seq<char> {
    t.subrange(
        if i == 0 {
            0
        } else {
            pos[i - 1] + 1
        },
        if i == pos.len() {
            t.len() as int
        } else {
            pos[i]
        },
    )
}

/// All segments of `t` split at the ordered positions `pos`; always one more
/// segment than there are positions.
pub open spec fn segments(t: Seq<char>, pos: Seq<int>) -> Seq<Seq<char>> {
    Seq::new((pos.len() + 1) as nat, |i: int| seg_of(t, pos, i))
}

/// Split positions that lie inside `t` in strictly increasing order.
pub open spec fn valid_positions(t: Seq<char>, pos: Seq<int>) -> bool {
    &&& forall|k: int| 0 <= k < pos.len() ==> 0 <= #[trigger] pos[k] < t.len()
    &&& forall|k: int| 0 < k < pos.len() ==> #[trigger] pos[k - 1] < pos[k]
}

/// Every segment is a valid literal.
pub open spec fn all_literal(segs: Seq<Seq<char>>) -> bool {
    forall|k: int| 0 <= k < segs.len() ==> is_literal(#[trigger] segs[k])
}

/// The model of a valid bracket span: after the quantifier suffix is popped
/// the span must be `[` + literal interior + `]`; the stored value is the
/// range-expanded interior.  An empty interior would leave the class with no
/// alternatives to draw from and is rejected.
pub open spec fn spec_brackets_sub(s: Seq<char>) -> Option<SpecSubPattern> {
    let (body, qopt) = spec_pop_quantifier(s);
    let q = match qopt {
        Some(v) => v,
        None => 1u8,
    };
    if body.len() > 2 && body[0] == '[' && body.last() == ']' && is_literal(
        body.subrange(1, body.len() - 1),
    ) {
        Some(
            SpecSubPattern {
                value: expanded(body.subrange(1, body.len() - 1)),
                kind: SpecSubPatternKind::Brackets,
                quantifier: q,
            },
        )
    } else {
        None
    }
}

/// The model of a valid parenthesized span: after the quantifier suffix is
/// popped the span must be `(` + interior + `)`, and every segment of the
/// interior between unescaped `|` separators must be a valid literal.  The
/// stored value is the raw interior; the pipe offsets are relative to it,
/// and absent when the group has a single alternative.
pub open spec fn spec_parens_sub(s: Seq<char>) -> Option<SpecSubPattern> {
    let (body, qopt) = spec_pop_quantifier(s);
    let q = match qopt {
        Some(v) => v,
        None => 1u8,
    };
    if body.len() >= 1 && body[0] == '(' && body.last() == ')' {
        let interior = body.subrange(1, body.len() - 1);
        let offs = pipe_positions(body).map_values(|p: int| p - 1);
        if all_literal(segments(interior, offs)) {
            Some(
                SpecSubPattern {
                    value: interior,
                    kind: SpecSubPatternKind::Parentheses {
                        pipe_positions: if offs.len() == 0 {
                            None
                        } else {
                            Some(offs)
                        },
                    },
                    quantifier: q,
                },
            )
        } else {
            None
        }
    } else {
        None
    }
}

/// Validates a span as a bracket class: the quantifier suffix is popped,
/// the delimiters are checked, the interior must be a non-empty literal, and
/// the stored value is the range-expanded interior.
pub fn parse_as_brackets_kind(string: &str) -> (r: Result<SubPattern, ParseError>)
    ensures
        r is Ok <==> spec_brackets_sub(string@) is Some,
        r matches Ok(sp) ==> Some(sp@) == spec_brackets_sub(string@),
{
    let (body, q) = pop_quantifier(string);
    let quantifier = match q {
        Some(v) => v,
        None => 1,
    };
    let n = body.unicode_len();
    if n <= 2 || body.get_char(0) != '[' || body.get_char(n - 1) != ']' {
        return Err(ParseError);
    }
    let interior = body.substring_char(1, n - 1);
    match parse_as_literal_kind(interior) {
        Ok(_) => Ok(
            SubPattern {
                value: expand_ranges(interior),
                kind: SubPatternKind::Brackets,
                quantifier,
            },
        ),
        Err(_) => Err(ParseError),
    }
}

/// Validates a span as a parenthesized alternation: the quantifier suffix is
/// popped, the delimiters are checked, and every `|`-separated segment of
/// the interior must be a valid literal.  The stored value is the raw
/// interior; the pipe offsets are stored relative to it, or absent when the
/// group has a single alternative.
pub fn parse_as_parentheses_kind(string: &str) -> (r: Result<SubPattern, ParseError>)
    ensures
        r is Ok <==> spec_parens_sub(string@) is Some,
        r matches Ok(sp) ==> Some(sp@) == spec_parens_sub(string@),
{
    let (body, q) = pop_quantifier(string);
    let quantifier = match q {
        Some(v) => v,
        None => 1,
    };
    let ghost bs = body@;
    let indexes = match find_parentheses_boundaries(body) {
        Ok(v) => v,
        Err(_) => {
            return Err(ParseError);
        },
    };
    let n = body.unicode_len();
    let ghost pipes = pipe_positions(bs);
    let ghost interior = bs.subrange(1, bs.len() - 1);
    let ghost offs = pipes.map_values(|p: int| p - 1);
    let ghost segs = segments(interior, offs);
    let ghost imap = indexes@.map_values(|x: usize| x as int);
    proof {
        lemma_pipes_from_props(bs, 0);
        assert(imap.len() == pipes.len() + 2);
        assert(imap[0] == 0);
        assert(imap[imap.len() - 1] == n - 1);
        assert forall|k: int| 0 < k < imap.len() - 1 implies #[trigger] imap[k] == pipes[k - 1]
            && 1 <= imap[k] < n - 1 by {
            assert(pipes[k - 1] == (seq![0int] + pipes + seq![bs.len() - 1])[k]);
            assert(is_pipe_at(bs, pipes[k - 1]));
        }
    }
    let m = indexes.len();
    let mut k: usize = 1;
    while k < m
        invariant
            1 <= k <= m,
            bs == body@,
            bs == spec_pop_quantifier(string@).0,
            q == spec_pop_quantifier(string@).1,
            n == bs.len(),
            n >= 2,
            bs[0] == '(',
            bs.last() == ')',
            m == indexes@.len(),
            m == pipes.len() + 2,
            imap == indexes@.map_values(|x: usize| x as int),
            imap == seq![0int] + pipes + seq![bs.len() - 1],
            pipes == pipe_positions(bs),
            interior == bs.subrange(1, bs.len() - 1),
            offs == pipes.map_values(|p: int| p - 1),
            segs == segments(interior, offs),
            forall|j: int| 0 <= j < pipes.len() ==> 1 <= #[trigger] pipes[j] < n - 1,
            forall|j: int| 0 < j < pipes.len() ==> #[trigger] pipes[j - 1] < pipes[j],
            forall|j: int| 0 <= j < k - 1 ==> is_literal(#[trigger] segs[j]),
        decreases m - k,
    {
        proof {
            assert(imap[k - 1] == indexes@[k - 1] as int);
            assert(imap[k as int] == indexes@[k as int] as int);
        }
        let lo = indexes[k - 1] + 1;
        let hi = indexes[k];
        let seg = body.substring_char(lo, hi);
        proof {
            assert(seg@ =~= seg_of(interior, offs, k - 1));
            assert(segs[k - 1] == seg_of(interior, offs, k - 1));
        }
        match parse_as_literal_kind(seg) {
            Ok(_) => {},
            Err(_) => {
                proof {
                    assert(!is_literal(segs[k - 1]));
                    assert(!all_literal(segs));
                }
                return Err(ParseError);
            },
        }
        k += 1;
    }
    proof {
        assert(all_literal(segs));
    }
    let value = body.substring_char(1, n - 1).to_owned();
    if m == 2 {
        let sp = SubPattern {
            value,
            kind: SubPatternKind::Parentheses { pipe_positions: None },
            quantifier,
        };
        proof {
            assert(pipes.len() == 0);
            assert(offs.len() == 0);
            assert(Some(sp@) =~~= spec_parens_sub(string@));
        }
        return Ok(sp);
    }
    let mut offsets: Vec<usize> = Vec::new();
    let mut k2: usize = 1;
    proof {
        assert(offsets@.map_values(|x: usize| x as int) =~= offs.subrange(0, 0));
    }
    while k2 < m - 1
        invariant
            1 <= k2 <= m - 1,
            m == indexes@.len(),
            m == pipes.len() + 2,
            imap == indexes@.map_values(|x: usize| x as int),
            imap == seq![0int] + pipes + seq![bs.len() - 1],
            offs == pipes.map_values(|p: int| p - 1),
            forall|j: int| 0 <= j < pipes.len() ==> 1 <= #[trigger] pipes[j],
            offsets@.map_values(|x: usize| x as int) =~= offs.subrange(0, k2 - 1),
        decreases m - k2,
    {
        proof {
            assert(imap[k2 as int] == indexes@[k2 as int] as int);
            assert(imap[k2 as int] == pipes[k2 - 1]);
        }
        let ghost before = offsets@.map_values(|x: usize| x as int);
        offsets.push(indexes[k2] - 1);
        proof {
            assert(offsets@.map_values(|x: usize| x as int) =~= before.push(
                pipes[k2 - 1] - 1,
            ));
            assert(offsets@.map_values(|x: usize| x as int) =~= offs.subrange(0, k2 as int));
        }
        k2 += 1;
    }
    proof {
        assert(offs.subrange(0, offs.len() as int) =~= offs);
    }
    let sp = SubPattern {
        value,
        kind: SubPatternKind::Parentheses { pipe_positions: Some(offsets) },
        quantifier,
    };
    proof {
        assert(Some(sp@) =~~= spec_parens_sub(string@));
    }
    Ok(sp)
}

/// The model of a delimited group span: a parenthesized alternation when it
/// opens with `(`, a bracket class when it opens with `[`.
pub open spec fn spec_group_sub(open: char, span: Seq<char>) -> Option<SpecSubPattern> {
    if open == '(' {
        spec_parens_sub(span)
    } else {
        spec_brackets_sub(span)
    }
}

/// The model of popping one sub-pattern off the front of the remaining
/// input: the parsed unit together with the number of characters consumed.
/// A group span runs to the first unescaped closing delimiter, extended to
/// the first unescaped `}` when a `{` follows directly; a literal span runs
/// to the first unescaped `(` or `[`.
pub open spec fn spec_pop_subpattern(s: Seq<char>) -> Option<(SpecSubPattern, int)> {
    if s.len() == 0 {
        None
    } else if s[0] == '(' || s[0] == '[' {
        let close = if s[0] == '(' {
            ')'
        } else {
            ']'
        };
        let e = first_match(s, seq![close]);
        if e == s.len() {
            None
        } else if e == s.len() - 1 || s[e + 1] != '{' {
            match spec_group_sub(s[0], s.subrange(0, e + 1)) {
                Some(sub) => Some((sub, e + 1)),
                None => None,
            }
        } else {
            let b = e + 1 + first_match(s.skip(e + 1), seq!['}']);
            if b == s.len() {
                None
            } else {
                match spec_group_sub(s[0], s.subrange(0, b + 1)) {
                    Some(sub) => Some((sub, b + 1)),
                    None => None,
                }
            }
        }
    } else {
        let e = first_match(s, seq!['(', '[']);
        if is_literal(s.subrange(0, e)) {
            Some((spec_literal_sub(s.subrange(0, e)), e))
        } else {
            None
        }
    }
}

/// A popped sub-pattern consumes at least one character and at most the
/// whole remaining input.
pub proof fn lemma_pop_subpattern_advance(s: Seq<char>)
    requires
        spec_pop_subpattern(s) is Some,
    ensures
        1 <= spec_pop_subpattern(s).unwrap().1 <= s.len(),
{
    if s.len() == 0 {
    } else if s[0] == '(' || s[0] == '[' {
        let close = if s[0] == '(' {
            ')'
        } else {
            ']'
        };
        lemma_first_match_bounds(s, seq![close], 0);
        let e = first_match(s, seq![close]);
        if e < s.len() && !(e == s.len() - 1 || s[e + 1] != '{') {
            lemma_first_match_bounds(s.skip(e + 1), seq!['}'], 0);
        }
    } else {
        let cs = seq!['(', '['];
        assert(cs[0] == '(' && cs[1] == '[' && cs.len() == 2);
        assert(!cs.contains(s[0]));
        assert(!match_at(s, cs, 0));
        lemma_first_match_bounds(s, cs, 1);
        assert(first_match(s, cs) == first_match_from(s, cs, 1));
    }
}

/// Pops one sub-pattern off the front of the input, returning it together
/// with the index of the last character it consumed, or `None` when the
/// front of the input forms no valid sub-pattern.
pub fn pop_subpattern(string: &str) -> (r: Option<(SubPattern, usize)>)
    ensures
        r is Some <==> spec_pop_subpattern(string@) is Some,
        r matches Some((sp, end)) ==> Some((sp@, end as int + 1)) == spec_pop_subpattern(string@),
{
    let n = string.unicode_len();
    if n == 0 {
        return None;
    }
    let c0 = string.get_char(0);
    if c0 == '(' || c0 == '[' {
        let closing = if c0 == '(' {
            ')'
        } else {
            ']'
        };
        let mut cvec: Vec<char> = Vec::new();
        cvec.push(closing);
        let ghost cs = cvec@;
        proof {
            assert(cs =~= seq![closing]);
            lemma_first_match_bounds(string@, cs, 0);
        }
        let end_idx = seek_to_unescaped(string, cvec);
        if end_idx == n {
            return None;
        }
        if end_idx == n - 1 || string.get_char(end_idx + 1) != '{' {
            let span = string.substring_char(0, end_idx + 1);
            let res = if c0 == '(' {
                parse_as_parentheses_kind(span)
            } else {
                parse_as_brackets_kind(span)
            };
            return match res {
                Ok(p) => Some((p, end_idx)),
                Err(_) => None,
            };
        }
        let suffix = string.substring_char(end_idx + 1, n);
        proof {
            assert(suffix@ =~= string@.skip(end_idx + 1));
        }
        let mut bvec: Vec<char> = Vec::new();
        bvec.push('}');
        let ghost bcs = bvec@;
        proof {
            assert(bcs =~= seq!['}']);
            lemma_first_match_bounds(suffix@, bcs, 0);
        }
        let brace = seek_to_unescaped(suffix, bvec);
        let closing_brace_idx = brace + end_idx + 1;
        if closing_brace_idx == n {
            return None;
        }
        let span = string.substring_char(0, closing_brace_idx + 1);
        let res = if c0 == '(' {
            parse_as_parentheses_kind(span)
        } else {
            parse_as_brackets_kind(span)
        };
        match res {
            Ok(p) => Some((p, closing_brace_idx)),
            Err(_) => None,
        }
    } else {
        let mut ovec: Vec<char> = Vec::new();
        ovec.push('(');
        ovec.push('[');
        let ghost cs = ovec@;
        proof {
            assert(cs =~= seq!['(', '[']);
            assert(!cs.contains(string@[0]));
            assert(!match_at(string@, cs, 0));
            lemma_first_match_bounds(string@, cs, 1);
            assert(first_match(string@, cs) == first_match_from(string@, cs, 1));
        }
        let next_idx = seek_to_unescaped(string, ovec);
        let span = string.substring_char(0, next_idx);
        match parse_as_literal_kind(span) {
            Ok(p) => Some((p, next_idx - 1)),
            Err(_) => None,
        }
    }
}

/// The model of parsing a whole pattern: sub-patterns are popped off the
/// front until the input is exhausted; any failure rejects the whole
/// pattern.
pub open spec fn spec_parse(s: Seq<char>) -> Option<Seq<SpecSubPattern>>
    decreases s.len(),
{
    if s.len() == 0 {
        Some(Seq::empty())
    } else {
        match spec_pop_subpattern(s) {
            None => None,
            Some((sub, adv)) => {
                if 1 <= adv <= s.len() {
                    match spec_parse(s.skip(adv)) {
                        None => None,
                        Some(rest) => Some(seq![sub] + rest),
                    }
                } else {
                    None
                }
            },
        }
    }
}

impl Pattern {
    /// Parses a whole pattern string into its ordered sequence of
    /// sub-patterns, or fails with a parse error when any part of the input
    /// is malformed.
    pub fn parse(string: &str) -> (r: Result<Pattern, ParseError>)
        ensures
            r is Ok <==> spec_parse(string@) is Some,
            r matches Ok(p) ==> Some(p@) == spec_parse(string@),
            r matches Ok(p) ==> p.wf(),
    {
        let n = string.unicode_len();
        let mut subpatterns: Vec<SubPattern> = Vec::new();
        let mut idx: usize = 0;
        proof {
            assert(string@.skip(0) =~= string@);
            assert(subpatterns@.map_values(|p: SubPattern| p@) =~= Seq::<SpecSubPattern>::empty());
        }
        while idx < n
            invariant
                idx <= n,
                n == string@.len(),
                spec_parse(string@) == (match spec_parse(string@.skip(idx as int)) {
                    None => None::<Seq<SpecSubPattern>>,
                    Some(rest) => Some(subpatterns@.map_values(|p: SubPattern| p@) + rest),
                }),
            decreases n - idx,
        {
            let suffix = string.substring_char(idx, n);
            proof {
                assert(suffix@ =~= string@.skip(idx as int));
            }
            match pop_subpattern(suffix) {
                Some((p, i)) => {
                    proof {
                        lemma_pop_subpattern_advance(suffix@);
                    }
                    let ghost before = subpatterns@.map_values(|q: SubPattern| q@);
                    let ghost adv = i as int + 1;
                    subpatterns.push(p);
                    proof {
                        assert(subpatterns@.map_values(|q: SubPattern| q@) =~= before.push(p@));
                        assert(string@.skip(idx as int).skip(adv) =~= string@.skip(
                            idx as int + adv,
                        ));
                        let rest_opt = spec_parse(string@.skip(idx as int + adv));
                        if rest_opt is Some {
                            let rest = rest_opt.unwrap();
                            assert(before + (seq![p@] + rest) =~= before.push(p@) + rest);
                        }
                    }
                    idx += i + 1;
                },
                None => {
                    return Err(ParseError);
                },
            }
        }
        proof {
            assert(string@.skip(n as int) =~= Seq::<char>::empty());
            assert(subpatterns@.map_values(|p: SubPattern| p@) + Seq::<SpecSubPattern>::empty()
                =~= subpatterns@.map_values(|p: SubPattern| p@));
            lemma_parse_well_formed(string@);
        }
        Ok(Pattern { subpatterns })
    }
}

/// Splits a string at the given ordered positions, leaving the characters
/// at the positions themselves out: always one more part than there are
/// positions.
pub fn split_at_positions(string: &str, positions: &Vec<usize>) -> (r: Vec<String>)
    requires
        valid_positions(string@, positions@.map_values(|x: usize| x as int)),
    ensures
        r@.map_values(|s: String| s@) == segments(
            string@,
            positions@.map_values(|x: usize| x as int),
        ),
{
    let ghost t = string@;
    let ghost pos = positions@.map_values(|x: usize| x as int);
    let n = string.unicode_len();
    let mut result: Vec<String> = Vec::new();
    let mut k: usize = 0;
    while k < positions.len()
        invariant
            k <= positions@.len(),
            t == string@,
            n == t.len(),
            pos == positions@.map_values(|x: usize| x as int),
            valid_positions(t, pos),
            result@.len() == k,
            forall|m: int| 0 <= m < k ==> (#[trigger] result@[m])@ == seg_of(t, pos, m),
        decreases positions@.len() - k,
    {
        proof {
            assert(pos[k as int] == positions@[k as int] as int);
            assert(0 <= pos[k as int] < t.len());
            if k > 0 {
                assert(pos[k as int - 1] == positions@[k as int - 1] as int);
                assert(pos[k as int - 1] < pos[k as int]);
            }
        }
        let start = if k == 0 {
            0
        } else {
            positions[k - 1] + 1
        };
        let end = positions[k];
        let seg = string.substring_char(start, end);
        result.push(seg.to_owned());
        k += 1;
    }
    proof {
        if positions@.len() > 0 {
            assert(pos[pos.len() - 1] == positions@[positions@.len() - 1] as int);
            assert(0 <= pos[pos.len() - 1] < t.len());
        }
    }
    let last_start = if positions.len() == 0 {
        0
    } else {
        positions[positions.len() - 1] + 1
    };
    let seg = string.substring_char(last_start, n);
    result.push(seg.to_owned());
    proof {
        assert(result@.map_values(|s: String| s@) =~= segments(t, pos));
    }
    result
}

/// The candidate set one sub-pattern contributes to the sampler: a literal
/// or single-alternative group contributes its unescaped value as the only
/// candidate; a bracket class contributes each character of its unescaped
/// value as its own single-character candidate; an alternation contributes
/// each segment between its pipe offsets, unescaped, in order.
pub open spec fn spec_support_of(sub: SpecSubPattern) -> Seq<Seq<char>> {
    match sub.kind {
        SpecSubPatternKind::Literal => seq![unescaped(sub.value)],
        SpecSubPatternKind::Brackets => unescaped(sub.value).map_values(|c: char| seq![c]),
        SpecSubPatternKind::Parentheses { pipe_positions } => match pipe_positions {
            None => seq![unescaped(sub.value)],
            Some(pos) => segments(sub.value, pos).map_values(|t: Seq<char>| unescaped(t)),
        },
    }
}

/// Well-formedness of one sub-pattern: stored pipe offsets lie inside the
/// stored value in strictly increasing order.
pub open spec fn sub_wf(sub: SpecSubPattern) -> bool {
    match sub.kind {
        SpecSubPatternKind::Parentheses { pipe_positions: Some(pos) } => valid_positions(
            sub.value,
            pos,
        ),
        _ => true,
    }
}

impl Pattern {
    /// Well-formedness of a whole pattern.
    pub open spec fn wf(&self) -> bool {
        forall|i: int| 0 <= i < self@.len() ==> sub_wf(#[trigger] self@[i])
    }

    /// Compiles the pattern into a sampler: one candidate set and one
    /// repeat count per sub-pattern, in pattern order.
    pub fn to_string_sampler(&self) -> (r: crate::sample::StringSampler)
        requires
            self.wf(),
        ensures
            r.supports() == self@.map_values(|sub: SpecSubPattern| spec_support_of(sub)),
            r.repetitions@ == self@.map_values(|sub: SpecSubPattern| sub.quantifier),
    {
        let mut support: Vec<Vec<String>> = Vec::new();
        let mut repetitions: Vec<u8> = Vec::new();
        let n = self.subpatterns.len();
        let mut i: usize = 0;
        while i < n
            invariant
                i <= n,
                n == self.subpatterns@.len(),
                self.wf(),
                support@.len() == i,
                repetitions@.len() == i,
                forall|m: int|
                    0 <= m < i ==> crate::sample::support_view(support@)[m] == spec_support_of(
                        #[trigger] self@[m],
                    ),
                forall|m: int| 0 <= m < i ==> repetitions@[m] == (#[trigger] self@[m]).quantifier,
            decreases n - i,
        {
            let sub = &self.subpatterns[i];
            proof {
                assert(sub@ == self@[i as int]);
            }
            repetitions.push(sub.quantifier);
            match &sub.kind {
                SubPatternKind::Literal => {
                    let mut g: Vec<String> = Vec::new();
                    g.push(unescape(sub.value.as_str()));
                    proof {
                        assert(g@.map_values(|x: String| x@) =~= seq![unescaped(sub.value@)]);
                    }
                    support.push(g);
                },
                SubPatternKind::Brackets => {
                    let u = unescape(sub.value.as_str());
                    let mut g: Vec<String> = Vec::new();
                    let un = u.as_str().unicode_len();
                    let mut j: usize = 0;
                    while j < un
                        invariant
                            j <= un,
                            un == u@.len(),
                            g@.len() == j,
                            forall|m: int| 0 <= m < j ==> (#[trigger] g@[m])@ == seq![u@[m]],
                        decreases un - j,
                    {
                        let mut one = String::new();
                        let c = u.as_str().get_char(j);
                        crate::lexical::push_char(&mut one, c);
                        proof {
                            assert(one@ =~= seq![u@[j as int]]);
                        }
                        g.push(one);
                        j += 1;
                    }
                    proof {
                        assert(g@.map_values(|x: String| x@) =~= unescaped(
                            sub.value@,
                        ).map_values(|c: char| seq![c]));
                    }
                    support.push(g);
                },
                SubPatternKind::Parentheses { pipe_positions } => match pipe_positions {
                    Some(pipes) => {
                        let ghost pos = pipes@.map_values(|x: usize| x as int);
                        proof {
                            assert(sub_wf(self@[i as int]));
                        }
                        let split = split_at_positions(sub.value.as_str(), pipes);
                        let mut g: Vec<String> = Vec::new();
                        let mut j: usize = 0;
                        while j < split.len()
                            invariant
                                j <= split@.len(),
                                g@.len() == j,
                                forall|m: int|
                                    0 <= m < j ==> (#[trigger] g@[m])@ == unescaped(split@[m]@),
                            decreases split@.len() - j,
                        {
                            g.push(unescape(split[j].as_str()));
                            j += 1;
                        }
                        proof {
                            let target = segments(sub.value@, pos).map_values(
                                |t: Seq<char>| unescaped(t),
                            );
                            assert forall|m: int| 0 <= m < g@.len() implies g@.map_values(
                                |x: String| x@,
                            )[m] == target[m] by {
                                assert(split@.map_values(|s: String| s@)[m] == segments(
                                    sub.value@,
                                    pos,
                                )[m]);
                            }
                            assert(g@.map_values(|x: String| x@) =~= target);
                        }
                        support.push(g);
                    },
                    None => {
                        let mut g: Vec<String> = Vec::new();
                        g.push(unescape(sub.value.as_str()));
                        proof {
                            assert(g@.map_values(|x: String| x@) =~= seq![unescaped(sub.value@)]);
                        }
                        support.push(g);
                    },
                },
            }
            i += 1;
        }
        let r = crate::sample::StringSampler { support, repetitions };
        proof {
            assert(r.supports() =~= self@.map_values(|sub: SpecSubPattern| spec_support_of(sub)));
            assert(r.repetitions@ =~= self@.map_values(|sub: SpecSubPattern| sub.quantifier));
        }
        r
    }
}

/// The unescaped length of each sub-pattern's stored value.
pub open spec fn literal_lengths(subs: Seq<SpecSubPattern>) -> Seq<int> {
    subs.map_values(|sub: SpecSubPattern| unescaped(sub.value).len() as int)
}

/// The output length of a pure-literal pattern is fixed: every sample of its
/// compiled sampler has the sum of each literal's unescaped length times its
/// repeat count.
pub proof fn lemma_literal_pattern_sample_length(
    subs: Seq<SpecSubPattern>,
    ch: Seq<Seq<usize>>,
)
    requires
        forall|i: int| 0 <= i < subs.len() ==> (#[trigger] subs[i]).kind is Literal,
        crate::sample::choices_ok(
            subs.map_values(|sub: SpecSubPattern| spec_support_of(sub)),
            subs.map_values(|sub: SpecSubPattern| sub.quantifier),
            ch,
        ),
    ensures
        crate::sample::rendered(
            subs.map_values(|sub: SpecSubPattern| spec_support_of(sub)),
            ch,
        ).len() == crate::sample::weighted_length(
            literal_lengths(subs),
            subs.map_values(|sub: SpecSubPattern| sub.quantifier),
        ),
{
    let support = subs.map_values(|sub: SpecSubPattern| spec_support_of(sub));
    let reps = subs.map_values(|sub: SpecSubPattern| sub.quantifier);
    let lens = literal_lengths(subs);
    assert forall|i: int, k: int|
        0 <= i < support.len() && 0 <= k < support[i].len() implies (#[trigger] support[i][k]).len()
        == lens[i] by {
        assert(support[i] == spec_support_of(subs[i]));
        assert(support[i] == seq![unescaped(subs[i].value)]);
    }
    crate::sample::lemma_sample_length(support, reps, ch, lens);
}

/// A valid bracket span yields a well-formed sub-pattern with at least one
/// candidate: the expanded, unescaped interior is never empty.
proof fn lemma_brackets_sub_well_formed(span: Seq<char>)
    requires
        spec_brackets_sub(span) is Some,
    ensures
        sub_wf(spec_brackets_sub(span).unwrap()),
        spec_support_of(spec_brackets_sub(span).unwrap()).len() >= 1,
{
    let body = spec_pop_quantifier(span).0;
    let interior = body.subrange(1, body.len() - 1);
    if interior.len() == 1 {
        assert(lit_ok_at(interior, 0));
        assert(!is_escape(interior[0]));
        assert(expanded(interior) == interior);
        crate::lexical::lemma_unescaped_nonempty(interior);
    } else {
        crate::lexical::lemma_expanded_len(interior);
        crate::lexical::lemma_unescaped_nonempty(expanded(interior));
    }
}

/// A valid parenthesized span yields a well-formed sub-pattern with at
/// least one candidate: its pipe offsets lie strictly increasing inside the
/// interior, and there is always one more segment than there are offsets.
proof fn lemma_parens_sub_well_formed(span: Seq<char>)
    requires
        spec_parens_sub(span) is Some,
    ensures
        sub_wf(spec_parens_sub(span).unwrap()),
        spec_support_of(spec_parens_sub(span).unwrap()).len() >= 1,
{
    let body = spec_pop_quantifier(span).0;
    let interior = body.subrange(1, body.len() - 1);
    let pipes = pipe_positions(body);
    let offs = pipes.map_values(|p: int| p - 1);
    lemma_pipes_from_props(body, 0);
    assert forall|k: int| 0 <= k < offs.len() implies 0 <= #[trigger] offs[k]
        < interior.len() by {
        assert(offs[k] == pipes[k] - 1);
        assert(is_pipe_at(body, pipes[k]));
        assert(body[pipes[k]] == '|');
        assert(pipes[k] != 0);
        assert(pipes[k] != body.len() - 1);
    }
    assert forall|k: int| 0 < k < offs.len() implies #[trigger] offs[k - 1] < offs[k] by {
        assert(offs[k] == pipes[k] - 1);
        assert(offs[k - 1] == pipes[k - 1] - 1);
    }
    assert(valid_positions(interior, offs));
}

/// Every sub-pattern popped from the input is well formed and contributes
/// at least one candidate to the sampler.
proof fn lemma_pop_subpattern_well_formed(s: Seq<char>)
    requires
        spec_pop_subpattern(s) is Some,
    ensures
        sub_wf(spec_pop_subpattern(s).unwrap().0),
        spec_support_of(spec_pop_subpattern(s).unwrap().0).len() >= 1,
{
    if s[0] == '(' || s[0] == '[' {
        let close = if s[0] == '(' {
            ')'
        } else {
            ']'
        };
        let e = first_match(s, seq![close]);
        let span = if e == s.len() - 1 || s[e + 1] != '{' {
            s.subrange(0, e + 1)
        } else {
            s.subrange(0, e + 1 + first_match(s.skip(e + 1), seq!['}']) + 1)
        };
        if s[0] == '(' {
            lemma_parens_sub_well_formed(span);
        } else {
            lemma_brackets_sub_well_formed(span);
        }
    }
}

/// Every sub-pattern of a successfully parsed pattern is well formed and
/// contributes at least one candidate: a parsed pattern can always be
/// compiled, and the compiled sampler always has a candidate to draw.
pub proof fn lemma_parse_well_formed(s: Seq<char>)
    requires
        spec_parse(s) is Some,
    ensures
        forall|i: int|
            0 <= i < spec_parse(s).unwrap().len() ==> sub_wf(#[trigger] spec_parse(s).unwrap()[i])
                && spec_support_of(spec_parse(s).unwrap()[i]).len() >= 1,
    decreases s.len(),
{
    if s.len() > 0 {
        let (sub, adv) = spec_pop_subpattern(s).unwrap();
        lemma_pop_subpattern_well_formed(s);
        lemma_parse_well_formed(s.skip(adv));
        let rest = spec_parse(s.skip(adv)).unwrap();
        let subs = spec_parse(s).unwrap();
        assert(subs == seq![sub] + rest);
        assert forall|i: int| 0 <= i < subs.len() implies sub_wf(#[trigger] subs[i])
            && spec_support_of(subs[i]).len() >= 1 by {
            if i == 0 {
                assert(subs[i] == sub);
            } else {
                assert(subs[i] == rest[i - 1]);
            }
        }
    }
}

} // verus!
