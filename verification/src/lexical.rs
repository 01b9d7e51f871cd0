//! Lexical primitives of the pattern grammar: the special-character set,
//! backslash escaping, escape-aware scanning, and removal of escapes.
//!
//! Escaping is modelled by the spec function [`escaping`]: position `j` of a
//! string is an escaping backslash exactly when it holds a `\` that is not
//! itself escaped by the position before it.  Every other definition in this
//! crate (literal validity, unescaping, scanning for delimiters) is stated in
//! terms of it.

use vstd::prelude::*;

verus! {

/// The characters that carry meaning in the pattern grammar.
pub open spec fn is_special(c: char) -> bool {
    c == '(' || c == ')' || c == '[' || c == ']' || c == '{' || c == '}' || c == '\\' || c == '|'
}

/// The escape character.
pub open spec fn is_escape(c: char) -> bool {
    c == '\\'
}

/// True when `s[j]` is a backslash that escapes the character after it:
/// a backslash escapes unless it is itself escaped.
pub open spec fn escaping(s: Seq<char>, j: int) -> bool
    decreases j,
{
    0 <= j < s.len() && is_escape(s[j]) && !(j >= 1 && escaping(s, j - 1))
}

/// True when the character at `s[j]` is consumed by an escaping backslash
/// directly before it, and is therefore treated as ordinary.
pub open spec fn escaped_at(s: Seq<char>, j: int) -> bool {
    j >= 1 && escaping(s, j - 1)
}

/// Whether a position is escaping depends only on the prefix up to it.
pub proof fn lemma_escaping_prefix(pre: Seq<char>, s: Seq<char>, j: int)
    requires
        pre.len() <= s.len(),
        pre == s.subrange(0, pre.len() as int),
        0 <= j < pre.len(),
    ensures
        escaping(pre, j) == escaping(s, j),
    decreases j,
{
    if j >= 1 {
        lemma_escaping_prefix(pre, s, j - 1);
    }
    assert(pre[j] == s[j]);
}

/// A span is a valid literal when every unescaped character is ordinary:
/// an unescaped backslash must escape a following character (no dangling
/// escape at the end), and any other unescaped character must not be special.
pub open spec fn lit_ok_at(s: Seq<char>, j: int) -> bool {
    !escaped_at(s, j) ==> if is_escape(s[j]) {
        j + 1 < s.len()
    } else {
        !is_special(s[j])
    }
}

/// Literal validity of a whole span.
pub open spec fn is_literal(s: Seq<char>) -> bool {
    forall|j: int| 0 <= j < s.len() ==> lit_ok_at(s, j)
}

/// The string with its escaping backslashes removed: every character that is
/// not an escaping backslash is kept, in order.  A dangling final backslash
/// is an escaping backslash with nothing to escape and is removed as well.
pub open spec fn unescaped(s: Seq<char>) -> Seq<char>
    decreases s.len(),
{
    if s.len() == 0 {
        Seq::empty()
    } else if escaping(s, s.len() - 1) {
        unescaped(s.drop_last())
    } else {
        unescaped(s.drop_last()).push(s.last())
    }
}

/// The number of escaping backslashes of a span.
pub open spec fn num_escapes(s: Seq<char>) -> int
    decreases s.len(),
{
    if s.len() == 0 {
        0
    } else if escaping(s, s.len() - 1) {
        num_escapes(s.drop_last()) + 1
    } else {
        num_escapes(s.drop_last())
    }
}

/// Unescaping removes exactly the escaping backslashes: the result is
/// shorter than the span by their number.
pub proof fn lemma_unescaped_length(s: Seq<char>)
    ensures
        unescaped(s).len() + num_escapes(s) == s.len(),
    decreases s.len(),
{
    if s.len() > 0 {
        lemma_unescaped_length(s.drop_last());
    }
}

/// A scan begun at an unescaped position sees the same escaping backslashes
/// as the scan of the whole string.
pub proof fn lemma_escaping_skip(s: Seq<char>, k: int, j: int)
    requires
        0 <= k <= j < s.len(),
        !escaped_at(s, k),
    ensures
        escaping(s, j) == escaping(s.skip(k), j - k),
    decreases j - k,
{
    if j == k {
        assert(escaping(s, k) == is_escape(s[k]));
        assert(escaping(s.skip(k), 0) == is_escape(s.skip(k)[0]));
    } else {
        if j - 1 == k {
            assert(escaping(s, j) == (is_escape(s[j]) && !escaping(s, k)));
        }
        if escaped_at(s, j - 1) {
            assert(!escaping(s, j - 1));
            if j - 1 > k {
                lemma_escaping_skip(s, k, j - 2);
                assert(escaping(s, j - 2) == escaping(s.skip(k), j - 2 - k));
            }
            lemma_escaping_skip(s, k, j - 1);
        } else {
            lemma_escaping_skip(s, k, j - 1);
        }
    }
}

/// Unescaping unfolds from the front: an unescaped ordinary character is
/// kept and the rest unescaped; an escaping backslash is dropped, the
/// character after it kept, and the rest unescaped.
pub proof fn lemma_unescaped_front(s: Seq<char>)
    requires
        s.len() >= 1,
    ensures
        !is_escape(s[0]) ==> unescaped(s) == seq![s[0]] + unescaped(s.skip(1)),
        is_escape(s[0]) && s.len() >= 2 ==> unescaped(s) == seq![s[1]] + unescaped(s.skip(2)),
        is_escape(s[0]) && s.len() == 1 ==> unescaped(s) == Seq::<char>::empty(),
    decreases s.len(),
{
    let last = s.len() - 1;
    if !is_escape(s[0]) {
        if s.len() == 1 {
            assert(!escaping(s, 0));
            assert(unescaped(s.drop_last()).push(s.last()) =~= seq![s[0]] + unescaped(s.skip(1)));
        } else {
            let pre = s.drop_last();
            lemma_unescaped_front(pre);
            assert(pre =~= s.subrange(0, pre.len() as int));
            lemma_escaping_prefix(pre, s, 0);
            assert(pre.skip(1) =~= s.skip(1).drop_last());
            assert(!escaped_at(s, 1));
            lemma_escaping_skip(s, 1, last);
            assert(escaping(s, last) == escaping(s.skip(1), last - 1));
            if escaping(s, last) {
                assert(unescaped(s) == unescaped(pre));
                assert(unescaped(s.skip(1)) == unescaped(s.skip(1).drop_last()));
            } else {
                assert(unescaped(s) == unescaped(pre).push(s.last()));
                assert(unescaped(s.skip(1)) == unescaped(s.skip(1).drop_last()).push(
                    s.skip(1).last(),
                ));
                assert(seq![s[0]] + unescaped(s.skip(1).drop_last()).push(s.skip(1).last())
                    =~= (seq![s[0]] + unescaped(s.skip(1).drop_last())).push(s.last()));
            }
        }
    } else if s.len() == 1 {
        assert(escaping(s, 0));
        assert(s.drop_last() =~= Seq::<char>::empty());
        assert(unescaped(s) == unescaped(s.drop_last()));
        assert(unescaped(Seq::<char>::empty()) =~= Seq::<char>::empty());
    } else if s.len() == 2 {
        assert(escaping(s, 0));
        assert(!escaping(s, 1));
        assert(unescaped(s) == unescaped(s.drop_last()).push(s.last()));
        assert(s.drop_last()[0] == s[0]);
        assert(escaping(s.drop_last(), 0));
        assert(s.drop_last().drop_last() =~= Seq::<char>::empty());
        assert(unescaped(s.drop_last()) == unescaped(s.drop_last().drop_last()));
        assert(unescaped(Seq::<char>::empty()) =~= Seq::<char>::empty());
        assert(s.skip(2) =~= Seq::<char>::empty());
        assert(unescaped(s) =~= seq![s[1]] + unescaped(s.skip(2)));
    } else {
        let pre = s.drop_last();
        lemma_unescaped_front(pre);
        assert(pre =~= s.subrange(0, pre.len() as int));
        lemma_escaping_prefix(pre, s, 0);
        lemma_escaping_prefix(pre, s, 1);
        assert(pre.skip(2) =~= s.skip(2).drop_last());
        assert(escaping(s, 0));
        assert(!escaping(s, 1));
        assert(!escaped_at(s, 2));
        lemma_escaping_skip(s, 2, last);
        assert(escaping(s, last) == escaping(s.skip(2), last - 2));
        if escaping(s, last) {
            assert(unescaped(s) == unescaped(pre));
            assert(unescaped(s.skip(2)) == unescaped(s.skip(2).drop_last()));
        } else {
            assert(unescaped(s) == unescaped(pre).push(s.last()));
            assert(unescaped(s.skip(2)) == unescaped(s.skip(2).drop_last()).push(
                s.skip(2).last(),
            ));
            assert(seq![s[1]] + unescaped(s.skip(2).drop_last()).push(s.skip(2).last())
                =~= (seq![s[1]] + unescaped(s.skip(2).drop_last())).push(s.last()));
        }
    }
}

/// Literal validity unfolds from the front: a valid literal is empty, or
/// starts with an escaping backslash followed by any character and a valid
/// literal, or starts with an ordinary character followed by a valid
/// literal.
pub proof fn lemma_is_literal_front(s: Seq<char>)
    requires
        s.len() >= 1,
    ensures
        !is_escape(s[0]) ==> (is_literal(s) <==> !is_special(s[0]) && is_literal(s.skip(1))),
        is_escape(s[0]) && s.len() >= 2 ==> (is_literal(s) <==> is_literal(s.skip(2))),
        is_escape(s[0]) && s.len() == 1 ==> !is_literal(s),
{
    let d: int = if is_escape(s[0]) {
        2
    } else {
        1
    };
    if is_escape(s[0]) && s.len() == 1 {
        assert(!lit_ok_at(s, 0));
    } else {
        assert(escaping(s, 0) == is_escape(s[0]));
        if d == 2 {
            assert(escaping(s, 0));
            assert(!escaping(s, 1));
        }
        assert(!escaped_at(s, d));
        assert forall|j: int| 0 <= j < s.skip(d).len() implies (lit_ok_at(s.skip(d), j) == lit_ok_at(
            s,
            j + d,
        )) by {
            lemma_escaping_skip(s, d, j + d);
            if j >= 1 {
                lemma_escaping_skip(s, d, j + d - 1);
            }
            assert(escaped_at(s.skip(d), j) == escaped_at(s, j + d));
            assert(s.skip(d)[j] == s[j + d]);
        }
        if is_literal(s) {
            assert forall|j: int| 0 <= j < s.skip(d).len() implies lit_ok_at(s.skip(d), j) by {
                assert(lit_ok_at(s, j + d));
            }
        }
        if d == 2 && is_literal(s.skip(2)) {
            assert forall|j: int| 0 <= j < s.len() implies lit_ok_at(s, j) by {
                assert(escaping(s, 0));
                if j >= 2 {
                    assert(lit_ok_at(s.skip(2), j - 2));
                }
            }
        }
        if d == 1 && !is_special(s[0]) && is_literal(s.skip(1)) {
            assert forall|j: int| 0 <= j < s.len() implies lit_ok_at(s, j) by {
                if j >= 1 {
                    assert(lit_ok_at(s.skip(1), j - 1));
                }
            }
        }
        if d == 1 && is_literal(s) {
            assert(lit_ok_at(s, 0));
            assert(!is_special(s[0]));
        }
    }
}

/// A string re-written with a backslash inserted before each of its special
/// characters.
pub open spec fn escaped_form(t: Seq<char>) -> Seq<char>
    decreases t.len(),
{
    if t.len() == 0 {
        Seq::empty()
    } else if is_special(t[0]) {
        seq!['\\', t[0]] + escaped_form(t.skip(1))
    } else {
        seq![t[0]] + escaped_form(t.skip(1))
    }
}

/// Round-trip of escaping: inserting a backslash before each special
/// character of any string yields a valid literal, and unescaping that
/// literal gives the original string back.
pub proof fn lemma_escape_unescape_roundtrip(t: Seq<char>)
    ensures
        is_literal(escaped_form(t)),
        unescaped(escaped_form(t)) == t,
    decreases t.len(),
{
    let e = escaped_form(t);
    if t.len() == 0 {
        assert(unescaped(e) =~= t);
    } else {
        lemma_escape_unescape_roundtrip(t.skip(1));
        lemma_unescaped_front(e);
        lemma_is_literal_front(e);
        if is_special(t[0]) {
            assert(e[0] == '\\' && e[1] == t[0]);
            assert(e.skip(2) =~= escaped_form(t.skip(1)));
            assert(unescaped(e) =~= seq![t[0]] + t.skip(1));
        } else {
            assert(e[0] == t[0]);
            assert(e.skip(1) =~= escaped_form(t.skip(1)));
            assert(unescaped(e) =~= seq![t[0]] + t.skip(1));
        }
        assert(seq![t[0]] + t.skip(1) =~= t);
    }
}

/// In a valid literal every character that survives unescaping unescaped --
/// neither itself an escaping backslash nor covered by one -- is ordinary:
/// no special character stands unescaped.
pub proof fn lemma_literal_no_unescaped_special(s: Seq<char>)
    requires
        is_literal(s),
    ensures
        forall|j: int|
            0 <= j < s.len() && !escaping(s, j) && !escaped_at(s, j) ==> !is_special(#[trigger] s[j]),
{
    assert forall|j: int|
        0 <= j < s.len() && !escaping(s, j) && !escaped_at(s, j) implies !is_special(
        #[trigger] s[j],
    ) by {
        assert(lit_ok_at(s, j));
        assert(!is_escape(s[j]));
    }
}

/// A scan target matches at `j` when the character there is one of the
/// sought characters, is not the escape character, and is not escaped.
pub open spec fn match_at(s: Seq<char>, cs: Seq<char>, j: int) -> bool {
    cs.contains(s[j]) && !is_escape(s[j]) && !escaped_at(s, j)
}

/// The position of the first match at or after `j`, or the length of `s`
/// when there is none.
pub open spec fn first_match_from(s: Seq<char>, cs: Seq<char>, j: int) -> int
    decreases s.len() - j,
{
    if j < 0 || j >= s.len() {
        s.len() as int
    } else if match_at(s, cs, j) {
        j
    } else {
        first_match_from(s, cs, j + 1)
    }
}

/// The position of the first unescaped occurrence of any sought character.
pub open spec fn first_match(s: Seq<char>, cs: Seq<char>) -> int {
    first_match_from(s, cs, 0)
}

/// Scanning may start at any position before which nothing matches.
pub proof fn lemma_first_match_from(s: Seq<char>, cs: Seq<char>, j: int)
    requires
        0 <= j <= s.len(),
        forall|k: int| 0 <= k < j ==> !match_at(s, cs, k),
    ensures
        first_match(s, cs) == first_match_from(s, cs, j),
    decreases j,
{
    if j >= 1 {
        lemma_first_match_from(s, cs, j - 1);
        assert(first_match_from(s, cs, j - 1) == first_match_from(s, cs, j));
    }
}

/// The first match lies at or before the length of `s`, and when it lies
/// inside `s` it is a match.
pub proof fn lemma_first_match_bounds(s: Seq<char>, cs: Seq<char>, j: int)
    requires
        0 <= j <= s.len(),
    ensures
        j <= first_match_from(s, cs, j) <= s.len(),
        first_match_from(s, cs, j) < s.len() ==> match_at(s, cs, first_match_from(s, cs, j)),
        forall|k: int| j <= k < first_match_from(s, cs, j) ==> !match_at(s, cs, k),
    decreases s.len() - j,
{
    if j < s.len() && !match_at(s, cs, j) {
        lemma_first_match_bounds(s, cs, j + 1);
    }
}

/// An ASCII decimal digit.
pub open spec fn is_digit(c: char) -> bool {
    48 <= c as int <= 57
}

/// The numeric value of one digit character.
pub open spec fn digit_val(c: char) -> int {
    c as int - 48
}

/// Every character of the span is a decimal digit.
pub open spec fn all_digits(t: Seq<char>) -> bool {
    forall|j: int| 0 <= j < t.len() ==> is_digit(t[j])
}

/// The base-10 value of a digit span, leading zeros permitted.
pub open spec fn digits_val(t: Seq<char>) -> int
    decreases t.len(),
{
    if t.len() == 0 {
        0
    } else {
        digits_val(t.drop_last()) * 10 + digit_val(t.last())
    }
}

/// A span is a valid quantifier body when it is a non-empty run of digits
/// whose value fits the quantifier's 8-bit ceiling.
pub open spec fn valid_quant_body(t: Seq<char>) -> bool {
    t.len() > 0 && all_digits(t) && digits_val(t) <= 255
}

/// Position `p` opens a quantifier suffix: it holds a `{` that is not
/// directly preceded by a backslash, stands after the first character, and
/// leaves room for the closing `}`.
pub open spec fn quant_open_at(s: Seq<char>, p: int) -> bool {
    1 <= p && p + 1 < s.len() && s[p] == '{' && !is_escape(s[p - 1])
}

/// The rightmost quantifier-opening position at or below `i`, or -1.
pub open spec fn rightmost_open_from(s: Seq<char>, i: int) -> int
    decreases i,
{
    if i < 1 {
        -1
    } else if quant_open_at(s, i) {
        i
    } else {
        rightmost_open_from(s, i - 1)
    }
}

/// The quantifier suffix split of a span: when the span ends in `}` and the
/// body after the rightmost unescaped `{` is a valid quantifier body, the
/// result is the prefix before the `{` and the body's value; otherwise the
/// span is returned unchanged with no value.
pub open spec fn spec_pop_quantifier(s: Seq<char>) -> (Seq<char>, Option<u8>) {
    if s.len() == 0 || s.last() != '}' {
        (s, None)
    } else {
        let p = rightmost_open_from(s, s.len() - 2);
        if p < 0 {
            (s, None)
        } else {
            let body = s.subrange(p + 1, s.len() - 1);
            if valid_quant_body(body) {
                (s.subrange(0, p), Some(digits_val(body) as u8))
            } else {
                (s, None)
            }
        }
    }
}

/// The value of a digit span is no less than the value of any of its
/// prefixes.
pub proof fn lemma_digits_val_prefix(t: Seq<char>, k: int)
    requires
        0 <= k <= t.len(),
        all_digits(t),
    ensures
        digits_val(t.subrange(0, k)) <= digits_val(t),
        digits_val(t) >= 0,
    decreases t.len(),
{
    if t.len() == 0 {
        assert(t.subrange(0, k) =~= t);
    } else {
        lemma_digits_val_prefix(t.drop_last(), if k <= t.len() - 1 { k } else { t.len() - 1 });
        if k < t.len() {
            assert(t.subrange(0, k) =~= t.drop_last().subrange(0, k));
        } else {
            assert(t.subrange(0, k) =~= t);
        }
    }
}

/// Relies on `String::push`: appends the given character to the end of the
/// string.
#[verifier::external_body]
pub(crate) fn push_char(s: &mut String, c: char)
    ensures
        final(s)@ == old(s)@.push(c),
{
    s.push(c);
}

/// True for the fixed set of grammar characters `( ) [ ] { } \ |`.
pub fn is_special_character(character: char) -> (r: bool)
    ensures
        r == is_special(character),
{
    character == '(' || character == ')' || character == '[' || character == ']'
        || character == '{' || character == '}' || character == '\\' || character == '|'
}

/// True only for the backslash escape character.
pub fn is_escape_character(character: char) -> (r: bool)
    ensures
        r == is_escape(character),
{
    character == '\\'
}

/// Removes exactly the escaping backslashes from a span, keeping every
/// escaped character and every ordinary character verbatim.
pub fn unescape(string: &str) -> (r: String)
    ensures
        r@ == unescaped(string@),
{
    let n = string.unicode_len();
    let mut result = String::new();
    let mut escaped = false;
    let mut i: usize = 0;
    while i < n
        invariant
            i <= n,
            n == string@.len(),
            escaped == escaped_at(string@, i as int),
            result@ == unescaped(string@.subrange(0, i as int)),
        decreases n - i,
    {
        let c = string.get_char(i);
        proof {
            let pre = string@.subrange(0, i + 1);
            assert(pre.drop_last() =~= string@.subrange(0, i as int));
            lemma_escaping_prefix(pre, string@, i as int);
        }
        if !escaped && is_escape_character(c) {
            escaped = true;
            assert(escaping(string@, i as int));
        } else {
            escaped = false;
            push_char(&mut result, c);
            assert(!escaping(string@, i as int));
        }
        i += 1;
    }
    assert(string@.subrange(0, n as int) =~= string@);
    result
}

/// Returns whether the vector holds the given character.
fn contains_char(cs: &Vec<char>, c: char) -> (r: bool)
    ensures
        r == cs@.contains(c),
{
    let mut k: usize = 0;
    while k < cs.len()
        invariant
            k <= cs@.len(),
            forall|m: int| 0 <= m < k ==> cs@[m] != c,
        decreases cs@.len() - k,
    {
        if cs[k] == c {
            return true;
        }
        k += 1;
    }
    false
}

/// Scans left to right with escape tracking and returns the position of the
/// first unescaped occurrence of any character in `cs`, or the length of the
/// string when there is none.
pub fn seek_to_unescaped(string: &str, cs: Vec<char>) -> (r: usize)
    ensures
        r == first_match(string@, cs@),
{
    let n = string.unicode_len();
    let mut escaped = false;
    let mut i: usize = 0;
    while i < n
        invariant
            i <= n,
            n == string@.len(),
            escaped == escaped_at(string@, i as int),
            forall|k: int| 0 <= k < i ==> !match_at(string@, cs@, k),
        decreases n - i,
    {
        let c = string.get_char(i);
        if escaped {
            escaped = false;
            assert(!match_at(string@, cs@, i as int));
        } else if is_escape_character(c) {
            escaped = true;
            assert(!match_at(string@, cs@, i as int));
        } else if contains_char(&cs, c) {
            proof {
                lemma_first_match_from(string@, cs@, i as int);
            }
            assert(match_at(string@, cs@, i as int));
            return i;
        } else {
            assert(!match_at(string@, cs@, i as int));
        }
        i += 1;
    }
    proof {
        lemma_first_match_from(string@, cs@, n as int);
    }
    n
}

/// Splits a trailing `{N}` quantifier suffix off a span.  The suffix must
/// end the span, its `{` must not be directly preceded by a backslash, and
/// its body must be a non-empty run of digits with value at most 255; any
/// failure returns the span unchanged with `None`, since an absent
/// quantifier is not an error.
pub fn pop_quantifier(string: &str) -> (r: (&str, Option<u8>))
    ensures
        r.0@ == spec_pop_quantifier(string@).0,
        r.1 == spec_pop_quantifier(string@).1,
{
    let n = string.unicode_len();
    if n == 0 || string.get_char(n - 1) != '}' {
        return (string, None);
    }
    if n < 3 {
        return (string, None);
    }
    let ghost s = string@;
    let mut i: usize = n - 2;
    let mut p: usize = 0;
    let mut found = false;
    while i >= 1
        invariant_except_break
            s == string@,
            n == s.len(),
            3 <= n,
            i <= n - 2,
            !found,
            rightmost_open_from(s, (n - 2) as int) == rightmost_open_from(s, i as int),
        ensures
            found ==> 1 <= p <= n - 2 && quant_open_at(s, p as int) && rightmost_open_from(
                s,
                (n - 2) as int,
            ) == p as int,
            !found ==> rightmost_open_from(s, (n - 2) as int) == -1,
        decreases i,
    {
        if string.get_char(i) == '{' && string.get_char(i - 1) != '\\' {
            p = i;
            found = true;
            assert(quant_open_at(s, i as int));
            break;
        }
        assert(!quant_open_at(s, i as int));
        i -= 1;
    }
    if !found {
        return (string, None);
    }
    let ghost body = s.subrange(p as int + 1, n as int - 1);
    if p + 1 == n - 1 {
        assert(!valid_quant_body(body));
        return (string, None);
    }
    let mut acc: u32 = 0;
    let mut j: usize = p + 1;
    while j < n - 1
        invariant
            s == string@,
            n == s.len(),
            3 <= n,
            p + 1 < n - 1,
            quant_open_at(s, p as int),
            s.last() == '}',
            rightmost_open_from(s, (n - 2) as int) == p as int,
            body == s.subrange(p as int + 1, n as int - 1),
            p + 1 <= j <= n - 1,
            all_digits(body.subrange(0, j as int - p as int - 1)),
            acc as int == digits_val(body.subrange(0, j as int - p as int - 1)),
            acc <= 255,
        decreases n - j,
    {
        let c = string.get_char(j);
        let d = c as u32;
        let ghost pre = body.subrange(0, j as int - p as int - 1);
        let ghost pre1 = body.subrange(0, j as int + 1 - p as int - 1);
        proof {
            assert(pre1.drop_last() =~= pre);
            assert(pre1.last() == s[j as int]);
        }
        if d < 48 || d > 57 {
            assert(!is_digit(body[j as int - p as int - 1]));
            assert(!all_digits(body));
            return (string, None);
        }
        acc = acc * 10 + (d - 48);
        if acc > 255 {
            proof {
                if all_digits(body) {
                    lemma_digits_val_prefix(body, j as int + 1 - p as int - 1);
                }
            }
            assert(!valid_quant_body(body));
            return (string, None);
        }
        j += 1;
    }
    proof {
        assert(body.subrange(0, n as int - 1 - p - 1) =~= body);
        assert(valid_quant_body(body));
    }
    (string.substring_char(0, p), Some(acc as u8))
}

/// The string with every leftmost, non-overlapping occurrence of the
/// three-character pattern `p0 p1 p2` replaced by `rep`.
pub open spec fn expand_one(s: Seq<char>, p0: char, p1: char, p2: char, rep: Seq<char>) -> Seq<
    char,
>
    decreases s.len(),
{
    if s.len() < 3 {
        s
    } else if s[0] == p0 && s[1] == p1 && s[2] == p2 {
        rep + expand_one(s.skip(3), p0, p1, p2, rep)
    } else {
        seq![s[0]] + expand_one(s.skip(1), p0, p1, p2, rep)
    }
}

/// Range expansion of a bracket interior: the shorthand `A-Z` is replaced by
/// the 26 uppercase letters, then `0-9` by the 10 digits, then `a-z` by the
/// 26 lowercase letters, in that fixed order; any other three-character
/// window is left untouched.
pub open spec fn expanded(s: Seq<char>) -> Seq<char> {
    expand_one(
        expand_one(
            expand_one(s, 'A', '-', 'Z', "ABCDEFGHIJKLMNOPQRSTUVWXYZ"@),
            '0',
            '-',
            '9',
            "0123456789"@,
        ),
        'a',
        '-',
        'z',
        "abcdefghijklmnopqrstuvwxyz"@,
    )
}

/// Replaces every leftmost, non-overlapping occurrence of the window
/// `p0 p1 p2` by `replacement`.
fn replace_shorthand(string: &str, p0: char, p1: char, p2: char, replacement: &str) -> (r: String)
    ensures
        r@ == expand_one(string@, p0, p1, p2, replacement@),
{
    let n = string.unicode_len();
    let mut result = String::new();
    let mut i: usize = 0;
    proof {
        assert(string@.skip(0) =~= string@);
    }
    while i < n
        invariant
            i <= n,
            n == string@.len(),
            expand_one(string@, p0, p1, p2, replacement@) == result@ + expand_one(
                string@.skip(i as int),
                p0,
                p1,
                p2,
                replacement@,
            ),
        decreases n - i,
    {
        let ghost rest = string@.skip(i as int);
        if n - i > 2 && string.get_char(i) == p0 && string.get_char(i + 1) == p1 && string.get_char(
            i + 2,
        ) == p2 {
            result.append(replacement);
            proof {
                assert(rest.skip(3) =~= string@.skip(i + 3));
                assert(rest[0] == p0 && rest[1] == p1 && rest[2] == p2);
            }
            i += 3;
        } else {
            let c = string.get_char(i);
            push_char(&mut result, c);
            proof {
                assert(rest.skip(1) =~= string@.skip(i + 1));
                assert(rest[0] == c);
                if rest.len() >= 3 {
                    assert(!(rest[0] == p0 && rest[1] == p1 && rest[2] == p2));
                }
                assert(result@ + expand_one(string@.skip(i + 1), p0, p1, p2, replacement@)
                    =~= expand_one(string@, p0, p1, p2, replacement@));
            }
            i += 1;
        }
    }
    proof {
        assert(string@.skip(n as int) =~= Seq::<char>::empty());
        assert(result@ =~= expand_one(string@, p0, p1, p2, replacement@));
    }
    result
}

/// The window `p0 p1 p2` occurs somewhere in `s`.
pub open spec fn has_window(s: Seq<char>, p0: char, p1: char, p2: char) -> bool {
    exists|j: int|
        0 <= j && j + 2 < s.len() && s[j] == p0 && #[trigger] s[j + 1] == p1 && s[j + 2] == p2
}

/// Replacement of a window that never occurs leaves the string unchanged.
pub proof fn lemma_expand_one_unchanged(s: Seq<char>, p0: char, p1: char, p2: char, rep: Seq<char>)
    requires
        !has_window(s, p0, p1, p2),
    ensures
        expand_one(s, p0, p1, p2, rep) == s,
    decreases s.len(),
{
    if s.len() >= 3 {
        assert(!(s[0] == p0 && s[0int + 1] == p1 && s[0int + 2] == p2));
        assert forall|j: int|
            0 <= j && j + 2 < s.skip(1).len() implies !(s.skip(1)[j] == p0 && #[trigger] s.skip(
            1,
        )[j + 1] == p1 && s.skip(1)[j + 2] == p2) by {
            assert(s[j + 1 + 1] == s.skip(1)[j + 1]);
            assert(!(s[j + 1] == p0 && s[j + 1 + 1] == p1 && s[j + 1 + 2] == p2));
        }
        lemma_expand_one_unchanged(s.skip(1), p0, p1, p2, rep);
        assert(seq![s[0]] + s.skip(1) =~= s);
    } else {
        assert(expand_one(s, p0, p1, p2, rep) == s);
    }
}

/// Idempotence of range expansion on strings without the shorthands:
/// expanding a string in which none of `A-Z`, `0-9`, `a-z` occurs returns it
/// unchanged.
pub proof fn lemma_expanded_unchanged(s: Seq<char>)
    requires
        !has_window(s, 'A', '-', 'Z'),
        !has_window(s, '0', '-', '9'),
        !has_window(s, 'a', '-', 'z'),
    ensures
        expanded(s) == s,
{
    lemma_expand_one_unchanged(s, 'A', '-', 'Z', "ABCDEFGHIJKLMNOPQRSTUVWXYZ"@);
    lemma_expand_one_unchanged(s, '0', '-', '9', "0123456789"@);
    lemma_expand_one_unchanged(s, 'a', '-', 'z', "abcdefghijklmnopqrstuvwxyz"@);
}

/// Replacement by a window of at least the pattern's own length never
/// shortens the string.
pub proof fn lemma_expand_one_len(s: Seq<char>, p0: char, p1: char, p2: char, rep: Seq<char>)
    requires
        rep.len() >= 3,
    ensures
        expand_one(s, p0, p1, p2, rep).len() >= s.len(),
    decreases s.len(),
{
    if s.len() >= 3 {
        if s[0] == p0 && s[1] == p1 && s[2] == p2 {
            lemma_expand_one_len(s.skip(3), p0, p1, p2, rep);
        } else {
            lemma_expand_one_len(s.skip(1), p0, p1, p2, rep);
        }
    }
}

/// Range expansion never shortens the string.
pub proof fn lemma_expanded_len(s: Seq<char>)
    ensures
        expanded(s).len() >= s.len(),
{
    reveal_strlit("ABCDEFGHIJKLMNOPQRSTUVWXYZ");
    reveal_strlit("0123456789");
    reveal_strlit("abcdefghijklmnopqrstuvwxyz");
    lemma_expand_one_len(s, 'A', '-', 'Z', "ABCDEFGHIJKLMNOPQRSTUVWXYZ"@);
    lemma_expand_one_len(
        expand_one(s, 'A', '-', 'Z', "ABCDEFGHIJKLMNOPQRSTUVWXYZ"@),
        '0',
        '-',
        '9',
        "0123456789"@,
    );
    lemma_expand_one_len(
        expand_one(
            expand_one(s, 'A', '-', 'Z', "ABCDEFGHIJKLMNOPQRSTUVWXYZ"@),
            '0',
            '-',
            '9',
            "0123456789"@,
        ),
        'a',
        '-',
        'z',
        "abcdefghijklmnopqrstuvwxyz"@,
    );
}

/// A string of two or more characters, or of one character that is not the
/// escape character, keeps at least one character after unescaping: two
/// neighbouring characters can never both be escaping backslashes.
pub proof fn lemma_unescaped_nonempty(s: Seq<char>)
    requires
        s.len() >= 2 || (s.len() == 1 && !is_escape(s[0])),
    ensures
        unescaped(s).len() >= 1,
{
    if s.len() == 1 {
        assert(!escaping(s, 0));
    } else {
        let last = s.len() - 1;
        if escaping(s, last) {
            assert(!escaping(s, last - 1));
            let pre = s.drop_last();
            assert(pre =~= s.subrange(0, pre.len() as int));
            lemma_escaping_prefix(pre, s, last - 1);
            assert(unescaped(pre) == unescaped(pre.drop_last()).push(pre.last()));
        }
    }
}

/// Expands the fixed range shorthands `A-Z`, `0-9`, `a-z` of a bracket
/// interior to their full alphabets, by textual substitution in that order.
pub fn expand_ranges(string: &str) -> (r: String)
    ensures
        r@ == expanded(string@),
{
    let upper = replace_shorthand(string, 'A', '-', 'Z', "ABCDEFGHIJKLMNOPQRSTUVWXYZ");
    let digits = replace_shorthand(upper.as_str(), '0', '-', '9', "0123456789");
    replace_shorthand(digits.as_str(), 'a', '-', 'z', "abcdefghijklmnopqrstuvwxyz")
}

} // verus!
