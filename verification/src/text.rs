//! Character classes and the two tokenizer primitives of the line grammar:
//! the identifier reader and the quoted-string reader.

use vstd::prelude::*;
use vstd::string::StrSliceExecFns;

verus! {

/// Whether the result of `char::is_alphanumeric` is true for a character.
/// The result depends on the character alone.
pub uninterp spec fn char_alphanumeric(c: char) -> bool;

/// Relies on `char::is_alphanumeric` from core: true exactly for Unicode
/// letters and digits, a fixed function of the character.
pub assume_specification[ char::is_alphanumeric ](c: char) -> (r: bool)
    ensures
        r == char_alphanumeric(c),
;

/// Relies on `String::push` from std: appends one character at the end.
pub assume_specification[ String::push ](s: &mut String, c: char)
    ensures
        final(s)@ == old(s)@.push(c),
;

/// Horizontal whitespace: the characters skipped between tokens.
pub open spec fn is_space_char(c: char) -> bool {
    c == ' ' || c == '\t'
}

/// The character class of metric and label names.
pub open spec fn spec_is_metric_char(c: char) -> bool {
    char_alphanumeric(c) || c == '_' || c == ':' || c == '.'
}

/// Whether a character may appear in a metric or label name.
pub fn is_metric_char(s: char) -> (r: bool)
    ensures
        r == spec_is_metric_char(s),
{
    s.is_alphanumeric() || s == '_' || s == ':' || s == '.'
}

/// The position of the first character at or after `i` that is not
/// horizontal whitespace (or the end of the text).
pub open spec fn spec_skip_spaces(s: Seq<char>, i: int) -> int
    decreases s.len() - i,
{
    if 0 <= i && i < s.len() && is_space_char(s[i]) {
        spec_skip_spaces(s, i + 1)
    } else {
        i
    }
}

/// The end of the run of metric-name characters starting at `i`.
pub open spec fn spec_scan_metric(s: Seq<char>, i: int) -> int
    decreases s.len() - i,
{
    if 0 <= i && i < s.len() && spec_is_metric_char(s[i]) {
        spec_scan_metric(s, i + 1)
    } else {
        i
    }
}

pub proof fn lemma_skip_spaces_bounds(s: Seq<char>, i: int)
    requires
        0 <= i <= s.len(),
    ensures
        i <= spec_skip_spaces(s, i) <= s.len(),
    decreases s.len() - i,
{
    if i < s.len() && is_space_char(s[i]) {
        lemma_skip_spaces_bounds(s, i + 1);
    }
}

pub proof fn lemma_scan_metric_bounds(s: Seq<char>, i: int)
    requires
        0 <= i <= s.len(),
    ensures
        i <= spec_scan_metric(s, i) <= s.len(),
    decreases s.len() - i,
{
    if i < s.len() && spec_is_metric_char(s[i]) {
        lemma_scan_metric_bounds(s, i + 1);
    }
}

/// Advances past horizontal whitespace.
pub fn skip_spaces(s: &str, from: usize) -> (r: usize)
    requires
        from <= s@.len(),
    ensures
        from <= r <= s@.len(),
        r == spec_skip_spaces(s@, from as int),
{
    let n: usize = s.unicode_len();
    let mut j: usize = from;
    loop
        invariant
            from <= j <= n,
            n == s@.len(),
            spec_skip_spaces(s@, from as int) == spec_skip_spaces(s@, j as int),
        ensures
            from <= j <= n,
            j == spec_skip_spaces(s@, from as int),
        decreases n - j,
    {
        if j == n {
            break ;
        }
        let c = s.get_char(j);
        if !(c == ' ' || c == '\t') {
            break ;
        }
        j = j + 1;
    }
    j
}

/// Advances past the maximal run of metric-name characters.
fn scan_metric(s: &str, from: usize) -> (r: usize)
    requires
        from <= s@.len(),
    ensures
        from <= r <= s@.len(),
        r == spec_scan_metric(s@, from as int),
{
    let n: usize = s.unicode_len();
    let mut j: usize = from;
    while j < n && is_metric_char(s.get_char(j))
        invariant
            from <= j <= n,
            n == s@.len(),
            spec_scan_metric(s@, from as int) == spec_scan_metric(s@, j as int),
        decreases n - j,
    {
        j = j + 1;
    }
    j
}

/// Copies the characters of `s` between positions `a` and `b` into a fresh
/// `String`.
pub fn string_from_range(s: &str, a: usize, b: usize) -> (r: String)
    requires
        a <= b <= s@.len(),
    ensures
        r@ == s@.subrange(a as int, b as int),
{
    let mut out = String::new();
    let mut i: usize = a;
    proof {
        assert(out@ =~= s@.subrange(a as int, a as int));
    }
    while i < b
        invariant
            a <= i <= b <= s@.len(),
            out@ == s@.subrange(a as int, i as int),
        decreases b - i,
    {
        let c = s.get_char(i);
        out.push(c);
        proof {
            assert(s@.subrange(a as int, (i + 1) as int) =~= s@.subrange(
                a as int,
                i as int,
            ).push(s@[i as int]));
        }
        i = i + 1;
    }
    out
}

/// Skips leading whitespace, then consumes the maximal run of metric-name
/// characters. Always succeeds; the run may be empty.
pub fn read_variable_name(s: &str, from: usize) -> (r: (usize, String))
    requires
        from <= s@.len(),
    ensures
        ({
            let st = spec_skip_spaces(s@, from as int);
            let e = spec_scan_metric(s@, st);
            &&& r.0 == e
            &&& from <= r.0 <= s@.len()
            &&& r.1@ == s@.subrange(st, e)
        }),
{
    let st = skip_spaces(s, from);
    let e = scan_metric(s, st);
    let name = string_from_range(s, st, e);
    (e, name)
}

/// A character that may stand unescaped inside a quoted string.
pub open spec fn is_plain_char(c: char) -> bool {
    c != '\\' && c != '"'
}

/// A character that may follow a backslash inside a quoted string.
pub open spec fn is_escapable_char(c: char) -> bool {
    c == '"' || c == '\\' || c == '\'' || c == 'n'
}

/// The end of the run of string content starting at `i`: plain characters
/// or escape pairs, stopping at anything else.
pub open spec fn spec_content_end(s: Seq<char>, i: int) -> int
    decreases s.len() - i,
{
    if 0 <= i && i < s.len() && is_plain_char(s[i]) {
        spec_content_end(s, i + 1)
    } else if 0 <= i && i + 1 < s.len() && s[i] == '\\' && is_escapable_char(s[i + 1]) {
        spec_content_end(s, i + 2)
    } else {
        i
    }
}

pub proof fn lemma_content_end_bounds(s: Seq<char>, i: int)
    requires
        0 <= i <= s.len(),
    ensures
        i <= spec_content_end(s, i) <= s.len(),
    decreases s.len() - i,
{
    if i < s.len() && is_plain_char(s[i]) {
        lemma_content_end_bounds(s, i + 1);
    } else if i + 1 < s.len() && s[i] == '\\' && is_escapable_char(s[i + 1]) {
        lemma_content_end_bounds(s, i + 2);
    }
}

/// The single decoding step applied to captured string content: every
/// doubled backslash collapses to one backslash; every other character,
/// escape pairs included, stays as it is.
pub open spec fn spec_collapse(s: Seq<char>) -> Seq<char>
    decreases s.len(),
{
    if s.len() == 0 {
        Seq::empty()
    } else if s.len() >= 2 && s[0] == '\\' && s[1] == '\\' {
        seq!['\\'] + spec_collapse(s.skip(2))
    } else {
        seq![s[0]] + spec_collapse(s.skip(1))
    }
}

/// Unescaping is the identity on text that holds no doubled backslash:
/// such a value comes back from the decoder unchanged.
pub proof fn lemma_collapse_unescaped_identity(s: Seq<char>)
    requires
        forall|i: int| 0 <= i && i + 1 < s.len() ==> !((#[trigger] s[i]) == '\\' && s[i + 1]
            == '\\'),
    ensures
        spec_collapse(s) == s,
    decreases s.len(),
{
    if s.len() == 0 {
        assert(spec_collapse(s) =~= s);
    } else {
        assert(!(s.len() >= 2 && s[0] == '\\' && s[1] == '\\'));
        assert forall|i: int| 0 <= i && i + 1 < s.skip(1).len() implies !((#[trigger] s.skip(
            1,
        )[i]) == '\\' && s.skip(1)[i + 1] == '\\') by {
            assert(s.skip(1)[i] == s[i + 1]);
            assert(s.skip(1)[i + 1] == s[i + 2]);
        }
        lemma_collapse_unescaped_identity(s.skip(1));
        assert(spec_collapse(s) =~= seq![s[0]] + s.skip(1));
        assert(seq![s[0]] + s.skip(1) =~= s);
    }
}

/// The quoted-string rule at position `i`: an opening quote, a run of
/// content, a closing quote. On success, the position after the closing
/// quote and the once-unescaped content.
pub open spec fn spec_quoted(s: Seq<char>, i: int) -> Option<(int, Seq<char>)> {
    if 0 <= i && i < s.len() && s[i] == '"' {
        let e = spec_content_end(s, i + 1);
        if e < s.len() && s[e] == '"' {
            Some((e + 1, spec_collapse(s.subrange(i + 1, e))))
        } else {
            None
        }
    } else {
        None
    }
}

/// Reads a double-quoted, backslash-escaped string literal at `from`,
/// collapsing doubled backslashes (and nothing else) in the result.
/// Fails when the opening or closing quote is missing.
pub fn read_quoted_string(s: &str, from: usize) -> (r: Option<(usize, String)>)
    requires
        from <= s@.len(),
    ensures
        spec_quoted(s@, from as int) is None ==> r is None,
        (spec_quoted(s@, from as int) matches Some(q) ==> (r matches Some(p) && p.0 == q.0
            && from < p.0 <= s@.len() && p.1@ == q.1)),
{
    let n: usize = s.unicode_len();
    if from == n || s.get_char(from) != '"' {
        return None;
    }
    let mut j: usize = from + 1;
    loop
        invariant
            from + 1 <= j <= n,
            n == s@.len(),
            spec_content_end(s@, (from + 1) as int) == spec_content_end(s@, j as int),
        ensures
            from + 1 <= j <= n,
            j == spec_content_end(s@, (from + 1) as int),
        decreases n - j,
    {
        if j == n {
            break ;
        }
        let c = s.get_char(j);
        if c != '\\' && c != '"' {
            j = j + 1;
        } else if c == '\\' && j + 1 < n {
            let c2 = s.get_char(j + 1);
            if c2 == '"' || c2 == '\\' || c2 == '\'' || c2 == 'n' {
                j = j + 2;
            } else {
                break ;
            }
        } else {
            break ;
        }
    }
    if j == n || s.get_char(j) != '"' {
        return None;
    }
    let mut out = String::new();
    let mut i: usize = from + 1;
    proof {
        assert(out@ + spec_collapse(s@.subrange(i as int, j as int)) =~= spec_collapse(
            s@.subrange((from + 1) as int, j as int),
        ));
    }
    while i < j
        invariant
            from + 1 <= i <= j <= n,
            n == s@.len(),
            spec_collapse(s@.subrange((from + 1) as int, j as int)) == out@ + spec_collapse(
                s@.subrange(i as int, j as int),
            ),
        decreases j - i,
    {
        let ghost rest = s@.subrange(i as int, j as int);
        let c = s.get_char(i);
        if c == '\\' && i + 1 < j && s.get_char(i + 1) == '\\' {
            proof {
                assert(rest.len() >= 2 && rest[0] == '\\' && rest[1] == '\\');
                assert(rest.skip(2) =~= s@.subrange((i + 2) as int, j as int));
                assert(out@ + (seq!['\\'] + spec_collapse(rest.skip(2))) =~= out@.push('\\')
                    + spec_collapse(rest.skip(2)));
            }
            out.push('\\');
            i = i + 2;
        } else {
            proof {
                assert(rest.len() >= 1 && rest[0] == s@[i as int]);
                assert(!(rest.len() >= 2 && rest[0] == '\\' && rest[1] == '\\'));
                assert(rest.skip(1) =~= s@.subrange((i + 1) as int, j as int));
                assert(out@ + (seq![rest[0]] + spec_collapse(rest.skip(1))) =~= out@.push(
                    s@[i as int],
                ) + spec_collapse(rest.skip(1)));
            }
            out.push(c);
            i = i + 1;
        }
    }
    proof {
        assert(s@.subrange(j as int, j as int) =~= Seq::<char>::empty());
        assert(out@ + spec_collapse(Seq::<char>::empty()) =~= out@);
    }
    Some((j + 1, out))
}

} // verus!
