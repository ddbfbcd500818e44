//! The two line composers of the grammar — sample lines and comment
//! lines — together with the label-block rule they share, and the public
//! entry points that try a whole line at a time.

use crate::labels::LabelList;
use crate::records::Comment;
use crate::records::CommentType;
use crate::records::SampleData;
use crate::records::SpecValue;
use crate::number::read_timestamp;
use crate::number::read_value;
use crate::number::spec_number;
use crate::number::spec_timestamp;
use crate::number::spec_value;
use crate::text::lemma_content_end_bounds;
use crate::text::lemma_scan_metric_bounds;
use crate::text::lemma_skip_spaces_bounds;
use crate::text::read_quoted_string;
use crate::text::read_variable_name;
use crate::text::skip_spaces;
use crate::text::spec_quoted;
use crate::text::spec_scan_metric;
use crate::text::spec_skip_spaces;
use crate::text::string_from_range;
use vstd::prelude::*;
use vstd::string::StrSliceExecFns;

verus! {

/// The label-pair rule at `i`: a name (leading whitespace skipped), `=`
/// surrounded by optional whitespace, then a quoted string. On success,
/// the position after the closing quote, the name and the unescaped value.
pub open spec fn spec_pair(s: Seq<char>, i: int) -> Option<(int, Seq<char>, Seq<char>)> {
    let ns = spec_skip_spaces(s, i);
    let ne = spec_scan_metric(s, ns);
    let q = spec_skip_spaces(s, ne);
    if 0 <= q && q < s.len() && s[q] == '=' {
        let v = spec_skip_spaces(s, q + 1);
        match spec_quoted(s, v) {
            Some((e, val)) => Some((e, s.subrange(ns, ne), val)),
            None => None,
        }
    } else {
        None
    }
}

pub proof fn lemma_pair_bounds(s: Seq<char>, i: int)
    requires
        0 <= i <= s.len(),
        spec_pair(s, i) is Some,
    ensures
        i < spec_pair(s, i)->Some_0.0 <= s.len(),
    decreases s.len() - i,
{
    lemma_skip_spaces_bounds(s, i);
    let ns = spec_skip_spaces(s, i);
    lemma_scan_metric_bounds(s, ns);
    let ne = spec_scan_metric(s, ns);
    lemma_skip_spaces_bounds(s, ne);
    let q = spec_skip_spaces(s, ne);
    lemma_skip_spaces_bounds(s, q + 1);
    let v = spec_skip_spaces(s, q + 1);
    lemma_content_end_bounds(s, v + 1);
}

/// The rest of a label list after one parsed pair at position `e`: as long
/// as a comma and a further pair follow, each pair is entered into the
/// accumulated mapping, later pairs overwriting earlier ones; the list ends
/// right after its last pair.
pub open spec fn spec_pairs_rest(s: Seq<char>, e: int, acc: Map<Seq<char>, Seq<char>>) -> (
    int,
    Map<Seq<char>, Seq<char>>,
)
    decreases s.len() - e,
{
    let k = spec_skip_spaces(s, e);
    if 0 <= k && k < s.len() && s[k] == ',' {
        match spec_pair(s, k + 1) {
            Some((e2, nm, vl)) => {
                if e < e2 && e2 <= s.len() {
                    spec_pairs_rest(s, e2, acc.insert(nm, vl))
                } else {
                    (e, acc)
                }
            },
            None => (e, acc),
        }
    } else {
        (e, acc)
    }
}

/// The pair list inside a label block, possibly empty: a failing first
/// pair yields the empty mapping and consumes nothing.
pub open spec fn spec_list(s: Seq<char>, i: int) -> (int, Map<Seq<char>, Seq<char>>) {
    match spec_pair(s, i) {
        None => (i, Map::empty()),
        Some((e, nm, vl)) => spec_pairs_rest(s, e, Map::empty().insert(nm, vl)),
    }
}

/// The optional label block at `i`. Absence of `{` after whitespace is an
/// empty label set. A present but malformed block — an unclosed brace, or
/// a trailing comma before `}` — also yields the empty set, consuming
/// nothing, so that the enclosing sample line then fails on the value.
pub open spec fn spec_label_block(s: Seq<char>, i: int) -> (int, Map<Seq<char>, Seq<char>>) {
    let b = spec_skip_spaces(s, i);
    if 0 <= b && b < s.len() && s[b] == '{' {
        let lm = spec_list(s, b + 1);
        let c = spec_skip_spaces(s, lm.0);
        if c < s.len() && s[c] == '}' {
            (c + 1, lm.1)
        } else {
            (i, Map::empty())
        }
    } else {
        (i, Map::empty())
    }
}

fn read_pair(s: &str, from: usize) -> (r: Option<(usize, String, String)>)
    requires
        from <= s@.len(),
    ensures
        r is Some <==> spec_pair(s@, from as int) is Some,
        (r matches Some(t) ==> (spec_pair(s@, from as int) matches Some(q) && t.0 == q.0 && from
            < t.0 <= s@.len() && t.1@ == q.1 && t.2@ == q.2)),
{
    let n: usize = s.unicode_len();
    let (ne, name) = read_variable_name(s, from);
    let q = skip_spaces(s, ne);
    if q == n || s.get_char(q) != '=' {
        return None;
    }
    let v = skip_spaces(s, q + 1);
    match read_quoted_string(s, v) {
        Some((e, val)) => Some((e, name, val)),
        None => None,
    }
}

/// Reads the optional label block at `from`. Never fails: a missing or
/// malformed block yields an empty label set and consumes nothing.
pub fn read_label(s: &str, from: usize) -> (r: (usize, LabelList))
    requires
        from <= s@.len(),
    ensures
        ({
            let lb = spec_label_block(s@, from as int);
            &&& r.0 == lb.0
            &&& from <= r.0 <= s@.len()
            &&& r.1@ == lb.1
        }),
{
    let n: usize = s.unicode_len();
    let b = skip_spaces(s, from);
    if b == n || s.get_char(b) != '{' {
        return (from, LabelList::new());
    }
    let mut ll = LabelList::new();
    let mut pos: usize = b + 1;
    match read_pair(s, b + 1) {
        None => {},
        Some((e, nm, vl)) => {
            ll.push_pair(nm, vl);
            pos = e;
            loop
                invariant
                    b + 1 <= pos <= n,
                    n == s@.len(),
                    spec_list(s@, (b + 1) as int) == spec_pairs_rest(s@, pos as int, ll@),
                ensures
                    b + 1 <= pos <= n,
                    spec_list(s@, (b + 1) as int) == ((pos as int, ll@)),
                decreases n - pos,
            {
                let k = skip_spaces(s, pos);
                if k == n || s.get_char(k) != ',' {
                    break ;
                }
                match read_pair(s, k + 1) {
                    None => {
                        break ;
                    },
                    Some((e2, nm2, vl2)) => {
                        ll.push_pair(nm2, vl2);
                        pos = e2;
                    },
                }
            }
        },
    }
    proof {
        assert(spec_list(s@, (b + 1) as int) == ((pos as int, ll@)));
    }
    let c = skip_spaces(s, pos);
    if c < n && s.get_char(c) == '}' {
        (c + 1, ll)
    } else {
        (from, LabelList::new())
    }
}

/// The decomposition of a whole sample line.
pub struct SampleSpec {
    pub name: Seq<char>,
    pub labels: Map<Seq<char>, Seq<char>>,
    pub value: SpecValue,
    pub timestamp: Option<int>,
    pub end: int,
}

/// The sample-line rule: name, optional label block, mandatory value,
/// optional timestamp, strictly in that order. Trailing characters after
/// the timestamp are left unconsumed and are not an error.
pub open spec fn spec_sample(s: Seq<char>) -> Option<SampleSpec> {
    let ns = spec_skip_spaces(s, 0);
    let ne = spec_scan_metric(s, ns);
    let lb = spec_label_block(s, ne);
    match spec_value(s, lb.0) {
        Some((ve, v)) => {
            let ts = spec_timestamp(s, ve);
            Some(
                (SampleSpec {
                    name: s.subrange(ns, ne),
                    labels: lb.1,
                    value: v,
                    timestamp: ts.1,
                    end: ts.0,
                }),
            )
        },
        None => None,
    }
}

/// Reads one sample line, returning the position of the first unconsumed
/// character alongside the record.
pub fn read_sample_line(s: &str) -> (r: Option<(usize, SampleData)>)
    ensures
        r is Some <==> spec_sample(s@) is Some,
        (r matches Some(t) ==> (spec_sample(s@) matches Some(sp) && t.0 == sp.end && t.1.name@
            == sp.name && t.1.labels@ == sp.labels && t.1.value@ == sp.value && (t.1.timestamp
            is Some <==> sp.timestamp is Some) && (t.1.timestamp matches Some(v)
            ==> sp.timestamp matches Some(w) && v as int == w))),
{
    let (ne, name) = read_variable_name(s, 0);
    let (lpos, labels) = read_label(s, ne);
    match read_value(s, lpos) {
        None => None,
        Some((ve, value)) => {
            let (tpos, ts) = read_timestamp(s, ve);
            Some((tpos, SampleData::new(name, labels, value, ts)))
        },
    }
}

/// Whether the four characters of `HELP` stand at `i`.
pub open spec fn is_help_at(s: Seq<char>, i: int) -> bool {
    0 <= i && i + 4 <= s.len() && s[i] == 'H' && s[i + 1] == 'E' && s[i + 2] == 'L' && s[i + 3]
        == 'P'
}

/// Whether the four characters of `TYPE` stand at `i`.
pub open spec fn is_type_at(s: Seq<char>, i: int) -> bool {
    0 <= i && i + 4 <= s.len() && s[i] == 'T' && s[i + 1] == 'Y' && s[i + 2] == 'P' && s[i + 3]
        == 'E'
}

/// The end of the free text of a comment: everything up to a line break
/// or the end of the input.
pub open spec fn spec_line_end(s: Seq<char>, i: int) -> int
    decreases s.len() - i,
{
    if 0 <= i && i < s.len() && s[i] != '\r' && s[i] != '\n' {
        spec_line_end(s, i + 1)
    } else {
        i
    }
}

/// The decomposition of a whole comment line.
pub struct CommentSpec {
    pub name: Seq<char>,
    pub c_type: CommentType,
    pub text: Seq<char>,
    pub end: int,
}

/// The comment-line rule: `#` as the very first character, optional
/// whitespace, one of the two known keywords, an identifier (possibly
/// empty), then the rest of the line as free text. Any other keyword fails
/// the parse entirely.
pub open spec fn spec_comment(s: Seq<char>) -> Option<CommentSpec> {
    if s.len() > 0 && s[0] == '#' {
        let k = spec_skip_spaces(s, 1);
        if is_help_at(s, k) || is_type_at(s, k) {
            let kind = if is_help_at(s, k) {
                CommentType::HELP
            } else {
                CommentType::TYPE
            };
            let ns = spec_skip_spaces(s, k + 4);
            let ne = spec_scan_metric(s, ns);
            let ts = spec_skip_spaces(s, ne);
            let te = spec_line_end(s, ts);
            Some(
                (CommentSpec {
                    name: s.subrange(ns, ne),
                    c_type: kind,
                    text: s.subrange(ts, te),
                    end: te,
                }),
            )
        } else {
            None
        }
    } else {
        None
    }
}

fn scan_line_end(s: &str, from: usize) -> (r: usize)
    requires
        from <= s@.len(),
    ensures
        from <= r <= s@.len(),
        r == spec_line_end(s@, from as int),
{
    let n: usize = s.unicode_len();
    let mut j: usize = from;
    loop
        invariant
            from <= j <= n,
            n == s@.len(),
            spec_line_end(s@, from as int) == spec_line_end(s@, j as int),
        ensures
            from <= j <= n,
            j == spec_line_end(s@, from as int),
        decreases n - j,
    {
        if j == n {
            break ;
        }
        let c = s.get_char(j);
        if c == '\r' || c == '\n' {
            break ;
        }
        j = j + 1;
    }
    j
}

/// Reads one comment line, returning the position of the first unconsumed
/// character alongside the record.
pub fn read_comment_line(s: &str) -> (r: Option<(usize, Comment)>)
    ensures
        r is Some <==> spec_comment(s@) is Some,
        (r matches Some(t) ==> (spec_comment(s@) matches Some(c) && t.0 == c.end && t.1.name@
            == c.name && t.1.c_type == c.c_type && t.1.text@ == c.text)),
{
    let n: usize = s.unicode_len();
    if n == 0 || s.get_char(0) != '#' {
        return None;
    }
    let k = skip_spaces(s, 1);
    let help = n - k >= 4 && s.get_char(k) == 'H' && s.get_char(k + 1) == 'E' && s.get_char(k + 2)
        == 'L' && s.get_char(k + 3) == 'P';
    let typed = n - k >= 4 && s.get_char(k) == 'T' && s.get_char(k + 1) == 'Y' && s.get_char(k + 2)
        == 'P' && s.get_char(k + 3) == 'E';
    if !(help || typed) {
        return None;
    }
    let (ne, name) = read_variable_name(s, k + 4);
    let ts = skip_spaces(s, ne);
    let te = scan_line_end(s, ts);
    let text = string_from_range(s, ts, te);
    let kind = if help {
        CommentType::HELP
    } else {
        CommentType::TYPE
    };
    Some((te, Comment::new(name, kind, text)))
}

proof fn lemma_pairs_rest_entries(s: Seq<char>, e: int, acc: Map<Seq<char>, Seq<char>>)
    requires
        0 <= e <= s.len(),
    ensures
        forall|k: Seq<char>|
            #[trigger] spec_pairs_rest(s, e, acc).1.contains_key(k) ==> ((acc.contains_key(k)
                && spec_pairs_rest(s, e, acc).1[k] == acc[k]) || (exists|j: int, e2: int|
                spec_pair(s, j) == Some((e2, k, spec_pairs_rest(s, e, acc).1[k])))),
    decreases s.len() - e,
{
    let kc = spec_skip_spaces(s, e);
    if 0 <= kc && kc < s.len() && s[kc] == ',' {
        if spec_pair(s, kc + 1) is Some {
            let pr = spec_pair(s, kc + 1)->Some_0;
            lemma_pair_bounds(s, kc + 1);
            if e < pr.0 && pr.0 <= s.len() {
                let acc2 = acc.insert(pr.1, pr.2);
                lemma_pairs_rest_entries(s, pr.0, acc2);
                let res = spec_pairs_rest(s, pr.0, acc2);
                assert forall|k: Seq<char>| #[trigger] res.1.contains_key(k) implies ((
                acc.contains_key(k) && res.1[k] == acc[k]) || (exists|j: int, e2: int|
                    spec_pair(s, j) == Some((e2, k, res.1[k])))) by {
                    if acc2.contains_key(k) && res.1[k] == acc2[k] {
                        if k == pr.1 {
                            assert(spec_pair(s, kc + 1) == Some((pr.0, k, res.1[k])));
                        }
                    }
                }
            }
        }
    }
}

/// Every entry of the label set of a well-formed sample line was produced
/// by the label-pair rule somewhere on the line: under each parsed name
/// stands exactly the value of such a pair — by the pair rule, the
/// once-unescaped text between that pair's quotes. Looking a parsed label
/// name back up therefore returns the original value, unescaped once.
pub proof fn lemma_sample_labels_from_pairs(s: Seq<char>, k: Seq<char>)
    requires
        spec_sample(s) is Some,
        spec_sample(s)->Some_0.labels.contains_key(k),
    ensures
        exists|j: int, e2: int|
            spec_pair(s, j) == Some((e2, k, spec_sample(s)->Some_0.labels[k])),
{
    let ns = spec_skip_spaces(s, 0);
    let ne = spec_scan_metric(s, ns);
    lemma_skip_spaces_bounds(s, 0);
    lemma_scan_metric_bounds(s, ns);
    let lb = spec_label_block(s, ne);
    let b = spec_skip_spaces(s, ne);
    lemma_skip_spaces_bounds(s, ne);
    if 0 <= b && b < s.len() && s[b] == '{' {
        let lm = spec_list(s, b + 1);
        if spec_pair(s, b + 1) is Some {
            let pr = spec_pair(s, b + 1)->Some_0;
            lemma_pair_bounds(s, b + 1);
            let acc0 = Map::<Seq<char>, Seq<char>>::empty().insert(pr.1, pr.2);
            lemma_pairs_rest_entries(s, pr.0, acc0);
            if lb.1.contains_key(k) && acc0.contains_key(k) && spec_pairs_rest(s, pr.0, acc0).1[k]
                == acc0[k] {
                assert(spec_pair(s, b + 1) == Some((pr.0, k, lb.1[k])));
            }
        }
    }
}

/// The value of every parsed label pair comes from the quoted-string rule,
/// whose result is the captured text with doubled backslashes collapsed
/// once and nothing else decoded.
pub proof fn lemma_pair_value_unescaped(s: Seq<char>, i: int)
    requires
        0 <= i <= s.len(),
        spec_pair(s, i) is Some,
    ensures
        exists|vq: int|
            (#[trigger] spec_quoted(s, vq)) matches Some(qq) && qq.0 == spec_pair(s, i)->Some_0.0
                && qq.1 == spec_pair(s, i)->Some_0.2,
{
    let ne = spec_scan_metric(s, spec_skip_spaces(s, i));
    let q = spec_skip_spaces(s, ne);
    let v = spec_skip_spaces(s, q + 1);
    assert(spec_quoted(s, v) matches Some(qq) && qq.0 == spec_pair(s, i)->Some_0.0 && qq.1
        == spec_pair(s, i)->Some_0.2);
}

/// A label block that is present but cannot be parsed — for instance one
/// with a trailing comma before its closing brace — fails the whole
/// sample line: the value reader then stands on `{`, which starts no
/// value, and the value is mandatory.
pub proof fn lemma_failed_label_block_fails_sample(s: Seq<char>)
    requires
        ({
            let ne = spec_scan_metric(s, spec_skip_spaces(s, 0));
            let b = spec_skip_spaces(s, ne);
            &&& 0 <= b < s.len()
            &&& s[b] == '{'
            &&& spec_label_block(s, ne).0 == ne
        }),
    ensures
        spec_sample(s) is None,
{
    let ns = spec_skip_spaces(s, 0);
    let ne = spec_scan_metric(s, ns);
    let b = spec_skip_spaces(s, ne);
    assert(spec_number(s, b) is None);
    assert(spec_value(s, ne) is None);
}

/// A comment line whose keyword is neither `HELP` nor `TYPE` yields no
/// comment at all: there is no generic or unknown comment kind.
pub proof fn lemma_unknown_keyword_no_comment(s: Seq<char>)
    requires
        !is_help_at(s, spec_skip_spaces(s, 1)),
        !is_type_at(s, spec_skip_spaces(s, 1)),
    ensures
        spec_comment(s) is None,
{
}

/// Tries to parse one line as a metric sample. Trailing characters after
/// a successful parse are discarded; any grammar failure yields `None`.
pub fn try_read_sample(line: &str) -> (r: Option<SampleData>)
    ensures
        r is Some <==> spec_sample(line@) is Some,
        (r matches Some(sd) ==> (spec_sample(line@) matches Some(sp) && sd.name@ == sp.name
            && sd.labels@ == sp.labels && sd.value@ == sp.value && (sd.timestamp is Some
            <==> sp.timestamp is Some) && (sd.timestamp matches Some(v)
            ==> sp.timestamp matches Some(w) && v as int == w))),
{
    match read_sample_line(line) {
        Some((_, sd)) => Some(sd),
        None => None,
    }
}

/// Tries to parse one line as a `# HELP`/`# TYPE` comment. Returns `None`
/// when the line does not begin with `#` followed by a known keyword.
pub fn try_read_comment(line: &str) -> (r: Option<Comment>)
    ensures
        r is Some <==> spec_comment(line@) is Some,
        (r matches Some(c) ==> (spec_comment(line@) matches Some(cs) && c.name@ == cs.name
            && c.c_type == cs.c_type && c.text@ == cs.text)),
{
    match read_comment_line(line) {
        Some((_, c)) => Some(c),
        None => None,
    }
}

} // verus!
