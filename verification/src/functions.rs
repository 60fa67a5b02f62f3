//! Function records: named brace-delimited blocks. A header line opens a
//! block; a running brace count across the following lines decides where
//! it closes. Headers whose block never closes yield no record; the scan
//! then resumes at the next line.

use vstd::prelude::*;
use crate::errors::EditError;
use crate::text::is_prefix;
use crate::text::trim_spec;
use crate::text::trim_str;
use crate::text::find_first;
use crate::text::find_last;
use crate::text::find_char;
use crate::text::starts_with_str;
use crate::text::split_lines;
use crate::text::split_lines_spec;
use crate::text::lines_text;
use crate::text::lemma_find_first;
use crate::text::lemma_find_last;
use crate::text::lemma_trim_ends;
use crate::text::lemma_trim_noop;
use crate::text::lemma_nl_lit;
use crate::text::lemma_lines_text_concat;
use crate::text::lemma_split_lines_concat;
use crate::text::lemma_split_lines_single;
use crate::text::lemma_split_lines_no_nl;
use crate::text::lemma_split_lines_text;

verus! {

/// A named shell function. `content` holds the body lines; `shared`
/// selects which of the two function files the record belongs to.
#[derive(Debug, Clone)]
pub struct Function {
    pub name: String,
    pub content: String,
    pub shared: bool,
}

/// The running brace count a line contributes: `+1` per `{`, `-1` per `}`.
pub open spec fn brace_delta(l: Seq<char>) -> int
    decreases l.len(),
{
    if l.len() == 0 {
        0
    } else {
        brace_delta(l.drop_last()) + if l.last() == '{' {
            1int
        } else if l.last() == '}' {
            -1int
        } else {
            0int
        }
    }
}

/// Whether the line contains an opening brace.
pub open spec fn has_open(l: Seq<char>) -> bool {
    l.contains('{')
}

pub proof fn lemma_brace_delta_bound(l: Seq<char>)
    ensures
        -(l.len() as int) <= brace_delta(l) <= l.len() as int,
    decreases l.len(),
{
    if l.len() > 0 {
        lemma_brace_delta_bound(l.drop_last());
    }
}

pub proof fn lemma_brace_delta_concat(a: Seq<char>, b: Seq<char>)
    ensures
        brace_delta(a + b) == brace_delta(a) + brace_delta(b),
    decreases b.len(),
{
    if b.len() == 0 {
        assert(a + b =~= a);
    } else {
        assert((a + b).drop_last() =~= a + b.drop_last());
        assert((a + b).last() == b.last());
        lemma_brace_delta_concat(a, b.drop_last());
    }
}

/// A line without braces contributes nothing to the count.
pub proof fn lemma_brace_delta_free(l: Seq<char>)
    requires
        !l.contains('{'),
        !l.contains('}'),
    ensures
        brace_delta(l) == 0,
    decreases l.len(),
{
    if l.len() > 0 {
        assert(l.last() != '{' && l.last() != '}');
        assert(!l.drop_last().contains('{') && !l.drop_last().contains('}')) by {
            if l.drop_last().contains('{') {
                let w = choose|w: int| 0 <= w < l.len() - 1 && l.drop_last()[w] == '{';
                assert(l[w] == '{');
            }
            if l.drop_last().contains('}') {
                let w = choose|w: int| 0 <= w < l.len() - 1 && l.drop_last()[w] == '}';
                assert(l[w] == '}');
            }
        }
        lemma_brace_delta_free(l.drop_last());
    }
}

/// Total length of a sequence of lines.
pub open spec fn lines_len_sum(ls: Seq<Seq<char>>) -> int
    decreases ls.len(),
{
    if ls.len() == 0 {
        0
    } else {
        ls[0].len() + lines_len_sum(ls.drop_first())
    }
}

pub proof fn lemma_lines_len_sum_concat(a: Seq<Seq<char>>, b: Seq<Seq<char>>)
    ensures
        lines_len_sum(a + b) == lines_len_sum(a) + lines_len_sum(b),
        lines_len_sum(a) >= 0,
        lines_len_sum(b) >= 0,
    decreases a.len() + b.len(),
{
    if a.len() == 0 {
        assert(a + b =~= b);
        if b.len() > 0 {
            assert(Seq::<Seq<char>>::empty() + b.drop_first() =~= b.drop_first());
            lemma_lines_len_sum_concat(Seq::<Seq<char>>::empty(), b.drop_first());
        }
    } else {
        assert((a + b).drop_first() =~= a.drop_first() + b);
        lemma_lines_len_sum_concat(a.drop_first(), b);
    }
}

/// The lines of a text are no longer, in total, than the text itself.
pub proof fn lemma_split_lines_len_sum(s: Seq<char>)
    ensures
        0 <= lines_len_sum(split_lines_spec(s)) <= s.len(),
    decreases s.len(),
{
    if s.len() > 0 {
        let i = find_first(s, '\n');
        lemma_find_first(s, '\n');
        if 0 <= i < s.len() {
            lemma_split_lines_len_sum(s.skip(i + 1));
            let rest = split_lines_spec(s.skip(i + 1));
            assert(seq![s.take(i)] + rest =~= split_lines_spec(s));
            lemma_lines_len_sum_concat(seq![s.take(i)], rest);
            assert(seq![s.take(i)].drop_first() =~= Seq::<Seq<char>>::empty());
            assert(lines_len_sum(seq![s.take(i)]) == i) by {
                reveal_with_fuel(lines_len_sum, 2);
            }
        } else {
            reveal_with_fuel(lines_len_sum, 2);
            assert(split_lines_spec(s) =~= seq![s]);
            assert(seq![s].drop_first() =~= Seq::<Seq<char>>::empty());
        }
    }
}

/// The sum of the brace counts of a run of lines.
pub open spec fn sum_delta(ls: Seq<Seq<char>>) -> int
    decreases ls.len(),
{
    if ls.len() == 0 {
        0
    } else {
        brace_delta(ls[0]) + sum_delta(ls.drop_first())
    }
}

pub proof fn lemma_sum_delta_concat(a: Seq<Seq<char>>, b: Seq<Seq<char>>)
    ensures
        sum_delta(a + b) == sum_delta(a) + sum_delta(b),
    decreases a.len(),
{
    if a.len() == 0 {
        assert(a + b =~= b);
    } else {
        assert((a + b).drop_first() =~= a.drop_first() + b);
        lemma_sum_delta_concat(a.drop_first(), b);
    }
}

pub proof fn lemma_sum_delta_bound(ls: Seq<Seq<char>>)
    ensures
        -lines_len_sum(ls) <= sum_delta(ls) <= lines_len_sum(ls),
    decreases ls.len(),
{
    if ls.len() > 0 {
        lemma_brace_delta_bound(ls[0]);
        lemma_sum_delta_bound(ls.drop_first());
    }
}

/// Lines joined by single newlines, with no trailing newline.
pub open spec fn join_nl(ls: Seq<Seq<char>>) -> Seq<char>
    decreases ls.len(),
{
    if ls.len() == 0 {
        Seq::empty()
    } else if ls.len() == 1 {
        ls[0]
    } else {
        ls[0] + seq!['\n'] + join_nl(ls.drop_first())
    }
}

pub proof fn lemma_join_nl_snoc(a: Seq<Seq<char>>, x: Seq<char>)
    ensures
        join_nl(a + seq![x]) == if a.len() == 0 {
            x
        } else {
            join_nl(a) + seq!['\n'] + x
        },
    decreases a.len(),
{
    if a.len() == 0 {
        assert(a + seq![x] =~= seq![x]);
    } else if a.len() == 1 {
        assert((a + seq![x])[0] == a[0]);
        assert((a + seq![x]).drop_first() =~= seq![x]);
        assert(join_nl(seq![x]) == x);
        assert(join_nl(a + seq![x]) =~= a[0] + seq!['\n'] + x);
        assert(join_nl(a) == a[0]);
        assert(join_nl(a) + seq!['\n'] + x =~= a[0] + seq!['\n'] + x);
    } else {
        assert((a + seq![x]).drop_first() =~= a.drop_first() + seq![x]);
        lemma_join_nl_snoc(a.drop_first(), x);
        assert(join_nl(a + seq![x]) =~= join_nl(a) + seq!['\n'] + x);
    }
}

/// The name a header line declares, if any. The `function` keyword form
/// is tried first; a bare `name()` form second. Comments and blank lines
/// are never headers.
pub open spec fn header_name(line: Seq<char>) -> Option<Seq<char>> {
    let t = trim_spec(line);
    if t.len() == 0 || t[0] == '#' {
        None
    } else {
        let p1 = header_keyword_name(t);
        if p1 is Some {
            p1
        } else {
            let p = find_first(t, '(');
            if p < t.len() {
                let nm = trim_spec(t.take(p));
                if nm.len() > 0 && nm[0] != '#' && is_prefix("()"@, t.skip(p)) {
                    Some(nm)
                } else {
                    None
                }
            } else {
                None
            }
        }
    }
}

/// The keyword form: `function NAME(`, with the name before the paren.
pub open spec fn header_keyword_name(t: Seq<char>) -> Option<Seq<char>> {
    if is_prefix("function "@, t) {
        let rest = trim_spec(t.skip("function "@.len() as int));
        let p = find_first(rest, '(');
        if p < rest.len() {
            let nm = trim_spec(rest.take(p));
            if nm.len() > 0 {
                Some(nm)
            } else {
                None
            }
        } else {
            None
        }
    } else {
        None
    }
}

/// The line where the block opened at line `i` closes: the first line at
/// or after it where the running count returns to zero after an opening
/// brace has been seen; `None` when the block never closes.
pub open spec fn scan_end(ls: Seq<Seq<char>>, i: int, depth: int, started: bool) -> Option<int>
    decreases ls.len() - i,
{
    if i < 0 || i >= ls.len() {
        None
    } else {
        let d2 = depth + brace_delta(ls[i]);
        let st2 = started || has_open(ls[i]);
        if st2 && d2 == 0 {
            Some(i)
        } else {
            scan_end(ls, i + 1, d2, st2)
        }
    }
}

pub proof fn lemma_scan_end_range(ls: Seq<Seq<char>>, i: int, depth: int, started: bool)
    requires
        scan_end(ls, i, depth, started) is Some,
    ensures
        i <= scan_end(ls, i, depth, started)->Some_0 < ls.len(),
    decreases ls.len() - i,
{
    if 0 <= i < ls.len() {
        let d2 = depth + brace_delta(ls[i]);
        let st2 = started || has_open(ls[i]);
        if !(st2 && d2 == 0) {
            lemma_scan_end_range(ls, i + 1, d2, st2);
        }
    }
}

/// The body text of the block from the header at `i` to its closing
/// line `j`: the lines strictly after the header joined by newlines,
/// cut before the final closing brace, and trimmed.
pub open spec fn block_body(ls: Seq<Seq<char>>, i: int, j: int) -> Seq<char> {
    let raw = join_nl(ls.subrange(i + 1, j + 1));
    let k = find_last(raw, '}');
    if k > 0 {
        trim_spec(raw.take(k - 1))
    } else {
        trim_spec(raw)
    }
}

/// The records of a line sequence from index `i` on: each recognized
/// header opens a block; a completed block yields one record and the
/// scan resumes after its closing line; anything else is skipped.
pub open spec fn parse_functions_spec(ls: Seq<Seq<char>>, i: int) -> Seq<(Seq<char>, Seq<char>)>
    decreases ls.len() - i,
{
    if i < 0 || i >= ls.len() {
        Seq::empty()
    } else {
        match header_name(ls[i]) {
            Some(n) => {
                match scan_end(ls, i, 0, false) {
                    Some(j) => {
                        if i <= j < ls.len() {
                            seq![(n, block_body(ls, i, j))] + parse_functions_spec(ls, j + 1)
                        } else {
                            parse_functions_spec(ls, i + 1)
                        }
                    },
                    None => parse_functions_spec(ls, i + 1),
                }
            },
            None => parse_functions_spec(ls, i + 1),
        }
    }
}

/// The records of a whole file.
pub open spec fn functions_spec(content: Seq<char>) -> Seq<(Seq<char>, Seq<char>)> {
    parse_functions_spec(split_lines_spec(content), 0)
}

/// A header whose block never closes anywhere in the remaining lines
/// contributes zero records: parsing continues with the very next line,
/// exactly as if the header had not been recognized.
pub proof fn lemma_unclosed_header_yields_nothing(ls: Seq<Seq<char>>, i: int)
    requires
        0 <= i < ls.len(),
        header_name(ls[i]) is Some,
        scan_end(ls, i, 0, false) is None,
    ensures
        parse_functions_spec(ls, i) == parse_functions_spec(ls, i + 1),
{
}

/// A name that serializes into a recognizable, single-line header.
pub open spec fn valid_function_name(n: Seq<char>) -> bool {
    n.len() > 0 && trim_spec(n) == n && !n.contains('(') && !n.contains('{') && !n.contains(
        '}',
    ) && !n.contains('\n')
}

/// A body whose brace count never dips below its opening level at any
/// line boundary, and balances out overall.
pub open spec fn balanced_body(b: Seq<char>) -> bool {
    let ls = split_lines_spec(b);
    sum_delta(ls) == 0 && forall|m: int| 0 <= m <= ls.len() ==> sum_delta(#[trigger] ls.take(m))
        >= 0
}

/// The header line a record serializes to.
pub open spec fn header_line(n: Seq<char>) -> Seq<char> {
    "function "@ + n + "() {"@
}

/// What parsing returns of a body that went through serialization: the
/// indented lines rejoined and trimmed.
pub open spec fn normalized_body(b: Seq<char>) -> Seq<char> {
    trim_spec(join_nl(indented_lines(b)))
}

/// The lines a serialized block splits back into.
pub open spec fn block_lines(n: Seq<char>, b: Seq<char>) -> Seq<Seq<char>> {
    seq![header_line(n)] + indented_lines(b) + seq![seq!['}']]
}

/// A body line as it is written back: two-space indent for lines with
/// content, blank lines as they stand.
pub open spec fn indent_line(l: Seq<char>) -> Seq<char> {
    if trim_spec(l).len() == 0 {
        l
    } else {
        "  "@ + l
    }
}

/// The body lines of a record, indented for writing.
pub open spec fn indented_lines(b: Seq<char>) -> Seq<Seq<char>> {
    split_lines_spec(b).map_values(|l: Seq<char>| indent_line(l))
}

/// One serialized block: keyword header, indented body, closing brace.
pub open spec fn render_block(n: Seq<char>, b: Seq<char>) -> Seq<char> {
    "function "@ + n + "() {"@ + seq!['\n'] + lines_text(indented_lines(b)) + "}"@ + seq!['\n']
}

/// The whole record set serialized: blocks separated by one blank line,
/// none at the start or end.
pub open spec fn render_functions_spec(fs: Seq<(Seq<char>, Seq<char>)>) -> Seq<char>
    decreases fs.len(),
{
    if fs.len() == 0 {
        Seq::empty()
    } else if fs.len() == 1 {
        render_block(fs[0].0, fs[0].1)
    } else {
        render_block(fs[0].0, fs[0].1) + seq!['\n'] + render_functions_spec(fs.drop_first())
    }
}

pub proof fn lemma_render_functions_snoc(a: Seq<(Seq<char>, Seq<char>)>, x: (Seq<char>, Seq<char>))
    ensures
        render_functions_spec(a + seq![x]) == if a.len() == 0 {
            render_block(x.0, x.1)
        } else {
            render_functions_spec(a) + seq!['\n'] + render_block(x.0, x.1)
        },
    decreases a.len(),
{
    if a.len() == 0 {
        assert(a + seq![x] =~= seq![x]);
    } else if a.len() == 1 {
        assert((a + seq![x])[0] == a[0]);
        assert((a + seq![x]).drop_first() =~= seq![x]);
        assert(render_functions_spec(seq![x]) == render_block(x.0, x.1));
        assert(render_functions_spec(a + seq![x]) =~= render_block(a[0].0, a[0].1) + seq!['\n']
            + render_block(x.0, x.1));
        assert(render_functions_spec(a) == render_block(a[0].0, a[0].1));
        assert(render_functions_spec(a) + seq!['\n'] + render_block(x.0, x.1) =~= render_block(
            a[0].0,
            a[0].1,
        ) + seq!['\n'] + render_block(x.0, x.1));
    } else {
        assert((a + seq![x]).drop_first() =~= a.drop_first() + seq![x]);
        lemma_render_functions_snoc(a.drop_first(), x);
        assert(render_functions_spec(a + seq![x]) =~= render_functions_spec(a) + seq!['\n']
            + render_block(x.0, x.1));
    }
}

/// Appends one serialized block to `out`.
fn render_block_into(out: &mut String, name: &str, body: &str)
    ensures
        final(out)@ == old(out)@ + render_block(name@, body@),
{
    out.append("function ");
    out.append(name);
    out.append("() {");
    out.append("\n");
    let lines = split_lines(body);
    let ghost dv = lines.deep_view();
    let ghost ind = indented_lines(body@);
    let ghost head = old(out)@ + "function "@ + name@ + "() {"@ + seq!['\n'];
    proof {
        lemma_nl_lit();
        assert(out@ =~= head);
        assert(ind.take(0) =~= Seq::<Seq<char>>::empty());
        assert(head + lines_text(ind.take(0)) =~= head);
    }
    let mut i: usize = 0;
    while i < lines.len()
        invariant
            0 <= i <= lines.len(),
            dv == lines.deep_view(),
            dv.len() == lines.len(),
            ind == indented_lines(body@),
            ind == dv.map_values(|l: Seq<char>| indent_line(l)),
            ind.len() == dv.len(),
            out@ == head + lines_text(ind.take(i as int)),
        decreases lines.len() - i,
    {
        let t = trim_str(lines[i].as_str());
        if t.unicode_len() > 0 {
            out.append("  ");
        }
        out.append(lines[i].as_str());
        out.append("\n");
        proof {
            lemma_nl_lit();
            reveal_with_fuel(lines_text, 2);
            assert(ind.take(i + 1) =~= ind.take(i as int) + seq![ind[i as int]]);
            lemma_lines_text_concat(ind.take(i as int), seq![ind[i as int]]);
            assert(seq![ind[i as int]].drop_first() =~= Seq::<Seq<char>>::empty());
            assert(lines_text(seq![ind[i as int]]) =~= ind[i as int] + seq!['\n']);
            assert(ind[i as int] == indent_line(dv[i as int]));
            assert(out@ =~= head + lines_text(ind.take(i + 1)));
        }
        i = i + 1;
    }
    out.append("}");
    out.append("\n");
    proof {
        lemma_nl_lit();
        assert(ind.take(dv.len() as int) =~= ind);
        assert(out@ =~= old(out)@ + render_block(name@, body@));
    }
}

/// Serializes the whole record set.
pub fn render_functions(fs: &Vec<Function>) -> (r: String)
    ensures
        r@ == render_functions_spec(fs@.map_values(|f: Function| (f.name@, f.content@))),
{
    let ghost views = fs@.map_values(|f: Function| (f.name@, f.content@));
    let mut out = String::new();
    let mut i: usize = 0;
    proof {
        assert(views.take(0) =~= Seq::<(Seq<char>, Seq<char>)>::empty());
        assert(out@ =~= render_functions_spec(views.take(0)));
    }
    while i < fs.len()
        invariant
            0 <= i <= fs.len(),
            views == fs@.map_values(|f: Function| (f.name@, f.content@)),
            views.len() == fs.len(),
            out@ == render_functions_spec(views.take(i as int)),
        decreases fs.len() - i,
    {
        if i > 0 {
            out.append("\n");
        }
        render_block_into(&mut out, fs[i].name.as_str(), fs[i].content.as_str());
        proof {
            lemma_nl_lit();
            assert(views.take(i + 1) =~= views.take(i as int) + seq![views[i as int]]);
            lemma_render_functions_snoc(views.take(i as int), views[i as int]);
            assert(out@ =~= render_functions_spec(views.take(i + 1)));
        }
        i = i + 1;
    }
    proof {
        assert(views.take(fs.len() as int) =~= views);
    }
    out
}

/// Whether the file holds a function named `name`.
pub open spec fn has_function(content: Seq<char>, name: Seq<char>) -> bool {
    exists|i: int|
        0 <= i < functions_spec(content).len() && (#[trigger] functions_spec(content)[i]).0
            == name
}

/// Counts the braces of one line: the running-count contribution and
/// whether an opening brace occurs.
fn line_braces(l: &str) -> (r: (i128, bool))
    ensures
        r.0 == brace_delta(l@),
        r.1 == has_open(l@),
        l@.len() <= usize::MAX,
        -(l@.len() as int) <= r.0 <= l@.len() as int,
{
    let n = l.unicode_len();
    let mut d: i128 = 0;
    let mut op = false;
    let mut k: usize = 0;
    proof {
        assert(l@.take(0) =~= Seq::<char>::empty());
        assert(!Seq::<char>::empty().contains('{'));
    }
    while k < n
        invariant
            0 <= k <= n,
            n == l@.len(),
            d == brace_delta(l@.take(k as int)),
            -(k as int) <= d <= k as int,
            op == has_open(l@.take(k as int)),
        decreases n - k,
    {
        let c = l.get_char(k);
        proof {
            assert(l@.take(k + 1).drop_last() =~= l@.take(k as int));
            assert(l@.take(k + 1).last() == l@[k as int]);
            lemma_brace_delta_bound(l@.take(k as int));
        }
        if c == '{' {
            d = d + 1;
            op = true;
            proof {
                assert(l@.take(k + 1)[k as int] == '{');
                assert(has_open(l@.take(k + 1)));
            }
        } else if c == '}' {
            d = d - 1;
        }
        proof {
            if has_open(l@.take(k + 1)) && !has_open(l@.take(k as int)) && l@[k as int] != '{' {
                let w = choose|w: int| 0 <= w < k + 1 && #[trigger] l@.take(k + 1)[w] == '{';
                assert(l@.take(k as int)[w] == '{');
            }
            if has_open(l@.take(k as int)) {
                let w = choose|w: int| 0 <= w < k && #[trigger] l@.take(k as int)[w] == '{';
                assert(l@.take(k + 1)[w] == '{');
            }
        }
        k = k + 1;
    }
    proof {
        assert(l@.take(n as int) =~= l@);
    }
    (d, op)
}

/// Recognizes a header line and yields the declared name. The keyword
/// form `function NAME(` is tried first, then the bare `NAME()` form.
pub fn try_parse_function_start(line: &str) -> (r: Option<String>)
    ensures
        match r {
            Some(s) => header_name(line@) == Some(s@),
            None => header_name(line@) is None,
        },
{
    let t = trim_str(line);
    let tn = t.unicode_len();
    if tn == 0 {
        return None;
    }
    if t.get_char(0) == '#' {
        return None;
    }
    if starts_with_str(t, "function ") {
        proof {
            reveal_strlit("function ");
        }
        let rest_raw = t.substring_char(9, tn);
        proof {
            assert(rest_raw@ =~= t@.skip("function "@.len() as int));
        }
        let rest = trim_str(rest_raw);
        let rn = rest.unicode_len();
        let p = find_char(rest, '(');
        proof {
            lemma_find_first(rest@, '(');
        }
        if p < rn {
            let nm_raw = rest.substring_char(0, p);
            proof {
                assert(nm_raw@ =~= rest@.take(p as int));
            }
            let nm = trim_str(nm_raw);
            if nm.unicode_len() > 0 {
                proof {
                    assert(header_keyword_name(t@) == Some(nm@));
                }
                return Some(nm.to_owned());
            }
        }
    }
    assert(header_keyword_name(t@) is None);
    let p = find_char(t, '(');
    proof {
        lemma_find_first(t@, '(');
    }
    if p < tn {
        let nm_raw = t.substring_char(0, p);
        proof {
            assert(nm_raw@ =~= t@.take(p as int));
        }
        let nm = trim_str(nm_raw);
        let nn = nm.unicode_len();
        if nn > 0 && nm.get_char(0) != '#' {
            if p + 1 < tn && t.get_char(p + 1) == ')' {
                proof {
                    reveal_strlit("()");
                    assert(t@.skip(p as int).len() >= 2);
                    assert(t@.skip(p as int)[0] == '(');
                    assert(t@.skip(p as int)[1] == ')');
                    assert(t@.skip(p as int).subrange(0, 2) =~= "()"@);
                    assert(is_prefix("()"@, t@.skip(p as int)));
                }
                return Some(nm.to_owned());
            }
            proof {
                reveal_strlit("()");
                if is_prefix("()"@, t@.skip(p as int)) {
                    assert(t@.skip(p as int).subrange(0, 2) == "()"@);
                    assert(t@.skip(p as int).subrange(0, 2)[1] == ')');
                    assert(t@.skip(p as int)[1] == ')');
                    assert(t@[p + 1] == ')');
                }
            }
        }
    }
    None
}

/// The scope-free records of a file, in scan order.
pub fn parse_functions(content: &str) -> (r: Vec<Function>)
    ensures
        r@.map_values(|f: Function| (f.name@, f.content@)) == functions_spec(content@),
        forall|k: int| 0 <= k < r.len() ==> (#[trigger] r@[k]).shared == false,
{
    let total = content.unicode_len();
    let lines = split_lines(content);
    let ghost dv = lines.deep_view();
    proof {
        lemma_split_lines_len_sum(content@);
    }
    let n = lines.len();
    let mut funcs: Vec<Function> = Vec::new();
    let mut i: usize = 0;
    proof {
        assert(funcs@.map_values(|f: Function| (f.name@, f.content@)) =~= Seq::<(
            Seq<char>,
            Seq<char>,
        )>::empty());
        assert(Seq::<(Seq<char>, Seq<char>)>::empty() + parse_functions_spec(dv, 0)
            =~= parse_functions_spec(dv, 0));
    }
    while i < n
        invariant
            0 <= i <= n,
            dv == lines.deep_view(),
            dv == split_lines_spec(content@),
            dv.len() == n,
            total == content@.len(),
            lines_len_sum(dv) <= total as int,
            parse_functions_spec(dv, 0) == funcs@.map_values(
                |f: Function| (f.name@, f.content@),
            ) + parse_functions_spec(dv, i as int),
            forall|k: int| 0 <= k < funcs.len() ==> (#[trigger] funcs@[k]).shared == false,
        decreases n - i,
    {
        let ghost recs = funcs@.map_values(|f: Function| (f.name@, f.content@));
        let header = try_parse_function_start(lines[i].as_str());
        match header {
            None => {
                proof {
                    assert(parse_functions_spec(dv, i as int) == parse_functions_spec(
                        dv,
                        i + 1,
                    ));
                }
                i = i + 1;
            },
            Some(nm) => {
                let mut j: usize = i;
                let mut depth: i128 = 0;
                let mut started = false;
                let mut body_acc = String::new();
                let mut completed = false;
                proof {
                    assert(dv.subrange(i as int, i as int) =~= Seq::<Seq<char>>::empty());
                }
                loop
                    invariant_except_break
                        i <= j <= n,
                        !completed,
                        dv == lines.deep_view(),
                        dv.len() == n,
                        total == content@.len(),
                        lines_len_sum(dv) <= total as int,
                        scan_end(dv, i as int, 0, false) == scan_end(
                            dv,
                            j as int,
                            depth as int,
                            started,
                        ),
                        depth == sum_delta(dv.subrange(i as int, j as int)),
                        -(total as int) <= depth <= total as int,
                        j == i ==> body_acc@ =~= Seq::<char>::empty(),
                        j > i ==> body_acc@ == join_nl(dv.subrange(i + 1, j as int)),
                    ensures
                        i <= j <= n,
                        completed ==> j < n && scan_end(dv, i as int, 0, false) == Some(
                            j as int,
                        ) && body_acc@ == join_nl(dv.subrange(i + 1, j + 1)),
                        !completed ==> scan_end(dv, i as int, 0, false) is None,
                    decreases n - j,
                {
                    if j == n {
                        proof {
                            assert(scan_end(dv, j as int, depth as int, started) is None);
                        }
                        break;
                    }
                    let (d, op) = line_braces(lines[j].as_str());
                    proof {
                        let sub = dv.subrange(i as int, j as int);
                        let sub2 = dv.subrange(i as int, j + 1);
                        assert(sub2 =~= sub + seq![dv[j as int]]);
                        lemma_sum_delta_concat(sub, seq![dv[j as int]]);
                        reveal_with_fuel(sum_delta, 2);
                        assert(seq![dv[j as int]].drop_first() =~= Seq::<Seq<char>>::empty());
                        assert(sum_delta(seq![dv[j as int]]) == brace_delta(dv[j as int]));
                        lemma_sum_delta_bound(sub2);
                        let pre = dv.subrange(0, i as int);
                        let post = dv.subrange(j + 1, n as int);
                        assert(dv =~= pre + sub2 + post);
                        lemma_lines_len_sum_concat(pre + sub2, post);
                        lemma_lines_len_sum_concat(pre, sub2);
                        assert(lines_len_sum(sub2) <= total as int);
                    }
                    depth = depth + d;
                    started = started || op;
                    if j > i {
                        if j > i + 1 {
                            body_acc.append("\n");
                        }
                        body_acc.append(lines[j].as_str());
                        proof {
                            lemma_nl_lit();
                            lemma_join_nl_snoc(dv.subrange(i + 1, j as int), dv[j as int]);
                            assert(dv.subrange(i + 1, j + 1) =~= dv.subrange(i + 1, j as int)
                                + seq![dv[j as int]]);
                            assert(body_acc@ == join_nl(dv.subrange(i + 1, j + 1)));
                        }
                    } else {
                        proof {
                            assert(dv.subrange(i + 1, j + 1) =~= Seq::<Seq<char>>::empty());
                            assert(join_nl(dv.subrange(i + 1, j + 1)) =~= Seq::<char>::empty());
                        }
                    }
                    if started && depth == 0 {
                        completed = true;
                        break;
                    }
                    j = j + 1;
                }
                if completed {
                    let k = crate::text::rfind_char(body_acc.as_str(), '}');
                    let body_s: String;
                    if k > 0 {
                        proof {
                            lemma_find_last(body_acc@, '}');
                        }
                        let pre = body_acc.substring_char(0, k - 1);
                        proof {
                            assert(pre@ =~= body_acc@.take(k as int - 1));
                        }
                        body_s = trim_str(pre).to_owned();
                    } else {
                        body_s = trim_str(body_acc.as_str()).to_owned();
                    }
                    proof {
                        assert(body_s@ == block_body(dv, i as int, j as int));
                    }
                    funcs.push(Function { name: nm, content: body_s, shared: false });
                    proof {
                        assert(funcs@.map_values(|f: Function| (f.name@, f.content@)) =~= recs
                            + seq![(funcs@.last().name@, funcs@.last().content@)]);
                        assert(parse_functions_spec(dv, i as int) == seq![
                            (funcs@.last().name@, funcs@.last().content@),
                        ] + parse_functions_spec(dv, j + 1));
                        assert(recs + (seq![(funcs@.last().name@, funcs@.last().content@)]
                            + parse_functions_spec(dv, j + 1)) =~= (recs + seq![
                            (funcs@.last().name@, funcs@.last().content@),
                        ]) + parse_functions_spec(dv, j + 1));
                    }
                    i = j + 1;
                } else {
                    proof {
                        assert(parse_functions_spec(dv, i as int) == parse_functions_spec(
                            dv,
                            i + 1,
                        ));
                    }
                    i = i + 1;
                }
            },
        }
    }
    proof {
        assert(parse_functions_spec(dv, n as int) =~= Seq::<(Seq<char>, Seq<char>)>::empty());
        assert(funcs@.map_values(|f: Function| (f.name@, f.content@)) + Seq::<(
            Seq<char>,
            Seq<char>,
        )>::empty() =~= funcs@.map_values(|f: Function| (f.name@, f.content@)));
    }
    funcs
}

/// The records of a whole file, with the scope stamped on.
pub fn list_functions_in(content: &str, shared: bool) -> (r: Vec<Function>)
    ensures
        r@.map_values(|f: Function| (f.name@, f.content@)) == functions_spec(content@),
        forall|i: int| 0 <= i < r.len() ==> (#[trigger] r@[i]).shared == shared,
{
    let funcs = parse_functions(content);
    let ghost views = funcs@.map_values(|f: Function| (f.name@, f.content@));
    let mut r: Vec<Function> = Vec::new();
    let mut i: usize = 0;
    while i < funcs.len()
        invariant
            0 <= i <= funcs.len(),
            views == funcs@.map_values(|f: Function| (f.name@, f.content@)),
            views == functions_spec(content@),
            views.len() == funcs.len(),
            r@.map_values(|f: Function| (f.name@, f.content@)) == views.take(i as int),
            forall|k: int| 0 <= k < r.len() ==> (#[trigger] r@[k]).shared == shared,
        decreases funcs.len() - i,
    {
        proof {
            assert(r@.map_values(|f: Function| (f.name@, f.content@)).len() == r@.len());
            assert(r@.len() == i as int);
        }
        r.push(
            Function {
                name: funcs[i].name.clone(),
                content: funcs[i].content.clone(),
                shared,
            },
        );
        proof {
            assert(r@.len() == i + 1);
            assert(r@.map_values(|f: Function| (f.name@, f.content@)) =~~= views.take(i + 1));
        }
        i = i + 1;
    }
    proof {
        assert(views.take(funcs.len() as int) =~= views);
    }
    r
}

/// Whether the file holds a function named `name`.
pub fn function_exists(content: &str, name: &str) -> (r: bool)
    ensures
        r == has_function(content@, name@),
{
    let funcs = parse_functions(content);
    let ghost views = funcs@.map_values(|f: Function| (f.name@, f.content@));
    let mut i: usize = 0;
    while i < funcs.len()
        invariant
            0 <= i <= funcs.len(),
            views == funcs@.map_values(|f: Function| (f.name@, f.content@)),
            views == functions_spec(content@),
            views.len() == funcs.len(),
            forall|k: int| 0 <= k < i ==> (#[trigger] views[k]).0 != name@,
        decreases funcs.len() - i,
    {
        if crate::text::str_eq(funcs[i].name.as_str(), name) {
            proof {
                assert(views[i as int].0 == name@);
            }
            return true;
        }
        i = i + 1;
    }
    proof {
        if has_function(content@, name@) {
            let k = choose|k: int|
                0 <= k < functions_spec(content@).len() && (#[trigger] functions_spec(
                    content@,
                )[k]).0 == name@;
            assert(views[k].0 != name@);
        }
    }
    false
}

/// The file text after appending one serialized block: the existing
/// text is newline-terminated if it was not, then separated from the
/// new block by one blank line when non-empty.
pub open spec fn appended_function_file(content: Seq<char>, n: Seq<char>, b: Seq<char>) -> Seq<
    char,
> {
    let base = if content.len() > 0 && content.last() != '\n' {
        content + seq!['\n']
    } else {
        content
    };
    let base2 = if base.len() > 0 {
        base + seq!['\n']
    } else {
        base
    };
    base2 + render_block(n, b)
}

/// Appends a new function block; refused when the name is already
/// taken, in which case the file content is to be left untouched.
pub fn add_function_text(content: &str, name: &str, body: &str) -> (r: Result<
    String,
    EditError,
>)
    ensures
        r is Err <==> has_function(content@, name@),
        r is Err ==> r == Err::<String, EditError>(EditError::AlreadyExists),
        r is Ok ==> r->Ok_0@ == appended_function_file(content@, name@, body@),
{
    if function_exists(content, name) {
        return Err(EditError::AlreadyExists);
    }
    let mut out = content.to_owned();
    let n = content.unicode_len();
    if n > 0 && content.get_char(n - 1) != '\n' {
        out.append("\n");
    }
    if out.unicode_len() > 0 {
        out.append("\n");
    }
    proof {
        lemma_nl_lit();
    }
    render_block_into(&mut out, name, body);
    proof {
        assert(out@ =~= appended_function_file(content@, name@, body@));
    }
    Ok(out)
}

/// The record set with the first record named `name` given a new body;
/// an absent name leaves the set unchanged.
pub open spec fn update_first(
    fs: Seq<(Seq<char>, Seq<char>)>,
    name: Seq<char>,
    b: Seq<char>,
) -> Seq<(Seq<char>, Seq<char>)>
    decreases fs.len(),
{
    if fs.len() == 0 {
        fs
    } else if fs[0].0 == name {
        seq![(name, b)] + fs.drop_first()
    } else {
        seq![fs[0]] + update_first(fs.drop_first(), name, b)
    }
}

pub proof fn lemma_update_first_at(
    fs: Seq<(Seq<char>, Seq<char>)>,
    name: Seq<char>,
    b: Seq<char>,
    k: int,
)
    requires
        0 <= k < fs.len(),
        fs[k].0 == name,
        forall|m: int| 0 <= m < k ==> (#[trigger] fs[m]).0 != name,
    ensures
        update_first(fs, name, b) == fs.update(k, (name, b)),
    decreases fs.len(),
{
    if k == 0 {
        assert(update_first(fs, name, b) =~= fs.update(0, (name, b)));
    } else {
        assert(fs.drop_first()[k - 1].0 == name);
        assert(forall|m: int|
            0 <= m < k - 1 ==> (#[trigger] fs.drop_first()[m]).0 == fs[m + 1].0);
        lemma_update_first_at(fs.drop_first(), name, b, k - 1);
        assert(update_first(fs, name, b) =~= fs.update(k, (name, b)));
    }
}

/// Gives the first function named `name` the new body and rewrites the
/// whole file from the record set. Unrecognized text is not regenerated.
pub fn update_function_text(content: &str, name: &str, body: &str) -> (r: Result<
    String,
    EditError,
>)
    ensures
        r is Err <==> !has_function(content@, name@),
        r is Err ==> r == Err::<String, EditError>(EditError::NotFound),
        r is Ok ==> r->Ok_0@ == render_functions_spec(
            update_first(functions_spec(content@), name@, body@),
        ),
{
    let funcs = parse_functions(content);
    let ghost views = funcs@.map_values(|f: Function| (f.name@, f.content@));
    let pos = find_named(&funcs, name);
    match pos {
        None => {
            proof {
                if has_function(content@, name@) {
                    let k = choose|k: int|
                        0 <= k < functions_spec(content@).len() && (#[trigger] functions_spec(
                            content@,
                        )[k]).0 == name@;
                    assert(funcs@[k].name@ != name@);
                }
            }
            Err(EditError::NotFound)
        },
        Some(k) => {
            let ghost target = views.update(k as int, (name@, body@));
            proof {
                assert(views[k as int].0 == name@);
                assert(has_function(content@, name@));
                assert forall|m: int| 0 <= m < k implies (#[trigger] views[m]).0 != name@ by {
                    assert(views[m].0 == funcs@[m].name@);
                }
                lemma_update_first_at(views, name@, body@, k as int);
            }
            let mut out: Vec<Function> = Vec::new();
            let mut i: usize = 0;
            proof {
                assert(out@.map_values(|f: Function| (f.name@, f.content@)) =~~= target.take(
                    0,
                ));
            }
            while i < funcs.len()
                invariant
                    0 <= i <= funcs.len(),
                    k < funcs.len(),
                    views == funcs@.map_values(|f: Function| (f.name@, f.content@)),
                    views.len() == funcs.len(),
                    target == views.update(k as int, (name@, body@)),
                    funcs@[k as int].name@ == name@,
                    out@.map_values(|f: Function| (f.name@, f.content@)) == target.take(
                        i as int,
                    ),
                decreases funcs.len() - i,
            {
                proof {
                    assert(out@.map_values(|f: Function| (f.name@, f.content@)).len()
                        == out@.len());
                    assert(out@.len() == i as int);
                }
                if i == k {
                    out.push(
                        Function {
                            name: funcs[i].name.clone(),
                            content: body.to_owned(),
                            shared: false,
                        },
                    );
                } else {
                    out.push(
                        Function {
                            name: funcs[i].name.clone(),
                            content: funcs[i].content.clone(),
                            shared: false,
                        },
                    );
                }
                proof {
                    assert(out@.map_values(|f: Function| (f.name@, f.content@)) =~~= target.take(
                        i + 1,
                    ));
                }
                i = i + 1;
            }
            proof {
                assert(target.take(funcs.len() as int) =~= target);
            }
            Ok(render_functions(&out))
        },
    }
}

/// The position of the first record named `name`, if any.
fn find_named(funcs: &Vec<Function>, name: &str) -> (r: Option<usize>)
    ensures
        match r {
            Some(k) => k < funcs.len() && funcs@[k as int].name@ == name@ && forall|m: int|
                0 <= m < k ==> (#[trigger] funcs@[m]).name@ != name@,
            None => forall|m: int| 0 <= m < funcs.len() ==> (#[trigger] funcs@[m]).name@ != name@,
        },
{
    let mut i: usize = 0;
    while i < funcs.len()
        invariant
            0 <= i <= funcs.len(),
            forall|m: int| 0 <= m < i ==> (#[trigger] funcs@[m]).name@ != name@,
        decreases funcs.len() - i,
    {
        if crate::text::str_eq(funcs[i].name.as_str(), name) {
            return Some(i);
        }
        i = i + 1;
    }
    None
}

/// The record set with the first record named `name` removed; an
/// absent name leaves the set unchanged.
pub open spec fn remove_first(fs: Seq<(Seq<char>, Seq<char>)>, name: Seq<char>) -> Seq<(
    Seq<char>,
    Seq<char>,
)>
    decreases fs.len(),
{
    if fs.len() == 0 {
        fs
    } else if fs[0].0 == name {
        fs.drop_first()
    } else {
        seq![fs[0]] + remove_first(fs.drop_first(), name)
    }
}

pub proof fn lemma_remove_first_at(fs: Seq<(Seq<char>, Seq<char>)>, name: Seq<char>, k: int)
    requires
        0 <= k < fs.len(),
        fs[k].0 == name,
        forall|m: int| 0 <= m < k ==> (#[trigger] fs[m]).0 != name,
    ensures
        remove_first(fs, name) == fs.remove(k),
    decreases fs.len(),
{
    if k == 0 {
        assert(remove_first(fs, name) =~= fs.remove(0));
    } else {
        assert(fs.drop_first()[k - 1].0 == name);
        assert(forall|m: int|
            0 <= m < k - 1 ==> (#[trigger] fs.drop_first()[m]).0 == fs[m + 1].0);
        lemma_remove_first_at(fs.drop_first(), name, k - 1);
        assert(remove_first(fs, name) =~= fs.remove(k));
    }
}

/// Deletes the first function named `name` and rewrites the whole file
/// from the remaining record set. Unrecognized text is not regenerated.
pub fn delete_function_text(content: &str, name: &str) -> (r: Result<String, EditError>)
    ensures
        r is Err <==> !has_function(content@, name@),
        r is Err ==> r == Err::<String, EditError>(EditError::NotFound),
        r is Ok ==> r->Ok_0@ == render_functions_spec(
            remove_first(functions_spec(content@), name@),
        ),
{
    let funcs = parse_functions(content);
    let ghost views = funcs@.map_values(|f: Function| (f.name@, f.content@));
    let pos = find_named(&funcs, name);
    match pos {
        None => {
            proof {
                if has_function(content@, name@) {
                    let k = choose|k: int|
                        0 <= k < functions_spec(content@).len() && (#[trigger] functions_spec(
                            content@,
                        )[k]).0 == name@;
                    assert(funcs@[k].name@ != name@);
                }
            }
            Err(EditError::NotFound)
        },
        Some(k) => {
            let ghost target = views.remove(k as int);
            proof {
                assert(views[k as int].0 == name@);
                assert(has_function(content@, name@));
                assert forall|m: int| 0 <= m < k implies (#[trigger] views[m]).0 != name@ by {
                    assert(views[m].0 == funcs@[m].name@);
                }
                lemma_remove_first_at(views, name@, k as int);
                views.remove_ensures(k as int);
            }
            let mut out: Vec<Function> = Vec::new();
            let mut i: usize = 0;
            proof {
                assert(out@.map_values(|f: Function| (f.name@, f.content@)) =~~= target.take(
                    0,
                ));
            }
            while i < funcs.len()
                invariant
                    0 <= i <= funcs.len(),
                    k < funcs.len(),
                    views == funcs@.map_values(|f: Function| (f.name@, f.content@)),
                    views.len() == funcs.len(),
                    target == views.remove(k as int),
                    target.len() == views.len() - 1,
                    forall|m: int| 0 <= m < k ==> #[trigger] target[m] == views[m],
                    forall|m: int|
                        k <= m < views.len() - 1 ==> #[trigger] target[m] == views[m + 1],
                    out@.map_values(|f: Function| (f.name@, f.content@)) == target.take(
                        if i <= k {
                            i as int
                        } else {
                            i - 1
                        },
                    ),
                decreases funcs.len() - i,
            {
                proof {
                    assert(out@.map_values(|f: Function| (f.name@, f.content@)).len()
                        == out@.len());
                }
                if i != k {
                    out.push(
                        Function {
                            name: funcs[i].name.clone(),
                            content: funcs[i].content.clone(),
                            shared: false,
                        },
                    );
                    proof {
                        if i < k {
                            assert(out@.map_values(|f: Function| (f.name@, f.content@))
                                =~~= target.take(i + 1));
                        } else {
                            assert(out@.map_values(|f: Function| (f.name@, f.content@))
                                =~~= target.take(i as int));
                        }
                    }
                }
                i = i + 1;
            }
            proof {
                assert(target.take(funcs.len() - 1) =~= target);
            }
            Ok(render_functions(&out))
        },
    }
}

pub proof fn lemma_header_line(n: Seq<char>)
    requires
        valid_function_name(n),
    ensures
        header_name(header_line(n)) == Some(n),
        brace_delta(header_line(n)) == 1,
        has_open(header_line(n)),
        !header_line(n).contains('\n'),
{
    reveal_strlit("function ");
    reveal_strlit("() {");
    let kw = "function "@;
    let cl = "() {"@;
    assert(kw =~= seq!['f', 'u', 'n', 'c', 't', 'i', 'o', 'n', ' ']);
    assert(cl =~= seq!['(', ')', ' ', '{']);
    let h = header_line(n);
    assert(h =~= kw + n + cl);
    assert(h[0] == 'f');
    assert(h.last() == '{');
    lemma_trim_noop(h);
    assert(is_prefix(kw, h)) by {
        assert(h.subrange(0, 9) =~= kw);
    }
    let rest0 = h.skip(9);
    assert(rest0 =~= n + cl);
    lemma_trim_ends(n);
    assert(rest0[0] == n[0]);
    assert(rest0.last() == '{');
    lemma_trim_noop(rest0);
    let rest = rest0;
    lemma_find_first(rest, '(');
    let p = find_first(rest, '(');
    assert(rest[n.len() as int] == '(');
    assert(forall|k: int| 0 <= k < n.len() ==> rest[k] == n[k]);
    assert forall|k: int| 0 <= k < n.len() implies rest[k] != '(' by {
        if rest[k] == '(' {
            assert(n[k] == '(');
            assert(n.contains('('));
        }
    }
    assert(p == n.len()) by {
        if p < n.len() {
            assert(rest[p] == '(');
        }
        if p > n.len() {
            assert(rest[n.len() as int] != '(');
        }
    }
    assert(rest.take(p) =~= n);
    assert(header_keyword_name(h) == Some(n));
    assert(header_name(h) == Some(n));
    assert(brace_delta(h) == 1) by {
        lemma_brace_delta_concat(kw + n, cl);
        lemma_brace_delta_concat(kw, n);
        assert(!kw.contains('{') && !kw.contains('}')) by {
            if kw.contains('{') {
                let w = choose|w: int| 0 <= w < 9 && kw[w] == '{';
                assert(kw[w] == '{');
            }
            if kw.contains('}') {
                let w = choose|w: int| 0 <= w < 9 && kw[w] == '}';
                assert(kw[w] == '}');
            }
        }
        lemma_brace_delta_free(kw);
        lemma_brace_delta_free(n);
        assert(brace_delta(cl) == 1) by {
            reveal_with_fuel(brace_delta, 6);
            assert(cl.drop_last() =~= seq!['(', ')', ' ']);
            assert(seq!['(', ')', ' '].drop_last() =~= seq!['(', ')']);
            assert(seq!['(', ')'].drop_last() =~= seq!['(']);
            assert(seq!['('].drop_last() =~= Seq::<char>::empty());
        }
    }
    assert(has_open(h)) by {
        assert(h[9 + n.len() as int + 3] == '{');
    }
    assert(!h.contains('\n')) by {
        if h.contains('\n') {
            let w = choose|w: int| 0 <= w < h.len() && h[w] == '\n';
            if w < 9 {
                assert(kw[w] == '\n');
            } else if w < 9 + n.len() {
                assert(n[w - 9] == '\n');
            } else {
                assert(cl[w - 9 - n.len()] == '\n');
            }
        }
    }
}

/// A serialized block splits into its header, its indented body lines
/// and its closing line.
pub proof fn lemma_block_lines(n: Seq<char>, b: Seq<char>)
    requires
        valid_function_name(n),
    ensures
        split_lines_spec(render_block(n, b)) == block_lines(n, b),
        forall|m: int|
            0 <= m < indented_lines(b).len() ==> !(#[trigger] indented_lines(b)[m]).contains(
                '\n',
            ) && brace_delta(indented_lines(b)[m]) == brace_delta(split_lines_spec(b)[m]),
{
    reveal_strlit("  ");
    reveal_strlit("}");
    assert("  "@ =~= seq![' ', ' ']);
    assert("}"@ =~= seq!['}']);
    lemma_header_line(n);
    let h = header_line(n);
    let ind = indented_lines(b);
    lemma_split_lines_no_nl(b);
    assert forall|m: int| 0 <= m < ind.len() implies !(#[trigger] ind[m]).contains('\n')
        && brace_delta(ind[m]) == brace_delta(split_lines_spec(b)[m]) by {
        let l = split_lines_spec(b)[m];
        assert(ind[m] == indent_line(l));
        if trim_spec(l).len() == 0 {
        } else {
            assert(ind[m] =~= seq![' ', ' '] + l);
            lemma_brace_delta_concat(seq![' ', ' '], l);
            assert(brace_delta(seq![' ', ' ']) == 0) by {
                reveal_with_fuel(brace_delta, 3);
                assert(seq![' ', ' '].drop_last() =~= seq![' ']);
                assert(seq![' '].drop_last() =~= Seq::<char>::empty());
            }
            if ind[m].contains('\n') {
                let w = choose|w: int| 0 <= w < ind[m].len() && ind[m][w] == '\n';
                if w >= 2 {
                    assert(l[w - 2] == '\n');
                    assert(l.contains('\n'));
                }
            }
        }
    }
    let tail_lines = ind + seq![seq!['}']];
    assert(render_block(n, b) =~= (h + seq!['\n']) + (lines_text(ind) + seq!['}'] + seq![
        '\n',
    ]));
    assert(lines_text(ind) + seq!['}'] + seq!['\n'] =~= lines_text(tail_lines)) by {
        lemma_lines_text_concat(ind, seq![seq!['}']]);
        reveal_with_fuel(lines_text, 2);
        assert(seq![seq!['}']].drop_first() =~= Seq::<Seq<char>>::empty());
        assert(lines_text(seq![seq!['}']]) =~= seq!['}'] + seq!['\n']);
    }
    assert((h + seq!['\n']).last() == '\n');
    lemma_split_lines_concat(h + seq!['\n'], lines_text(tail_lines));
    lemma_split_lines_single(h);
    assert forall|m: int| 0 <= m < tail_lines.len() implies !(
    #[trigger] tail_lines[m]).contains('\n') by {
        if m < ind.len() {
            assert(tail_lines[m] == ind[m]);
        } else {
            assert(tail_lines[m] =~= seq!['}']);
            if tail_lines[m].contains('\n') {
                let w = choose|w: int|
                    0 <= w < tail_lines[m].len() && tail_lines[m][w] == '\n';
                assert(seq!['}'][w] == '\n');
            }
        }
    }
    lemma_split_lines_text(tail_lines);
    assert(split_lines_spec(render_block(n, b)) =~= seq![h] + tail_lines);
    assert(seq![h] + tail_lines =~= block_lines(n, b));
}

/// Walking the scan over lines whose running count stays positive.
pub proof fn lemma_scan_body(ls: Seq<Seq<char>>, i: int, j: int, d: int)
    requires
        0 <= i <= j <= ls.len(),
        forall|k: int| i <= k < j ==> d + sum_delta(#[trigger] ls.subrange(i, k + 1)) > 0,
    ensures
        scan_end(ls, i, d, true) == scan_end(ls, j, d + sum_delta(ls.subrange(i, j)), true),
    decreases j - i,
{
    if i == j {
        assert(ls.subrange(i, i) =~= Seq::<Seq<char>>::empty());
    } else {
        let d2 = d + brace_delta(ls[i]);
        assert(ls.subrange(i, i + 1) =~= Seq::<Seq<char>>::empty().push(ls[i]));
        assert(sum_delta(ls.subrange(i, i + 1)) == brace_delta(ls[i])) by {
            reveal_with_fuel(sum_delta, 2);
            assert(Seq::<Seq<char>>::empty().push(ls[i]).drop_first() =~= Seq::<Seq<
                char,
            >>::empty());
            assert(Seq::<Seq<char>>::empty().push(ls[i])[0] == ls[i]);
        }
        assert(d2 > 0);
        assert(scan_end(ls, i, d, true) == scan_end(ls, i + 1, d2, true));
        assert forall|k: int| i + 1 <= k < j implies d2 + sum_delta(
            #[trigger] ls.subrange(i + 1, k + 1),
        ) > 0 by {
            assert(ls.subrange(i, k + 1) =~= ls.subrange(i, i + 1) + ls.subrange(i + 1, k
                + 1));
            lemma_sum_delta_concat(ls.subrange(i, i + 1), ls.subrange(i + 1, k + 1));
        }
        lemma_scan_body(ls, i + 1, j, d2);
        assert(ls.subrange(i, j) =~= ls.subrange(i, i + 1) + ls.subrange(i + 1, j));
        lemma_sum_delta_concat(ls.subrange(i, i + 1), ls.subrange(i + 1, j));
    }
}

pub proof fn lemma_sum_delta_pointwise(a: Seq<Seq<char>>, b: Seq<Seq<char>>)
    requires
        a.len() == b.len(),
        forall|m: int| 0 <= m < a.len() ==> brace_delta(#[trigger] a[m]) == brace_delta(b[m]),
    ensures
        sum_delta(a) == sum_delta(b),
    decreases a.len(),
{
    if a.len() > 0 {
        assert(forall|m: int|
            0 <= m < a.drop_first().len() ==> #[trigger] a.drop_first()[m] == a[m + 1]
                && b.drop_first()[m] == b[m + 1]);
        lemma_sum_delta_pointwise(a.drop_first(), b.drop_first());
    }
}

/// The block opened by a serialized header closes exactly at its own
/// closing line, whatever follows.
pub proof fn lemma_scan_block(n: Seq<char>, b: Seq<char>, tail: Seq<Seq<char>>)
    requires
        valid_function_name(n),
        balanced_body(b),
    ensures
        scan_end(block_lines(n, b) + tail, 0, 0, false) == Some(
            indented_lines(b).len() + 1 as int,
        ),
    decreases 0int,
{
    lemma_header_line(n);
    lemma_block_lines(n, b);
    let ind = indented_lines(b);
    let bls = split_lines_spec(b);
    let ls = block_lines(n, b) + tail;
    let close = ind.len() + 1 as int;
    assert(ls[0] == header_line(n));
    assert(scan_end(ls, 0, 0, false) == scan_end(ls, 1, 1, true));
    assert(forall|m: int| 0 <= m < ind.len() ==> #[trigger] ls[1 + m] == ind[m]);
    assert(ls[close] =~= seq!['}']);
    assert forall|k: int| 1 <= k < close implies 1 + sum_delta(#[trigger] ls.subrange(1, k + 1))
        > 0 by {
        assert(ls.subrange(1, k + 1) =~= ind.take(k));
        assert(bls.take(k).len() == k);
        assert(forall|m: int|
            0 <= m < k ==> brace_delta(#[trigger] ind.take(k)[m]) == brace_delta(
                bls.take(k)[m],
            ));
        lemma_sum_delta_pointwise(ind.take(k), bls.take(k));
        assert(sum_delta(bls.take(k)) >= 0);
    }
    lemma_scan_body(ls, 1, close, 1);
    assert(ls.subrange(1, close) =~= ind);
    assert(sum_delta(ind) == sum_delta(bls)) by {
        lemma_sum_delta_pointwise(ind, bls);
    }
    assert(bls.take(bls.len() as int) =~= bls);
    assert(sum_delta(bls) == 0);
    assert(scan_end(ls, 1, 1, true) == scan_end(ls, close, 1, true));
    assert(brace_delta(ls[close]) == -1) by {
        reveal_with_fuel(brace_delta, 2);
        assert(seq!['}'].drop_last() =~= Seq::<char>::empty());
    }
    assert(scan_end(ls, close, 1, true) == Some(close)) by {
        assert(close < ls.len());
    }
}

/// The body the scan extracts from a serialized block is the rejoined,
/// trimmed indented body.
pub proof fn lemma_block_body(n: Seq<char>, b: Seq<char>, tail: Seq<Seq<char>>)
    requires
        valid_function_name(n),
    ensures
        block_body(block_lines(n, b) + tail, 0, indented_lines(b).len() + 1 as int)
            == normalized_body(b),
{
    let ind = indented_lines(b);
    let ls = block_lines(n, b) + tail;
    let close = ind.len() + 1 as int;
    assert(ls.subrange(1, close + 1) =~= ind + seq![seq!['}']]);
    lemma_join_nl_snoc(ind, seq!['}']);
    let raw = join_nl(ind + seq![seq!['}']]);
    if ind.len() == 0 {
        assert(raw =~= seq!['}']);
        assert(raw.last() == '}');
        assert(find_last(raw, '}') == 1);
        assert(raw.take(0) =~= Seq::<char>::empty());
        assert(trim_spec(Seq::<char>::empty()) == Seq::<char>::empty());
        assert(join_nl(ind) =~= Seq::<char>::empty());
        assert(block_body(ls, 0, close) == normalized_body(b));
    } else {
        assert(raw =~= join_nl(ind) + seq!['\n'] + seq!['}']);
        assert(raw.last() == '}');
        assert(find_last(raw, '}') == raw.len() as int);
        assert(raw.take(raw.len() - 1) =~= join_nl(ind).push('\n'));
        crate::text::lemma_trim_snoc_ws(join_nl(ind), '\n');
        assert(block_body(ls, 0, close) == normalized_body(b));
    }
}

pub proof fn lemma_scan_shift(a: Seq<Seq<char>>, b: Seq<Seq<char>>, i: int, d: int, st: bool)
    requires
        0 <= i,
    ensures
        scan_end(a + b, a.len() + i, d, st) == match scan_end(b, i, d, st) {
            Some(j) => Some(a.len() + j),
            None => None,
        },
    decreases b.len() - i,
{
    let ls = a + b;
    if i >= b.len() {
        assert(a.len() + i >= ls.len());
    } else {
        assert(ls[a.len() + i] == b[i]);
        lemma_scan_shift(a, b, i + 1, d + brace_delta(b[i]), st || has_open(b[i]));
    }
}

pub proof fn lemma_parse_shift(a: Seq<Seq<char>>, b: Seq<Seq<char>>, i: int)
    requires
        0 <= i,
    ensures
        parse_functions_spec(a + b, a.len() + i) == parse_functions_spec(b, i),
    decreases b.len() - i,
{
    let ls = a + b;
    if i >= b.len() {
        assert(a.len() + i >= ls.len());
    } else {
        assert(ls[a.len() + i] == b[i]);
        match header_name(b[i]) {
            Some(nm) => {
                lemma_scan_shift(a, b, i, 0, false);
                match scan_end(b, i, 0, false) {
                    Some(j) => {
                        lemma_scan_end_range(b, i, 0, false);
                        assert(i <= j < b.len());
                        assert(scan_end(ls, a.len() + i, 0, false) == Some(a.len() + j));
                        assert(ls.subrange(a.len() + i + 1, a.len() + j + 1) =~= b.subrange(
                            i + 1,
                            j + 1,
                        ));
                        assert(block_body(ls, a.len() + i, a.len() + j) == block_body(
                            b,
                            i,
                            j,
                        ));
                        lemma_parse_shift(a, b, j + 1);
                        assert(parse_functions_spec(ls, a.len() + i) == parse_functions_spec(
                            b,
                            i,
                        ));
                    },
                    None => {
                        lemma_parse_shift(a, b, i + 1);
                    },
                }
            },
            None => {
                lemma_parse_shift(a, b, i + 1);
            },
        }
    }
}

/// One serialized block followed by anything parses to its one record,
/// with the rest parsed independently.
pub proof fn lemma_parse_block(n: Seq<char>, b: Seq<char>, tail: Seq<Seq<char>>)
    requires
        valid_function_name(n),
        balanced_body(b),
    ensures
        parse_functions_spec(block_lines(n, b) + tail, 0) == seq![(n, normalized_body(b))]
            + parse_functions_spec(tail, 0),
{
    lemma_header_line(n);
    let ls = block_lines(n, b) + tail;
    let close = indented_lines(b).len() + 1 as int;
    assert(ls[0] == header_line(n));
    lemma_scan_block(n, b, tail);
    lemma_block_body(n, b, tail);
    assert(block_lines(n, b).len() == close + 1);
    lemma_parse_shift(block_lines(n, b), tail, 0);
    assert(parse_functions_spec(ls, close + 1) == parse_functions_spec(tail, 0));
}

/// Serializing any record set and parsing it back yields the same
/// names in the same order, each body normalized: indented lines
/// rejoined and trimmed. Serialization loses nothing but indentation
/// and surrounding whitespace.
pub proof fn lemma_function_round_trip(fs: Seq<(Seq<char>, Seq<char>)>)
    requires
        forall|i: int|
            0 <= i < fs.len() ==> valid_function_name((#[trigger] fs[i]).0) && balanced_body(
                fs[i].1,
            ),
    ensures
        parse_functions_spec(split_lines_spec(render_functions_spec(fs)), 0)
            == fs.map_values(|f: (Seq<char>, Seq<char>)| (f.0, normalized_body(f.1))),
    decreases fs.len(),
{
    let mapped = fs.map_values(|f: (Seq<char>, Seq<char>)| (f.0, normalized_body(f.1)));
    if fs.len() == 0 {
        assert(split_lines_spec(render_functions_spec(fs)) =~= Seq::<Seq<char>>::empty());
        assert(mapped =~= Seq::<(Seq<char>, Seq<char>)>::empty());
    } else if fs.len() == 1 {
        let n = fs[0].0;
        let b = fs[0].1;
        lemma_block_lines(n, b);
        assert(render_functions_spec(fs) == render_block(n, b));
        assert(split_lines_spec(render_block(n, b)) =~= block_lines(n, b) + Seq::<Seq<
            char,
        >>::empty());
        lemma_parse_block(n, b, Seq::<Seq<char>>::empty());
        assert(parse_functions_spec(Seq::<Seq<char>>::empty(), 0) =~= Seq::<(
            Seq<char>,
            Seq<char>,
        )>::empty());
        assert(parse_functions_spec(split_lines_spec(render_functions_spec(fs)), 0)
            =~= mapped);
    } else {
        let n = fs[0].0;
        let b = fs[0].1;
        let rest = fs.drop_first();
        assert(forall|i: int|
            0 <= i < rest.len() ==> #[trigger] rest[i] == fs[i + 1] && valid_function_name(
                rest[i].0,
            ) && balanced_body(rest[i].1));
        lemma_function_round_trip(rest);
        lemma_block_lines(n, b);
        let blk = render_block(n, b);
        let rrest = render_functions_spec(rest);
        assert(render_functions_spec(fs) == blk + seq!['\n'] + rrest);
        assert(blk.len() > 0 && blk.last() == '\n') by {
            assert(blk =~= "function "@ + n + "() {"@ + seq!['\n'] + lines_text(
                indented_lines(b),
            ) + "}"@ + seq!['\n']);
        }
        assert(render_functions_spec(fs) =~= blk + (seq!['\n'] + rrest));
        lemma_split_lines_concat(blk, seq!['\n'] + rrest);
        let nlrest = seq!['\n'] + rrest;
        assert(split_lines_spec(nlrest) =~= seq![Seq::<char>::empty()] + split_lines_spec(
            rrest,
        )) by {
            assert(nlrest[0] == '\n');
            lemma_find_first(nlrest, '\n');
            assert(find_first(nlrest, '\n') == 0);
            assert(nlrest.take(0) =~= Seq::<char>::empty());
            assert(nlrest.skip(1) =~= rrest);
        }
        let tail = seq![Seq::<char>::empty()] + split_lines_spec(rrest);
        assert(split_lines_spec(render_functions_spec(fs)) =~= block_lines(n, b) + tail);
        lemma_parse_block(n, b, tail);
        assert(header_name(tail[0]) is None) by {
            crate::text::lemma_trim_noop(Seq::<char>::empty());
        }
        assert(parse_functions_spec(tail, 0) == parse_functions_spec(tail, 1));
        lemma_parse_shift(seq![Seq::<char>::empty()], split_lines_spec(rrest), 0);
        assert(seq![Seq::<char>::empty()] + split_lines_spec(rrest) =~= tail);
        assert(parse_functions_spec(tail, 1) == parse_functions_spec(
            split_lines_spec(rrest),
            0,
        ));
        assert(parse_functions_spec(split_lines_spec(render_functions_spec(fs)), 0) =~= seq![
            (n, normalized_body(b)),
        ] + rest.map_values(|f: (Seq<char>, Seq<char>)| (f.0, normalized_body(f.1))));
        assert(seq![(n, normalized_body(b))] + rest.map_values(
            |f: (Seq<char>, Seq<char>)| (f.0, normalized_body(f.1)),
        ) =~= mapped);
    }
}

} // verus!
