//! Alias records: one `alias NAME="VALUE"` line per record. Lines that do
//! not have this shape are never errors; they simply yield no record and
//! are preserved verbatim by the line-oriented rewrites.

use vstd::prelude::*;
use crate::errors::EditError;
use crate::text::is_prefix;
use crate::text::trim_spec;
use crate::text::trim_str;
use crate::text::find_first;
use crate::text::find_char;
use crate::text::starts_with_str;
use crate::text::split_lines;
use crate::text::split_lines_spec;
use crate::text::lemma_find_first;
use crate::text::lemma_trim_ends;
use crate::text::lemma_trim_noop;
use crate::text::lemma_trim_idempotent;
use crate::text::lemma_nl_lit;

verus! {

/// A named shell alias. `shared` selects which of the two alias files the
/// record belongs to; it is never stored in the file itself.
#[derive(Debug, Clone)]
pub struct Alias {
    pub name: String,
    pub command: String,
    pub shared: bool,
}

/// The quoted-value lexer: surrounding whitespace is trimmed, then at
/// most one matching pair of double or single quotes is removed.
/// Asymmetric or absent quoting leaves the value as it stands.
pub open spec fn strip_quotes_spec(v: Seq<char>) -> Seq<char> {
    let w = trim_spec(v);
    if w.len() >= 2 && w[0] == w.last() && (w[0] == '"' || w[0] == '\'') {
        w.subrange(1, w.len() - 1)
    } else {
        w
    }
}

/// What one line yields: the name left of the first `=` (trimmed) and the
/// value right of it (quote-stripped), or nothing for comments, blank
/// lines and lines that do not start with the alias keyword or lack `=`.
pub open spec fn parse_alias_spec(line: Seq<char>) -> Option<(Seq<char>, Seq<char>)> {
    let t = trim_spec(line);
    if t.len() == 0 || t[0] == '#' {
        None
    } else if is_prefix("alias "@, t) {
        let content = trim_spec(t.skip("alias "@.len() as int));
        let e = find_first(content, '=');
        if e < content.len() {
            Some((trim_spec(content.take(e)), strip_quotes_spec(content.skip(e + 1))))
        } else {
            None
        }
    } else {
        None
    }
}

/// The canonical serialized form: double quotes regardless of how the
/// value was quoted when it was read.
pub open spec fn render_alias_spec(n: Seq<char>, v: Seq<char>) -> Seq<char> {
    "alias "@ + n + "=\""@ + v + "\""@
}

/// Whether `line` parses to an alias record named `name`.
pub open spec fn line_is_alias(line: Seq<char>, name: Seq<char>) -> bool {
    match parse_alias_spec(line) {
        Some(p) => p.0 == name,
        None => false,
    }
}

/// The records of a line sequence, in file order.
pub open spec fn aliases_of_lines(ls: Seq<Seq<char>>) -> Seq<(Seq<char>, Seq<char>)>
    decreases ls.len(),
{
    if ls.len() == 0 {
        Seq::empty()
    } else {
        match parse_alias_spec(ls[0]) {
            Some(p) => seq![p] + aliases_of_lines(ls.drop_first()),
            None => aliases_of_lines(ls.drop_first()),
        }
    }
}

/// The records of a whole file.
pub open spec fn aliases_spec(content: Seq<char>) -> Seq<(Seq<char>, Seq<char>)> {
    aliases_of_lines(split_lines_spec(content))
}

/// Whether some line of `ls` parses to an alias named `name`.
pub open spec fn lines_have_alias(ls: Seq<Seq<char>>, name: Seq<char>) -> bool {
    exists|i: int| 0 <= i < ls.len() && line_is_alias(#[trigger] ls[i], name)
}

/// Whether the file holds an alias named `name`.
pub open spec fn has_alias(content: Seq<char>, name: Seq<char>) -> bool {
    lines_have_alias(split_lines_spec(content), name)
}

pub proof fn lemma_aliases_of_lines_concat(a: Seq<Seq<char>>, b: Seq<Seq<char>>)
    ensures
        aliases_of_lines(a + b) == aliases_of_lines(a) + aliases_of_lines(b),
    decreases a.len(),
{
    if a.len() == 0 {
        assert(a + b =~= b);
        assert(aliases_of_lines(a) + aliases_of_lines(b) =~= aliases_of_lines(b));
    } else {
        assert((a + b).drop_first() =~= a.drop_first() + b);
        lemma_aliases_of_lines_concat(a.drop_first(), b);
        assert(aliases_of_lines(a + b) =~= aliases_of_lines(a) + aliases_of_lines(b));
    }
}

/// A name is among the listed records exactly when some line parses to it.
pub proof fn lemma_has_alias_in_records(ls: Seq<Seq<char>>, name: Seq<char>)
    ensures
        lines_have_alias(ls, name) <==> exists|j: int|
            0 <= j < aliases_of_lines(ls).len() && (#[trigger] aliases_of_lines(ls)[j]).0 == name,
    decreases ls.len(),
{
    if ls.len() > 0 {
        lemma_has_alias_in_records(ls.drop_first(), name);
        let rest = ls.drop_first();
        assert(forall|i: int| 0 < i < ls.len() ==> ls[i] == #[trigger] rest[i - 1]);
        if lines_have_alias(ls, name) {
            let i = choose|i: int| 0 <= i < ls.len() && line_is_alias(#[trigger] ls[i], name);
            if i == 0 {
                let p = parse_alias_spec(ls[0])->Some_0;
                assert(aliases_of_lines(ls)[0].0 == name);
            } else {
                assert(line_is_alias(rest[i - 1], name));
                let j = choose|j: int|
                    0 <= j < aliases_of_lines(rest).len() && (#[trigger] aliases_of_lines(
                        rest,
                    )[j]).0 == name;
                match parse_alias_spec(ls[0]) {
                    Some(p) => {
                        assert(aliases_of_lines(ls)[j + 1].0 == name);
                    },
                    None => {
                        assert(aliases_of_lines(ls)[j].0 == name);
                    },
                }
            }
        }
        if exists|j: int|
            0 <= j < aliases_of_lines(ls).len() && (#[trigger] aliases_of_lines(ls)[j]).0
                == name {
            let j = choose|j: int|
                0 <= j < aliases_of_lines(ls).len() && (#[trigger] aliases_of_lines(ls)[j]).0
                    == name;
            match parse_alias_spec(ls[0]) {
                Some(p) => {
                    if j == 0 {
                        assert(line_is_alias(ls[0], name));
                    } else {
                        assert(aliases_of_lines(rest)[j - 1].0 == name);
                        let i = choose|i: int|
                            0 <= i < rest.len() && line_is_alias(#[trigger] rest[i], name);
                        assert(line_is_alias(ls[i + 1], name));
                    }
                },
                None => {
                    assert(aliases_of_lines(rest)[j].0 == name);
                    let i = choose|i: int|
                        0 <= i < rest.len() && line_is_alias(#[trigger] rest[i], name);
                    assert(line_is_alias(ls[i + 1], name));
                },
            }
        }
    }
}

/// Strips surrounding whitespace and at most one matching pair of quotes.
pub fn strip_quotes(v: &str) -> (r: String)
    ensures
        r@ == strip_quotes_spec(v@),
{
    let w = trim_str(v);
    let n = w.unicode_len();
    if n >= 2 {
        let f = w.get_char(0);
        let l = w.get_char(n - 1);
        if f == l && (f == '"' || f == '\'') {
            return w.substring_char(1, n - 1).to_owned();
        }
    }
    w.to_owned()
}

/// Parses one line; comments, blank lines and lines without the alias
/// shape yield no record. Never fails on malformed input.
pub fn parse_alias_line(line: &str) -> (r: Option<Alias>)
    ensures
        match r {
            Some(a) => parse_alias_spec(line@) == Some((a.name@, a.command@)) && a.shared
                == false,
            None => parse_alias_spec(line@) is None,
        },
{
    let t = trim_str(line);
    let tn = t.unicode_len();
    if tn == 0 {
        return None;
    }
    if t.get_char(0) == '#' {
        return None;
    }
    if !starts_with_str(t, "alias ") {
        return None;
    }
    proof {
        reveal_strlit("alias ");
    }
    let content_raw = t.substring_char(6, tn);
    proof {
        assert(content_raw@ =~= t@.skip("alias "@.len() as int));
    }
    let content = trim_str(content_raw);
    let cn = content.unicode_len();
    let e = find_char(content, '=');
    proof {
        lemma_find_first(content@, '=');
    }
    if e == cn {
        return None;
    }
    let name_raw = content.substring_char(0, e);
    let name = trim_str(name_raw);
    let value_raw = content.substring_char(e + 1, cn);
    let value = strip_quotes(value_raw);
    proof {
        assert(name_raw@ =~= content@.take(e as int));
        assert(value_raw@ =~= content@.skip(e as int + 1));
    }
    Some(Alias { name: name.to_owned(), command: value, shared: false })
}

/// The records of a whole file, in file order, with the scope stamped on.
pub fn list_aliases_in(content: &str, shared: bool) -> (r: Vec<Alias>)
    ensures
        r@.map_values(|a: Alias| (a.name@, a.command@)) == aliases_spec(content@),
        forall|i: int| 0 <= i < r.len() ==> (#[trigger] r@[i]).shared == shared,
{
    let lines = split_lines(content);
    let ghost dv = lines.deep_view();
    let mut r: Vec<Alias> = Vec::new();
    let mut i: usize = 0;
    proof {
        assert(dv.take(0) =~= Seq::<Seq<char>>::empty());
        assert(r@.map_values(|a: Alias| (a.name@, a.command@)) =~= aliases_of_lines(dv.take(0)));
    }
    while i < lines.len()
        invariant
            0 <= i <= lines.len(),
            dv == lines.deep_view(),
            dv.len() == lines.len(),
            r@.map_values(|a: Alias| (a.name@, a.command@)) == aliases_of_lines(
                dv.take(i as int),
            ),
            forall|k: int| 0 <= k < r.len() ==> (#[trigger] r@[k]).shared == shared,
        decreases lines.len() - i,
    {
        let ghost prev = r@;
        match parse_alias_line(lines[i].as_str()) {
            Some(a) => {
                r.push(Alias { name: a.name, command: a.command, shared });
            },
            None => {},
        }
        proof {
            reveal_with_fuel(aliases_of_lines, 2);
            assert(dv.take(i + 1) =~= dv.take(i as int) + seq![dv[i as int]]);
            lemma_aliases_of_lines_concat(dv.take(i as int), seq![dv[i as int]]);
            assert(seq![dv[i as int]].drop_first() =~= Seq::<Seq<char>>::empty());
            assert(r@.map_values(|a: Alias| (a.name@, a.command@)) =~= aliases_of_lines(
                dv.take(i + 1),
            ));
        }
        i = i + 1;
    }
    proof {
        assert(dv.take(lines.len() as int) =~= dv);
    }
    r
}

/// Whether the file holds an alias named `name`.
pub fn alias_exists(content: &str, name: &str) -> (r: bool)
    ensures
        r == has_alias(content@, name@),
{
    let lines = split_lines(content);
    let ghost dv = lines.deep_view();
    let mut i: usize = 0;
    while i < lines.len()
        invariant
            0 <= i <= lines.len(),
            dv == lines.deep_view(),
            dv == split_lines_spec(content@),
            dv.len() == lines.len(),
            forall|k: int| 0 <= k < i ==> !line_is_alias(#[trigger] dv[k], name@),
        decreases lines.len() - i,
    {
        match parse_alias_line(lines[i].as_str()) {
            Some(a) => {
                if crate::text::str_eq(a.name.as_str(), name) {
                    proof {
                        assert(line_is_alias(dv[i as int], name@));
                        assert(lines_have_alias(dv, name@));
                        assert(has_alias(content@, name@));
                    }
                    return true;
                }
            },
            None => {},
        }
        i = i + 1;
    }
    proof {
        if lines_have_alias(dv, name@) {
            let k = choose|k: int| 0 <= k < dv.len() && line_is_alias(#[trigger] dv[k], name@);
            assert(!line_is_alias(dv[k], name@));
        }
    }
    false
}

/// The file text after appending one canonical alias line: a newline is
/// first supplied if the file does not end with one, and the new line is
/// newline-terminated.
pub open spec fn appended_alias_file(content: Seq<char>, n: Seq<char>, v: Seq<char>) -> Seq<
    char,
> {
    let base = if content.len() > 0 && content.last() != '\n' {
        content + seq!['\n']
    } else {
        content
    };
    base + render_alias_spec(n, v) + seq!['\n']
}

/// Appends a new alias; refused when the name is already taken, in which
/// case the file content is to be left untouched.
pub fn add_alias_text(content: &str, name: &str, command: &str) -> (r: Result<
    String,
    EditError,
>)
    ensures
        r is Err <==> has_alias(content@, name@),
        r is Err ==> r == Err::<String, EditError>(EditError::AlreadyExists),
        r is Ok ==> r->Ok_0@ == appended_alias_file(content@, name@, command@),
{
    if alias_exists(content, name) {
        return Err(EditError::AlreadyExists);
    }
    let mut out = content.to_owned();
    let n = content.unicode_len();
    if n > 0 && content.get_char(n - 1) != '\n' {
        out.append("\n");
    }
    let line = render_alias_line(name, command);
    out.append(line.as_str());
    out.append("\n");
    proof {
        lemma_nl_lit();
        assert(out@ =~= appended_alias_file(content@, name@, command@));
    }
    Ok(out)
}

/// Every line that parses to an alias named `old` replaced by the
/// canonical line for the new name and value; all other lines verbatim.
pub open spec fn update_alias_lines(
    ls: Seq<Seq<char>>,
    old: Seq<char>,
    n: Seq<char>,
    v: Seq<char>,
) -> Seq<Seq<char>> {
    ls.map_values(
        |l: Seq<char>|
            if line_is_alias(l, old) {
                render_alias_spec(n, v)
            } else {
                l
            },
    )
}

/// Rewrites the alias named `old_name` to the given name and value,
/// preserving every other line of the file verbatim.
pub fn update_alias_text(content: &str, old_name: &str, new_name: &str, command: &str) -> (r:
    Result<String, EditError>)
    ensures
        r is Err <==> !has_alias(content@, old_name@),
        r is Err ==> r == Err::<String, EditError>(EditError::NotFound),
        r is Ok ==> r->Ok_0@ == crate::text::render_lines_file(
            update_alias_lines(split_lines_spec(content@), old_name@, new_name@, command@),
        ),
{
    let lines = split_lines(content);
    let ghost dv = lines.deep_view();
    let ghost mapped = update_alias_lines(dv, old_name@, new_name@, command@);
    let mut out: Vec<String> = Vec::new();
    let mut found = false;
    let mut i: usize = 0;
    proof {
        assert(out.deep_view() =~= mapped.take(0));
    }
    while i < lines.len()
        invariant
            0 <= i <= lines.len(),
            dv == lines.deep_view(),
            dv.len() == lines.len(),
            mapped == update_alias_lines(dv, old_name@, new_name@, command@),
            out.deep_view() == mapped.take(i as int),
            found <==> exists|k: int| 0 <= k < i && line_is_alias(#[trigger] dv[k], old_name@),
        decreases lines.len() - i,
    {
        let ghost prev = out.deep_view();
        let mut replaced = false;
        match parse_alias_line(lines[i].as_str()) {
            Some(a) => {
                if crate::text::str_eq(a.name.as_str(), old_name) {
                    out.push(render_alias_line(new_name, command));
                    found = true;
                    replaced = true;
                }
            },
            None => {},
        }
        if !replaced {
            assert(!line_is_alias(dv[i as int], old_name@));
            out.push(lines[i].clone());
        }
        proof {
            assert(out.deep_view() =~= prev + seq![mapped[i as int]]);
            assert(out.deep_view() =~= mapped.take(i + 1));
        }
        i = i + 1;
    }
    if !found {
        return Err(EditError::NotFound);
    }
    proof {
        assert(mapped.take(lines.len() as int) =~= mapped);
    }
    Ok(crate::text::render_lines(&out))
}

/// The lines left after dropping every line that parses to an alias
/// named `name`.
pub open spec fn delete_alias_lines(ls: Seq<Seq<char>>, name: Seq<char>) -> Seq<Seq<char>>
    decreases ls.len(),
{
    if ls.len() == 0 {
        Seq::empty()
    } else if line_is_alias(ls[0], name) {
        delete_alias_lines(ls.drop_first(), name)
    } else {
        seq![ls[0]] + delete_alias_lines(ls.drop_first(), name)
    }
}

pub proof fn lemma_delete_alias_lines_concat(
    a: Seq<Seq<char>>,
    b: Seq<Seq<char>>,
    name: Seq<char>,
)
    ensures
        delete_alias_lines(a + b, name) == delete_alias_lines(a, name) + delete_alias_lines(
            b,
            name,
        ),
    decreases a.len(),
{
    if a.len() == 0 {
        assert(a + b =~= b);
        assert(delete_alias_lines(a, name) + delete_alias_lines(b, name) =~= delete_alias_lines(
            b,
            name,
        ));
    } else {
        assert((a + b).drop_first() =~= a.drop_first() + b);
        lemma_delete_alias_lines_concat(a.drop_first(), b, name);
        assert(delete_alias_lines(a + b, name) =~= delete_alias_lines(a, name)
            + delete_alias_lines(b, name));
    }
}

/// Removes every line that parses to an alias named `name`, preserving
/// all other lines verbatim.
pub fn delete_alias_text(content: &str, name: &str) -> (r: Result<String, EditError>)
    ensures
        r is Err <==> !has_alias(content@, name@),
        r is Err ==> r == Err::<String, EditError>(EditError::NotFound),
        r is Ok ==> r->Ok_0@ == crate::text::render_lines_file(
            delete_alias_lines(split_lines_spec(content@), name@),
        ),
{
    let lines = split_lines(content);
    let ghost dv = lines.deep_view();
    let mut out: Vec<String> = Vec::new();
    let mut found = false;
    let mut i: usize = 0;
    proof {
        assert(out.deep_view() =~= delete_alias_lines(dv.take(0), name@));
        assert(dv.take(0) =~= Seq::<Seq<char>>::empty());
    }
    while i < lines.len()
        invariant
            0 <= i <= lines.len(),
            dv == lines.deep_view(),
            dv.len() == lines.len(),
            out.deep_view() == delete_alias_lines(dv.take(i as int), name@),
            found <==> exists|k: int| 0 <= k < i && line_is_alias(#[trigger] dv[k], name@),
        decreases lines.len() - i,
    {
        let ghost prev = out.deep_view();
        let mut removed = false;
        match parse_alias_line(lines[i].as_str()) {
            Some(a) => {
                if crate::text::str_eq(a.name.as_str(), name) {
                    assert(line_is_alias(dv[i as int], name@));
                    found = true;
                    removed = true;
                }
            },
            None => {},
        }
        if !removed {
            assert(!line_is_alias(dv[i as int], name@));
            out.push(lines[i].clone());
        }
        proof {
            reveal_with_fuel(delete_alias_lines, 2);
            assert(dv.take(i + 1) =~= dv.take(i as int) + seq![dv[i as int]]);
            lemma_delete_alias_lines_concat(dv.take(i as int), seq![dv[i as int]], name@);
            assert(seq![dv[i as int]].drop_first() =~= Seq::<Seq<char>>::empty());
            if removed {
                assert(delete_alias_lines(seq![dv[i as int]], name@) =~= Seq::<Seq<
                    char,
                >>::empty());
                assert(out.deep_view() =~= delete_alias_lines(dv.take(i + 1), name@));
            } else {
                assert(delete_alias_lines(seq![dv[i as int]], name@) =~= seq![dv[i as int]]);
                assert(out.deep_view() =~= delete_alias_lines(dv.take(i + 1), name@));
            }
        }
        i = i + 1;
    }
    if !found {
        return Err(EditError::NotFound);
    }
    proof {
        assert(dv.take(lines.len() as int) =~= dv);
    }
    Ok(crate::text::render_lines(&out))
}

/// Serializing any parsed record and parsing it back yields the same
/// name and value: the canonical double-quoted form is a fixed point of
/// the parser. Quote style is the one thing serialization normalizes.
pub proof fn lemma_alias_round_trip(line: Seq<char>)
    requires
        parse_alias_spec(line) is Some,
    ensures
        parse_alias_spec(
            render_alias_spec(
                parse_alias_spec(line)->Some_0.0,
                parse_alias_spec(line)->Some_0.1,
            ),
        ) == parse_alias_spec(line),
{
    let t = trim_spec(line);
    let content = trim_spec(t.skip("alias "@.len() as int));
    let e = find_first(content, '=');
    let n = trim_spec(content.take(e));
    let v = strip_quotes_spec(content.skip(e + 1));
    lemma_find_first(content, '=');
    lemma_trim_idempotent(content.take(e));
    assert(!content.take(e).contains('=')) by {
        if content.take(e).contains('=') {
            let w = choose|w: int| 0 <= w < e && content.take(e)[w] == '=';
            assert(content[w] == '=');
        }
    }
    crate::text::lemma_trim_no_char(content.take(e), '=');
    lemma_alias_render_parses(n, v);
}

/// Rendering a trimmed, `=`-free name with any value gives a line that
/// parses back to exactly that pair.
pub proof fn lemma_alias_render_parses(n: Seq<char>, v: Seq<char>)
    requires
        trim_spec(n) == n,
        !n.contains('='),
    ensures
        parse_alias_spec(render_alias_spec(n, v)) == Some((n, v)),
{
    reveal_strlit("alias ");
    reveal_strlit("=\"");
    reveal_strlit("\"");
    let kw = "alias "@;
    let eq = "=\""@;
    let q = "\""@;
    assert(kw =~= seq!['a', 'l', 'i', 'a', 's', ' ']);
    assert(eq =~= seq!['=', '"']);
    assert(q =~= seq!['"']);
    let s = render_alias_spec(n, v);
    assert(s =~= kw + n + eq + v + q);
    assert(s[0] == 'a');
    assert(s.last() == '"');
    lemma_trim_noop(s);
    let t = s;
    assert(is_prefix(kw, t)) by {
        assert(t.subrange(0, 6) =~= kw);
    }
    let content0 = t.skip(6);
    assert(content0 =~= n + eq + v + q);
    if n.len() > 0 {
        lemma_trim_ends(n);
        assert(content0[0] == n[0]);
        assert(!crate::text::is_space_char(content0[0]));
    } else {
        assert(content0[0] == '=');
    }
    assert(content0.last() == '"');
    lemma_trim_noop(content0);
    let content = content0;
    let e = find_first(content, '=');
    lemma_find_first(content, '=');
    assert(content[n.len() as int] == '=');
    assert(forall|k: int| 0 <= k < n.len() ==> content[k] == n[k]);
    assert(forall|k: int| 0 <= k < n.len() ==> content[k] != '=') by {
        assert forall|k: int| 0 <= k < n.len() implies content[k] != '=' by {
            if content[k] == '=' {
                assert(n[k] == '=');
                assert(n.contains('='));
            }
        }
    }
    assert(e == n.len()) by {
        if e < n.len() {
            assert(content[e] == '=');
        }
        if e > n.len() {
            assert(content[n.len() as int] != '=');
        }
    }
    assert(content.take(e) =~= n);
    assert(trim_spec(content.take(e)) == n);
    let w0 = content.skip(e + 1);
    assert(w0 =~= q + v + q);
    assert(w0[0] == '"');
    assert(w0.last() == '"');
    lemma_trim_noop(w0);
    assert(w0.len() >= 2);
    assert(w0.subrange(1, w0.len() - 1) =~= v);
    assert(strip_quotes_spec(w0) == v);
    assert(parse_alias_spec(s) == Some((n, v)));
}

/// Serializes a record to its canonical line, double-quoted.
pub fn render_alias_line(name: &str, command: &str) -> (r: String)
    ensures
        r@ == render_alias_spec(name@, command@),
{
    let mut s = String::new();
    s.append("alias ");
    s.append(name);
    s.append("=\"");
    s.append(command);
    s.append("\"");
    proof {
        assert(s@ =~= render_alias_spec(name@, command@));
    }
    s
}

} // verus!
