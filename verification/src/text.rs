//! Character-sequence helpers shared by the parsers: whitespace trimming,
//! character search and line splitting, each with a spec-level model.

use vstd::prelude::*;

verus! {

/// The whitespace characters this library recognizes when trimming and
/// when splitting token lists: the Unicode White_Space set.
pub open spec fn is_space_char(c: char) -> bool {
    let u = c as u32;
    u == 0x20 || (0x09 <= u && u <= 0x0D) || u == 0x85 || u == 0xA0 || u == 0x1680 || (0x2000
        <= u && u <= 0x200A) || u == 0x2028 || u == 0x2029 || u == 0x202F || u == 0x205F || u
        == 0x3000
}

/// Longest suffix of `s` whose first character is not whitespace.
pub open spec fn trim_start_spec(s: Seq<char>) -> Seq<char>
    decreases s.len(),
{
    if s.len() > 0 && is_space_char(s[0]) {
        trim_start_spec(s.drop_first())
    } else {
        s
    }
}

/// Longest prefix of `s` whose last character is not whitespace.
pub open spec fn trim_end_spec(s: Seq<char>) -> Seq<char>
    decreases s.len(),
{
    if s.len() > 0 && is_space_char(s.last()) {
        trim_end_spec(s.drop_last())
    } else {
        s
    }
}

/// `s` with surrounding whitespace removed.
pub open spec fn trim_spec(s: Seq<char>) -> Seq<char> {
    trim_end_spec(trim_start_spec(s))
}

pub proof fn lemma_trim_start_exact(s: Seq<char>, i: int)
    requires
        0 <= i <= s.len(),
        forall|k: int| 0 <= k < i ==> is_space_char(s[k]),
        i < s.len() ==> !is_space_char(s[i]),
    ensures
        trim_start_spec(s) == s.subrange(i, s.len() as int),
    decreases i,
{
    if i == 0 {
        assert(s.subrange(0, s.len() as int) =~= s);
    } else {
        lemma_trim_start_exact(s.drop_first(), i - 1);
        assert(s.drop_first().subrange(i - 1, s.drop_first().len() as int) =~= s.subrange(
            i,
            s.len() as int,
        ));
    }
}

pub proof fn lemma_trim_end_exact(s: Seq<char>, j: int)
    requires
        0 <= j <= s.len(),
        forall|k: int| j <= k < s.len() ==> is_space_char(s[k]),
        j > 0 ==> !is_space_char(s[j - 1]),
    ensures
        trim_end_spec(s) == s.subrange(0, j),
    decreases s.len(),
{
    if j == s.len() {
        assert(s.subrange(0, j) =~= s);
    } else {
        lemma_trim_end_exact(s.drop_last(), j);
        assert(s.drop_last().subrange(0, j) =~= s.subrange(0, j));
    }
}

/// A sequence whose ends are not whitespace is untouched by trimming.
pub proof fn lemma_trim_noop(s: Seq<char>)
    requires
        s.len() == 0 || (!is_space_char(s[0]) && !is_space_char(s.last())),
    ensures
        trim_spec(s) == s,
{
    lemma_trim_start_exact(s, 0);
    assert(trim_start_spec(s) == s);
    lemma_trim_end_exact(s, s.len() as int);
}

pub proof fn lemma_trim_start_len(s: Seq<char>)
    ensures
        trim_start_spec(s).len() <= s.len(),
        trim_start_spec(s).len() > 0 ==> !is_space_char(trim_start_spec(s)[0]),
    decreases s.len(),
{
    if s.len() > 0 && is_space_char(s[0]) {
        lemma_trim_start_len(s.drop_first());
    }
}

pub proof fn lemma_trim_end_len(s: Seq<char>)
    ensures
        trim_end_spec(s).len() <= s.len(),
        trim_end_spec(s).len() > 0 ==> !is_space_char(trim_end_spec(s).last()),
    decreases s.len(),
{
    if s.len() > 0 && is_space_char(s.last()) {
        lemma_trim_end_len(s.drop_last());
    }
}

/// Trimming keeps the first character free of whitespace as well.
pub proof fn lemma_trim_ends(s: Seq<char>)
    ensures
        trim_spec(s).len() <= s.len(),
        trim_spec(s).len() > 0 ==> !is_space_char(trim_spec(s)[0]) && !is_space_char(
            trim_spec(s).last(),
        ),
    decreases s.len(),
{
    lemma_trim_start_len(s);
    lemma_trim_end_len(trim_start_spec(s));
    let t = trim_start_spec(s);
    if trim_spec(s).len() > 0 {
        lemma_trim_end_keeps_first(t);
    }
}

pub proof fn lemma_trim_end_keeps_first(s: Seq<char>)
    ensures
        trim_end_spec(s).len() > 0 ==> trim_end_spec(s)[0] == s[0],
    decreases s.len(),
{
    if s.len() > 0 && is_space_char(s.last()) {
        lemma_trim_end_keeps_first(s.drop_last());
    }
}

/// Trimming twice is the same as trimming once.
pub proof fn lemma_trim_idempotent(s: Seq<char>)
    ensures
        trim_spec(trim_spec(s)) == trim_spec(s),
{
    lemma_trim_ends(s);
    lemma_trim_noop(trim_spec(s));
}

/// Index of the first occurrence of `c` in `s`, or `s.len()` if absent.
pub open spec fn find_first(s: Seq<char>, c: char) -> int
    decreases s.len(),
{
    if s.len() == 0 {
        0
    } else if s[0] == c {
        0
    } else {
        1 + find_first(s.drop_first(), c)
    }
}

pub proof fn lemma_find_first(s: Seq<char>, c: char)
    ensures
        0 <= find_first(s, c) <= s.len(),
        find_first(s, c) < s.len() ==> s[find_first(s, c)] == c,
        forall|k: int| 0 <= k < find_first(s, c) ==> s[k] != c,
        find_first(s, c) == s.len() ==> !s.contains(c),
    decreases s.len(),
{
    if s.len() > 0 && s[0] != c {
        lemma_find_first(s.drop_first(), c);
        assert forall|k: int| 0 < k < s.len() implies s[k] == s.drop_first()[k - 1] by {}
        if find_first(s, c) == s.len() {
            assert forall|k: int| 0 <= k < s.len() implies s[k] != c by {
                if k > 0 {
                    assert(s.drop_first()[k - 1] != c);
                }
            }
            if s.contains(c) {
                let w = choose|w: int| 0 <= w < s.len() && s[w] == c;
                assert(s[w] != c);
            }
        }
    }
}

/// If the first `n` characters of `x` and `x + y` agree and `c` occurs
/// within them, the search gives the same index on both.
pub proof fn lemma_find_first_concat(x: Seq<char>, y: Seq<char>, c: char)
    requires
        x.contains(c),
    ensures
        find_first(x + y, c) == find_first(x, c),
    decreases x.len(),
{
    lemma_find_first(x, c);
    if x.len() > 0 && x[0] != c {
        assert((x + y)[0] == x[0]);
        assert(x.drop_first().contains(c)) by {
            let i = find_first(x, c);
            assert(x.drop_first()[i - 1] == c);
        }
        lemma_find_first_concat(x.drop_first(), y, c);
        assert(x.drop_first() + y =~= (x + y).drop_first());
    }
}

/// Index one past the last occurrence of `c` in `s`, or `0` if absent.
pub open spec fn find_last(s: Seq<char>, c: char) -> int
    decreases s.len(),
{
    if s.len() == 0 {
        0
    } else if s.last() == c {
        s.len() as int
    } else {
        find_last(s.drop_last(), c)
    }
}

pub proof fn lemma_find_last(s: Seq<char>, c: char)
    ensures
        0 <= find_last(s, c) <= s.len(),
        find_last(s, c) > 0 ==> s[find_last(s, c) - 1] == c,
        forall|k: int| find_last(s, c) <= k < s.len() ==> s[k] != c,
        find_last(s, c) == 0 ==> !s.contains(c),
    decreases s.len(),
{
    if s.len() > 0 && s.last() != c {
        lemma_find_last(s.drop_last(), c);
        assert forall|k: int| 0 <= k < s.len() - 1 implies s[k] == s.drop_last()[k] by {}
        if find_last(s, c) == 0 {
            if s.contains(c) {
                let w = choose|w: int| 0 <= w < s.len() && s[w] == c;
                assert(s[w] != c);
            }
        }
    }
}

/// Whether `p` is a prefix of `s`.
pub open spec fn is_prefix(p: Seq<char>, s: Seq<char>) -> bool {
    p.len() <= s.len() && s.subrange(0, p.len() as int) == p
}

/// The text split at every newline; a trailing newline yields no final
/// empty line, matching how the files are read line by line.
pub open spec fn split_lines_spec(s: Seq<char>) -> Seq<Seq<char>>
    decreases s.len(),
{
    if s.len() == 0 {
        Seq::empty()
    } else {
        let i = find_first(s, '\n');
        if 0 <= i < s.len() {
            seq![s.take(i)] + split_lines_spec(s.skip(i + 1))
        } else {
            seq![s]
        }
    }
}

/// No line produced by splitting contains a newline.
pub proof fn lemma_split_lines_no_nl(s: Seq<char>)
    ensures
        forall|i: int|
            0 <= i < split_lines_spec(s).len() ==> !(#[trigger] split_lines_spec(
                s,
            )[i]).contains('\n'),
    decreases s.len(),
{
    if s.len() > 0 {
        let i = find_first(s, '\n');
        lemma_find_first(s, '\n');
        if 0 <= i < s.len() {
            lemma_split_lines_no_nl(s.skip(i + 1));
            assert forall|k: int| 0 <= k < split_lines_spec(s).len() implies !(
            #[trigger] split_lines_spec(s)[k]).contains('\n') by {
                if k == 0 {
                    assert(forall|m: int|
                        0 <= m < i ==> s.take(i)[m] == s[m] && s[m] != '\n');
                } else {
                    assert(split_lines_spec(s)[k] == split_lines_spec(s.skip(i + 1))[k - 1]);
                }
            }
        }
    }
}

/// Splitting distributes over concatenation when the first part ends
/// with a newline.
pub proof fn lemma_split_lines_concat(x: Seq<char>, y: Seq<char>)
    requires
        x.len() > 0,
        x.last() == '\n',
    ensures
        split_lines_spec(x + y) == split_lines_spec(x) + split_lines_spec(y),
    decreases x.len(),
{
    assert(x.contains('\n')) by {
        assert(x[x.len() - 1] == '\n');
    }
    let i = find_first(x, '\n');
    lemma_find_first(x, '\n');
    lemma_find_first_concat(x, y, '\n');
    assert(0 <= i < x.len());
    assert((x + y).len() > 0);
    assert((x + y).take(i) =~= x.take(i));
    assert((x + y).skip(i + 1) =~= x.skip(i + 1) + y);
    if x.skip(i + 1).len() == 0 {
        assert(x.skip(i + 1) + y =~= y);
        assert(split_lines_spec(x.skip(i + 1)) =~= Seq::<Seq<char>>::empty());
        assert(split_lines_spec(x) == seq![x.take(i)] + split_lines_spec(x.skip(i + 1)));
        assert(split_lines_spec(x) =~= seq![x.take(i)]);
        assert(split_lines_spec(x + y) =~= seq![x.take(i)] + split_lines_spec(y));
    } else {
        assert(x.skip(i + 1).last() == x.last());
        lemma_split_lines_concat(x.skip(i + 1), y);
        assert(split_lines_spec(x + y) =~= split_lines_spec(x) + split_lines_spec(y));
    }
}

/// Splitting a newline-free line followed by a newline yields that line.
pub proof fn lemma_split_lines_single(l: Seq<char>)
    requires
        !l.contains('\n'),
    ensures
        split_lines_spec(l + seq!['\n']) == seq![l],
{
    let s = l + seq!['\n'];
    lemma_find_first(s, '\n');
    let i = find_first(s, '\n');
    assert(s[l.len() as int] == '\n');
    assert(i <= l.len());
    if i < l.len() {
        assert(s[i] == '\n');
        assert(l[i] == s[i]);
        assert(l.contains('\n'));
        assert(false);
    }
    assert(i == l.len());
    assert(s.take(i) =~= l);
    assert(s.skip(i + 1) =~= Seq::<char>::empty());
    assert(split_lines_spec(s.skip(i + 1)) =~= Seq::<Seq<char>>::empty());
    assert(split_lines_spec(s) == seq![s.take(i)] + split_lines_spec(s.skip(i + 1)));
    assert(split_lines_spec(s) =~= seq![l]);
}

/// The text formed by terminating each line with a newline.
pub open spec fn lines_text(ls: Seq<Seq<char>>) -> Seq<char>
    decreases ls.len(),
{
    if ls.len() == 0 {
        Seq::empty()
    } else {
        ls[0] + seq!['\n'] + lines_text(ls.drop_first())
    }
}

/// Rendering lines and splitting them back returns the same lines,
/// provided no line contains a newline itself.
pub proof fn lemma_split_lines_text(ls: Seq<Seq<char>>)
    requires
        forall|i: int| 0 <= i < ls.len() ==> !(#[trigger] ls[i]).contains('\n'),
    ensures
        split_lines_spec(lines_text(ls)) == ls,
    decreases ls.len(),
{
    if ls.len() > 0 {
        let head = ls[0] + seq!['\n'];
        assert(lines_text(ls) =~= head + lines_text(ls.drop_first()));
        assert(head.last() == '\n');
        lemma_split_lines_concat(head, lines_text(ls.drop_first()));
        lemma_split_lines_single(ls[0]);
        lemma_split_lines_text(ls.drop_first());
        assert(split_lines_spec(lines_text(ls)) =~= ls);
    }
}

/// Rendering lines distributes over concatenation.
pub proof fn lemma_lines_text_concat(a: Seq<Seq<char>>, b: Seq<Seq<char>>)
    ensures
        lines_text(a + b) == lines_text(a) + lines_text(b),
    decreases a.len(),
{
    if a.len() == 0 {
        assert(a + b =~= b);
        assert(lines_text(a) + lines_text(b) =~= lines_text(b));
    } else {
        assert((a + b).drop_first() =~= a.drop_first() + b);
        lemma_lines_text_concat(a.drop_first(), b);
        assert(lines_text(a + b) =~= lines_text(a) + lines_text(b));
    }
}

/// The whole file rebuilt from its lines: every line newline-terminated,
/// and an empty line list rendered as a single newline, matching a
/// joined rewrite of zero lines.
pub open spec fn render_lines_file(ls: Seq<Seq<char>>) -> Seq<char> {
    if ls.len() == 0 {
        seq!['\n']
    } else {
        lines_text(ls)
    }
}

/// Rebuilds a file from its lines.
pub fn render_lines(ls: &Vec<String>) -> (r: String)
    ensures
        r@ == render_lines_file(ls.deep_view()),
{
    let ghost dv = ls.deep_view();
    let mut out = String::new();
    if ls.len() == 0 {
        out.append("\n");
        proof {
            lemma_nl_lit();
            assert(out@ =~= seq!['\n']);
        }
        return out;
    }
    let mut i: usize = 0;
    proof {
        assert(dv.take(0) =~= Seq::<Seq<char>>::empty());
    }
    while i < ls.len()
        invariant
            0 <= i <= ls.len(),
            dv == ls.deep_view(),
            dv.len() == ls.len(),
            out@ == lines_text(dv.take(i as int)),
        decreases ls.len() - i,
    {
        out.append(ls[i].as_str());
        out.append("\n");
        proof {
            lemma_nl_lit();
            reveal_with_fuel(lines_text, 2);
            assert(dv.take(i + 1) =~= dv.take(i as int) + seq![dv[i as int]]);
            lemma_lines_text_concat(dv.take(i as int), seq![dv[i as int]]);
            assert(seq![dv[i as int]].drop_first() =~= Seq::<Seq<char>>::empty());
            assert(lines_text(seq![dv[i as int]]) =~= dv[i as int] + seq!['\n']);
            assert(out@ =~= lines_text(dv.take(i + 1)));
        }
        i = i + 1;
    }
    proof {
        assert(dv.take(ls.len() as int) =~= dv);
    }
    out
}

/// A trailing whitespace character does not change the trimmed text.
pub proof fn lemma_trim_snoc_ws(x: Seq<char>, c: char)
    requires
        is_space_char(c),
    ensures
        trim_spec(x.push(c)) == trim_spec(x),
    decreases x.len(),
{
    if x.len() == 0 {
        reveal_with_fuel(trim_start_spec, 2);
        assert(x.push(c)[0] == c);
        assert(x.push(c).drop_first() =~= Seq::<char>::empty());
        assert(trim_start_spec(x.push(c)) =~= Seq::<char>::empty());
        assert(trim_start_spec(x) =~= x);
    } else if is_space_char(x[0]) {
        assert(x.push(c).drop_first() =~= x.drop_first().push(c));
        lemma_trim_snoc_ws(x.drop_first(), c);
        assert(trim_start_spec(x.push(c)) == trim_start_spec(x.drop_first().push(c)));
        assert(trim_start_spec(x) == trim_start_spec(x.drop_first()));
    } else {
        assert(x.push(c)[0] == x[0]);
        assert(trim_start_spec(x.push(c)) == x.push(c));
        assert(trim_start_spec(x) == x);
        assert(x.push(c).drop_last() =~= x);
        assert(x.push(c).last() == c);
        assert(trim_end_spec(x.push(c)) == trim_end_spec(x));
    }
}

/// Trimming never introduces a character.
pub proof fn lemma_trim_no_char(s: Seq<char>, c: char)
    requires
        !s.contains(c),
    ensures
        !trim_spec(s).contains(c),
{
    lemma_trim_start_no_char(s, c);
    lemma_trim_end_no_char(trim_start_spec(s), c);
}

pub proof fn lemma_trim_start_no_char(s: Seq<char>, c: char)
    requires
        !s.contains(c),
    ensures
        !trim_start_spec(s).contains(c),
    decreases s.len(),
{
    if s.len() > 0 && is_space_char(s[0]) {
        assert(!s.drop_first().contains(c)) by {
            if s.drop_first().contains(c) {
                let w = choose|w: int| 0 <= w < s.drop_first().len() && s.drop_first()[w] == c;
                assert(s[w + 1] == c);
            }
        }
        lemma_trim_start_no_char(s.drop_first(), c);
    }
}

pub proof fn lemma_trim_end_no_char(s: Seq<char>, c: char)
    requires
        !s.contains(c),
    ensures
        !trim_end_spec(s).contains(c),
    decreases s.len(),
{
    if s.len() > 0 && is_space_char(s.last()) {
        assert(!s.drop_last().contains(c)) by {
            if s.drop_last().contains(c) {
                let w = choose|w: int| 0 <= w < s.drop_last().len() && s.drop_last()[w] == c;
                assert(s[w] == c);
            }
        }
        lemma_trim_end_no_char(s.drop_last(), c);
    }
}

/// The view of the newline literal, spelled as a sequence.
pub proof fn lemma_nl_lit()
    ensures
        "\n"@ == seq!['\n'],
{
    reveal_strlit("\n");
    assert("\n"@ =~= seq!['\n']);
}

/// Lexicographic order on character sequences by code point.
pub open spec fn lex_le(a: Seq<char>, b: Seq<char>) -> bool
    decreases a.len(),
{
    if a.len() == 0 {
        true
    } else if b.len() == 0 {
        false
    } else if a[0] == b[0] {
        lex_le(a.drop_first(), b.drop_first())
    } else {
        (a[0] as u32) < (b[0] as u32)
    }
}

/// The order as a relation value, for sortedness statements.
pub open spec fn lex_leq() -> spec_fn(Seq<char>, Seq<char>) -> bool {
    |x: Seq<char>, y: Seq<char>| lex_le(x, y)
}

pub proof fn lemma_lex_le_refl(a: Seq<char>)
    ensures
        lex_le(a, a),
    decreases a.len(),
{
    if a.len() > 0 {
        lemma_lex_le_refl(a.drop_first());
    }
}

pub proof fn lemma_lex_le_antisym(a: Seq<char>, b: Seq<char>)
    requires
        lex_le(a, b),
        lex_le(b, a),
    ensures
        a == b,
    decreases a.len(),
{
    if a.len() > 0 && b.len() > 0 && a[0] == b[0] {
        lemma_lex_le_antisym(a.drop_first(), b.drop_first());
        assert(a =~= seq![a[0]] + a.drop_first());
        assert(b =~= seq![b[0]] + b.drop_first());
    } else {
        assert(a.len() == 0 && b.len() == 0);
        assert(a =~= b);
    }
}

pub proof fn lemma_lex_le_trans(a: Seq<char>, b: Seq<char>, c: Seq<char>)
    requires
        lex_le(a, b),
        lex_le(b, c),
    ensures
        lex_le(a, c),
    decreases a.len(),
{
    if a.len() > 0 && b.len() > 0 && c.len() > 0 && a[0] == b[0] && b[0] == c[0] {
        lemma_lex_le_trans(a.drop_first(), b.drop_first(), c.drop_first());
    }
}

pub proof fn lemma_lex_le_connected(a: Seq<char>, b: Seq<char>)
    ensures
        lex_le(a, b) || lex_le(b, a),
    decreases a.len(),
{
    if a.len() > 0 && b.len() > 0 && a[0] == b[0] {
        lemma_lex_le_connected(a.drop_first(), b.drop_first());
    } else if a.len() > 0 && b.len() > 0 {
        if (a[0] as u32) == (b[0] as u32) {
            vstd::utf8::char_u32_cast(a[0], a[0] as u32);
            vstd::utf8::char_u32_cast(b[0], b[0] as u32);
            assert(a[0] == b[0]);
        }
    }
}

/// The lexicographic order is total.
pub proof fn lemma_lex_total()
    ensures
        vstd::relations::total_ordering(lex_leq()),
{
    assert forall|a: Seq<char>| #[trigger] lex_leq()(a, a) by {
        lemma_lex_le_refl(a);
    }
    assert forall|a: Seq<char>, b: Seq<char>|
        #[trigger] lex_leq()(a, b) && #[trigger] lex_leq()(b, a) implies a == b by {
        lemma_lex_le_antisym(a, b);
    }
    assert forall|a: Seq<char>, b: Seq<char>, c: Seq<char>|
        #[trigger] lex_leq()(a, b) && #[trigger] lex_leq()(b, c) implies lex_leq()(a, c) by {
        lemma_lex_le_trans(a, b, c);
    }
    assert forall|a: Seq<char>, b: Seq<char>| #[trigger] lex_leq()(a, b) || #[trigger] lex_leq()(
        b,
        a,
    ) by {
        lemma_lex_le_connected(a, b);
    }
}

/// Whether `c` is one of the whitespace characters the library trims.
pub fn is_space(c: char) -> (r: bool)
    ensures
        r == is_space_char(c),
{
    let u: u32 = c as u32;
    u == 0x20 || (0x09 <= u && u <= 0x0D) || u == 0x85 || u == 0xA0 || u == 0x1680 || (0x2000
        <= u && u <= 0x200A) || u == 0x2028 || u == 0x2029 || u == 0x202F || u == 0x205F || u
        == 0x3000
}

/// `s` with surrounding whitespace removed.
pub fn trim_str(s: &str) -> (r: &str)
    ensures
        r@ == trim_spec(s@),
{
    let n = s.unicode_len();
    let mut i: usize = 0;
    while i < n && is_space(s.get_char(i))
        invariant
            0 <= i <= n,
            n == s@.len(),
            forall|k: int| 0 <= k < i ==> is_space_char(s@[k]),
        decreases n - i,
    {
        i = i + 1;
    }
    let mut j: usize = n;
    while j > i && is_space(s.get_char(j - 1))
        invariant
            i <= j <= n,
            n == s@.len(),
            forall|k: int| j <= k < n ==> is_space_char(s@[k]),
        decreases j,
    {
        j = j - 1;
    }
    proof {
        if i == n {
            lemma_trim_start_exact(s@, i as int);
            assert(trim_start_spec(s@) =~= Seq::<char>::empty());
            lemma_trim_end_exact(trim_start_spec(s@), 0);
            assert(s@.subrange(i as int, j as int) =~= trim_spec(s@));
        } else {
            lemma_trim_start_exact(s@, i as int);
            let t = s@.subrange(i as int, n as int);
            lemma_trim_end_exact(t, j - i);
            assert(t.subrange(0, j - i) =~= s@.subrange(i as int, j as int));
        }
    }
    s.substring_char(i, j)
}

/// Index of the first occurrence of `c` in `s`, or the length if absent.
pub fn find_char(s: &str, c: char) -> (r: usize)
    ensures
        r as int == find_first(s@, c),
{
    let n = s.unicode_len();
    let mut i: usize = 0;
    while i < n && s.get_char(i) != c
        invariant
            0 <= i <= n,
            n == s@.len(),
            forall|k: int| 0 <= k < i ==> s@[k] != c,
        decreases n - i,
    {
        i = i + 1;
    }
    proof {
        lemma_find_first(s@, c);
        let f = find_first(s@, c);
        if i < n {
            assert(f <= i);
            assert(f >= i) by {
                if f < i {
                    assert(s@[f] == c);
                }
            }
        } else {
            assert(f == n) by {
                if f < n {
                    assert(s@[f] == c);
                }
            }
        }
    }
    i
}

/// One past the last occurrence of `c` in `s`, or `0` if absent.
pub fn rfind_char(s: &str, c: char) -> (r: usize)
    ensures
        r as int == find_last(s@, c),
{
    let n = s.unicode_len();
    let mut k: usize = n;
    while k > 0
        invariant
            0 <= k <= n,
            n == s@.len(),
            forall|m: int| k <= m < n ==> s@[m] != c,
        decreases k,
    {
        if s.get_char(k - 1) == c {
            proof {
                lemma_find_last(s@, c);
                let fl = find_last(s@, c);
                if fl > k {
                    assert(s@[fl - 1] != c);
                }
                if fl < k {
                    assert(s@[k - 1] != c);
                }
            }
            return k;
        }
        k = k - 1;
    }
    proof {
        lemma_find_last(s@, c);
        let fl = find_last(s@, c);
        if fl > 0 {
            assert(s@[fl - 1] != c);
        }
    }
    0
}

/// Whether `p` is a prefix of `s`.
pub fn starts_with_str(s: &str, p: &str) -> (r: bool)
    ensures
        r == is_prefix(p@, s@),
{
    let np = p.unicode_len();
    let ns = s.unicode_len();
    if np > ns {
        assert(!is_prefix(p@, s@));
        return false;
    }
    let mut i: usize = 0;
    while i < np
        invariant
            0 <= i <= np,
            np == p@.len(),
            ns == s@.len(),
            np <= ns,
            forall|k: int| 0 <= k < i ==> s@[k] == p@[k],
        decreases np - i,
    {
        if s.get_char(i) != p.get_char(i) {
            assert(s@.subrange(0, np as int)[i as int] != p@[i as int]);
            return false;
        }
        i = i + 1;
    }
    assert(s@.subrange(0, np as int) =~= p@);
    true
}

/// Whether two strings hold the same characters.
pub fn str_eq(a: &str, b: &str) -> (r: bool)
    ensures
        r == (a@ == b@),
{
    let na = a.unicode_len();
    let nb = b.unicode_len();
    if na != nb {
        return false;
    }
    let mut i: usize = 0;
    while i < na
        invariant
            0 <= i <= na,
            na == a@.len(),
            na == b@.len(),
            forall|k: int| 0 <= k < i ==> a@[k] == b@[k],
        decreases na - i,
    {
        if a.get_char(i) != b.get_char(i) {
            return false;
        }
        i = i + 1;
    }
    assert(a@ =~= b@);
    true
}

/// Whether `a` comes no later than `b` in lexicographic order.
pub fn str_le(a: &str, b: &str) -> (r: bool)
    ensures
        r == lex_le(a@, b@),
{
    let na = a.unicode_len();
    let nb = b.unicode_len();
    let mut i: usize = 0;
    proof {
        assert(a@.skip(0) =~= a@);
        assert(b@.skip(0) =~= b@);
    }
    loop
        invariant
            0 <= i <= na,
            i <= nb,
            na == a@.len(),
            nb == b@.len(),
            lex_le(a@, b@) == lex_le(a@.skip(i as int), b@.skip(i as int)),
        decreases na - i,
    {
        if i == na {
            assert(a@.skip(i as int).len() == 0);
            return true;
        }
        if i == nb {
            assert(b@.skip(i as int).len() == 0 && a@.skip(i as int).len() > 0);
            return false;
        }
        let ca = a.get_char(i);
        let cb = b.get_char(i);
        assert(a@.skip(i as int)[0] == ca && b@.skip(i as int)[0] == cb);
        if ca != cb {
            return (ca as u32) < (cb as u32);
        }
        proof {
            assert(a@.skip(i as int).drop_first() =~= a@.skip(i + 1));
            assert(b@.skip(i as int).drop_first() =~= b@.skip(i + 1));
        }
        i = i + 1;
    }
}

/// The text split at every newline, as owned lines.
pub fn split_lines(s: &str) -> (r: Vec<String>)
    ensures
        r.deep_view() == split_lines_spec(s@),
{
    let n = s.unicode_len();
    let mut r: Vec<String> = Vec::new();
    let mut p: usize = 0;
    proof {
        assert(s@.skip(0) =~= s@);
        assert(r.deep_view() =~= Seq::<Seq<char>>::empty());
        assert(r.deep_view() + split_lines_spec(s@) =~= split_lines_spec(s@));
    }
    while p < n
        invariant
            0 <= p <= n,
            n == s@.len(),
            split_lines_spec(s@) == r.deep_view() + split_lines_spec(s@.skip(p as int)),
        decreases n - p,
    {
        let ghost rest = s@.skip(p as int);
        let mut q: usize = p;
        while q < n && s.get_char(q) != '\n'
            invariant
                p <= q <= n,
                n == s@.len(),
                forall|k: int| p <= k < q ==> s@[k] != '\n',
            decreases n - q,
        {
            q = q + 1;
        }
        let line = s.substring_char(p, q).to_owned();
        proof {
            lemma_find_first(rest, '\n');
            let f = find_first(rest, '\n');
            if q < n {
                assert(rest[q - p] == '\n');
                assert(forall|k: int| 0 <= k < q - p ==> rest[k] == s@[p + k] && rest[k] != '\n');
                assert(f == q - p) by {
                    if f < q - p {
                        assert(rest[f] == '\n');
                    }
                }
                assert(rest.take(f) =~= line@);
                assert(rest.skip(f + 1) =~= s@.skip(q + 1));
                assert(split_lines_spec(rest) == seq![line@] + split_lines_spec(s@.skip(q + 1)));
            } else {
                assert(forall|k: int| 0 <= k < rest.len() ==> rest[k] == s@[p + k] && rest[k]
                    != '\n');
                assert(f == rest.len()) by {
                    if f < rest.len() {
                        assert(rest[f] == '\n');
                    }
                }
                assert(rest =~= line@);
                assert(split_lines_spec(rest) == seq![line@]);
                assert(s@.skip(n as int) =~= Seq::<char>::empty());
            }
        }
        let ghost old_r = r.deep_view();
        r.push(line);
        proof {
            assert(r.deep_view() =~= old_r + seq![line@]);
            if q < n {
                assert(r.deep_view() + split_lines_spec(s@.skip(q + 1)) =~= old_r
                    + split_lines_spec(rest));
            } else {
                assert(r.deep_view() + split_lines_spec(s@.skip(n as int)) =~= old_r
                    + split_lines_spec(rest));
            }
        }
        p = if q < n {
            q + 1
        } else {
            n
        };
    }
    proof {
        assert(s@.skip(n as int) =~= Seq::<char>::empty());
        assert(r.deep_view() =~= split_lines_spec(s@));
    }
    r
}

} // verus!
