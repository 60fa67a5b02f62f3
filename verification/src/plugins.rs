//! The enabled-plugin list: a single `plugins=( ... )` marker embedded in
//! a larger host document. Only the marker span is ever rewritten; all
//! other document content is preserved verbatim.

use vstd::prelude::*;
use vstd::multiset::Multiset;
use crate::errors::EditError;
use crate::text::is_space_char;
use crate::text::is_space;
use crate::text::find_first;
use crate::text::lemma_find_first;
use crate::text::lex_le;
use crate::text::lex_leq;
use crate::text::lemma_lex_total;
use crate::text::lemma_lex_le_trans;
use crate::text::lemma_lex_le_connected;
use crate::text::str_eq;
use crate::text::str_le;

verus! {

/// Whether the marker keyword `plugins=(` occurs at position `i`.
pub open spec fn marker_at(s: Seq<char>, i: int) -> bool {
    0 <= i && i + 9 <= s.len() && s.subrange(i, i + 9) == "plugins=("@
}

/// The first position at or after `i` where the marker occurs, or the
/// length of `s` when it never does.
pub open spec fn find_marker_from(s: Seq<char>, i: int) -> int
    decreases s.len() - i,
{
    if i < 0 || i + 9 > s.len() {
        s.len() as int
    } else if marker_at(s, i) {
        i
    } else {
        find_marker_from(s, i + 1)
    }
}

pub proof fn lemma_find_marker(s: Seq<char>, i: int)
    requires
        0 <= i <= s.len(),
    ensures
        i <= find_marker_from(s, i) <= s.len(),
        find_marker_from(s, i) < s.len() ==> marker_at(s, find_marker_from(s, i)),
        forall|k: int| i <= k < find_marker_from(s, i) ==> !marker_at(s, k),
        find_marker_from(s, i) == s.len() ==> forall|k: int| i <= k ==> !marker_at(s, k),
    decreases s.len() - i,
{
    if i + 9 > s.len() {
        assert(forall|k: int| i <= k ==> !marker_at(s, k));
    } else if !marker_at(s, i) {
        lemma_find_marker(s, i + 1);
    }
}

/// The marker span: the start of `plugins=(` and the position of the
/// first closing parenthesis after it. `None` when the document has no
/// complete marker.
pub open spec fn marker_span(s: Seq<char>) -> Option<(int, int)> {
    let a = find_marker_from(s, 0);
    if a < s.len() {
        let rel = find_first(s.skip(a + 9), ')');
        if rel < s.skip(a + 9).len() {
            Some((a, a + 9 + rel))
        } else {
            None
        }
    } else {
        None
    }
}

/// Number of leading characters of the next whitespace-free token.
pub open spec fn token_end(s: Seq<char>) -> int
    decreases s.len(),
{
    if s.len() == 0 {
        0
    } else if is_space_char(s[0]) {
        0
    } else {
        1 + token_end(s.drop_first())
    }
}

pub proof fn lemma_token_end(s: Seq<char>)
    ensures
        0 <= token_end(s) <= s.len(),
        forall|k: int| 0 <= k < token_end(s) ==> !is_space_char(s[k]),
        token_end(s) < s.len() ==> is_space_char(s[token_end(s)]),
    decreases s.len(),
{
    if s.len() > 0 && !is_space_char(s[0]) {
        lemma_token_end(s.drop_first());
        assert(forall|k: int| 0 < k < s.len() ==> s[k] == s.drop_first()[k - 1]);
    }
}

/// The whitespace-separated tokens of a text.
pub open spec fn tokens_of(s: Seq<char>) -> Seq<Seq<char>>
    decreases s.len(),
{
    if s.len() == 0 {
        Seq::empty()
    } else if is_space_char(s[0]) {
        tokens_of(s.drop_first())
    } else {
        let e = token_end(s);
        if 1 <= e <= s.len() {
            seq![s.take(e)] + tokens_of(s.skip(e))
        } else {
            seq![s]
        }
    }
}

/// Tokens are never empty, hold no whitespace, and hold no character
/// absent from the text they came from.
pub proof fn lemma_tokens_of_wf(s: Seq<char>, c: char)
    requires
        !s.contains(c),
    ensures
        forall|i: int|
            0 <= i < tokens_of(s).len() ==> {
                let t = #[trigger] tokens_of(s)[i];
                t.len() > 0 && !t.contains(c) && forall|k: int|
                    0 <= k < t.len() ==> !is_space_char(#[trigger] t[k])
            },
    decreases s.len(),
{
    if s.len() > 0 {
        if is_space_char(s[0]) {
            assert(!s.drop_first().contains(c)) by {
                if s.drop_first().contains(c) {
                    let w = choose|w: int|
                        0 <= w < s.drop_first().len() && s.drop_first()[w] == c;
                    assert(s[w + 1] == c);
                }
            }
            lemma_tokens_of_wf(s.drop_first(), c);
            assert(tokens_of(s) == tokens_of(s.drop_first()));
        } else {
            lemma_token_end(s);
            let e = token_end(s);
            assert(!s.skip(e).contains(c)) by {
                if s.skip(e).contains(c) {
                    let w = choose|w: int| 0 <= w < s.skip(e).len() && s.skip(e)[w] == c;
                    assert(s[w + e] == c);
                }
            }
            lemma_tokens_of_wf(s.skip(e), c);
            let t0 = s.take(e);
            assert(t0.len() > 0);
            assert(!t0.contains(c)) by {
                if t0.contains(c) {
                    let w = choose|w: int| 0 <= w < e && t0[w] == c;
                    assert(s[w] == c);
                }
            }
            assert(forall|k: int| 0 <= k < t0.len() ==> !is_space_char(#[trigger] t0[k]));
            assert forall|i: int| 0 <= i < tokens_of(s).len() implies {
                let t = #[trigger] tokens_of(s)[i];
                t.len() > 0 && !t.contains(c) && forall|k: int|
                    0 <= k < t.len() ==> !is_space_char(#[trigger] t[k])
            } by {
                if i > 0 {
                    assert(tokens_of(s)[i] == tokens_of(s.skip(e))[i - 1]);
                }
            }
        }
    }
}

/// The enabled plugins: the tokens between the marker and its closing
/// parenthesis; an absent marker means an empty list.
pub open spec fn plugin_tokens(content: Seq<char>) -> Seq<Seq<char>> {
    match marker_span(content) {
        Some(span) => tokens_of(content.subrange(span.0 + 9, span.1)),
        None => Seq::empty(),
    }
}

/// Whether `name` is among the tokens.
pub open spec fn has_token(toks: Seq<Seq<char>>, name: Seq<char>) -> bool {
    exists|i: int| 0 <= i < toks.len() && #[trigger] toks[i] == name
}

/// Locates the marker span in the document.
fn find_marker_span(content: &str) -> (r: Option<(usize, usize)>)
    ensures
        match r {
            Some(p) => marker_span(content@) == Some((p.0 as int, p.1 as int)) && p.0 + 9
                <= p.1 < content@.len(),
            None => marker_span(content@) is None,
        },
{
    let n = content.unicode_len();
    proof {
        lemma_find_marker(content@, 0);
    }
    if n < 9 {
        proof {
            assert(find_marker_from(content@, 0) == n as int);
        }
        return None;
    }
    let mut i: usize = 0;
    while i <= n - 9
        invariant
            0 <= i,
            9 <= n,
            i <= n - 9 + 1,
            n == content@.len(),
            forall|k: int| 0 <= k < i ==> !marker_at(content@, k),
        decreases n - i,
    {
        let piece = content.substring_char(i, i + 9);
        if str_eq(piece, "plugins=(") {
            proof {
                lemma_find_marker(content@, 0);
                assert(marker_at(content@, i as int));
                let a = find_marker_from(content@, 0);
                if a < i {
                    assert(!marker_at(content@, a));
                }
                if a > i {
                    assert(!marker_at(content@, i as int));
                }
                assert(a == i as int);
            }
            let rest = content.substring_char(i + 9, n);
            let rel = crate::text::find_char(rest, ')');
            proof {
                assert(rest@ =~= content@.skip(i as int + 9));
                lemma_find_first(rest@, ')');
            }
            if rel == rest.unicode_len() {
                return None;
            }
            return Some((i, i + 9 + rel));
        }
        proof {
            assert(!marker_at(content@, i as int));
        }
        i = i + 1;
    }
    proof {
        lemma_find_marker(content@, 0);
        let a = find_marker_from(content@, 0);
        if a < n {
            assert(!marker_at(content@, a));
        }
    }
    None
}

/// The whitespace-separated tokens of a text, as owned strings.
fn split_ws(s: &str) -> (r: Vec<String>)
    ensures
        r.deep_view() == tokens_of(s@),
{
    let n = s.unicode_len();
    let mut r: Vec<String> = Vec::new();
    let mut p: usize = 0;
    proof {
        assert(s@.skip(0) =~= s@);
        assert(r.deep_view() =~= Seq::<Seq<char>>::empty());
        assert(r.deep_view() + tokens_of(s@) =~= tokens_of(s@));
    }
    while p < n
        invariant
            0 <= p <= n,
            n == s@.len(),
            tokens_of(s@) == r.deep_view() + tokens_of(s@.skip(p as int)),
        decreases n - p,
    {
        let c = s.get_char(p);
        if is_space(c) {
            proof {
                assert(s@.skip(p as int)[0] == c);
                assert(s@.skip(p as int).drop_first() =~= s@.skip(p + 1));
            }
            p = p + 1;
        } else {
            let mut q: usize = p;
            while q < n && !is_space(s.get_char(q))
                invariant
                    p <= q <= n,
                    n == s@.len(),
                    forall|k: int| p <= k < q ==> !is_space_char(s@[k]),
                decreases n - q,
            {
                q = q + 1;
            }
            let tok = s.substring_char(p, q).to_owned();
            proof {
                let rest = s@.skip(p as int);
                lemma_token_end(rest);
                let e = token_end(rest);
                assert(forall|k: int| 0 <= k < q - p ==> rest[k] == s@[p + k]);
                assert(e == q - p) by {
                    if e < q - p {
                        assert(is_space_char(rest[e]));
                        assert(!is_space_char(s@[p + e]));
                    }
                    if e > q - p {
                        assert(!is_space_char(rest[q - p]));
                        if q < n {
                            assert(is_space_char(s@[q as int]));
                        }
                    }
                }
                assert(rest.take(e) =~= tok@);
                assert(rest.skip(e) =~= s@.skip(q as int));
                assert(tokens_of(rest) == seq![tok@] + tokens_of(s@.skip(q as int)));
            }
            let ghost old_r = r.deep_view();
            r.push(tok);
            proof {
                assert(r.deep_view() =~= old_r + seq![r@.last()@]);
                assert(r.deep_view() + tokens_of(s@.skip(q as int)) =~= old_r + tokens_of(
                    s@.skip(p as int),
                ));
            }
            p = q;
        }
    }
    proof {
        assert(s@.skip(n as int) =~= Seq::<char>::empty());
        assert(r.deep_view() =~= tokens_of(s@));
    }
    r
}

/// The enabled plugins of the host document, in marker order. An absent
/// marker yields an empty list, which is not an error.
pub fn parse_plugins_from_file(content: &str) -> (r: Vec<String>)
    ensures
        r.deep_view() == plugin_tokens(content@),
{
    match find_marker_span(content) {
        Some(span) => {
            let interior = content.substring_char(span.0 + 9, span.1);
            proof {
                assert(interior@ =~= content@.subrange(span.0 as int + 9, span.1 as int));
            }
            split_ws(interior)
        },
        None => {
            let r: Vec<String> = Vec::new();
            proof {
                assert(r.deep_view() =~= Seq::<Seq<char>>::empty());
            }
            r
        },
    }
}

/// `x` inserted before the first element it precedes or equals.
pub open spec fn insert_sorted(s: Seq<Seq<char>>, x: Seq<char>) -> Seq<Seq<char>>
    decreases s.len(),
{
    if s.len() == 0 {
        seq![x]
    } else if lex_le(x, s[0]) {
        seq![x] + s
    } else {
        seq![s[0]] + insert_sorted(s.drop_first(), x)
    }
}

/// The tokens in lexicographic order.
pub open spec fn sort_tokens(s: Seq<Seq<char>>) -> Seq<Seq<char>>
    decreases s.len(),
{
    if s.len() == 0 {
        s
    } else {
        insert_sorted(sort_tokens(s.drop_last()), s.last())
    }
}

pub proof fn lemma_insert_sorted(s: Seq<Seq<char>>, x: Seq<char>)
    requires
        vstd::relations::sorted_by(s, lex_leq()),
    ensures
        vstd::relations::sorted_by(insert_sorted(s, x), lex_leq()),
        insert_sorted(s, x).to_multiset() =~= s.to_multiset().insert(x),
        insert_sorted(s, x).len() == s.len() + 1,
    decreases s.len(),
{
    broadcast use vstd::seq_lib::group_to_multiset_ensures;
    broadcast use vstd::multiset::group_multiset_axioms;

    let r = insert_sorted(s, x);
    if s.len() == 0 {
        assert(seq![x] =~= Seq::<Seq<char>>::empty().push(x));
        assert(r.to_multiset() =~= s.to_multiset().insert(x));
    } else if lex_le(x, s[0]) {
        assert forall|i: int, j: int| 0 <= i < j < r.len() implies #[trigger] lex_leq()(
            r[i],
            r[j],
        ) by {
            if i == 0 {
                if j == 1 {
                    assert(lex_le(x, s[0]));
                } else {
                    assert(lex_leq()(s[0], s[j - 1]));
                    lemma_lex_le_trans(x, s[0], s[j - 1]);
                }
            } else {
                assert(lex_leq()(s[i - 1], s[j - 1]));
            }
        }
        assert(r =~= seq![x] + s);
        vstd::seq_lib::lemma_multiset_commutative(seq![x], s);
        assert(seq![x] =~= Seq::<Seq<char>>::empty().push(x));
        assert(r.to_multiset() =~= s.to_multiset().insert(x));
    } else {
        lemma_lex_le_connected(x, s[0]);
        assert(lex_le(s[0], x));
        assert(vstd::relations::sorted_by(s.drop_first(), lex_leq())) by {
            assert(forall|i: int, j: int|
                0 <= i < j < s.drop_first().len() ==> lex_leq()(s[i + 1], s[j + 1])
                    && s.drop_first()[i] == s[i + 1] && s.drop_first()[j] == s[j + 1]);
        }
        lemma_insert_sorted(s.drop_first(), x);
        let inner = insert_sorted(s.drop_first(), x);
        assert forall|i: int, j: int| 0 <= i < j < r.len() implies #[trigger] lex_leq()(
            r[i],
            r[j],
        ) by {
            if i == 0 {
                assert(r[j] == inner[j - 1]);
                assert(inner.to_multiset().count(inner[j - 1]) > 0) by {
                    assert(inner.contains(inner[j - 1]));
                }
                assert(s.drop_first().to_multiset().insert(x).count(inner[j - 1]) > 0);
                if inner[j - 1] == x {
                    assert(lex_leq()(s[0], x));
                } else {
                    assert(s.drop_first().to_multiset().count(inner[j - 1]) > 0);
                    assert(s.drop_first().contains(inner[j - 1]));
                    let w = choose|w: int|
                        0 <= w < s.drop_first().len() && s.drop_first()[w] == inner[j - 1];
                    assert(lex_leq()(s[0], s[w + 1]));
                }
            } else {
                assert(r[i] == inner[i - 1] && r[j] == inner[j - 1]);
                assert(lex_leq()(inner[i - 1], inner[j - 1]));
            }
        }
        assert(r =~= seq![s[0]] + inner);
        vstd::seq_lib::lemma_multiset_commutative(seq![s[0]], inner);
        assert(seq![s[0]] =~= Seq::<Seq<char>>::empty().push(s[0]));
        assert(s =~= Seq::<Seq<char>>::empty().push(s[0]) + s.drop_first());
        vstd::seq_lib::lemma_multiset_commutative(Seq::<Seq<char>>::empty().push(s[0]), s.drop_first());
        assert(r.to_multiset() =~= s.to_multiset().insert(x));
    }
}

pub proof fn lemma_sort_tokens(s: Seq<Seq<char>>)
    ensures
        vstd::relations::sorted_by(sort_tokens(s), lex_leq()),
        sort_tokens(s).to_multiset() =~= s.to_multiset(),
        sort_tokens(s).len() == s.len(),
    decreases s.len(),
{
    broadcast use vstd::seq_lib::group_to_multiset_ensures;
    broadcast use vstd::multiset::group_multiset_axioms;

    if s.len() > 0 {
        lemma_sort_tokens(s.drop_last());
        lemma_insert_sorted(sort_tokens(s.drop_last()), s.last());
        assert(s =~= s.drop_last().push(s.last()));
        assert(s.drop_last().push(s.last()).to_multiset() =~= s.drop_last().to_multiset().insert(
            s.last(),
        ));
    }
}

/// The tokens with every occurrence of `name` removed, in their order.
pub open spec fn remove_token(toks: Seq<Seq<char>>, name: Seq<char>) -> Seq<Seq<char>>
    decreases toks.len(),
{
    if toks.len() == 0 {
        toks
    } else if toks[0] == name {
        remove_token(toks.drop_first(), name)
    } else {
        seq![toks[0]] + remove_token(toks.drop_first(), name)
    }
}

pub proof fn lemma_remove_token_concat(a: Seq<Seq<char>>, b: Seq<Seq<char>>, name: Seq<char>)
    ensures
        remove_token(a + b, name) == remove_token(a, name) + remove_token(b, name),
    decreases a.len(),
{
    if a.len() == 0 {
        assert(a + b =~= b);
        assert(remove_token(a, name) + remove_token(b, name) =~= remove_token(b, name));
    } else {
        assert((a + b).drop_first() =~= a.drop_first() + b);
        lemma_remove_token_concat(a.drop_first(), b, name);
        assert(remove_token(a + b, name) =~= remove_token(a, name) + remove_token(b, name));
    }
}

pub proof fn lemma_remove_token_counts(toks: Seq<Seq<char>>, name: Seq<char>)
    ensures
        forall|x: Seq<char>|
            #[trigger] remove_token(toks, name).to_multiset().count(x) == if x == name {
                0
            } else {
                toks.to_multiset().count(x)
            },
    decreases toks.len(),
{
    broadcast use vstd::seq_lib::group_to_multiset_ensures;
    broadcast use vstd::multiset::group_multiset_axioms;

    if toks.len() == 0 {
        assert(toks.to_multiset() =~= Multiset::<Seq<char>>::empty());
        assert(remove_token(toks, name).to_multiset() =~= Multiset::<Seq<char>>::empty());
    } else {
        lemma_remove_token_counts(toks.drop_first(), name);
        assert(toks =~= Seq::<Seq<char>>::empty().push(toks[0]) + toks.drop_first());
        vstd::seq_lib::lemma_multiset_commutative(
            Seq::<Seq<char>>::empty().push(toks[0]),
            toks.drop_first(),
        );
        if toks[0] != name {
            assert(remove_token(toks, name) =~= Seq::<Seq<char>>::empty().push(toks[0])
                + remove_token(toks.drop_first(), name));
            vstd::seq_lib::lemma_multiset_commutative(
                Seq::<Seq<char>>::empty().push(toks[0]),
                remove_token(toks.drop_first(), name),
            );
        }
    }
}

pub proof fn lemma_remove_token_sorted(toks: Seq<Seq<char>>, name: Seq<char>)
    requires
        vstd::relations::sorted_by(toks, lex_leq()),
    ensures
        vstd::relations::sorted_by(remove_token(toks, name), lex_leq()),
    decreases toks.len(),
{
    broadcast use vstd::seq_lib::group_to_multiset_ensures;
    broadcast use vstd::multiset::group_multiset_axioms;

    if toks.len() > 0 {
        assert(vstd::relations::sorted_by(toks.drop_first(), lex_leq())) by {
            assert(forall|i: int, j: int|
                0 <= i < j < toks.drop_first().len() ==> lex_leq()(toks[i + 1], toks[j + 1])
                    && toks.drop_first()[i] == toks[i + 1] && toks.drop_first()[j] == toks[j
                    + 1]);
        }
        lemma_remove_token_sorted(toks.drop_first(), name);
        if toks[0] != name {
            let inner = remove_token(toks.drop_first(), name);
            let r = seq![toks[0]] + inner;
            lemma_remove_token_counts(toks.drop_first(), name);
            assert forall|i: int, j: int| 0 <= i < j < r.len() implies #[trigger] lex_leq()(
                r[i],
                r[j],
            ) by {
                if i == 0 {
                    assert(r[j] == inner[j - 1]);
                    assert(inner.to_multiset().count(inner[j - 1]) > 0) by {
                        assert(inner.contains(inner[j - 1]));
                    }
                    assert(toks.drop_first().to_multiset().count(inner[j - 1]) > 0);
                    assert(toks.drop_first().contains(inner[j - 1]));
                    let w = choose|w: int|
                        0 <= w < toks.drop_first().len() && toks.drop_first()[w] == inner[j
                            - 1];
                    assert(lex_leq()(toks[0], toks[w + 1]));
                } else {
                    assert(lex_leq()(inner[i - 1], inner[j - 1]));
                }
            }
        }
    }
}

/// The marker body: each token on its own two-space-indented line.
pub open spec fn list_items(toks: Seq<Seq<char>>) -> Seq<char>
    decreases toks.len(),
{
    if toks.len() == 0 {
        Seq::empty()
    } else {
        seq!['\n', ' ', ' '] + toks[0] + list_items(toks.drop_first())
    }
}

pub proof fn lemma_list_items_snoc(a: Seq<Seq<char>>, x: Seq<char>)
    ensures
        list_items(a + seq![x]) == list_items(a) + seq!['\n', ' ', ' '] + x,
    decreases a.len(),
{
    if a.len() == 0 {
        reveal_with_fuel(list_items, 2);
        assert(a + seq![x] =~= seq![x]);
        assert(seq![x].drop_first() =~= Seq::<Seq<char>>::empty());
        assert(list_items(a + seq![x]) =~= list_items(a) + seq!['\n', ' ', ' '] + x);
    } else {
        assert((a + seq![x]).drop_first() =~= a.drop_first() + seq![x]);
        lemma_list_items_snoc(a.drop_first(), x);
        assert(list_items(a + seq![x]) =~= list_items(a) + seq!['\n', ' ', ' '] + x);
    }
}

/// The serialized marker: the empty list keeps the literal empty-parens
/// form; otherwise one token per indented line.
pub open spec fn render_plugin_list(toks: Seq<Seq<char>>) -> Seq<char> {
    if toks.len() == 0 {
        "plugins=()"@
    } else {
        "plugins=("@ + list_items(toks) + seq!['\n', ')']
    }
}

/// The document with the characters from `a` through `b` inclusive
/// replaced by `repl`.
pub open spec fn spliced(content: Seq<char>, a: int, b: int, repl: Seq<char>) -> Seq<char> {
    content.take(a) + repl + content.skip(b + 1)
}

/// The document after enabling `name`: the whole token list, with the
/// new name, re-rendered in sorted order over the old marker span.
pub open spec fn added_plugin_file(content: Seq<char>, name: Seq<char>) -> Seq<char> {
    let span = marker_span(content)->Some_0;
    spliced(
        content,
        span.0,
        span.1,
        render_plugin_list(sort_tokens(plugin_tokens(content).push(name))),
    )
}

/// The document after disabling `name`: the remaining tokens re-rendered
/// in their current order over the old marker span.
pub open spec fn removed_plugin_file(content: Seq<char>, name: Seq<char>) -> Seq<char> {
    let span = marker_span(content)->Some_0;
    spliced(
        content,
        span.0,
        span.1,
        render_plugin_list(remove_token(plugin_tokens(content), name)),
    )
}

/// The tokens in lexicographic order, as owned strings.
fn sort_plugin_names(v: &Vec<String>) -> (r: Vec<String>)
    ensures
        r.deep_view() == sort_tokens(v.deep_view()),
{
    let ghost dv = v.deep_view();
    let mut out: Vec<String> = Vec::new();
    let mut i: usize = 0;
    proof {
        assert(dv.take(0) =~= Seq::<Seq<char>>::empty());
        assert(out.deep_view() =~= sort_tokens(dv.take(0)));
        lemma_sort_tokens(dv.take(0));
    }
    while i < v.len()
        invariant
            0 <= i <= v.len(),
            dv == v.deep_view(),
            dv.len() == v.len(),
            out.deep_view() == sort_tokens(dv.take(i as int)),
            vstd::relations::sorted_by(out.deep_view(), lex_leq()),
        decreases v.len() - i,
    {
        let x = v[i].clone();
        let ghost odv = out.deep_view();
        let mut p: usize = 0;
        while p < out.len() && !str_le(x.as_str(), out[p].as_str())
            invariant
                0 <= p <= out.len(),
                odv == out.deep_view(),
                odv.len() == out.len(),
                x@ == dv[i as int],
                forall|k: int| 0 <= k < p ==> !lex_le(x@, #[trigger] odv[k]),
            decreases out.len() - p,
        {
            p = p + 1;
        }
        out.insert(p, x);
        proof {
            lemma_insert_sorted_at(odv, dv[i as int], p as int);
            assert(out.deep_view() =~= odv.insert(p as int, dv[i as int]));
            assert(dv.take(i + 1).drop_last() =~= dv.take(i as int));
            assert(dv.take(i + 1).last() == dv[i as int]);
            assert(out.deep_view() == sort_tokens(dv.take(i + 1)));
            lemma_sort_tokens(dv.take(i + 1));
        }
        i = i + 1;
    }
    proof {
        assert(dv.take(v.len() as int) =~= dv);
    }
    out
}

/// Inserting at the first position whose element does not precede `x`
/// is sorted insertion.
pub proof fn lemma_insert_sorted_at(s: Seq<Seq<char>>, x: Seq<char>, p: int)
    requires
        0 <= p <= s.len(),
        forall|k: int| 0 <= k < p ==> !lex_le(x, #[trigger] s[k]),
        p < s.len() ==> lex_le(x, s[p]),
    ensures
        insert_sorted(s, x) == s.insert(p, x),
    decreases s.len(),
{
    if s.len() == 0 {
        assert(insert_sorted(s, x) =~= s.insert(0, x));
    } else if p == 0 {
        assert(insert_sorted(s, x) =~= s.insert(0, x));
    } else {
        assert(!lex_le(x, s[0]));
        assert(forall|k: int|
            0 <= k < p - 1 ==> s.drop_first()[k] == s[k + 1] && !lex_le(
                x,
                #[trigger] s.drop_first()[k],
            ));
        lemma_insert_sorted_at(s.drop_first(), x, p - 1);
        assert(insert_sorted(s, x) =~= s.insert(p, x));
    }
}

/// Whether `name` is among the tokens.
fn names_contain(v: &Vec<String>, name: &str) -> (r: bool)
    ensures
        r == has_token(v.deep_view(), name@),
{
    let mut i: usize = 0;
    while i < v.len()
        invariant
            0 <= i <= v.len(),
            forall|k: int| 0 <= k < i ==> v.deep_view()[k] != name@,
        decreases v.len() - i,
    {
        if str_eq(v[i].as_str(), name) {
            assert(v.deep_view()[i as int] == name@);
            return true;
        }
        i = i + 1;
    }
    proof {
        if has_token(v.deep_view(), name@) {
            let k = choose|k: int|
                0 <= k < v.deep_view().len() && #[trigger] v.deep_view()[k] == name@;
            assert(v.deep_view()[k] != name@);
        }
    }
    false
}

/// Serializes the token list into its marker form.
fn render_plugin_list_str(toks: &Vec<String>) -> (r: String)
    ensures
        r@ == render_plugin_list(toks.deep_view()),
{
    let ghost dv = toks.deep_view();
    let mut out = String::new();
    if toks.len() == 0 {
        out.append("plugins=()");
        proof {
            assert(out@ =~= "plugins=()"@);
        }
        return out;
    }
    out.append("plugins=(");
    let mut i: usize = 0;
    proof {
        assert(dv.take(0) =~= Seq::<Seq<char>>::empty());
        assert(out@ =~= "plugins=("@ + list_items(dv.take(0)));
    }
    while i < toks.len()
        invariant
            0 <= i <= toks.len(),
            dv == toks.deep_view(),
            dv.len() == toks.len(),
            out@ == "plugins=("@ + list_items(dv.take(i as int)),
        decreases toks.len() - i,
    {
        out.append("\n  ");
        out.append(toks[i].as_str());
        proof {
            reveal_strlit("\n  ");
            assert("\n  "@ =~= seq!['\n', ' ', ' ']);
            assert(dv.take(i + 1) =~= dv.take(i as int) + seq![dv[i as int]]);
            lemma_list_items_snoc(dv.take(i as int), dv[i as int]);
            assert(out@ =~= "plugins=("@ + list_items(dv.take(i + 1)));
        }
        i = i + 1;
    }
    out.append("\n)");
    proof {
        reveal_strlit("\n)");
        assert("\n)"@ =~= seq!['\n', ')']);
        assert(dv.take(toks.len() as int) =~= dv);
        assert(out@ =~= render_plugin_list(dv));
    }
    out
}

/// Replaces the span from `a` through `b` inclusive with `repl`.
fn splice_str(content: &str, a: usize, b: usize, repl: &str) -> (r: String)
    requires
        a <= b < content@.len(),
    ensures
        r@ == spliced(content@, a as int, b as int, repl@),
{
    let n = content.unicode_len();
    let mut out = content.substring_char(0, a).to_owned();
    out.append(repl);
    let tail = content.substring_char(b + 1, n);
    out.append(tail);
    proof {
        assert(out@ =~= spliced(content@, a as int, b as int, repl@));
    }
    out
}

/// Enables a plugin: the token list, with the new name, is re-rendered
/// in sorted order over the marker span; the rest of the document is
/// untouched. Refused when the marker is absent or the name is already
/// enabled.
pub fn add_plugin_text(content: &str, name: &str) -> (r: Result<String, EditError>)
    ensures
        marker_span(content@) is None ==> r == Err::<String, EditError>(
            EditError::SourceMissing,
        ),
        marker_span(content@) is Some && has_token(plugin_tokens(content@), name@) ==> r
            == Err::<String, EditError>(EditError::AlreadyExists),
        marker_span(content@) is Some && !has_token(plugin_tokens(content@), name@) ==> r
            is Ok && r->Ok_0@ == added_plugin_file(content@, name@),
{
    match find_marker_span(content) {
        None => Err(EditError::SourceMissing),
        Some(span) => {
            let interior = content.substring_char(span.0 + 9, span.1);
            proof {
                assert(interior@ =~= content@.subrange(span.0 as int + 9, span.1 as int));
            }
            let mut toks = split_ws(interior);
            if names_contain(&toks, name) {
                return Err(EditError::AlreadyExists);
            }
            let ghost before = toks.deep_view();
            toks.push(name.to_owned());
            proof {
                assert(toks.deep_view() =~= before.push(name@));
            }
            let sorted = sort_plugin_names(&toks);
            let rendered = render_plugin_list_str(&sorted);
            Ok(splice_str(content, span.0, span.1, rendered.as_str()))
        },
    }
}

/// Disables a plugin: the remaining tokens are re-rendered, in their
/// current order, over the marker span; the rest of the document is
/// untouched. Refused when the marker is absent or the name is not
/// enabled.
pub fn remove_plugin_text(content: &str, name: &str) -> (r: Result<String, EditError>)
    ensures
        marker_span(content@) is None ==> r == Err::<String, EditError>(
            EditError::SourceMissing,
        ),
        marker_span(content@) is Some && !has_token(plugin_tokens(content@), name@) ==> r
            == Err::<String, EditError>(EditError::NotFound),
        marker_span(content@) is Some && has_token(plugin_tokens(content@), name@) ==> r
            is Ok && r->Ok_0@ == removed_plugin_file(content@, name@),
{
    match find_marker_span(content) {
        None => Err(EditError::SourceMissing),
        Some(span) => {
            let interior = content.substring_char(span.0 + 9, span.1);
            proof {
                assert(interior@ =~= content@.subrange(span.0 as int + 9, span.1 as int));
            }
            let toks = split_ws(interior);
            if !names_contain(&toks, name) {
                return Err(EditError::NotFound);
            }
            let ghost dv = toks.deep_view();
            let mut kept: Vec<String> = Vec::new();
            let mut i: usize = 0;
            proof {
                assert(dv.take(0) =~= Seq::<Seq<char>>::empty());
                assert(kept.deep_view() =~= remove_token(dv.take(0), name@));
            }
            while i < toks.len()
                invariant
                    0 <= i <= toks.len(),
                    dv == toks.deep_view(),
                    dv.len() == toks.len(),
                    kept.deep_view() == remove_token(dv.take(i as int), name@),
                decreases toks.len() - i,
            {
                let ghost prev = kept.deep_view();
                let mut removed = false;
                if str_eq(toks[i].as_str(), name) {
                    removed = true;
                } else {
                    kept.push(toks[i].clone());
                }
                proof {
                    reveal_with_fuel(remove_token, 2);
                    assert(dv.take(i + 1) =~= dv.take(i as int) + seq![dv[i as int]]);
                    lemma_remove_token_concat(dv.take(i as int), seq![dv[i as int]], name@);
                    assert(seq![dv[i as int]].drop_first() =~= Seq::<Seq<char>>::empty());
                    if removed {
                        assert(remove_token(seq![dv[i as int]], name@) =~= Seq::<Seq<
                            char,
                        >>::empty());
                    } else {
                        assert(remove_token(seq![dv[i as int]], name@) =~= seq![dv[i as int]]);
                    }
                    assert(kept.deep_view() =~= remove_token(dv.take(i + 1), name@));
                }
                i = i + 1;
            }
            proof {
                assert(dv.take(toks.len() as int) =~= dv);
            }
            let rendered = render_plugin_list_str(&kept);
            Ok(splice_str(content, span.0, span.1, rendered.as_str()))
        },
    }
}

/// Which plugin framework manages a plugin.
#[derive(Debug, Clone, Copy, PartialEq, Eq, Structural)]
pub enum PluginManager {
    OhMyZsh,
    Zinit,
    Custom,
}

/// One plugin as presented to a caller: its name, whether it is on the
/// enabled list, whether its directory is installed, and the catalog
/// metadata when the name is known.
#[derive(Debug, Clone)]
pub struct Plugin {
    pub name: String,
    pub enabled: bool,
    pub installed: bool,
    pub description: Option<String>,
    pub repository: Option<String>,
    pub manager: PluginManager,
    pub install_command: Option<String>,
}

/// Builds the presentation record for one plugin name, filling the
/// metadata fields from the static catalog.
pub fn make_plugin(name: &str, enabled: bool, installed: bool) -> (p: Plugin)
    ensures
        p.name@ == name@,
        p.enabled == enabled,
        p.installed == installed,
        p.manager == PluginManager::OhMyZsh,
        match crate::catalog::catalog_info(name@) {
            Some(t) => p.description is Some && p.description->Some_0@ == t.0 && p.repository
                is Some && p.repository->Some_0@ == t.1 && p.install_command is Some
                && p.install_command->Some_0@ == t.2,
            None => p.description is None && p.repository is None && p.install_command
                is None,
        },
{
    let info = crate::catalog::get_plugin_info(name);
    Plugin {
        name: name.to_owned(),
        enabled,
        installed,
        description: info.0,
        repository: info.1,
        manager: PluginManager::OhMyZsh,
        install_command: info.2,
    }
}

/// The enabled plugin names, sorted as they are presented.
pub fn enabled_plugin_names(content: &str) -> (r: Vec<String>)
    ensures
        r.deep_view() == sort_tokens(plugin_tokens(content@)),
{
    let toks = parse_plugins_from_file(content);
    sort_plugin_names(&toks)
}

/// The fixed list of commonly suggested plugin names, in catalog order.
pub open spec fn popular_names() -> Seq<Seq<char>> {
    seq![
        "git"@,
        "zsh-autosuggestions"@,
        "zsh-syntax-highlighting"@,
        "alias-tips"@,
        "fzf"@,
        "fzf-tab"@,
        "docker"@,
        "docker-compose"@,
        "kubectl"@,
        "npm"@,
        "node"@,
        "rust"@,
        "python"@,
        "sudo"@,
        "web-search"@,
        "history"@,
        "colored-man-pages"@,
        "command-not-found"@,
    ]
}

/// The fixed list of commonly suggested plugin names.
pub fn popular_plugin_names() -> (r: Vec<String>)
    ensures
        r.deep_view() == popular_names(),
{
    let mut v: Vec<String> = Vec::new();
    v.push("git".to_owned());
    v.push("zsh-autosuggestions".to_owned());
    v.push("zsh-syntax-highlighting".to_owned());
    v.push("alias-tips".to_owned());
    v.push("fzf".to_owned());
    v.push("fzf-tab".to_owned());
    v.push("docker".to_owned());
    v.push("docker-compose".to_owned());
    v.push("kubectl".to_owned());
    v.push("npm".to_owned());
    v.push("node".to_owned());
    v.push("rust".to_owned());
    v.push("python".to_owned());
    v.push("sudo".to_owned());
    v.push("web-search".to_owned());
    v.push("history".to_owned());
    v.push("colored-man-pages".to_owned());
    v.push("command-not-found".to_owned());
    proof {
        assert(v.deep_view() =~= popular_names());
    }
    v
}

/// The names of `pop` that are not in `enabled`, in their order.
pub open spec fn missing_from(pop: Seq<Seq<char>>, enabled: Seq<Seq<char>>) -> Seq<Seq<char>>
    decreases pop.len(),
{
    if pop.len() == 0 {
        pop
    } else if has_token(enabled, pop[0]) {
        missing_from(pop.drop_first(), enabled)
    } else {
        seq![pop[0]] + missing_from(pop.drop_first(), enabled)
    }
}

pub proof fn lemma_missing_from_concat(
    a: Seq<Seq<char>>,
    b: Seq<Seq<char>>,
    enabled: Seq<Seq<char>>,
)
    ensures
        missing_from(a + b, enabled) == missing_from(a, enabled) + missing_from(b, enabled),
    decreases a.len(),
{
    if a.len() == 0 {
        assert(a + b =~= b);
        assert(missing_from(a, enabled) + missing_from(b, enabled) =~= missing_from(
            b,
            enabled,
        ));
    } else {
        assert((a + b).drop_first() =~= a.drop_first() + b);
        lemma_missing_from_concat(a.drop_first(), b, enabled);
        assert(missing_from(a + b, enabled) =~= missing_from(a, enabled) + missing_from(
            b,
            enabled,
        ));
    }
}

/// The commonly suggested names that are not currently enabled, sorted
/// as they are presented.
pub fn missing_popular(enabled: &Vec<String>) -> (r: Vec<String>)
    ensures
        r.deep_view() == sort_tokens(missing_from(popular_names(), enabled.deep_view())),
{
    let pop = popular_plugin_names();
    let ghost pv = pop.deep_view();
    let mut keep: Vec<String> = Vec::new();
    let mut i: usize = 0;
    proof {
        assert(pv.take(0) =~= Seq::<Seq<char>>::empty());
        assert(keep.deep_view() =~= missing_from(pv.take(0), enabled.deep_view()));
    }
    while i < pop.len()
        invariant
            0 <= i <= pop.len(),
            pv == pop.deep_view(),
            pv == popular_names(),
            pv.len() == pop.len(),
            keep.deep_view() == missing_from(pv.take(i as int), enabled.deep_view()),
        decreases pop.len() - i,
    {
        let ghost prev = keep.deep_view();
        let mut dropped = false;
        if names_contain(enabled, pop[i].as_str()) {
            dropped = true;
        } else {
            keep.push(pop[i].clone());
        }
        proof {
            reveal_with_fuel(missing_from, 2);
            assert(pv.take(i + 1) =~= pv.take(i as int) + seq![pv[i as int]]);
            lemma_missing_from_concat(pv.take(i as int), seq![pv[i as int]], enabled.deep_view());
            assert(seq![pv[i as int]].drop_first() =~= Seq::<Seq<char>>::empty());
            if dropped {
                assert(missing_from(seq![pv[i as int]], enabled.deep_view()) =~= Seq::<Seq<
                    char,
                >>::empty());
            } else {
                assert(missing_from(seq![pv[i as int]], enabled.deep_view()) =~= seq![
                    pv[i as int],
                ]);
            }
            assert(keep.deep_view() =~= missing_from(pv.take(i + 1), enabled.deep_view()));
        }
        i = i + 1;
    }
    proof {
        assert(pv.take(pop.len() as int) =~= pv);
    }
    sort_plugin_names(&keep)
}

/// Tokens on whitespace-separated indented lines tokenize back to
/// themselves.
pub proof fn lemma_tokens_of_items(toks: Seq<Seq<char>>)
    requires
        forall|i: int|
            0 <= i < toks.len() ==> (#[trigger] toks[i]).len() > 0 && forall|k: int|
                0 <= k < toks[i].len() ==> !is_space_char(#[trigger] toks[i][k]),
    ensures
        tokens_of(list_items(toks) + seq!['\n']) == toks,
    decreases toks.len(),
{
    if toks.len() == 0 {
        reveal_with_fuel(tokens_of, 2);
        assert(list_items(toks) + seq!['\n'] =~= seq!['\n']);
        assert(seq!['\n'].drop_first() =~= Seq::<char>::empty());
        assert(tokens_of(seq!['\n']) =~= Seq::<Seq<char>>::empty());
    } else {
        let t0 = toks[0];
        let tail = list_items(toks.drop_first()) + seq!['\n'];
        let s0 = list_items(toks) + seq!['\n'];
        assert(s0 =~= seq!['\n', ' ', ' '] + t0 + tail);
        let s1 = seq![' ', ' '] + t0 + tail;
        let s2 = seq![' '] + t0 + tail;
        let s3 = t0 + tail;
        assert(s0[0] == '\n' && is_space_char(s0[0]));
        assert(s0.drop_first() =~= s1);
        assert(s1[0] == ' ' && is_space_char(s1[0]));
        assert(s1.drop_first() =~= s2);
        assert(s2[0] == ' ' && is_space_char(s2[0]));
        assert(s2.drop_first() =~= s3);
        assert(s3[0] == t0[0]);
        assert(!is_space_char(s3[0]));
        lemma_token_end(s3);
        let e = token_end(s3);
        assert(forall|k: int| 0 <= k < t0.len() ==> s3[k] == t0[k]);
        assert(s3[t0.len() as int] == tail[0]);
        assert(tail[0] == '\n') by {
            if toks.drop_first().len() == 0 {
                assert(tail =~= seq!['\n']);
            }
        }
        assert(e == t0.len()) by {
            if e < t0.len() {
                assert(is_space_char(s3[e]));
                assert(!is_space_char(t0[e]));
            }
            if e > t0.len() {
                assert(!is_space_char(s3[t0.len() as int]));
            }
        }
        assert(s3.take(e) =~= t0);
        assert(s3.skip(e) =~= tail);
        lemma_tokens_of_items(toks.drop_first());
        assert(tokens_of(s0) == tokens_of(s1));
        assert(tokens_of(s1) == tokens_of(s2));
        assert(tokens_of(s2) == tokens_of(s3));
        assert(tokens_of(s3) == seq![t0] + tokens_of(tail));
        assert(tokens_of(s0) =~= toks);
    }
}

pub proof fn lemma_list_items_no_close(toks: Seq<Seq<char>>)
    requires
        forall|i: int| 0 <= i < toks.len() ==> !(#[trigger] toks[i]).contains(')'),
    ensures
        !list_items(toks).contains(')'),
    decreases toks.len(),
{
    if toks.len() > 0 {
        lemma_list_items_no_close(toks.drop_first());
        let s = list_items(toks);
        assert(s =~= seq!['\n', ' ', ' '] + toks[0] + list_items(toks.drop_first()));
        if s.contains(')') {
            let w = choose|w: int| 0 <= w < s.len() && s[w] == ')';
            if w < 3 {
            } else if w < 3 + toks[0].len() {
                assert(toks[0][w - 3] == ')');
                assert(toks[0].contains(')'));
            } else {
                assert(list_items(toks.drop_first())[w - 3 - toks[0].len()] == ')');
                assert(list_items(toks.drop_first()).contains(')'));
            }
        }
    }
}

/// The characters of the marker keyword, and that none of its proper
/// suffixes starts it over.
pub proof fn lemma_marker_lit()
    ensures
        "plugins=("@ == seq!['p', 'l', 'u', 'g', 'i', 'n', 's', '=', '('],
        "plugins=()"@ == seq!['p', 'l', 'u', 'g', 'i', 'n', 's', '=', '(', ')'],
        forall|o: int| 1 <= o <= 8 ==> "plugins=("@[o] != 'p',
{
    reveal_strlit("plugins=(");
    reveal_strlit("plugins=()");
    assert("plugins=("@ =~= seq!['p', 'l', 'u', 'g', 'i', 'n', 's', '=', '(']);
    assert("plugins=()"@ =~= seq!['p', 'l', 'u', 'g', 'i', 'n', 's', '=', '(', ')']);
}

/// After splicing a replacement that starts with the marker keyword
/// over the first marker span, the first marker of the new document is
/// still at the same position.
pub proof fn lemma_spliced_first_marker(content: Seq<char>, repl: Seq<char>, a: int, b: int)
    requires
        0 <= a,
        a + 9 <= content.len(),
        forall|k: int| 0 <= k < a ==> !marker_at(content, k),
        a <= b < content.len(),
        repl.len() >= 9,
        repl.subrange(0, 9) == "plugins=("@,
    ensures
        marker_at(spliced(content, a, b, repl), a),
        find_marker_from(spliced(content, a, b, repl), 0) == a,
{
    lemma_marker_lit();
    let lit = "plugins=("@;
    let c2 = spliced(content, a, b, repl);
    assert(c2.len() == a + repl.len() + (content.len() - b - 1));
    assert(c2.subrange(a, a + 9) =~= repl.subrange(0, 9));
    assert(marker_at(c2, a));
    assert forall|k: int| 0 <= k < a implies !marker_at(c2, k) by {
        if marker_at(c2, k) {
            if k + 9 <= a {
                assert(c2.subrange(k, k + 9) =~= content.subrange(k, k + 9));
                assert(marker_at(content, k));
            } else {
                let o = a - k;
                assert(1 <= o <= 8);
                assert(c2.subrange(k, k + 9)[o] == lit[o]);
                assert(c2[a] == lit[o]);
                assert(c2[a] == repl[0]);
                assert(repl.subrange(0, 9)[0] == 'p');
                assert(repl[0] == 'p');
                assert(lit[o] != 'p');
            }
        }
    }
    lemma_find_marker(c2, 0);
    let a2 = find_marker_from(c2, 0);
    if a2 < a {
        assert(marker_at(c2, a2));
    }
    if a2 > a {
        assert(!marker_at(c2, a));
    }
}

/// Splicing a rendered list over the marker span leaves a document
/// whose first complete marker is that very span, and whose token list
/// is the rendered one.
#[verifier::rlimit(60)]
pub proof fn lemma_splice_reparse(content: Seq<char>, toks: Seq<Seq<char>>)
    requires
        marker_span(content) is Some,
        forall|i: int|
            0 <= i < toks.len() ==> (#[trigger] toks[i]).len() > 0 && !toks[i].contains(')')
                && forall|k: int| 0 <= k < toks[i].len() ==> !is_space_char(
                #[trigger] toks[i][k],
            ),
    ensures
        ({
            let span = marker_span(content)->Some_0;
            let repl = render_plugin_list(toks);
            let c2 = spliced(content, span.0, span.1, repl);
            marker_span(c2) == Some((span.0, span.0 + repl.len() - 1)) && plugin_tokens(c2)
                == toks
        }),
{
    lemma_marker_lit();
    let lit = "plugins=("@;
    let span = marker_span(content)->Some_0;
    let a = span.0;
    let b = span.1;
    let repl = render_plugin_list(toks);
    let c2 = spliced(content, a, b, repl);
    let interior = if toks.len() == 0 {
        Seq::<char>::empty()
    } else {
        list_items(toks) + seq!['\n']
    };
    lemma_find_marker(content, 0);
    assert(a == find_marker_from(content, 0));
    assert(marker_at(content, a));
    assert(0 <= a && a + 9 <= content.len());
    lemma_find_first(content.skip(a + 9), ')');
    assert(b == a + 9 + find_first(content.skip(a + 9), ')'));
    assert(b < content.len()) by {
        assert(find_first(content.skip(a + 9), ')') < content.skip(a + 9).len());
    }
    assert(repl =~= lit + interior + seq![')']) by {
        if toks.len() == 0 {
            assert("plugins=()"@ =~= lit + Seq::<char>::empty() + seq![')']);
        }
    }
    assert(!interior.contains(')')) by {
        if toks.len() > 0 {
            lemma_list_items_no_close(toks);
            if interior.contains(')') {
                let w = choose|w: int| 0 <= w < interior.len() && interior[w] == ')';
                if w < list_items(toks).len() {
                    assert(list_items(toks)[w] == ')');
                }
            }
        }
    }
    assert(c2.len() == a + repl.len() + (content.len() - b - 1));
    assert(repl.subrange(0, 9) =~= lit);
    lemma_spliced_first_marker(content, repl, a, b);
    lemma_find_marker(c2, 0);
    let a2 = find_marker_from(c2, 0);
    assert(a2 == a);
    // the first closing parenthesis after the marker ends the span
    let close = a + 9 + interior.len();
    assert(close == a + repl.len() - 1);
    let rest2 = c2.skip(a + 9);
    assert(forall|k: int| 0 <= k < interior.len() ==> rest2[k] == interior[k]);
    assert(rest2[interior.len() as int] == ')');
    lemma_find_first(rest2, ')');
    let rel2 = find_first(rest2, ')');
    assert(rel2 == interior.len()) by {
        if rel2 < interior.len() {
            assert(rest2[rel2] == ')');
            assert(interior[rel2] == ')');
            assert(interior.contains(')'));
        }
        if rel2 > interior.len() {
            assert(rest2[interior.len() as int] != ')');
        }
    }
    assert(marker_span(c2) == Some((a, close)));
    // the spliced token list reads back as the given tokens
    assert(c2.subrange(a + 9, close) =~= interior);
    if toks.len() == 0 {
        assert(tokens_of(interior) =~= Seq::<Seq<char>>::empty());
        assert(plugin_tokens(c2) =~= toks);
    } else {
        lemma_tokens_of_items(toks);
        assert(plugin_tokens(c2) == toks);
    }
}

/// Enabling a plugin and then disabling it restores the document that
/// re-rendering the original token list in sorted order would give:
/// the add is undone, up to the sort normalization every add performs.
pub proof fn lemma_plugin_add_remove(content: Seq<char>, name: Seq<char>)
    requires
        marker_span(content) is Some,
        !has_token(plugin_tokens(content), name),
        name.len() > 0,
        forall|k: int| 0 <= k < name.len() ==> !is_space_char(#[trigger] name[k]),
        !name.contains(')'),
    ensures
        marker_span(added_plugin_file(content, name)) is Some,
        plugin_tokens(added_plugin_file(content, name)) == sort_tokens(
            plugin_tokens(content).push(name),
        ),
        has_token(plugin_tokens(added_plugin_file(content, name)), name),
        removed_plugin_file(added_plugin_file(content, name), name) == spliced(
            content,
            marker_span(content)->Some_0.0,
            marker_span(content)->Some_0.1,
            render_plugin_list(sort_tokens(plugin_tokens(content))),
        ),
{
    broadcast use vstd::seq_lib::group_to_multiset_ensures;
    broadcast use vstd::multiset::group_multiset_axioms;

    let span = marker_span(content)->Some_0;
    let a = span.0;
    let b = span.1;
    let toks = plugin_tokens(content);
    let interior = content.subrange(a + 9, b);
    lemma_find_marker(content, 0);
    lemma_find_first(content.skip(a + 9), ')');
    assert(!interior.contains(')')) by {
        if interior.contains(')') {
            let w = choose|w: int| 0 <= w < interior.len() && interior[w] == ')';
            assert(content.skip(a + 9)[w] == ')');
        }
    }
    lemma_tokens_of_wf(interior, ')');
    assert(toks == tokens_of(interior));
    let pushed = toks.push(name);
    let sorted2 = sort_tokens(pushed);
    lemma_sort_tokens(pushed);
    // every token of the sorted list is well-formed
    assert forall|i: int| 0 <= i < sorted2.len() implies (#[trigger] sorted2[i]).len() > 0
        && !sorted2[i].contains(')') && forall|k: int|
        0 <= k < sorted2[i].len() ==> !is_space_char(#[trigger] sorted2[i][k]) by {
        assert(sorted2.contains(sorted2[i]));
        assert(sorted2.to_multiset().count(sorted2[i]) > 0);
        assert(pushed.to_multiset().count(sorted2[i]) > 0);
        assert(pushed.contains(sorted2[i]));
        let w = choose|w: int| 0 <= w < pushed.len() && pushed[w] == sorted2[i];
        if w < toks.len() {
            assert(toks[w].len() > 0 && !toks[w].contains(')'));
        }
    }
    lemma_splice_reparse(content, sorted2);
    let repl2 = render_plugin_list(sorted2);
    let c2 = added_plugin_file(content, name);
    assert(c2 == spliced(content, a, b, repl2));
    let close2 = a + repl2.len() - 1;
    assert(marker_span(c2) == Some((a, close2)));
    assert(plugin_tokens(c2) == sorted2);
    // the new name is on the list
    assert(pushed.to_multiset().count(name) > 0) by {
        assert(pushed[toks.len() as int] == name);
        assert(pushed.contains(name));
    }
    assert(has_token(sorted2, name)) by {
        assert(sorted2.to_multiset().count(name) > 0);
        assert(sorted2.contains(name));
        let w = choose|w: int| 0 <= w < sorted2.len() && sorted2[w] == name;
        assert(sorted2[w] == name);
    }
    // removing it leaves exactly the sorted original list
    let kept = remove_token(sorted2, name);
    lemma_remove_token_counts(sorted2, name);
    lemma_remove_token_sorted(sorted2, name);
    lemma_sort_tokens(toks);
    assert(toks.to_multiset().count(name) == 0) by {
        if toks.to_multiset().count(name) > 0 {
            assert(toks.contains(name));
            let w = choose|w: int| 0 <= w < toks.len() && toks[w] == name;
            assert(has_token(toks, name));
        }
    }
    assert(kept.to_multiset() =~= sort_tokens(toks).to_multiset()) by {
        assert forall|x: Seq<char>| #[trigger] kept.to_multiset().count(x) == sort_tokens(
            toks,
        ).to_multiset().count(x) by {
            if x == name {
                assert(kept.to_multiset().count(x) == 0);
                assert(sort_tokens(toks).to_multiset().count(x) == toks.to_multiset().count(
                    name,
                ));
            } else {
                assert(kept.to_multiset().count(x) == sorted2.to_multiset().count(x));
                assert(sorted2.to_multiset().count(x) == pushed.to_multiset().count(x));
                assert(pushed.to_multiset() =~= toks.to_multiset().insert(name));
            }
        }
    }
    lemma_lex_total();
    vstd::seq_lib::lemma_sorted_unique(kept, sort_tokens(toks), lex_leq());
    assert(kept == sort_tokens(toks));
    // and the splice windows compose
    let c3 = removed_plugin_file(c2, name);
    assert(c3 == spliced(c2, a, close2, render_plugin_list(kept)));
    assert(c2.take(a) =~= content.take(a));
    assert(c2.skip(close2 + 1) =~= content.skip(b + 1));
    assert(c3 =~= spliced(content, a, b, render_plugin_list(sort_tokens(toks))));
}

} // verus!
