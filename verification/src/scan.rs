//! The lexical structure of the source text, stated over character
//! sequences: how far a run of characters extends, where comments end, and
//! which trivia precede a token.
use vstd::prelude::*;
use crate::lexical::spec_is_whitespace;
use crate::syntax::{TriviaKind, Trivia, range_at};

verus! {

/// The first index at or after `i` whose character `p` rejects, or the end
/// of the text.
pub open spec fn scan(text: Seq<char>, i: int, p: spec_fn(char) -> bool) -> int
    decreases text.len() - i,
{
    if 0 <= i < text.len() && p(text[i]) {
        scan(text, i + 1, p)
    } else {
        i
    }
}

/// `scan` stops after a run of accepted characters, at a rejected character
/// or the end.
pub proof fn lemma_scan(text: Seq<char>, i: int, p: spec_fn(char) -> bool)
    requires
        0 <= i <= text.len(),
    ensures
        i <= scan(text, i, p) <= text.len(),
        forall|k: int| i <= k < scan(text, i, p) ==> p(#[trigger] text[k]),
        scan(text, i, p) < text.len() ==> !p(text[scan(text, i, p)]),
    decreases text.len() - i,
{
    if i < text.len() && p(text[i]) {
        lemma_scan(text, i + 1, p);
    }
}

/// An index that ends a run of accepted characters is where `scan` stops.
pub proof fn lemma_scan_unique(text: Seq<char>, i: int, j: int, p: spec_fn(char) -> bool)
    requires
        0 <= i <= j <= text.len(),
        forall|k: int| i <= k < j ==> p(#[trigger] text[k]),
        j < text.len() ==> !p(text[j]),
    ensures
        scan(text, i, p) == j,
    decreases j - i,
{
    if i < j {
        assert(p(text[i]));
        lemma_scan_unique(text, i + 1, j, p);
    }
}

/// Whitespace, as the trivia scanner sees it.
pub open spec fn ws() -> spec_fn(char) -> bool {
    |c: char| spec_is_whitespace(c)
}

/// Anything but a newline.
pub open spec fn not_newline() -> spec_fn(char) -> bool {
    |c: char| c != '\n'
}

/// `text` holds `a` then `b` at index `i`.
pub open spec fn pair_at(text: Seq<char>, i: int, a: char, b: char) -> bool {
    0 <= i && i + 1 < text.len() && text[i] == a && text[i + 1] == b
}

/// The end of a line comment that starts at `i` with `--`: the next newline
/// (not included) or the end of the text.
pub open spec fn line_comment_end(text: Seq<char>, i: int) -> int {
    scan(text, i + 2, not_newline())
}

/// The end of a block comment whose body continues at `i` inside `depth`
/// open comments: `/-` opens a nested comment, `-/` closes one, and an
/// unterminated comment runs to the end of the text.
pub open spec fn block_comment_end(text: Seq<char>, i: int, depth: nat) -> int
    decreases text.len() - i,
{
    if depth == 0 || i < 0 || i >= text.len() {
        i
    } else if pair_at(text, i, '/', '-') {
        block_comment_end(text, i + 2, depth + 1)
    } else if pair_at(text, i, '-', '/') {
        block_comment_end(text, i + 2, (depth - 1) as nat)
    } else {
        block_comment_end(text, i + 1, depth)
    }
}

/// The end of a documentation comment whose body continues at `i`: just
/// after the first `-/`, or the end of the text.
pub open spec fn doc_comment_end(text: Seq<char>, i: int) -> int
    decreases text.len() - i,
{
    if i < 0 || i >= text.len() {
        i
    } else if pair_at(text, i, '-', '/') {
        i + 2
    } else {
        doc_comment_end(text, i + 1)
    }
}

/// The comment that starts at `j`, if any: its kind and where it ends.
/// `/--` and `/-!` open documentation comments, `/-` block comments and
/// `--` line comments.
pub open spec fn comment_at(text: Seq<char>, j: int) -> Option<(TriviaKind, int)> {
    if pair_at(text, j, '/', '-') {
        if j + 2 < text.len() && (text[j + 2] == '-' || text[j + 2] == '!') {
            Some((TriviaKind::DocComment, doc_comment_end(text, j + 3)))
        } else {
            Some((TriviaKind::BlockComment, block_comment_end(text, j + 2, 1)))
        }
    } else if pair_at(text, j, '-', '-') {
        Some((TriviaKind::LineComment, line_comment_end(text, j)))
    } else {
        None
    }
}

/// The trivia that start at `i`, in order: each is its kind, start and end.
/// Runs of whitespace and comments alternate until neither follows.
pub open spec fn trivia_spans(text: Seq<char>, i: int) -> Seq<(TriviaKind, int, int)>
    decreases text.len() - i,
{
    let j = scan(text, i, ws());
    let w = if j > i {
        seq![(TriviaKind::Whitespace, i, j)]
    } else {
        Seq::empty()
    };
    match comment_at(text, j) {
        Some((k, e)) => if i < e <= text.len() {
            w + seq![(k, j, e)] + trivia_spans(text, e)
        } else {
            w
        },
        None => w,
    }
}

/// Where the trivia that start at `i` end: the start of the next token.
pub open spec fn trivia_end(text: Seq<char>, i: int) -> int
    decreases text.len() - i,
{
    let j = scan(text, i, ws());
    match comment_at(text, j) {
        Some((k, e)) => if i < e <= text.len() {
            trivia_end(text, e)
        } else {
            j
        },
        None => j,
    }
}

/// The trivia value `t` is the span `s` of `text`.
pub open spec fn trivia_matches(t: Trivia, text: Seq<char>, s: (TriviaKind, int, int)) -> bool {
    &&& t.kind == s.0
    &&& t.text@ == text.subrange(s.1, s.2)
    &&& t.range == range_at(text, s.1 as nat, s.2 as nat)
}

/// The trivia values `ts` are the spans `spans` of `text`.
pub open spec fn trivia_list_matches(
    ts: Seq<Trivia>,
    text: Seq<char>,
    spans: Seq<(TriviaKind, int, int)>,
) -> bool {
    &&& ts.len() == spans.len()
    &&& forall|k: int| 0 <= k < ts.len() ==> trivia_matches(#[trigger] ts[k], text, spans[k])
}

/// `after` is `before` followed by the trivia that start at `i`.
pub open spec fn extends_with_trivia(
    before: Seq<Trivia>,
    after: Seq<Trivia>,
    text: Seq<char>,
    i: int,
) -> bool {
    &&& before.len() <= after.len()
    &&& after.subrange(0, before.len() as int) == before
    &&& trivia_list_matches(after.skip(before.len() as int), text, trivia_spans(text, i))
}

pub proof fn lemma_block_comment_end(text: Seq<char>, i: int, depth: nat)
    requires
        0 <= i <= text.len(),
    ensures
        i <= block_comment_end(text, i, depth) <= text.len(),
    decreases text.len() - i,
{
    if depth == 0 || i >= text.len() {
    } else if pair_at(text, i, '/', '-') {
        lemma_block_comment_end(text, i + 2, depth + 1);
    } else if pair_at(text, i, '-', '/') {
        lemma_block_comment_end(text, i + 2, (depth - 1) as nat);
    } else {
        lemma_block_comment_end(text, i + 1, depth);
    }
}

pub proof fn lemma_doc_comment_end(text: Seq<char>, i: int)
    requires
        0 <= i <= text.len(),
    ensures
        i <= doc_comment_end(text, i) <= text.len(),
    decreases text.len() - i,
{
    if i < text.len() && !pair_at(text, i, '-', '/') {
        lemma_doc_comment_end(text, i + 1);
    }
}

/// A comment ends after its start and within the text.
pub proof fn lemma_comment_at(text: Seq<char>, j: int)
    requires
        0 <= j <= text.len(),
    ensures
        comment_at(text, j) matches Some((k, e)) ==> j + 2 <= e <= text.len(),
{
    if pair_at(text, j, '/', '-') {
        if j + 2 < text.len() && (text[j + 2] == '-' || text[j + 2] == '!') {
            lemma_doc_comment_end(text, j + 3);
        } else {
            lemma_block_comment_end(text, j + 2, 1);
        }
    } else if pair_at(text, j, '-', '-') {
        lemma_scan(text, j + 2, not_newline());
    }
}

/// The trivia end at or after their start, within the text, and no
/// whitespace or comment starts where they end.
pub proof fn lemma_trivia_end(text: Seq<char>, i: int)
    requires
        0 <= i <= text.len(),
    ensures
        i <= trivia_end(text, i) <= text.len(),
        trivia_end(text, i) < text.len() ==> !spec_is_whitespace(text[trivia_end(text, i)]),
        comment_at(text, trivia_end(text, i)) is None,
    decreases text.len() - i,
{
    let j = scan(text, i, ws());
    lemma_scan(text, i, ws());
    lemma_comment_at(text, j);
    match comment_at(text, j) {
        Some((k, e)) => {
            lemma_trivia_end(text, e);
        },
        None => {},
    }
}

/// Extending a slice of `t` by one character appends that character.
pub proof fn lemma_subrange_push(t: Seq<char>, i: int, j: int)
    requires
        0 <= i <= j < t.len(),
    ensures
        t.subrange(i, j + 1) == t.subrange(i, j).push(t[j]),
{
    assert(t.subrange(i, j + 1) =~= t.subrange(i, j).push(t[j]));
}

/// The texts of `ts`, one after the other.
pub open spec fn trivia_text(ts: Seq<Trivia>) -> Seq<char>
    decreases ts.len(),
{
    if ts.len() == 0 {
        Seq::empty()
    } else {
        ts[0].text@ + trivia_text(ts.drop_first())
    }
}

/// The pieces of `text` that `spans` cover, one after the other.
pub open spec fn spans_text(text: Seq<char>, spans: Seq<(TriviaKind, int, int)>) -> Seq<char>
    decreases spans.len(),
{
    if spans.len() == 0 {
        Seq::empty()
    } else {
        text.subrange(spans[0].1, spans[0].2) + spans_text(text, spans.drop_first())
    }
}

proof fn lemma_spans_text_concat(text: Seq<char>, a: Seq<(TriviaKind, int, int)>, b: Seq<(TriviaKind, int, int)>)
    ensures
        spans_text(text, a + b) == spans_text(text, a) + spans_text(text, b),
    decreases a.len(),
{
    if a.len() == 0 {
        assert(a + b =~= b);
        assert(Seq::<char>::empty() + spans_text(text, b) =~= spans_text(text, b));
    } else {
        assert((a + b).drop_first() =~= a.drop_first() + b);
        assert((a + b)[0] == a[0]);
        lemma_spans_text_concat(text, a.drop_first(), b);
        assert(text.subrange(a[0].1, a[0].2) + (spans_text(text, a.drop_first()) + spans_text(text, b))
            =~= (text.subrange(a[0].1, a[0].2) + spans_text(text, a.drop_first())) + spans_text(text, b));
    }
}

/// The trivia that start at `i` cover the text from `i` to where they end,
/// without gaps.
proof fn lemma_spans_cover(text: Seq<char>, i: int)
    requires
        0 <= i <= text.len(),
    ensures
        spans_text(text, trivia_spans(text, i)) == text.subrange(i, trivia_end(text, i)),
    decreases text.len() - i,
{
    let j = scan(text, i, ws());
    lemma_scan(text, i, ws());
    lemma_comment_at(text, j);
    let w = if j > i { seq![(TriviaKind::Whitespace, i, j)] } else { Seq::empty() };
    assert(spans_text(text, w) == text.subrange(i, j)) by {
        if j > i {
            assert(w.drop_first() =~= Seq::<(TriviaKind, int, int)>::empty());
            assert(spans_text(text, Seq::<(TriviaKind, int, int)>::empty()) == Seq::<char>::empty());
            assert(w[0] == (TriviaKind::Whitespace, i, j));
            assert(text.subrange(i, j) + Seq::<char>::empty() =~= text.subrange(i, j));
        } else {
            assert(text.subrange(i, j) =~= Seq::<char>::empty());
        }
    }
    match comment_at(text, j) {
        Some((k, e)) => {
            lemma_spans_cover(text, e);
            lemma_trivia_end(text, e);
            let c = seq![(k, j, e)];
            assert(spans_text(text, c) == text.subrange(j, e)) by {
                assert(c.drop_first() =~= Seq::<(TriviaKind, int, int)>::empty());
                assert(spans_text(text, Seq::<(TriviaKind, int, int)>::empty()) == Seq::<char>::empty());
                assert(c[0] == (k, j, e));
                assert(text.subrange(j, e) + Seq::<char>::empty() =~= text.subrange(j, e));
            }
            lemma_spans_text_concat(text, w + c, trivia_spans(text, e));
            lemma_spans_text_concat(text, w, c);
            assert(text.subrange(i, j) + text.subrange(j, e) + text.subrange(e, trivia_end(text, e))
                =~= text.subrange(i, trivia_end(text, e)));
        },
        None => {},
    }
}

proof fn lemma_matches_text(ts: Seq<Trivia>, text: Seq<char>, spans: Seq<(TriviaKind, int, int)>)
    requires
        trivia_list_matches(ts, text, spans),
    ensures
        trivia_text(ts) == spans_text(text, spans),
    decreases ts.len(),
{
    if ts.len() > 0 {
        assert(trivia_matches(ts[0], text, spans[0]));
        assert forall|k: int| 0 <= k < ts.drop_first().len() implies trivia_matches(
            #[trigger] ts.drop_first()[k],
            text,
            spans.drop_first()[k],
        ) by {
            assert(trivia_matches(ts[k + 1], text, spans[k + 1]));
        }
        lemma_matches_text(ts.drop_first(), text, spans.drop_first());
    }
}

/// Whitespace and comments are kept without loss: the trivia collected
/// from `i` on, their texts read in order, spell exactly the source text
/// from `i` to the start of the next token.
pub proof fn law_trivia_lossless(before: Seq<Trivia>, after: Seq<Trivia>, text: Seq<char>, i: int)
    requires
        0 <= i <= text.len(),
        extends_with_trivia(before, after, text, i),
    ensures
        trivia_text(after.skip(before.len() as int)) == text.subrange(i, trivia_end(text, i)),
        trivia_end(text, i) < text.len() ==> !spec_is_whitespace(text[trivia_end(text, i)]),
        comment_at(text, trivia_end(text, i)) is None,
{
    lemma_trivia_end(text, i);
    lemma_matches_text(after.skip(before.len() as int), text, trivia_spans(text, i));
    lemma_spans_cover(text, i);
}

} // verus!
