//! Segmenting and rebuilding give the source back: every segment of a
//! scanned source rebuilds, with its tokens replaced by their LaTeX, to
//! exactly the bytes it spans, wherever the source holds no run shaped like
//! a token.
use vstd::prelude::*;
use crate::models::{PlaceholderKind, SpecParsedSegment, SpecPiece, SpecPlaceholder, pieces_text};
use crate::parser::coverage::scan_covers_the_source;
use crate::parser::latex::spec_scan;
use crate::export::{byte_range, char_index, char_index_from};
use crate::parser::segmenter::{
    SegState, count_from, count_matches, cut_long, cut_once, lemma_cut_once_shrinks, lemma_sentence_end_offsets, digit_run_end, editable_from, extend, flush,
    has_editable, has_token_like, is_sentence_end, kind_name, lemma_run_ends, paragraphs,
    prose_piece, protected_piece, reconstruct_from, replace_first, segment_fold, sentence_end,
    spec_reconstruct, spec_segment, token, token_at, token_like_from, upper_run_end,
    ordered_segments, segments_follow_the_source,
};
use crate::text::{
    char_utf8_len, decimal, digit_char, find_from, is_digit, is_upper, lemma_find_from_bounds,
    lemma_utf8_len_monotone, lemma_utf8_len_push, starts_at, utf8_len,
};

verus! {

broadcast use vstd::seq_lib::group_seq_properties;

// ---------------------------------------------------------------------------
// The shape of a token
// ---------------------------------------------------------------------------

proof fn lemma_kind_name(k: PlaceholderKind)
    ensures
        kind_name(k).len() >= 1,
        forall|x: int| 0 <= x < kind_name(k).len() ==> is_upper(#[trigger] kind_name(k)[x]),
{
    reveal_strlit("MATH");
    reveal_strlit("CMD");
    reveal_strlit("COMMENT");
    reveal_strlit("ENV");
    reveal_strlit("PREAMBLE");
    reveal_strlit("DELIM");
}

proof fn lemma_decimal_digits(n: nat)
    ensures
        decimal(n).len() >= 1,
        forall|x: int| 0 <= x < decimal(n).len() ==> is_digit(#[trigger] decimal(n)[x]),
    decreases n,
{
    if n >= 10 {
        lemma_decimal_digits(n / 10);
        let d = decimal(n);
        assert forall|x: int| 0 <= x < d.len() implies is_digit(#[trigger] d[x]) by {
            if x < d.len() - 1 {
                assert(d[x] == decimal(n / 10)[x]);
            }
        }
    }
}

proof fn lemma_digit_char_injective(a: nat, b: nat)
    requires
        a < 10,
        b < 10,
        digit_char(a) == digit_char(b),
    ensures
        a == b,
{
}

proof fn lemma_decimal_injective(n: nat, m: nat)
    requires
        decimal(n) == decimal(m),
    ensures
        n == m,
    decreases n,
{
    lemma_decimal_digits(n / 10);
    lemma_decimal_digits(m / 10);
    if n < 10 && m < 10 {
        assert(decimal(n)[0] == digit_char(n));
        assert(decimal(m)[0] == digit_char(m));
        lemma_digit_char_injective(n, m);
    } else if n < 10 {
        assert(decimal(m).len() >= 2);
    } else if m < 10 {
        assert(decimal(n).len() >= 2);
    } else {
        assert(decimal(n).last() == digit_char(n % 10));
        assert(decimal(m).last() == digit_char(m % 10));
        lemma_digit_char_injective(n % 10, m % 10);
        assert(decimal(n).drop_last() =~= decimal(n / 10));
        assert(decimal(m).drop_last() =~= decimal(m / 10));
        lemma_decimal_injective(n / 10, m / 10);
    }
}

/// Where the parts of a token lie.
proof fn lemma_token_layout(k: PlaceholderKind, n: nat)
    ensures
        ({
            let t = token(k, n);
            let u: int = 2 + kind_name(k).len() as int;
            let d: int = u + 1 + decimal(n).len();
            &&& t.len() == d + 2
            &&& t.len() >= 6
            &&& t[0] == '{' && t[1] == '{'
            &&& forall|x: int| 2 <= x < u ==> is_upper(#[trigger] t[x]) && t[x] == kind_name(k)[x - 2]
            &&& t[u] == '_'
            &&& forall|x: int| u < x < d ==> is_digit(#[trigger] t[x]) && t[x] == decimal(n)[x - u - 1]
            &&& t[d] == '}' && t[d + 1] == '}'
        }),
{
    lemma_kind_name(k);
    lemma_decimal_digits(n);
    reveal_strlit("{{");
    reveal_strlit("_");
    reveal_strlit("}}");
    let t = token(k, n);
    let name = kind_name(k);
    let u: int = 2 + name.len() as int;
    let d: int = u + 1 + decimal(n).len();
    assert(t =~= "{{"@ + name + "_"@ + decimal(n) + "}}"@);
    assert forall|x: int| 2 <= x < u implies is_upper(#[trigger] t[x]) && t[x] == name[x - 2] by {
        assert(t[x] == name[x - 2]);
    }
    assert forall|x: int| u < x < d implies is_digit(#[trigger] t[x]) && t[x] == decimal(n)[x - u
        - 1] by {
        assert(t[x] == decimal(n)[x - u - 1]);
    }
}

/// A brace opens a token only at its first two places, and closes it only at
/// its last two; its third character is a capital.
pub proof fn lemma_token_braces(k: PlaceholderKind, n: nat)
    ensures
        ({
            let t = token(k, n);
            &&& t.len() >= 6
            &&& t[0] == '{' && t[1] == '{'
            &&& is_upper(t[2])
            &&& forall|x: int| 2 <= x < t.len() ==> #[trigger] t[x] != '{'
            &&& t[t.len() - 2] == '}' && t[t.len() - 1] == '}'
            &&& forall|x: int| 0 <= x < t.len() - 2 ==> #[trigger] t[x] != '}'
        }),
{
    lemma_token_layout(k, n);
    lemma_kind_name(k);
    let t = token(k, n);
    let u: int = 2 + kind_name(k).len() as int;
    assert(is_upper(t[2]));
    assert forall|x: int| 2 <= x < t.len() implies #[trigger] t[x] != '{' by {
        if x < u {
            assert(is_upper(t[x]));
        } else if x > u && x < t.len() - 2 {
            assert(is_digit(t[x]));
        }
    }
    assert forall|x: int| 0 <= x < t.len() - 2 implies #[trigger] t[x] != '}' by {
        if 2 <= x < u {
            assert(is_upper(t[x]));
        } else if x > u {
            assert(is_digit(t[x]));
        }
    }
}

/// Tokens with different numbers differ.
pub proof fn lemma_token_injective(k1: PlaceholderKind, n1: nat, k2: PlaceholderKind, n2: nat)
    requires
        token(k1, n1) == token(k2, n2),
    ensures
        n1 == n2,
{
    lemma_token_layout(k1, n1);
    lemma_token_layout(k2, n2);
    let t = token(k1, n1);
    let u1: int = 2 + kind_name(k1).len() as int;
    let u2: int = 2 + kind_name(k2).len() as int;
    if u1 < u2 {
        assert(is_upper(token(k2, n2)[u1]));
    } else if u2 < u1 {
        assert(is_upper(token(k1, n1)[u2]));
    }
    assert(u1 == u2);
    let d: int = u1 + 1 + decimal(n1).len();
    assert(decimal(n1) =~= t.subrange(u1 + 1, t.len() - 2));
    assert(decimal(n2) =~= t.subrange(u1 + 1, t.len() - 2));
    lemma_decimal_injective(n1, n2);
}

proof fn lemma_upper_run_to(t: Seq<char>, a: int, b: int)
    requires
        0 <= a <= b < t.len(),
        forall|x: int| a <= x < b ==> is_upper(#[trigger] t[x]),
        !is_upper(t[b]),
    ensures
        upper_run_end(t, a) == b,
    decreases b - a,
{
    if a < b {
        lemma_upper_run_to(t, a + 1, b);
    }
}

proof fn lemma_digit_run_to(t: Seq<char>, a: int, b: int)
    requires
        0 <= a <= b < t.len(),
        forall|x: int| a <= x < b ==> is_digit(#[trigger] t[x]),
        !is_digit(t[b]),
    ensures
        digit_run_end(t, a) == b,
    decreases b - a,
{
    if a < b {
        lemma_digit_run_to(t, a + 1, b);
    }
}

/// Where a token occurs, a token-shaped run is found.
pub proof fn lemma_token_found(s: Seq<char>, q: int, k: PlaceholderKind, n: nat)
    requires
        starts_at(s, q, token(k, n)),
    ensures
        token_at(s, q) == Some(q + token(k, n).len()),
{
    lemma_token_layout(k, n);
    lemma_kind_name(k);
    lemma_decimal_digits(n);
    let t = token(k, n);
    let u: int = 2 + kind_name(k).len() as int;
    let d: int = u + 1 + decimal(n).len();
    crate::text::lemma_starts_at(s, q, t);
    reveal_strlit("{{");
    reveal_strlit("}}");
    assert(s[q] == t[0] && s[q + 1] == t[1]);
    assert(s.subrange(q, q + 2) =~= "{{"@);
    assert(forall|x: int| q + 2 <= x < q + u ==> is_upper(#[trigger] s[x])) by {
        assert forall|x: int| q + 2 <= x < q + u implies is_upper(#[trigger] s[x]) by {
            assert(s[x] == t[x - q]);
        }
    }
    assert(s[q + u] == t[u]);
    lemma_upper_run_to(s, q + 2, q + u);
    assert(forall|x: int| q + u + 1 <= x < q + d ==> is_digit(#[trigger] s[x])) by {
        assert forall|x: int| q + u + 1 <= x < q + d implies is_digit(#[trigger] s[x]) by {
            assert(s[x] == t[x - q]);
        }
    }
    assert(s[q + d] == t[d]);
    assert(s[q + d + 1] == t[d + 1]);
    lemma_digit_run_to(s, q + u + 1, q + d);
    assert(s.subrange(q + d, q + d + 2) =~= "}}"@);
    assert(starts_at(s, q, "{{"@));
    assert(upper_run_end(s, q + 2) == q + u);
    assert(digit_run_end(s, q + u + 1) == q + d);
    assert(starts_at(s, q + d, "}}"@));
    assert(q + d + 2 == q + t.len());
}


// ---------------------------------------------------------------------------
// Text woven around tokens
// ---------------------------------------------------------------------------

/// `chunks[0] + mids[0] + chunks[1] + ... + chunks[mids.len()]`.
pub open spec fn weave(chunks: Seq<Seq<char>>, mids: Seq<Seq<char>>) -> Seq<char>
    decreases mids.len(),
{
    if mids.len() == 0 {
        if chunks.len() > 0 {
            chunks[0]
        } else {
            Seq::empty()
        }
    } else {
        chunks[0] + mids[0] + weave(chunks.drop_first(), mids.drop_first())
    }
}

/// Where `mids[j]` starts in `weave(chunks, mids)`.
pub open spec fn weave_offset(chunks: Seq<Seq<char>>, mids: Seq<Seq<char>>, j: int) -> int
    decreases j,
{
    if j <= 0 {
        chunks[0].len() as int
    } else {
        chunks[0].len() + mids[0].len() + weave_offset(chunks.drop_first(), mids.drop_first(), j - 1)
    }
}

pub open spec fn is_token(t: Seq<char>) -> bool {
    exists|k: PlaceholderKind, n: nat| t == #[trigger] token(k, n)
}

/// No token occurs anywhere in `s`.
pub open spec fn holds_no_token(s: Seq<char>) -> bool {
    forall|q: int, k: PlaceholderKind, n: nat| !#[trigger] starts_at(s, q, token(k, n))
}

/// No run shaped like a token, `{{NAME_123}}`, starts anywhere in `s`.
pub open spec fn token_free(s: Seq<char>) -> bool {
    forall|q: int| 0 <= q < s.len() ==> #[trigger] token_at(s, q) is None
}

proof fn lemma_free_part(s: Seq<char>, pre: Seq<char>, c: Seq<char>, post: Seq<char>)
    requires
        s == pre + c + post,
        token_free(s),
    ensures
        holds_no_token(c),
{
    assert forall|q: int, k: PlaceholderKind, n: nat| !#[trigger] starts_at(c, q, token(k, n)) by {
        if starts_at(c, q, token(k, n)) {
            let t = token(k, n);
            assert(s.subrange(pre.len() + q, pre.len() + q + t.len()) =~= c.subrange(q, q + t.len()));
            assert(starts_at(s, pre.len() + q, t));
            lemma_token_found(s, pre.len() + q, k, n);
            lemma_token_braces(k, n);
        }
    }
}

/// Each chunk sits whole inside the woven text.
proof fn lemma_chunk_inside(chunks: Seq<Seq<char>>, mids: Seq<Seq<char>>, j: int) -> (r: (
    Seq<char>,
    Seq<char>,
))
    requires
        chunks.len() == mids.len() + 1,
        0 <= j < chunks.len(),
    ensures
        weave(chunks, mids) == r.0 + chunks[j] + r.1,
    decreases mids.len(),
{
    if mids.len() == 0 {
        assert(weave(chunks, mids) =~= Seq::<char>::empty() + chunks[j] + Seq::<char>::empty());
        (Seq::empty(), Seq::empty())
    } else if j == 0 {
        let rest = mids[0] + weave(chunks.drop_first(), mids.drop_first());
        assert(weave(chunks, mids) =~= Seq::<char>::empty() + chunks[0] + rest);
        (Seq::empty(), rest)
    } else {
        let (a, b) = lemma_chunk_inside(chunks.drop_first(), mids.drop_first(), j - 1);
        let pre = chunks[0] + mids[0] + a;
        assert(weave(chunks, mids) =~= pre + chunks[j] + b);
        (pre, b)
    }
}

proof fn lemma_chunks_free(chunks: Seq<Seq<char>>, mids: Seq<Seq<char>>)
    requires
        chunks.len() == mids.len() + 1,
        token_free(weave(chunks, mids)),
    ensures
        forall|j: int| 0 <= j < chunks.len() ==> holds_no_token(#[trigger] chunks[j]),
{
    assert forall|j: int| 0 <= j < chunks.len() implies holds_no_token(#[trigger] chunks[j]) by {
        let (a, b) = lemma_chunk_inside(chunks, mids, j);
        lemma_free_part(weave(chunks, mids), a, chunks[j], b);
    }
}

/// A token occurs in text woven around tokens only where one of those
/// tokens stands, and equal to it.
proof fn lemma_occurrence(chunks: Seq<Seq<char>>, toks: Seq<Seq<char>>, q: int, t: Seq<char>)
    requires
        chunks.len() == toks.len() + 1,
        forall|j: int| 0 <= j < toks.len() ==> is_token(#[trigger] toks[j]),
        forall|j: int| 0 <= j < chunks.len() ==> holds_no_token(#[trigger] chunks[j]),
        is_token(t),
        starts_at(weave(chunks, toks), q, t),
    ensures
        exists|j: int| 0 <= j < toks.len() && toks[j] == t && q == weave_offset(chunks, toks, j),
    decreases toks.len(),
{
    let x = weave(chunks, toks);
    let c0 = chunks[0];
    let (k, n) = choose|k: PlaceholderKind, n: nat| t == #[trigger] token(k, n);
    lemma_token_braces(k, n);
    crate::text::lemma_starts_at(x, q, t);
    assert(holds_no_token(chunks[0]));
    if toks.len() == 0 {
        assert(x == c0);
        assert(starts_at(c0, q, token(k, n)));
    } else {
        let t0 = toks[0];
        let (k0, n0) = choose|k0: PlaceholderKind, n0: nat| t0 == #[trigger] token(k0, n0);
        lemma_token_braces(k0, n0);
        let w = weave(chunks.drop_first(), toks.drop_first());
        let cl: int = c0.len() as int;
        assert(x == c0 + t0 + w);
        assert forall|y: int| 0 <= y < t0.len() implies x[c0.len() + y] == #[trigger] t0[y] by {}
        if q + t.len() <= c0.len() {
            assert(c0.subrange(q, q + t.len()) =~= x.subrange(q, q + t.len()));
            assert(starts_at(c0, q, token(k, n)));
        } else if q < c0.len() {
            let d = c0.len() - q;
            assert(t[d] == x[cl + 0]);
            assert(t0[0] == '{');
            if d >= 2 {
                assert(t[d] != '{');
            } else {
                assert(t[2] == x[cl + 1]);
                assert(t0[1] == '{');
            }
        } else if q < c0.len() + t0.len() {
            let d = q - c0.len();
            assert(t[0] == x[c0.len() + d]);
            if d >= 2 {
                assert(t0[d] != '{');
            } else if d == 1 {
                assert(t[1] == x[cl + 2]);
                assert(is_upper(t0[2]));
            } else {
                if t.len() <= t0.len() {
                    assert(t[t.len() - 2] == x[c0.len() + t.len() - 2]);
                    assert(t0[t.len() - 2] == '}');
                    assert(t.len() == t0.len());
                    assert forall|y: int| 0 <= y < t.len() implies t[y] == t0[y] by {
                        assert(t[y] == x[c0.len() + y]);
                    }
                    assert(t =~= t0);
                    assert(toks[0] == t && q == weave_offset(chunks, toks, 0));
                } else {
                    assert(t[t0.len() - 2] == x[c0.len() + t0.len() - 2]);
                    assert(t0[t0.len() - 2] == '}');
                }
            }
        } else {
            let q2 = q - c0.len() - t0.len();
            assert(w.subrange(q2, q2 + t.len()) =~= x.subrange(q, q + t.len()));
            assert forall|j: int| 0 <= j < toks.drop_first().len() implies is_token(
                #[trigger] toks.drop_first()[j],
            ) by {
                assert(toks.drop_first()[j] == toks[j + 1]);
            }
            assert forall|j: int| 0 <= j < chunks.drop_first().len() implies holds_no_token(
                #[trigger] chunks.drop_first()[j],
            ) by {
                assert(chunks.drop_first()[j] == chunks[j + 1]);
            }
            lemma_occurrence(chunks.drop_first(), toks.drop_first(), q2, t);
            let j2 = choose|j2: int|
                0 <= j2 < toks.drop_first().len() && toks.drop_first()[j2] == t && q2
                    == weave_offset(chunks.drop_first(), toks.drop_first(), j2);
            assert(toks[j2 + 1] == t);
            assert(q == weave_offset(chunks, toks, j2 + 1));
        }
    }
}


proof fn lemma_first_token_once(chunks: Seq<Seq<char>>, toks: Seq<Seq<char>>)
    requires
        chunks.len() == toks.len() + 1,
        toks.len() > 0,
        forall|j: int| 0 <= j < toks.len() ==> is_token(#[trigger] toks[j]),
        forall|j: int| 0 <= j < chunks.len() ==> holds_no_token(#[trigger] chunks[j]),
        forall|a: int, b: int| 0 <= a < b < toks.len() ==> toks[a] != toks[b],
    ensures
        find_from(weave(chunks, toks), 0, toks[0]) == Some(chunks[0].len() as int),
        count_matches(weave(chunks, toks), toks[0]) == 1,
{
    let x = weave(chunks, toks);
    let t0 = toks[0];
    let c0 = chunks[0];
    let w = weave(chunks.drop_first(), toks.drop_first());
    assert(x == c0 + t0 + w);
    assert(x.subrange(c0.len() as int, c0.len() + t0.len() as int) =~= t0);
    assert(starts_at(x, c0.len() as int, t0));
    assert(is_token(toks[0]));
    let (k0, n0) = choose|k0: PlaceholderKind, n0: nat| t0 == #[trigger] token(k0, n0);
    lemma_token_braces(k0, n0);
    lemma_find_from_bounds(x, 0, t0);
    match find_from(x, 0, t0) {
        None => {},
        Some(p) => {
            lemma_occurrence(chunks, toks, p, t0);
            let j = choose|j: int|
                0 <= j < toks.len() && toks[j] == t0 && p == weave_offset(chunks, toks, j);
            if j != 0 {
                assert(toks[0] != toks[j]);
            }
            assert(p == c0.len());
        },
    }
    let e: int = c0.len() + t0.len() as int;
    lemma_find_from_bounds(x, e, t0);
    if let Some(p2) = find_from(x, e, t0) {
        lemma_occurrence(chunks, toks, p2, t0);
        let j = choose|j: int|
            0 <= j < toks.len() && toks[j] == t0 && p2 == weave_offset(chunks, toks, j);
        if j != 0 {
            assert(toks[0] != toks[j]);
        }
    }
    assert(count_from(x, e, t0) == 0);
    assert(count_from(x, 0, t0) == count_from(x, e, t0) + 1);
}

/// Setting text before the first chunk sets it before the woven text.
proof fn lemma_weave_front(cs: Seq<Seq<char>>, mids: Seq<Seq<char>>, pre: Seq<char>)
    requires
        cs.len() == mids.len() + 1,
    ensures
        weave(cs.update(0, pre + cs[0]), mids) == pre + weave(cs, mids),
{
    let cs2 = cs.update(0, pre + cs[0]);
    if mids.len() > 0 {
        assert(cs2.drop_first() =~= cs.drop_first());
        assert(pre + cs[0] + mids[0] + weave(cs.drop_first(), mids.drop_first()) =~= pre + (cs[0]
            + mids[0] + weave(cs.drop_first(), mids.drop_first())));
    }
}

/// A run that the check for leftover tokens finds is shaped like a token.
proof fn lemma_token_like_found(t: Seq<char>, at: int)
    requires
        token_like_from(t, at),
    ensures
        exists|q: int| 0 <= q < t.len() && #[trigger] token_at(t, q) is Some,
    decreases t.len() - at,
{
    if token_at(t, at) is None {
        lemma_token_like_found(t, at + 1);
    }
}

pub open spec fn tokens_of(ps: Seq<SpecPlaceholder>) -> Seq<Seq<char>> {
    ps.map_values(|p: SpecPlaceholder| p.token)
}

pub open spec fn originals_of(ps: Seq<SpecPlaceholder>) -> Seq<Seq<char>> {
    ps.map_values(|p: SpecPlaceholder| p.original)
}

/// Rebuilding from placeholder `i` on turns text woven around the remaining
/// tokens into the same text woven around their LaTeX, when the tokens are
/// distinct and that LaTeX, with the text around it, holds no token-shaped run.
proof fn lemma_rebuild(chunks: Seq<Seq<char>>, ps: Seq<SpecPlaceholder>, i: int)
    requires
        0 <= i <= ps.len(),
        chunks.len() == ps.len() - i + 1,
        forall|j: int| i <= j < ps.len() ==> is_token(#[trigger] ps[j].token),
        forall|a: int, b: int| i <= a < b < ps.len() ==> ps[a].token != ps[b].token,
        token_free(weave(chunks, originals_of(ps).skip(i))),
    ensures
        reconstruct_from(weave(chunks, tokens_of(ps).skip(i)), ps, i) == Ok::<
            Seq<char>,
            Seq<char>,
        >(weave(chunks, originals_of(ps).skip(i))),
    decreases ps.len() - i,
{
    let toks = tokens_of(ps).skip(i);
    let origs = originals_of(ps).skip(i);
    let src = weave(chunks, origs);
    lemma_chunks_free(chunks, origs);
    if i == ps.len() {
        assert(toks.len() == 0 && origs.len() == 0);
        if has_token_like(src) {
            lemma_token_like_found(src, 0);
        }
    } else {
        assert forall|j: int| 0 <= j < toks.len() implies is_token(#[trigger] toks[j]) by {
            assert(toks[j] == ps[i + j].token);
        }
        assert forall|a: int, b: int| 0 <= a < b < toks.len() implies toks[a] != toks[b] by {
            assert(toks[a] == ps[i + a].token);
            assert(toks[b] == ps[i + b].token);
        }
        lemma_first_token_once(chunks, toks);
        let x = weave(chunks, toks);
        let t0 = toks[0];
        let o0 = origs[0];
        assert(t0 == ps[i].token && o0 == ps[i].original);
        let c0 = chunks[0];
        let w = weave(chunks.drop_first(), toks.drop_first());
        assert(x == c0 + t0 + w);
        assert(x.take(c0.len() as int) =~= c0);
        assert(x.skip(c0.len() + t0.len() as int) =~= w);
        assert(replace_first(x, t0, o0) == c0 + o0 + w);
        let rest = chunks.drop_first();
        let merged = rest.update(0, (c0 + o0) + rest[0]);
        lemma_weave_front(rest, toks.drop_first(), c0 + o0);
        lemma_weave_front(rest, origs.drop_first(), c0 + o0);
        assert(tokens_of(ps).skip(i + 1) =~= toks.drop_first());
        assert(originals_of(ps).skip(i + 1) =~= origs.drop_first());
        assert(src == c0 + o0 + weave(rest, origs.drop_first()));
        assert(weave(merged, origs.drop_first()) =~= src);
        assert(weave(merged, toks.drop_first()) =~= c0 + o0 + w);
        lemma_rebuild(merged, ps, i + 1);
    }
}

/// Text woven around distinct tokens rebuilds, with each token replaced by
/// its LaTeX, to the same text woven around that LaTeX — when that result
/// holds no run shaped like a token.
pub proof fn woven_tokens_rebuild(chunks: Seq<Seq<char>>, ps: Seq<SpecPlaceholder>)
    requires
        chunks.len() == ps.len() + 1,
        forall|j: int| 0 <= j < ps.len() ==> is_token(#[trigger] ps[j].token),
        forall|a: int, b: int| 0 <= a < b < ps.len() ==> ps[a].token != ps[b].token,
        token_free(weave(chunks, originals_of(ps))),
    ensures
        crate::parser::segmenter::spec_reconstruct(weave(chunks, tokens_of(ps)), ps) == Ok::<
            Seq<char>,
            Seq<char>,
        >(weave(chunks, originals_of(ps))),
{
    assert(tokens_of(ps).skip(0) =~= tokens_of(ps));
    assert(originals_of(ps).skip(0) =~= originals_of(ps));
    lemma_rebuild(chunks, ps, 0);
}


// ---------------------------------------------------------------------------
// Positions: byte offsets, token-shaped runs, sentence ends
// ---------------------------------------------------------------------------

proof fn lemma_char_utf8_len_positive(c: char)
    ensures
        char_utf8_len(c) >= 1,
{
}

proof fn lemma_char_index_exact_from(s: Seq<char>, k: int, a: int)
    requires
        0 <= k <= a <= s.len(),
    ensures
        char_index_from(s, k, utf8_len(s.take(k)) as int, utf8_len(s.take(a)) as int) == Some(a),
    decreases a - k,
{
    if k < a {
        assert(s.take(k + 1) =~= s.take(k).push(s[k]));
        lemma_utf8_len_push(s.take(k), s[k]);
        lemma_char_utf8_len_positive(s[k]);
        lemma_utf8_len_monotone(s, k + 1, a);
        lemma_char_index_exact_from(s, k + 1, a);
    }
}

/// The byte offset where character `a` starts leads back to `a`.
pub proof fn lemma_char_index_exact(s: Seq<char>, a: int)
    requires
        0 <= a <= s.len(),
    ensures
        char_index(s, utf8_len(s.take(a)) as int) == Some(a),
{
    assert(s.take(0) =~= Seq::<char>::empty());
    assert(utf8_len(Seq::<char>::empty()) == 0) by {
        assert(vstd::utf8::encode_utf8(Seq::<char>::empty()) =~= Seq::<u8>::empty());
    }
    lemma_char_index_exact_from(s, 0, a);
}

/// A token-shaped run is made of braces, capitals, an underscore and digits.
proof fn lemma_token_at_chars(t: Seq<char>, q: int)
    requires
        0 <= q <= t.len(),
        token_at(t, q) is Some,
    ensures
        ({
            let e = token_at(t, q)->0;
            &&& q + 6 <= e <= t.len()
            &&& forall|x: int|
                q <= x < e ==> (#[trigger] t[x] == '{' || t[x] == '}' || t[x] == '_' || is_upper(t[x])
                    || is_digit(t[x]))
        }),
{
    reveal_strlit("{{");
    reveal_strlit("}}");
    crate::parser::segmenter::lemma_token_at(t, q);
    lemma_run_ends(t, q + 2);
    let cursor = upper_run_end(t, q + 2);
    lemma_run_ends(t, cursor + 1);
    let d = digit_run_end(t, cursor + 1);
    crate::text::lemma_starts_at(t, q, "{{"@);
    crate::text::lemma_starts_at(t, d, "}}"@);
    assert forall|x: int| q <= x < d + 2 implies (#[trigger] t[x] == '{' || t[x] == '}' || t[x]
        == '_' || is_upper(t[x]) || is_digit(t[x])) by {
        if x < q + 2 {
            assert(t[x] == "{{"@[x - q]);
        } else if x >= d {
            assert(t[x] == "}}"@[x - d]);
        }
    }
}

/// A token-shaped run inside a stretch of text is one in the whole text.
proof fn lemma_token_at_shift(s: Seq<char>, a: int, b: int, q: int)
    requires
        0 <= a <= b <= s.len(),
        0 <= q < b - a,
        token_at(s.subrange(a, b), q) is Some,
    ensures
        token_at(s, a + q) is Some,
{
    let t = s.subrange(a, b);
    reveal_strlit("{{");
    reveal_strlit("}}");
    lemma_run_ends(t, q + 2);
    let cursor = upper_run_end(t, q + 2);
    lemma_run_ends(t, cursor + 1);
    let d = digit_run_end(t, cursor + 1);
    crate::text::lemma_starts_at(t, q, "{{"@);
    crate::text::lemma_starts_at(t, d, "}}"@);
    assert(s.subrange(a + q, a + q + 2) =~= t.subrange(q, q + 2));
    assert forall|x: int| a + q + 2 <= x < a + cursor implies is_upper(#[trigger] s[x]) by {
        assert(s[x] == t[x - a]);
    }
    assert(s[a + cursor] == t[cursor]);
    lemma_upper_run_to(s, a + q + 2, a + cursor);
    assert forall|x: int| a + cursor + 1 <= x < a + d implies is_digit(#[trigger] s[x]) by {
        assert(s[x] == t[x - a]);
    }
    assert(s[a + d] == t[d]);
    lemma_digit_run_to(s, a + cursor + 1, a + d);
    assert(s.subrange(a + d, a + d + 2) =~= t.subrange(d, d + 2));
}

proof fn lemma_token_free_part(s: Seq<char>, a: int, b: int)
    requires
        0 <= a <= b <= s.len(),
        token_free(s),
    ensures
        token_free(s.subrange(a, b)),
{
    assert forall|q: int| 0 <= q < s.subrange(a, b).len() implies #[trigger] token_at(
        s.subrange(a, b),
        q,
    ) is None by {
        if token_at(s.subrange(a, b), q) is Some {
            lemma_token_at_shift(s, a, b, q);
        }
    }
}

/// Text that ends with a sentence end holds something a translator edits.
proof fn lemma_editable_to_end(t: Seq<char>, at: int)
    requires
        0 <= at < t.len(),
        is_sentence_end(t[t.len() - 1]),
    ensures
        editable_from(t, at),
    decreases t.len() - at,
{
    match token_at(t, at) {
        Some(e) => {
            lemma_token_at_chars(t, at);
            if e >= t.len() {
                assert(t[t.len() - 1] == '{' || t[t.len() - 1] == '}' || t[t.len() - 1] == '_'
                    || is_upper(t[t.len() - 1]) || is_digit(t[t.len() - 1]));
            }
            lemma_editable_to_end(t, e);
        },
        None => {
            if at < t.len() - 1 {
                lemma_editable_to_end(t, at + 1);
            }
        },
    }
}

// ---------------------------------------------------------------------------
// Weaving, chunk by chunk
// ---------------------------------------------------------------------------

/// Text added to the last chunk comes at the end of the woven text.
proof fn lemma_weave_append(chunks: Seq<Seq<char>>, mids: Seq<Seq<char>>, x: Seq<char>)
    requires
        chunks.len() == mids.len() + 1,
    ensures
        weave(chunks.update(chunks.len() - 1, chunks.last() + x), mids) == weave(chunks, mids) + x,
    decreases mids.len(),
{
    let c2 = chunks.update(chunks.len() - 1, chunks.last() + x);
    if mids.len() > 0 {
        assert(c2.drop_first() =~= chunks.drop_first().update(
            chunks.drop_first().len() - 1,
            chunks.drop_first().last() + x,
        ));
        lemma_weave_append(chunks.drop_first(), mids.drop_first(), x);
        assert(chunks[0] + mids[0] + (weave(chunks.drop_first(), mids.drop_first()) + x) =~= (
        chunks[0] + mids[0] + weave(chunks.drop_first(), mids.drop_first())) + x);
    }
}

/// A new middle piece and an empty chunk after it come at the end.
proof fn lemma_weave_push(chunks: Seq<Seq<char>>, mids: Seq<Seq<char>>, m: Seq<char>)
    requires
        chunks.len() == mids.len() + 1,
    ensures
        weave(chunks.push(Seq::empty()), mids.push(m)) == weave(chunks, mids) + m,
    decreases mids.len(),
{
    let c2 = chunks.push(Seq::<char>::empty());
    let m2 = mids.push(m);
    assert(c2[0] == chunks[0]);
    assert(m2[0] == if mids.len() == 0 { m } else { mids[0] });
    if mids.len() == 0 {
        assert(c2.drop_first() =~= seq![Seq::<char>::empty()]);
        assert(m2.drop_first() =~= Seq::<Seq<char>>::empty());
        assert(weave(c2.drop_first(), m2.drop_first()) == Seq::<char>::empty());
        assert(chunks[0] + m + Seq::<char>::empty() =~= chunks[0] + m);
        assert(weave(chunks, mids) == chunks[0]);
    } else {
        assert(chunks.push(Seq::empty()).drop_first() =~= chunks.drop_first().push(Seq::empty()));
        assert(mids.push(m).drop_first() =~= mids.drop_first().push(m));
        lemma_weave_push(chunks.drop_first(), mids.drop_first(), m);
        assert(chunks[0] + mids[0] + (weave(chunks.drop_first(), mids.drop_first()) + m) =~= (
        chunks[0] + mids[0] + weave(chunks.drop_first(), mids.drop_first())) + m);
    }
}

/// The woven text ends with the last chunk.
proof fn lemma_weave_last(chunks: Seq<Seq<char>>, mids: Seq<Seq<char>>)
    requires
        chunks.len() == mids.len() + 1,
    ensures
        weave(chunks, mids) == weave(chunks.update(chunks.len() - 1, Seq::empty()), mids)
            + chunks.last(),
{
    let c0 = chunks.update(chunks.len() - 1, Seq::empty());
    lemma_weave_append(c0, mids, chunks.last());
    assert(c0.update(c0.len() - 1, c0.last() + chunks.last()) =~= chunks);
}


// ---------------------------------------------------------------------------
// What the segmenter keeps true
// ---------------------------------------------------------------------------

/// `text` and `src` are the same chunks, around the tokens of `ps` and
/// around their LaTeX respectively.
pub open spec fn woven(
    text: Seq<char>,
    ps: Seq<SpecPlaceholder>,
    src: Seq<char>,
    chunks: Seq<Seq<char>>,
) -> bool {
    &&& chunks.len() == ps.len() + 1
    &&& text == weave(chunks, tokens_of(ps))
    &&& src == weave(chunks, originals_of(ps))
}

/// Each placeholder's token is numbered from 1 up to `counter`, and no two
/// tokens are the same.
pub open spec fn numbered(ps: Seq<SpecPlaceholder>, counter: int) -> bool {
    &&& forall|j: int| 0 <= j < ps.len() ==> #[trigger] has_number(ps[j], counter)
    &&& forall|a: int, b: int| 0 <= a < b < ps.len() ==> ps[a].token != ps[b].token
}

/// The placeholder's token carries a number from 1 up to `counter`.
pub open spec fn has_number(p: SpecPlaceholder, counter: int) -> bool {
    exists|n: nat| 1 <= n <= counter && #[trigger] token(p.kind, n) == p.token
}

/// A segment covers characters `a..b` of `p`, which start and end at its
/// byte offsets; its text is those characters with a token in place of each
/// protected piece, in order; each token is `{{KIND_n}}` for its own kind and
/// a number from 1 on, and no two tokens of the segment are the same.
pub open spec fn segment_ok(r: SpecParsedSegment, p: Seq<char>) -> bool {
    &&& exists|a: int, b: int, chunks: Seq<Seq<char>>|
        0 <= a <= b <= p.len() && utf8_len(p.take(a)) == r.start && utf8_len(p.take(b)) == r.end
            && #[trigger] woven(r.original, r.placeholders, p.subrange(a, b), chunks)
    &&& forall|j: int| 0 <= j < r.placeholders.len() ==> kind_token(#[trigger] r.placeholders[j])
    &&& forall|a: int, b: int|
        0 <= a < b < r.placeholders.len() ==> r.placeholders[a].token != r.placeholders[b].token
}

/// The segmenter's state after the text `p`: the current segment is `p`
/// from character `c0` on, woven as `chunks`, and every closed segment is
/// sound.
pub open spec fn current_ok(st: SegState, p: Seq<char>, c0: int, chunks: Seq<Seq<char>>) -> bool {
    &&& st.offset == utf8_len(p)
    &&& 0 <= c0 <= p.len()
    &&& utf8_len(p.take(c0)) == st.start
    &&& woven(st.current, st.placeholders, p.skip(c0), chunks)
    &&& numbered(st.placeholders, st.counter)
    &&& st.counter >= 0
    &&& forall|i: int| 0 <= i < st.result.len() ==> segment_ok(#[trigger] st.result[i], p)
}

proof fn lemma_segment_ok_grow(r: SpecParsedSegment, p: Seq<char>, x: Seq<char>)
    requires
        segment_ok(r, p),
    ensures
        segment_ok(r, p + x),
{
    let (a, b, chunks) = choose|a: int, b: int, chunks: Seq<Seq<char>>|
        0 <= a <= b <= p.len() && utf8_len(p.take(a)) == r.start && utf8_len(p.take(b)) == r.end
            && #[trigger] woven(r.original, r.placeholders, p.subrange(a, b), chunks);
    assert((p + x).take(a) =~= p.take(a));
    assert((p + x).take(b) =~= p.take(b));
    assert((p + x).subrange(a, b) =~= p.subrange(a, b));
    assert(woven(r.original, r.placeholders, (p + x).subrange(a, b), chunks));
}

proof fn lemma_results_grow(result: Seq<SpecParsedSegment>, p: Seq<char>, x: Seq<char>)
    requires
        forall|i: int| 0 <= i < result.len() ==> segment_ok(#[trigger] result[i], p),
    ensures
        forall|i: int| 0 <= i < result.len() ==> segment_ok(#[trigger] result[i], p + x),
{
    assert forall|i: int| 0 <= i < result.len() implies segment_ok(#[trigger] result[i], p + x) by {
        lemma_segment_ok_grow(result[i], p, x);
    }
}

/// The placeholder's token is `{{KIND_n}}` for its own kind and a number
/// from 1 on.
pub open spec fn kind_token(p: SpecPlaceholder) -> bool {
    exists|n: nat| n >= 1 && #[trigger] token(p.kind, n) == p.token
}

proof fn lemma_kind_tokens(ps: Seq<SpecPlaceholder>)
    requires
        forall|j: int| 0 <= j < ps.len() ==> kind_token(#[trigger] ps[j]),
    ensures
        forall|j: int| 0 <= j < ps.len() ==> is_token(#[trigger] ps[j].token),
{
    assert forall|j: int| 0 <= j < ps.len() implies is_token(#[trigger] ps[j].token) by {
        assert(kind_token(ps[j]));
        let n = choose|n: nat| n >= 1 && #[trigger] token(ps[j].kind, n) == ps[j].token;
        assert(ps[j].token == token(ps[j].kind, n));
    }
}

proof fn lemma_numbered_tokens(ps: Seq<SpecPlaceholder>, counter: int)
    requires
        numbered(ps, counter),
    ensures
        forall|j: int| 0 <= j < ps.len() ==> kind_token(#[trigger] ps[j]),
{
    assert forall|j: int| 0 <= j < ps.len() implies kind_token(#[trigger] ps[j]) by {
        assert(has_number(ps[j], counter));
        let n = choose|n: nat| 1 <= n <= counter && #[trigger] token(ps[j].kind, n) == ps[j].token;
        assert(token(ps[j].kind, n) == ps[j].token);
    }
}

proof fn lemma_empty_woven(p: Seq<char>)
    ensures
        woven(Seq::empty(), Seq::empty(), p.skip(p.len() as int), seq![Seq::<char>::empty()]),
{
    assert(p.skip(p.len() as int) =~= Seq::<char>::empty());
    assert(tokens_of(Seq::<SpecPlaceholder>::empty()) =~= Seq::<Seq<char>>::empty());
    assert(originals_of(Seq::<SpecPlaceholder>::empty()) =~= Seq::<Seq<char>>::empty());
}

proof fn lemma_extend(st: SegState, p: Seq<char>, c0: int, chunks: Seq<Seq<char>>, part: Seq<char>) -> (c: Seq<
    Seq<char>,
>)
    requires
        current_ok(st, p, c0, chunks),
    ensures
        current_ok(extend(st, part), p + part, c0, c),
        c == chunks.update(chunks.len() - 1, chunks.last() + part),
{
    let c = chunks.update(chunks.len() - 1, chunks.last() + part);
    crate::text::lemma_utf8_len_concat(p, part);
    assert((p + part).take(c0) =~= p.take(c0));
    assert((p + part).skip(c0) =~= p.skip(c0) + part);
    lemma_weave_append(chunks, tokens_of(st.placeholders), part);
    lemma_weave_append(chunks, originals_of(st.placeholders), part);
    lemma_results_grow(st.result, p, part);
    c
}

proof fn lemma_flush(st: SegState, p: Seq<char>, c0: int, chunks: Seq<Seq<char>>) -> (r: (
    int,
    Seq<Seq<char>>,
))
    requires
        current_ok(st, p, c0, chunks),
    ensures
        current_ok(flush(st, st.offset), p, r.0, r.1),
{
    if has_editable(st.current) {
        let seg = SpecParsedSegment {
            original: st.current,
            placeholders: st.placeholders,
            start: st.start,
            end: st.offset,
        };
        assert(p.take(p.len() as int) =~= p);
        assert(p.subrange(c0, p.len() as int) =~= p.skip(c0));
        assert(woven(seg.original, seg.placeholders, p.subrange(c0, p.len() as int), chunks));
        lemma_numbered_tokens(st.placeholders, st.counter);
        assert(segment_ok(seg, p));
        let st2 = flush(st, st.offset);
        assert forall|i: int| 0 <= i < st2.result.len() implies segment_ok(#[trigger] st2.result[i], p) by {
            if i < st.result.len() {
                assert(st2.result[i] == st.result[i]);
            }
        }
        lemma_empty_woven(p);
        (p.len() as int, seq![Seq::<char>::empty()])
    } else {
        (c0, chunks)
    }
}

proof fn lemma_protected(
    st: SegState,
    p: Seq<char>,
    c0: int,
    chunks: Seq<Seq<char>>,
    kind: PlaceholderKind,
    original: Seq<char>,
) -> (r: (int, Seq<Seq<char>>))
    requires
        current_ok(st, p, c0, chunks),
    ensures
        current_ok(protected_piece(st, kind, original), p + original, r.0, r.1),
{
    let p2 = p + original;
    crate::text::lemma_utf8_len_concat(p, original);
    lemma_results_grow(st.result, p, original);
    if !has_editable(st.current) {
        assert(p2.take(p2.len() as int) =~= p2);
        lemma_empty_woven(p2);
        (p2.len() as int, seq![Seq::<char>::empty()])
    } else {
        let n = st.counter + 1;
        let t = token(kind, n as nat);
        let ph = SpecPlaceholder { token: t, original, kind };
        let ps2 = st.placeholders.push(ph);
        let c = chunks.push(Seq::empty());
        assert(p2.take(c0) =~= p.take(c0));
        assert(p2.skip(c0) =~= p.skip(c0) + original);
        assert(tokens_of(ps2) =~= tokens_of(st.placeholders).push(t));
        assert(originals_of(ps2) =~= originals_of(st.placeholders).push(original));
        lemma_weave_push(chunks, tokens_of(st.placeholders), t);
        lemma_weave_push(chunks, originals_of(st.placeholders), original);
        assert(p.skip(c0) + original + Seq::<char>::empty() =~= p.skip(c0) + original);
        assert forall|j: int| 0 <= j < ps2.len() implies #[trigger] has_number(ps2[j], n) by {
            if j < st.placeholders.len() {
                assert(has_number(st.placeholders[j], st.counter));
                let m = choose|m: nat|
                    1 <= m <= st.counter && #[trigger] token(st.placeholders[j].kind, m)
                        == st.placeholders[j].token;
                assert(ps2[j] == st.placeholders[j]);
                assert(token(ps2[j].kind, m) == ps2[j].token);
            } else {
                assert(token(ps2[j].kind, n as nat) == ps2[j].token);
            }
        }
        assert forall|a: int, b: int| 0 <= a < b < ps2.len() implies ps2[a].token != ps2[b].token by {
            if b < st.placeholders.len() {
                assert(ps2[a] == st.placeholders[a] && ps2[b] == st.placeholders[b]);
            } else {
                assert(ps2[a] == st.placeholders[a]);
                assert(has_number(st.placeholders[a], st.counter));
                let m = choose|m: nat|
                    1 <= m <= st.counter && #[trigger] token(st.placeholders[a].kind, m)
                        == st.placeholders[a].token;
                if ps2[a].token == ps2[b].token {
                    lemma_token_injective(st.placeholders[a].kind, m, kind, n as nat);
                }
            }
        }
        (c0, c)
    }
}

proof fn lemma_paragraphs(
    st: SegState,
    p: Seq<char>,
    c0: int,
    chunks: Seq<Seq<char>>,
    rest: Seq<char>,
) -> (r: (int, Seq<Seq<char>>))
    requires
        current_ok(st, p, c0, chunks),
    ensures
        ({
            let (st1, left) = paragraphs(st, rest);
            let used = rest.take(rest.len() - left.len());
            &&& left.len() <= rest.len()
            &&& rest == used + left
            &&& current_ok(st1, p + used, r.0, r.1)
        }),
    decreases rest.len(),
{
    match find_from(rest, 0, "\n\n"@) {
        None => {
            assert(rest.take(0) =~= Seq::<char>::empty());
            assert(p + Seq::<char>::empty() =~= p);
            assert(rest =~= rest.take(0) + rest);
            (c0, chunks)
        },
        Some(pos) => {
            lemma_find_from_bounds(rest, 0, "\n\n"@);
            reveal_strlit("\n\n");
            let part = rest.take(pos + 2);
            let ch1 = lemma_extend(st, p, c0, chunks, part);
            let st1 = extend(st, part);
            let (c2, ch2) = lemma_flush(st1, p + part, c0, ch1);
            let st2 = flush(st1, st1.offset);
            let rest2 = rest.skip(pos + 2);
            let r = lemma_paragraphs(st2, p + part, c2, ch2, rest2);
            let (st3, left) = paragraphs(st2, rest2);
            let used2 = rest2.take(rest2.len() - left.len());
            assert(rest.take(rest.len() - left.len()) =~= part + used2);
            assert(p + part + used2 =~= p + (part + used2));
            assert(rest =~= part + rest2);
            assert(rest =~= (part + used2) + left);
            r
        },
    }
}

#[verifier::rlimit(40)]
proof fn lemma_cut(
    st2: SegState,
    p1: Seq<char>,
    rest: Seq<char>,
    c1: int,
    ch2: Seq<Seq<char>>,
    base: Seq<char>,
) -> (r: (int, Seq<Seq<char>>))
    requires
        current_ok(st2, p1 + rest, c1, ch2),
        ch2.last() == base + rest,
    ensures
        current_ok(cut_long(st2, rest), p1 + rest, r.0, r.1),
    decreases rest.len(),
{
    lemma_cut_once_shrinks(st2, rest);
    let p2 = p1 + rest;
    if utf8_len(st2.current) > 1200 {
        let prefix_len = utf8_len(st2.current) - utf8_len(rest);
        let min = if prefix_len >= 800 { 0 } else { 800 - prefix_len };
        let max = if prefix_len >= 1200 { 0 } else { 1200 - prefix_len };
        assert(rest.take(0) =~= Seq::<char>::empty());
        assert(utf8_len(Seq::<char>::empty()) == 0) by {
            assert(vstd::utf8::encode_utf8(Seq::<char>::empty()) =~= Seq::<u8>::empty());
        }
        lemma_sentence_end_offsets(rest, 0, 0, min, max);
        match sentence_end(rest, 0, 0, min, max) {
            None => (c1, ch2),
            Some((k, cut)) => {
                let toks = tokens_of(st2.placeholders);
                let origs = originals_of(st2.placeholders);
                let cur = st2.current;
                let last = ch2.last();
                let li = ch2.len() - 1;
                let chz = ch2.update(li, Seq::empty());
                lemma_weave_last(ch2, toks);
                lemma_weave_last(ch2, origs);
                let split = cur.len() - rest.len() + k + 1;
                let m = last.len() - rest.len() + k + 1;
                let boundary = st2.offset - utf8_len(rest) + cut;
                let cht = ch2.update(li, last.take(m));
                lemma_weave_append(chz, toks, last.take(m));
                lemma_weave_append(chz, origs, last.take(m));
                assert(chz.update(li, chz.last() + last.take(m)) =~= cht);
                assert(Seq::<char>::empty() + last.take(m) =~= last.take(m));
                assert(cur.take(split) =~= weave(chz, toks) + last.take(m));
                assert(cur.skip(split) =~= rest.skip(k + 1));
                let src2 = p2.skip(c1);
                let b = p1.len() + k + 1;
                assert(p2.subrange(c1, b) =~= src2.take(src2.len() - last.len() + m));
                assert(src2.take(src2.len() - last.len() + m) =~= weave(chz, origs) + last.take(m));
                assert(p2.take(b) =~= p1 + rest.take(k + 1));
                crate::text::lemma_utf8_len_concat(p1, rest.take(k + 1));
                crate::text::lemma_utf8_len_concat(p1, rest);
                assert(p2.skip(b) =~= rest.skip(k + 1));
                let piece = cur.take(split);
                assert(piece[piece.len() - 1] == rest[k]);
                lemma_editable_to_end(piece, 0);
                let seg = SpecParsedSegment {
                    original: piece,
                    placeholders: st2.placeholders,
                    start: st2.start,
                    end: boundary,
                };
                assert(woven(seg.original, seg.placeholders, p2.subrange(c1, b), cht));
                lemma_numbered_tokens(st2.placeholders, st2.counter);
                assert(segment_ok(seg, p2));
                let st3 = flush(SegState { current: piece, ..st2 }, boundary);
                let fin = SegState { current: cur.skip(split), start: boundary, ..st3 };
                assert(cut_once(st2, rest) == Some((fin, rest.skip(k + 1))));
                assert forall|i: int| 0 <= i < fin.result.len() implies segment_ok(
                    #[trigger] fin.result[i],
                    p2,
                ) by {
                    if i < st2.result.len() {
                        assert(fin.result[i] == st2.result[i]);
                    }
                }
                assert(tokens_of(Seq::<SpecPlaceholder>::empty()) =~= Seq::<Seq<char>>::empty());
                assert(originals_of(Seq::<SpecPlaceholder>::empty()) =~= Seq::<Seq<char>>::empty());
                assert(woven(fin.current, fin.placeholders, p2.skip(b), seq![rest.skip(k + 1)]));
                assert(current_ok(fin, p2, b, seq![rest.skip(k + 1)]));
                let p3 = p1 + rest.take(k + 1);
                assert(p3 + rest.skip(k + 1) =~= p2);
                assert(Seq::<char>::empty() + rest.skip(k + 1) =~= rest.skip(k + 1));
                lemma_cut(fin, p3, rest.skip(k + 1), b, seq![rest.skip(k + 1)], Seq::empty())
            },
        }
    } else {
        (c1, ch2)
    }
}

proof fn lemma_prose(st: SegState, p: Seq<char>, c0: int, chunks: Seq<Seq<char>>, text: Seq<char>) -> (r: (
    int,
    Seq<Seq<char>>,
))
    requires
        current_ok(st, p, c0, chunks),
    ensures
        current_ok(prose_piece(st, text), p + text, r.0, r.1),
{
    let (c1, ch1) = lemma_paragraphs(st, p, c0, chunks, text);
    let (st1, rest) = paragraphs(st, text);
    let used = text.take(text.len() - rest.len());
    let p1 = p + used;
    let ch2 = lemma_extend(st1, p1, c1, ch1, rest);
    let st2 = extend(st1, rest);
    assert(p1 + rest =~= p + text);
    assert(prose_piece(st, text) == cut_long(st2, rest));
    lemma_cut(st2, p1, rest, c1, ch2, ch1.last())
}

proof fn lemma_fold(ps: Seq<SpecPiece>) -> (r: (int, Seq<Seq<char>>))
    ensures
        current_ok(segment_fold(ps), pieces_text(ps), r.0, r.1),
    decreases ps.len(),
{
    if ps.len() == 0 {
        let p = pieces_text(ps);
        assert(p =~= Seq::<char>::empty());
        assert(utf8_len(Seq::<char>::empty()) == 0) by {
            assert(vstd::utf8::encode_utf8(Seq::<char>::empty()) =~= Seq::<u8>::empty());
        }
        assert(p.take(0) =~= Seq::<char>::empty());
        assert(p.skip(0) =~= Seq::<char>::empty());
        assert(tokens_of(Seq::<SpecPlaceholder>::empty()) =~= Seq::<Seq<char>>::empty());
        assert(originals_of(Seq::<SpecPlaceholder>::empty()) =~= Seq::<Seq<char>>::empty());
        (0, seq![Seq::<char>::empty()])
    } else {
        let (c, ch) = lemma_fold(ps.drop_last());
        let st = segment_fold(ps.drop_last());
        let p = pieces_text(ps.drop_last());
        match ps.last() {
            SpecPiece::Prose(t) => lemma_prose(st, p, c, ch, t),
            SpecPiece::Protected { kind, original } => lemma_protected(st, p, c, ch, kind, original),
        }
    }
}

/// The segment rebuilds, with its tokens put back, to exactly the bytes of
/// the source that it spans.
pub open spec fn rebuilds_exactly(source: Seq<char>, seg: SpecParsedSegment) -> bool {
    byte_range(source, seg.start, seg.end) matches Some((a, b)) && spec_reconstruct(
        seg.original,
        seg.placeholders,
    ) == Ok::<Seq<char>, Seq<char>>(source.subrange(a, b))
}

/// Without translation, scanning, segmenting and rebuilding give the source
/// back: every segment rebuilds to exactly the bytes it spans, wherever no
/// run shaped like a token (`{{NAME_123}}`) occurs in the source.
pub proof fn segments_rebuild_their_source(s: Seq<char>)
    requires
        token_free(s),
        spec_scan(s) is Ok,
    ensures
        forall|i: int|
            0 <= i < spec_segment(spec_scan(s)->Ok_0).len() ==> rebuilds_exactly(
                s,
                #[trigger] spec_segment(spec_scan(s)->Ok_0)[i],
            ),
{
    let ps = spec_scan(s)->Ok_0;
    scan_covers_the_source(s);
    let (c, ch) = lemma_fold(ps);
    let st = segment_fold(ps);
    let (c2, ch2) = lemma_flush(st, s, c, ch);
    let segs = spec_segment(ps);
    assert forall|i: int| 0 <= i < segs.len() implies rebuilds_exactly(s, #[trigger] segs[i]) by {
        let r = segs[i];
        assert(segment_ok(r, s));
        lemma_kind_tokens(r.placeholders);
        let (a, b, chunks) = choose|a: int, b: int, chunks: Seq<Seq<char>>|
            0 <= a <= b <= s.len() && utf8_len(s.take(a)) == r.start && utf8_len(s.take(b))
                == r.end && #[trigger] woven(r.original, r.placeholders, s.subrange(a, b), chunks);
        lemma_char_index_exact(s, a);
        lemma_char_index_exact(s, b);
        lemma_token_free_part(s, a, b);
        woven_tokens_rebuild(chunks, r.placeholders);
    }
}

/// The segments of a scanned source lie within it, in order: each starts no
/// later than it ends, ends no later than the next one starts, and ends
/// within the source's bytes.
pub proof fn segments_lie_within_the_source(s: Seq<char>)
    requires
        spec_scan(s) is Ok,
    ensures
        ordered_segments(spec_segment(spec_scan(s)->Ok_0)),
        forall|i: int|
            0 <= i < spec_segment(spec_scan(s)->Ok_0).len() ==> (#[trigger] spec_segment(
                spec_scan(s)->Ok_0,
            )[i]).end <= utf8_len(s),
{
    scan_covers_the_source(s);
    segments_follow_the_source(spec_scan(s)->Ok_0);
}

/// Every segment of a scanned source is that source's span with tokens in
/// place of its protected LaTeX: the tokens stand in the order of the
/// placeholders, each is `{{KIND_n}}` for its own kind, and they are distinct.
pub proof fn segments_weave_their_tokens(s: Seq<char>)
    requires
        spec_scan(s) is Ok,
    ensures
        forall|i: int|
            0 <= i < spec_segment(spec_scan(s)->Ok_0).len() ==> segment_ok(
                #[trigger] spec_segment(spec_scan(s)->Ok_0)[i],
                s,
            ),
{
    let ps = spec_scan(s)->Ok_0;
    scan_covers_the_source(s);
    let (c, ch) = lemma_fold(ps);
    let st = segment_fold(ps);
    let (c2, ch2) = lemma_flush(st, s, c, ch);
}

proof fn lemma_mid_at_offset(chunks: Seq<Seq<char>>, mids: Seq<Seq<char>>, j: int)
    requires
        chunks.len() == mids.len() + 1,
        0 <= j < mids.len(),
    ensures
        starts_at(weave(chunks, mids), weave_offset(chunks, mids, j), mids[j]),
    decreases j,
{
    let x = weave(chunks, mids);
    let rest = weave(chunks.drop_first(), mids.drop_first());
    assert(x == chunks[0] + mids[0] + rest);
    if j == 0 {
        assert(x.subrange(chunks[0].len() as int, (chunks[0].len() + mids[0].len()) as int) =~= mids[0]);
    } else {
        lemma_mid_at_offset(chunks.drop_first(), mids.drop_first(), j - 1);
        let o = weave_offset(chunks.drop_first(), mids.drop_first(), j - 1);
        let d: int = (chunks[0].len() + mids[0].len()) as int;
        assert(x.subrange(d + o, d + o + mids[j].len()) =~= rest.subrange(o, o + mids[j].len()));
    }
}

/// In text woven around distinct tokens, with no token in its chunks, each
/// token occurs exactly once.
proof fn lemma_token_once(chunks: Seq<Seq<char>>, toks: Seq<Seq<char>>, j: int)
    requires
        chunks.len() == toks.len() + 1,
        0 <= j < toks.len(),
        forall|m: int| 0 <= m < toks.len() ==> is_token(#[trigger] toks[m]),
        forall|m: int| 0 <= m < chunks.len() ==> holds_no_token(#[trigger] chunks[m]),
        forall|a: int, b: int| 0 <= a < b < toks.len() ==> toks[a] != toks[b],
    ensures
        count_matches(weave(chunks, toks), toks[j]) == 1,
{
    let x = weave(chunks, toks);
    let t = toks[j];
    let o = weave_offset(chunks, toks, j);
    lemma_mid_at_offset(chunks, toks, j);
    assert(is_token(t));
    let (k0, n0) = choose|k0: PlaceholderKind, n0: nat| t == #[trigger] token(k0, n0);
    lemma_token_braces(k0, n0);
    lemma_find_from_bounds(x, 0, t);
    match find_from(x, 0, t) {
        None => {},
        Some(p) => {
            lemma_occurrence(chunks, toks, p, t);
            let m = choose|m: int|
                0 <= m < toks.len() && toks[m] == t && p == weave_offset(chunks, toks, m);
            if m < j {
                assert(toks[m] != toks[j]);
            } else if m > j {
                assert(toks[j] != toks[m]);
            }
        },
    }
    let e: int = o + t.len();
    lemma_find_from_bounds(x, e, t);
    if let Some(p2) = find_from(x, e, t) {
        lemma_occurrence(chunks, toks, p2, t);
        let m = choose|m: int|
            0 <= m < toks.len() && toks[m] == t && p2 == weave_offset(chunks, toks, m);
        if m < j {
            assert(toks[m] != toks[j]);
        } else if m > j {
            assert(toks[j] != toks[m]);
        }
    }
    assert(count_from(x, e, t) == 0);
    assert(count_from(x, 0, t) == count_from(x, e, t) + 1);
}

/// In every segment of a scanned source that holds no run shaped like a
/// token, each placeholder's token occurs exactly once in the segment's text.
pub proof fn segment_tokens_occur_once(s: Seq<char>)
    requires
        token_free(s),
        spec_scan(s) is Ok,
    ensures
        forall|i: int, j: int|
            0 <= i < spec_segment(spec_scan(s)->Ok_0).len() && 0 <= j < spec_segment(
                spec_scan(s)->Ok_0,
            )[i].placeholders.len() ==> count_matches(
                spec_segment(spec_scan(s)->Ok_0)[i].original,
                #[trigger] spec_segment(spec_scan(s)->Ok_0)[i].placeholders[j].token,
            ) == 1,
{
    let segs = spec_segment(spec_scan(s)->Ok_0);
    segments_weave_their_tokens(s);
    assert forall|i: int, j: int|
        0 <= i < segs.len() && 0 <= j < segs[i].placeholders.len() implies count_matches(
        segs[i].original,
        #[trigger] segs[i].placeholders[j].token,
    ) == 1 by {
        let r = segs[i];
        assert(segment_ok(r, s));
        let (a, b, chunks) = choose|a: int, b: int, chunks: Seq<Seq<char>>|
            0 <= a <= b <= s.len() && utf8_len(s.take(a)) == r.start && utf8_len(s.take(b))
                == r.end && #[trigger] woven(r.original, r.placeholders, s.subrange(a, b), chunks);
        lemma_kind_tokens(r.placeholders);
        lemma_token_free_part(s, a, b);
        lemma_chunks_free(chunks, originals_of(r.placeholders));
        let toks = tokens_of(r.placeholders);
        assert forall|m: int| 0 <= m < toks.len() implies is_token(#[trigger] toks[m]) by {
            assert(toks[m] == r.placeholders[m].token);
        }
        assert forall|x: int, y: int| 0 <= x < y < toks.len() implies toks[x] != toks[y] by {
            assert(toks[x] == r.placeholders[x].token);
            assert(toks[y] == r.placeholders[y].token);
        }
        lemma_token_once(chunks, toks, j);
        assert(toks[j] == r.placeholders[j].token);
    }
}

// ---------------------------------------------------------------------------
// Token numbers run upwards
// ---------------------------------------------------------------------------

/// Every number `p`'s token carries is below every number `q`'s carries.
pub open spec fn numbered_before(p: SpecPlaceholder, q: SpecPlaceholder) -> bool {
    forall|n1: nat, n2: nat|
        #![trigger token(p.kind, n1), token(q.kind, n2)]
        token(p.kind, n1) == p.token && token(q.kind, n2) == q.token ==> n1 < n2
}

/// Token numbers increase along the placeholders of each segment, and from
/// each segment to every later one.
pub open spec fn numbers_increase(segs: Seq<SpecParsedSegment>) -> bool {
    &&& forall|i: int, j1: int, j2: int|
        0 <= i < segs.len() && 0 <= j1 < j2 < segs[i].placeholders.len() ==> numbered_before(
            #[trigger] segs[i].placeholders[j1],
            #[trigger] segs[i].placeholders[j2],
        )
    &&& forall|i1: int, i2: int, j1: int, j2: int|
        0 <= i1 < i2 < segs.len() && 0 <= j1 < segs[i1].placeholders.len() && 0 <= j2
            < segs[i2].placeholders.len() ==> numbered_before(
            #[trigger] segs[i1].placeholders[j1],
            #[trigger] segs[i2].placeholders[j2],
        )
}

/// No number of `p`'s token exceeds `c`.
pub open spec fn numbered_upto(p: SpecPlaceholder, c: int) -> bool {
    forall|n: nat| #[trigger] token(p.kind, n) == p.token ==> n <= c
}

/// The numbering the segmenter keeps: closed segments and the current one
/// count upwards, and no number exceeds the counter.
pub open spec fn counted(st: SegState) -> bool {
    &&& st.counter >= 0
    &&& numbers_increase(st.result)
    &&& forall|i: int, j: int|
        0 <= i < st.result.len() && 0 <= j < st.result[i].placeholders.len() ==> numbered_upto(
            #[trigger] st.result[i].placeholders[j],
            st.counter,
        )
    &&& forall|j: int| 0 <= j < st.placeholders.len() ==> numbered_upto(#[trigger] st.placeholders[j], st.counter)
    &&& forall|i: int, j1: int, j2: int|
        0 <= i < st.result.len() && 0 <= j1 < st.result[i].placeholders.len() && 0 <= j2
            < st.placeholders.len() ==> numbered_before(
            #[trigger] st.result[i].placeholders[j1],
            #[trigger] st.placeholders[j2],
        )
    &&& forall|j1: int, j2: int|
        0 <= j1 < j2 < st.placeholders.len() ==> numbered_before(
            #[trigger] st.placeholders[j1],
            #[trigger] st.placeholders[j2],
        )
}

proof fn lemma_counted_flush(st: SegState, at: int)
    requires
        counted(st),
    ensures
        counted(flush(st, at)),
{
    if has_editable(st.current) {
        let st2 = flush(st, at);
        let r = st2.result;
        let n = st.result.len() as int;
        assert(r[n].placeholders == st.placeholders);
        assert forall|i: int, j1: int, j2: int|
            0 <= i < r.len() && 0 <= j1 < j2 < r[i].placeholders.len() implies numbered_before(
            #[trigger] r[i].placeholders[j1],
            #[trigger] r[i].placeholders[j2],
        ) by {
            if i < n {
                assert(r[i] == st.result[i]);
            }
        }
        assert forall|i1: int, i2: int, j1: int, j2: int|
            0 <= i1 < i2 < r.len() && 0 <= j1 < r[i1].placeholders.len() && 0 <= j2
                < r[i2].placeholders.len() implies numbered_before(
            #[trigger] r[i1].placeholders[j1],
            #[trigger] r[i2].placeholders[j2],
        ) by {
            assert(r[i1] == st.result[i1]);
            if i2 < n {
                assert(r[i2] == st.result[i2]);
            }
        }
        assert forall|i: int, j: int|
            0 <= i < r.len() && 0 <= j < r[i].placeholders.len() implies numbered_upto(
            #[trigger] r[i].placeholders[j],
            st2.counter,
        ) by {
            if i < n {
                assert(r[i] == st.result[i]);
            }
        }
    }
}

proof fn lemma_upto_grows(p: SpecPlaceholder, c: int, d: int)
    requires
        numbered_upto(p, c),
        c <= d,
    ensures
        numbered_upto(p, d),
{
}

proof fn lemma_before_new(p: SpecPlaceholder, q: SpecPlaceholder, c: int, m: nat)
    requires
        numbered_upto(p, c),
        q.token == token(q.kind, m),
        c < m,
    ensures
        numbered_before(p, q),
{
    assert forall|n1: nat, n2: nat|
        token(p.kind, n1) == p.token && token(q.kind, n2) == q.token implies n1 < n2 by {
        lemma_token_injective(q.kind, n2, q.kind, m);
    }
}

proof fn lemma_counted_protected(st: SegState, kind: PlaceholderKind, original: Seq<char>)
    requires
        counted(st),
    ensures
        counted(protected_piece(st, kind, original)),
{
    if has_editable(st.current) {
        let st2 = protected_piece(st, kind, original);
        let m = st.counter + 1;
        let q = SpecPlaceholder { token: token(kind, m as nat), original, kind };
        let pl = st2.placeholders;
        let k = st.placeholders.len() as int;
        assert(pl[k] == q);
        assert(numbered_upto(q, m)) by {
            assert forall|n: nat| #[trigger] token(q.kind, n) == q.token implies n <= m by {
                lemma_token_injective(kind, n, kind, m as nat);
            }
        }
        assert forall|i: int, j: int|
            0 <= i < st2.result.len() && 0 <= j < st2.result[i].placeholders.len() implies numbered_upto(
            #[trigger] st2.result[i].placeholders[j],
            st2.counter,
        ) by {
            lemma_upto_grows(st.result[i].placeholders[j], st.counter, m);
        }
        assert forall|j: int| 0 <= j < pl.len() implies numbered_upto(#[trigger] pl[j], st2.counter) by {
            if j < k {
                assert(pl[j] == st.placeholders[j]);
                lemma_upto_grows(st.placeholders[j], st.counter, m);
            }
        }
        assert forall|i: int, j1: int, j2: int|
            0 <= i < st2.result.len() && 0 <= j1 < st2.result[i].placeholders.len() && 0 <= j2
                < pl.len() implies numbered_before(
            #[trigger] st2.result[i].placeholders[j1],
            #[trigger] pl[j2],
        ) by {
            if j2 < k {
                assert(pl[j2] == st.placeholders[j2]);
            } else {
                lemma_before_new(st.result[i].placeholders[j1], q, st.counter, m as nat);
            }
        }
        assert forall|j1: int, j2: int| 0 <= j1 < j2 < pl.len() implies numbered_before(
            #[trigger] pl[j1],
            #[trigger] pl[j2],
        ) by {
            assert(pl[j1] == st.placeholders[j1]);
            if j2 < k {
                assert(pl[j2] == st.placeholders[j2]);
            } else {
                lemma_before_new(st.placeholders[j1], q, st.counter, m as nat);
            }
        }
    }
}

proof fn lemma_counted_same(st: SegState, st2: SegState)
    requires
        counted(st),
        st2.result == st.result,
        st2.placeholders == st.placeholders,
        st2.counter == st.counter,
    ensures
        counted(st2),
{
}

proof fn lemma_counted_paragraphs(st: SegState, rest: Seq<char>)
    requires
        counted(st),
    ensures
        counted(paragraphs(st, rest).0),
    decreases rest.len(),
{
    match find_from(rest, 0, "\n\n"@) {
        None => {},
        Some(pos) => {
            lemma_find_from_bounds(rest, 0, "\n\n"@);
            reveal_strlit("\n\n");
            let st1 = extend(st, rest.take(pos + 2));
            lemma_counted_same(st, st1);
            lemma_counted_flush(st1, st1.offset);
            lemma_counted_paragraphs(flush(st1, st1.offset), rest.skip(pos + 2));
        },
    }
}

proof fn lemma_counted_cut(st: SegState, rest: Seq<char>)
    requires
        counted(st),
    ensures
        counted(cut_long(st, rest)),
    decreases rest.len(),
{
    lemma_cut_once_shrinks(st, rest);
    if let Some((next, r2)) = cut_once(st, rest) {
        let prefix_len = utf8_len(st.current) - utf8_len(rest);
        let min = if prefix_len >= 800 { 0 } else { 800 - prefix_len };
        let max = if prefix_len >= 1200 { 0 } else { 1200 - prefix_len };
        let (k, cut) = sentence_end(rest, 0, 0, min, max)->Some_0;
        let split = st.current.len() - rest.len() + k + 1;
        let boundary = st.offset - utf8_len(rest) + cut;
        let cutting = SegState { current: st.current.take(split), ..st };
        lemma_counted_same(st, cutting);
        lemma_counted_flush(cutting, boundary);
        lemma_counted_same(flush(cutting, boundary), next);
        lemma_counted_cut(next, r2);
    }
}

proof fn lemma_counted_fold(ps: Seq<SpecPiece>)
    ensures
        counted(segment_fold(ps)),
    decreases ps.len(),
{
    if ps.len() > 0 {
        lemma_counted_fold(ps.drop_last());
        let st = segment_fold(ps.drop_last());
        match ps.last() {
            SpecPiece::Prose(text) => {
                lemma_counted_paragraphs(st, text);
                let (st1, rest) = paragraphs(st, text);
                lemma_counted_same(st1, extend(st1, rest));
                lemma_counted_cut(extend(st1, rest), rest);
            },
            SpecPiece::Protected { kind, original } => {
                lemma_counted_protected(st, kind, original);
            },
        }
    }
}

/// Token numbers run upwards through the segments: along the placeholders
/// of each segment, which stand in the order of its tokens, and from each
/// segment to every later one.
pub proof fn token_numbers_increase(ps: Seq<SpecPiece>)
    ensures
        numbers_increase(spec_segment(ps)),
{
    lemma_counted_fold(ps);
    let st = segment_fold(ps);
    lemma_counted_flush(st, st.offset);
}

} // verus!
