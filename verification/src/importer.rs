//! The decisions of an import: how a file's source is parsed and checked,
//! how translations move from a replaced file to its new segments, how a
//! course manifest orders chapters and files, and what the report counts.
//! Reading the tree and writing the database are left to the caller.
use vstd::prelude::*;
use crate::digest::{hex_digest, sha256, sha256_digest, spec_hex};
use crate::export::{byte_range, byte_range_exec};
use crate::models::{
    ParsedSegment, Placeholder, Segment, SpecParsedSegment, SpecPlaceholder,
    parsed_segments_view, pieces_text, pieces_view, placeholders_view,
};
use crate::parser::latex::{describe_error, spec_scan};
use crate::parser::segmenter::{spec_reconstruct, spec_segment};
use crate::parser::{reconstruct, scan, segment};
use crate::parser::coverage::scan_covers_the_source;
use crate::parser::roundtrip::{rebuilds_exactly, segments_rebuild_their_source, token_free};
use crate::text::{
    chars_of, find_chars, find_from, lemma_find_from_bounds, push_range, push_str, range_eq,
    skip_whitespace, skip_ws, starts_at, starts_chars, starts_str, string_from, utf8_len, decimal,
};
use vstd::utf8::encode_utf8;

verus! {

broadcast use vstd::seq_lib::group_seq_properties;

// ---------------------------------------------------------------------------
// Renaming tokens
// ---------------------------------------------------------------------------

pub open spec fn pairs_view(tokens: Seq<(&str, &str)>) -> Seq<(Seq<char>, Seq<char>)> {
    tokens.map_values(|p: (&str, &str)| (p.0@, p.1@))
}

/// The first pair from `k` whose (non-empty) old token starts at `at`.
pub open spec fn token_pair_at(
    t: Seq<char>,
    at: int,
    tokens: Seq<(Seq<char>, Seq<char>)>,
    k: int,
) -> Option<int>
    decreases tokens.len() - k,
{
    if k < 0 || k >= tokens.len() {
        None
    } else if tokens[k].0.len() > 0 && starts_at(t, at, tokens[k].0) {
        Some(k)
    } else {
        token_pair_at(t, at, tokens, k + 1)
    }
}

/// `t[at..]` with every token renamed, in one pass from left to right: where
/// `{{` begins a listed token, its new name is written and the old one
/// skipped; any other character is copied.
pub open spec fn rename_from(t: Seq<char>, at: int, tokens: Seq<(Seq<char>, Seq<char>)>) -> Seq<
    char,
>
    decreases t.len() - at,
{
    if at < 0 || at >= t.len() {
        Seq::empty()
    } else {
        let found = if starts_at(t, at, seq!['{', '{']) {
            token_pair_at(t, at, tokens, 0)
        } else {
            None
        };
        match found {
            Some(k) => {
                proof {
                    lemma_token_pair_at(t, at, tokens, 0);
                }
                tokens[k].1 + rename_from(t, at + tokens[k].0.len(), tokens)
            },
            None => seq![t[at]] + rename_from(t, at + 1, tokens),
        }
    }
}

pub proof fn lemma_token_pair_at(
    t: Seq<char>,
    at: int,
    tokens: Seq<(Seq<char>, Seq<char>)>,
    k: int,
)
    ensures
        token_pair_at(t, at, tokens, k) matches Some(j) ==> 0 <= j < tokens.len() && tokens[j].0.len()
            > 0 && starts_at(t, at, tokens[j].0),
    decreases tokens.len() - k,
{
    if 0 <= k < tokens.len() && !(tokens[k].0.len() > 0 && starts_at(t, at, tokens[k].0)) {
        lemma_token_pair_at(t, at, tokens, k + 1);
    }
}

fn token_pair_at_exec(t: &[char], at: usize, tokens: &[(&str, &str)]) -> (r: Option<usize>)
    ensures
        match r {
            Some(k) => token_pair_at(t@, at as int, pairs_view(tokens@), 0) == Some(k as int) && k
                < tokens@.len(),
            None => token_pair_at(t@, at as int, pairs_view(tokens@), 0) is None,
        },
{
    let ghost pv = pairs_view(tokens@);
    let mut k: usize = 0;
    while k < tokens.len()
        invariant
            k <= tokens@.len(),
            pv == pairs_view(tokens@),
            token_pair_at(t@, at as int, pv, 0) == token_pair_at(t@, at as int, pv, k as int),
        decreases tokens@.len() - k,
    {
        let before = chars_of(tokens[k].0);
        assert(pv[k as int].0 == tokens@[k as int].0@);
        if before.len() > 0 && starts_chars(t, at, &before) {
            return Some(k);
        }
        k += 1;
    }
    None
}

/// Renames every token in one pass, so that `{{MATH_1}}` becoming
/// `{{MATH_2}}` cannot collide with a `{{MATH_2}}` that is itself renamed.
/// An empty old token names nothing and is passed over.
pub fn rename_tokens(text: &str, tokens: &[(&str, &str)]) -> (r: String)
    ensures
        r@ == rename_from(text@, 0, pairs_view(tokens@)),
{
    let ghost pv = pairs_view(tokens@);
    let t = chars_of(text);
    let n = t.len();
    let mut open: Vec<char> = Vec::new();
    open.push('{');
    open.push('{');
    assert(open@ =~= seq!['{', '{']);
    let mut out: Vec<char> = Vec::new();
    let mut at: usize = 0;
    while at < n
        invariant
            at <= n,
            n == t@.len(),
            t@ == text@,
            pv == pairs_view(tokens@),
            open@ == seq!['{', '{'],
            out@ + rename_from(t@, at as int, pv) == rename_from(t@, 0, pv),
        decreases n - at,
    {
        let found = if starts_chars(&t, at, &open) {
            token_pair_at_exec(&t, at, tokens)
        } else {
            None
        };
        proof {
            lemma_token_pair_at(t@, at as int, pv, 0);
        }
        match found {
            Some(k) => {
                let after = chars_of(tokens[k].1);
                let before_len = tokens[k].0.unicode_len();
                assert(pv[k as int].1 == tokens@[k as int].1@);
                assert(pv[k as int].0 == tokens@[k as int].0@);
                assert(at + before_len <= n);
                let ghost prev = out@;
                push_range(&mut out, &after, 0, after.len());
                assert(after@.subrange(0, after@.len() as int) =~= after@);
                assert(out@ + rename_from(t@, at + before_len, pv) =~= prev + rename_from(
                    t@,
                    at as int,
                    pv,
                ));
                at = at + before_len;
            },
            None => {
                let ghost prev = out@;
                out.push(t[at]);
                assert(out@ + rename_from(t@, at + 1, pv) =~= prev + rename_from(
                    t@,
                    at as int,
                    pv,
                ));
                at = at + 1;
            },
        }
    }
    string_from(&out)
}

// ---------------------------------------------------------------------------
// Carrying translations to a replaced file
// ---------------------------------------------------------------------------

/// The LaTeX a segment stands for, where its tokens rebuild.
pub open spec fn source_of(original: Seq<char>, ps: Seq<SpecPlaceholder>) -> Option<Seq<char>> {
    match spec_reconstruct(original, ps) {
        Ok(s) => Some(s),
        Err(_) => None,
    }
}

pub open spec fn previous_sources(previous: Seq<Segment>) -> Seq<Option<Seq<char>>> {
    Seq::new(
        previous.len(),
        |i: int| source_of(previous[i].original@, placeholders_view(previous[i].placeholders@)),
    )
}

pub open spec fn new_sources(segs: Seq<ParsedSegment>) -> Seq<Option<Seq<char>>> {
    Seq::new(
        segs.len(),
        |i: int| source_of(segs[i].original@, placeholders_view(segs[i].placeholders@)),
    )
}

/// How many of `v` are `Some(x)`.
pub open spec fn count_of(v: Seq<Option<Seq<char>>>, x: Seq<char>) -> nat
    decreases v.len(),
{
    if v.len() == 0 {
        0
    } else {
        count_of(v.drop_last(), x) + if v.last() == Some(x) {
            1nat
        } else {
            0nat
        }
    }
}

/// The first index from `i` that holds `Some(x)`.
pub open spec fn first_of(v: Seq<Option<Seq<char>>>, x: Seq<char>, i: int) -> Option<int>
    decreases v.len() - i,
{
    if i < 0 || i >= v.len() {
        None
    } else if v[i] == Some(x) {
        Some(i)
    } else {
        first_of(v, x, i + 1)
    }
}

/// Old and new tokens side by side, from `i` on, where every placeholder
/// stands for the same LaTeX on both sides.
pub open spec fn paired_tokens(
    old: Seq<SpecPlaceholder>,
    new: Seq<SpecPlaceholder>,
    i: int,
) -> Option<Seq<(Seq<char>, Seq<char>)>>
    decreases old.len() - i,
{
    if i < 0 || i >= old.len() {
        Some(Seq::empty())
    } else if old[i].original != new[i].original {
        None
    } else {
        match paired_tokens(old, new, i + 1) {
            None => None,
            Some(rest) => Some(seq![(old[i].token, new[i].token)] + rest),
        }
    }
}

/// The translation and status that new segment `i` takes over: those of the
/// one old segment whose LaTeX is byte-identical, when that LaTeX occurs
/// once on each side, the old segment was translated, its placeholders
/// stand for the same LaTeX in the same order, and the translation with its
/// tokens renamed rebuilds against the new placeholders.
pub open spec fn carry_one(previous: Seq<Segment>, segs: Seq<ParsedSegment>, i: int) -> Option<
    (Seq<char>, Seq<char>),
> {
    let ps = previous_sources(previous);
    let ns = new_sources(segs);
    match ns[i] {
        None => None,
        Some(src) => if count_of(ps, src) != 1 || count_of(ns, src) != 1 {
            None
        } else {
            match first_of(ps, src, 0) {
                None => None,
                Some(j) => {
                    let old = previous[j];
                    let opv = placeholders_view(old.placeholders@);
                    let npv = placeholders_view(segs[i].placeholders@);
                    if old.translated@.len() == 0 || opv.len() != npv.len() {
                        None
                    } else {
                        match paired_tokens(opv, npv, 0) {
                            None => None,
                            Some(tokens) => {
                                let translated = rename_from(old.translated@, 0, tokens);
                                match spec_reconstruct(translated, npv) {
                                    Err(_) => None,
                                    Ok(_) => Some((translated, old.status@)),
                                }
                            }
                        }
                    }
                },
            }
        },
    }
}

proof fn lemma_first_of(v: Seq<Option<Seq<char>>>, x: Seq<char>, i: int)
    requires
        0 <= i,
    ensures
        first_of(v, x, i) matches Some(j) ==> i <= j < v.len() && v[j] == Some(x),
    decreases v.len() - i,
{
    if i < v.len() && v[i] != Some(x) {
        lemma_first_of(v, x, i + 1);
    }
}

/// A translation moves to a new segment only on an unambiguous pairing: the
/// new segment's LaTeX occurs once among the new segments and once among the
/// old ones, the old segment had a translation, and the moved text, with its
/// tokens renamed, rebuilds against the new segment's placeholders; it keeps
/// the old segment's status.
pub proof fn carried_translations_pair_unambiguously(
    previous: Seq<Segment>,
    segs: Seq<ParsedSegment>,
    i: int,
)
    requires
        0 <= i < segs.len(),
    ensures
        carry_one(previous, segs, i) matches Some((t, status)) ==> {
            let src = new_sources(segs)[i]->Some_0;
            &&& new_sources(segs)[i] is Some
            &&& count_of(new_sources(segs), src) == 1
            &&& count_of(previous_sources(previous), src) == 1
            &&& exists|j: int|
                0 <= j < previous.len() && previous_sources(previous)[j] == Some(src)
                    && #[trigger] previous[j].translated@.len() > 0 && previous[j].status@ == status
            &&& spec_reconstruct(t, placeholders_view(segs[i].placeholders@)) is Ok
        },
{
    let ps = previous_sources(previous);
    let ns = new_sources(segs);
    if let Some((t, status)) = carry_one(previous, segs, i) {
        let src = ns[i]->Some_0;
        lemma_first_of(ps, src, 0);
        let j = first_of(ps, src, 0)->Some_0;
        assert(previous[j].translated@.len() > 0 && previous[j].status@ == status);
    }
}

/// Each old token beside the new token at the same place.
pub open spec fn tokens_side_by_side(
    old: Seq<SpecPlaceholder>,
    new: Seq<SpecPlaceholder>,
) -> Seq<(Seq<char>, Seq<char>)> {
    Seq::new(old.len(), |k: int| (old[k].token, new[k].token))
}

proof fn lemma_paired_in_place(old: Seq<SpecPlaceholder>, new: Seq<SpecPlaceholder>, i: int)
    requires
        0 <= i <= old.len(),
        old.len() == new.len(),
        paired_tokens(old, new, i) is Some,
    ensures
        paired_tokens(old, new, i)->Some_0 =~= tokens_side_by_side(old, new).skip(i),
        forall|k: int| i <= k < old.len() ==> #[trigger] old[k].original == new[k].original,
    decreases old.len() - i,
{
    if i < old.len() {
        lemma_paired_in_place(old, new, i + 1);
        let rest = paired_tokens(old, new, i + 1)->Some_0;
        assert(tokens_side_by_side(old, new).skip(i) =~= seq![(old[i].token, new[i].token)]
            + tokens_side_by_side(old, new).skip(i + 1));
    }
}

/// A carried translation keeps each formula in its place: it is the old
/// translation with, in one pass, the token of each old placeholder renamed
/// to the token of the new placeholder at the same place, and those two
/// placeholders stand for the same LaTeX.
pub proof fn carried_tokens_keep_their_places(
    previous: Seq<Segment>,
    segs: Seq<ParsedSegment>,
    i: int,
)
    requires
        0 <= i < segs.len(),
    ensures
        carry_one(previous, segs, i) matches Some((t, status)) ==> exists|j: int|
            0 <= j < previous.len() && #[trigger] previous_sources(previous)[j] == new_sources(
                segs,
            )[i] && ({
                let opv = placeholders_view(previous[j].placeholders@);
                let npv = placeholders_view(segs[i].placeholders@);
                &&& opv.len() == npv.len()
                &&& forall|k: int| 0 <= k < opv.len() ==> #[trigger] opv[k].original == npv[k].original
                &&& t == rename_from(previous[j].translated@, 0, tokens_side_by_side(opv, npv))
            }),
{
    let ps = previous_sources(previous);
    let ns = new_sources(segs);
    if let Some((t, status)) = carry_one(previous, segs, i) {
        let src = ns[i]->Some_0;
        lemma_first_of(ps, src, 0);
        let j = first_of(ps, src, 0)->Some_0;
        let opv = placeholders_view(previous[j].placeholders@);
        let npv = placeholders_view(segs[i].placeholders@);
        lemma_paired_in_place(opv, npv, 0);
        assert(tokens_side_by_side(opv, npv).skip(0) =~= tokens_side_by_side(opv, npv));
        assert(ps[j] == ns[i]);
    }
}

pub open spec fn carried_view(c: Option<(String, String)>) -> Option<(Seq<char>, Seq<char>)> {
    match c {
        Some((t, s)) => Some((t@, s@)),
        None => None,
    }
}

fn source_of_exec(original: &str, ps: &[Placeholder]) -> (r: Option<Vec<char>>)
    ensures
        match r {
            Some(v) => source_of(original@, placeholders_view(ps@)) == Some(v@),
            None => source_of(original@, placeholders_view(ps@)) is None,
        },
{
    match reconstruct(original, ps) {
        Ok(s) => Some(chars_of(s.as_str())),
        Err(_) => None,
    }
}

/// How many of `sources` are `Some(source)`.
fn occurrences(sources: &[Option<Vec<char>>], source: &[char]) -> (c: usize)
    ensures
        c == count_of(opt_chars_view(sources@), source@),
{
    let mut c: usize = 0;
    let mut i: usize = 0;
    while i < sources.len()
        invariant
            i <= sources@.len(),
            c <= i,
            c == count_of(opt_chars_view(sources@).take(i as int), source@),
        decreases sources@.len() - i,
    {
        assert(opt_chars_view(sources@).take(i + 1).drop_last() =~= opt_chars_view(
            sources@,
        ).take(i as int));
        let same = match &sources[i] {
            Some(v) => crate::text::chars_eq(v.as_slice(), source),
            None => false,
        };
        if same {
            c += 1;
        }
        i += 1;
    }
    assert(opt_chars_view(sources@).take(sources@.len() as int) =~= opt_chars_view(sources@));
    c
}

pub open spec fn opt_chars_view(v: Seq<Option<Vec<char>>>) -> Seq<Option<Seq<char>>> {
    v.map_values(
        |o: Option<Vec<char>>|
            match o {
                Some(x) => Some(x@),
                None => None,
            },
    )
}

fn first_of_exec(sources: &[Option<Vec<char>>], source: &[char]) -> (r: Option<usize>)
    ensures
        match r {
            Some(j) => first_of(opt_chars_view(sources@), source@, 0) == Some(j as int) && j
                < sources@.len(),
            None => first_of(opt_chars_view(sources@), source@, 0) is None,
        },
{
    let mut i: usize = 0;
    while i < sources.len()
        invariant
            i <= sources@.len(),
            first_of(opt_chars_view(sources@), source@, 0) == first_of(
                opt_chars_view(sources@),
                source@,
                i as int,
            ),
        decreases sources@.len() - i,
    {
        let same = match &sources[i] {
            Some(v) => crate::text::chars_eq(v.as_slice(), source),
            None => false,
        };
        if same {
            return Some(i);
        }
        i += 1;
    }
    None
}

/// The tokens of two placeholder lists side by side, where each pair stands
/// for the same LaTeX.
fn paired_tokens_exec<'a>(old: &'a [Placeholder], new: &'a [Placeholder]) -> (r: Option<
    Vec<(&'a str, &'a str)>,
>)
    requires
        old@.len() == new@.len(),
    ensures
        match r {
            Some(v) => paired_tokens(placeholders_view(old@), placeholders_view(new@), 0) == Some(
                pairs_view(v@),
            ),
            None => paired_tokens(placeholders_view(old@), placeholders_view(new@), 0) is None,
        },
{
    let ghost opv = placeholders_view(old@);
    let ghost npv = placeholders_view(new@);
    let mut pairs: Vec<(&'a str, &'a str)> = Vec::new();
    let mut i: usize = 0;
    while i < old.len()
        invariant
            i <= old@.len(),
            old@.len() == new@.len(),
            opv == placeholders_view(old@),
            npv == placeholders_view(new@),
            paired_tokens(opv, npv, 0) == match paired_tokens(opv, npv, i as int) {
                None => None,
                Some(rest) => Some(pairs_view(pairs@) + rest),
            },
        decreases old@.len() - i,
    {
        let a = chars_of(old[i].original.as_str());
        let b = chars_of(new[i].original.as_str());
        assert(opv[i as int] == old@[i as int]@);
        assert(npv[i as int] == new@[i as int]@);
        if !crate::text::chars_eq(&a, &b) {
            return None;
        }
        let ghost before = pairs@;
        pairs.push((old[i].token.as_str(), new[i].token.as_str()));
        proof {
            assert(pairs_view(pairs@) =~= pairs_view(before).push((opv[i as int].token, npv[i as int].token)));
            match paired_tokens(opv, npv, i + 1) {
                None => {},
                Some(rest) => {
                    assert(pairs_view(before) + (seq![(opv[i as int].token, npv[i as int].token)] + rest)
                        =~= pairs_view(pairs@) + rest);
                },
            }
        }
        i += 1;
    }
    assert(pairs_view(pairs@) + Seq::<(Seq<char>, Seq<char>)>::empty() =~= pairs_view(pairs@));
    Some(pairs)
}

/// Pairs a replaced file's translations with new segments whose LaTeX is
/// byte-identical and unique on both sides, renumbering their tokens.
pub fn carry_translations(previous: &[Segment], segments: &[ParsedSegment]) -> (r: Vec<
    Option<(String, String)>,
>)
    ensures
        r@.len() == segments@.len(),
        forall|i: int|
            0 <= i < segments@.len() ==> carried_view(#[trigger] r@[i]) == carry_one(
                previous@,
                segments@,
                i,
            ),
{
    let mut prev_sources: Vec<Option<Vec<char>>> = Vec::new();
    let mut k: usize = 0;
    while k < previous.len()
        invariant
            k <= previous@.len(),
            prev_sources@.len() == k,
            forall|m: int| 0 <= m < k ==> #[trigger] opt_chars_view(prev_sources@)[m]
                == previous_sources(previous@)[m],
        decreases previous@.len() - k,
    {
        let s = source_of_exec(previous[k].original.as_str(), previous[k].placeholders.as_slice());
        let ghost before = prev_sources@;
        prev_sources.push(s);
        proof {
            assert(opt_chars_view(prev_sources@) =~= opt_chars_view(before).push(
                opt_chars_view(prev_sources@)[k as int],
            ));
            assert(opt_chars_view(prev_sources@)[k as int] == previous_sources(previous@)[k as int]);
        }
        k += 1;
    }
    assert(opt_chars_view(prev_sources@) =~= previous_sources(previous@));
    let mut sources: Vec<Option<Vec<char>>> = Vec::new();
    k = 0;
    while k < segments.len()
        invariant
            k <= segments@.len(),
            sources@.len() == k,
            forall|m: int| 0 <= m < k ==> #[trigger] opt_chars_view(sources@)[m] == new_sources(
                segments@,
            )[m],
        decreases segments@.len() - k,
    {
        let s = source_of_exec(segments[k].original.as_str(), segments[k].placeholders.as_slice());
        let ghost before = sources@;
        sources.push(s);
        proof {
            assert(opt_chars_view(sources@) =~= opt_chars_view(before).push(
                opt_chars_view(sources@)[k as int],
            ));
            assert(opt_chars_view(sources@)[k as int] == new_sources(segments@)[k as int]);
        }
        k += 1;
    }
    assert(opt_chars_view(sources@) =~= new_sources(segments@));
    let mut result: Vec<Option<(String, String)>> = Vec::new();
    let mut i: usize = 0;
    while i < segments.len()
        invariant
            i <= segments@.len(),
            result@.len() == i,
            opt_chars_view(prev_sources@) == previous_sources(previous@),
            opt_chars_view(sources@) == new_sources(segments@),
            sources@.len() == segments@.len(),
            prev_sources@.len() == previous@.len(),
            forall|m: int| 0 <= m < i ==> carried_view(#[trigger] result@[m]) == carry_one(
                previous@,
                segments@,
                m,
            ),
        decreases segments@.len() - i,
    {
        let c = carry_at(previous, segments, &prev_sources, &sources, i);
        result.push(c);
        i += 1;
    }
    result
}

fn carry_at(
    previous: &[Segment],
    segments: &[ParsedSegment],
    prev_sources: &Vec<Option<Vec<char>>>,
    sources: &Vec<Option<Vec<char>>>,
    i: usize,
) -> (c: Option<(String, String)>)
    requires
        i < segments@.len(),
        opt_chars_view(prev_sources@) == previous_sources(previous@),
        opt_chars_view(sources@) == new_sources(segments@),
        sources@.len() == segments@.len(),
        prev_sources@.len() == previous@.len(),
    ensures
        carried_view(c) == carry_one(previous@, segments@, i as int),
{
    let ghost ps = previous_sources(previous@);
    let ghost ns = new_sources(segments@);
    assert(opt_chars_view(sources@)[i as int] == ns[i as int]);
    let src = match &sources[i] {
        None => return None,
        Some(v) => v,
    };
    if occurrences(prev_sources.as_slice(), src.as_slice()) != 1 || occurrences(
        sources.as_slice(),
        src.as_slice(),
    ) != 1 {
        return None;
    }
    let j = match first_of_exec(prev_sources.as_slice(), src.as_slice()) {
        None => return None,
        Some(j) => j,
    };
    let old = &previous[j];
    let seg = &segments[i];
    if old.translated.as_str().is_empty() || old.placeholders.len() != seg.placeholders.len() {
        return None;
    }
    let tokens = match paired_tokens_exec(old.placeholders.as_slice(), seg.placeholders.as_slice()) {
        None => return None,
        Some(t) => t,
    };
    let translated = rename_tokens(old.translated.as_str(), tokens.as_slice());
    match reconstruct(translated.as_str(), seg.placeholders.as_slice()) {
        Err(_) => None,
        Ok(_) => Some((translated, old.status.clone())),
    }
}

// ---------------------------------------------------------------------------
// Parsing a file
// ---------------------------------------------------------------------------

pub open spec fn exact_rebuild_failure(relative: Seq<char>) -> Seq<char> {
    "falha de reconstrução exata em "@ + relative
}

/// Each segment from `i` rebuilds to exactly the source bytes it claims.
pub open spec fn check_from(
    source: Seq<char>,
    segs: Seq<SpecParsedSegment>,
    i: int,
    relative: Seq<char>,
) -> Result<(), Seq<char>>
    decreases segs.len() - i,
{
    if i < 0 || i >= segs.len() {
        Ok(())
    } else {
        match spec_reconstruct(segs[i].original, segs[i].placeholders) {
            Err(e) => Err(e),
            Ok(text) => match byte_range(source, segs[i].start, segs[i].end) {
                Some((a, b)) => if source.subrange(a, b) == text {
                    check_from(source, segs, i + 1, relative)
                } else {
                    Err(exact_rebuild_failure(relative))
                },
                None => Err(exact_rebuild_failure(relative)),
            },
        }
    }
}

/// What `parse_file` gives for a file at `relative` with this source.
pub open spec fn spec_parse_file(relative: Seq<char>, source: Seq<char>) -> Result<
    Seq<SpecParsedSegment>,
    Seq<char>,
> {
    match spec_scan(source) {
        Err(e) => Err(relative + ": "@ + describe_error(e)),
        Ok(ps) => {
            let segs = spec_segment(ps);
            match check_from(source, segs, 0, relative) {
                Err(e) => Err(e),
                Ok(()) => Ok(segs),
            }
        },
    }
}

proof fn lemma_check_from(
    source: Seq<char>,
    segs: Seq<SpecParsedSegment>,
    i: int,
    relative: Seq<char>,
)
    requires
        0 <= i,
        check_from(source, segs, i, relative) is Ok,
    ensures
        forall|k: int| i <= k < segs.len() ==> rebuilds_exactly(source, #[trigger] segs[k]),
    decreases segs.len() - i,
{
    if i < segs.len() {
        lemma_check_from(source, segs, i + 1, relative);
    }
}

proof fn lemma_check_passes(
    source: Seq<char>,
    segs: Seq<SpecParsedSegment>,
    i: int,
    relative: Seq<char>,
)
    requires
        0 <= i,
        forall|k: int| i <= k < segs.len() ==> rebuilds_exactly(source, #[trigger] segs[k]),
    ensures
        check_from(source, segs, i, relative) is Ok,
    decreases segs.len() - i,
{
    if i < segs.len() {
        assert(rebuilds_exactly(source, segs[i]));
        lemma_check_passes(source, segs, i + 1, relative);
    }
}

/// The exactness check never refuses a file that the scan accepts and that
/// holds no run shaped like a token: such a file parses.
pub proof fn token_free_sources_parse(relative: Seq<char>, source: Seq<char>)
    requires
        token_free(source),
        spec_scan(source) is Ok,
    ensures
        spec_parse_file(relative, source) is Ok,
        spec_parse_file(relative, source) == Ok::<Seq<SpecParsedSegment>, Seq<char>>(
            spec_segment(spec_scan(source)->Ok_0),
        ),
{
    segments_rebuild_their_source(source);
    lemma_check_passes(source, spec_segment(spec_scan(source)->Ok_0), 0, relative);
}

/// Scans and segments a file's source, then checks that every segment
/// rebuilds to exactly the bytes it spans; any failure names the file.
pub fn parse_file(relative: &str, source: &str) -> (r: Result<Vec<ParsedSegment>, String>)
    ensures
        match r {
            Ok(v) => spec_parse_file(relative@, source@) == Ok::<
                Seq<SpecParsedSegment>,
                Seq<char>,
            >(parsed_segments_view(v@)),
            Err(e) => spec_parse_file(relative@, source@) == Err::<
                Seq<SpecParsedSegment>,
                Seq<char>,
            >(e@),
        },
        r matches Ok(v) ==> forall|k: int|
            0 <= k < v@.len() ==> rebuilds_exactly(source@, #[trigger] parsed_segments_view(v@)[k]),
{
    let rel = chars_of(relative);
    let pieces = match scan(source) {
        Err(e) => {
            let mut m: Vec<char> = Vec::new();
            push_range(&mut m, &rel, 0, rel.len());
            push_str(&mut m, ": ");
            let d = chars_of(e.describe().as_str());
            push_range(&mut m, &d, 0, d.len());
            proof {
                assert(rel@.subrange(0, rel@.len() as int) =~= rel@);
                assert(d@.subrange(0, d@.len() as int) =~= d@);
                assert(m@ =~= relative@ + ": "@ + describe_error(e@));
            }
            return Err(string_from(&m));
        },
        Ok(p) => p,
    };
    let nbytes = source.as_bytes().len();
    proof {
        scan_covers_the_source(source@);
        assert(pieces_text(pieces_view(pieces@)) == source@);
        assert(utf8_len(source@) == nbytes);
    }
    let segments = segment(pieces.as_slice());
    let ghost sv = parsed_segments_view(segments@);
    let src = chars_of(source);
    let mut i: usize = 0;
    assert(spec_parse_file(relative@, source@) == match check_from(source@, sv, 0, relative@) {
        Err(e) => Err(e),
        Ok(()) => Ok(sv),
    });
    while i < segments.len()
        invariant
            spec_parse_file(relative@, source@) == match check_from(source@, sv, 0, relative@) {
                Err(e) => Err(e),
                Ok(()) => Ok::<Seq<SpecParsedSegment>, Seq<char>>(sv),
            },
            i <= segments@.len(),
            sv == parsed_segments_view(segments@),
            src@ == source@,
            rel@ == relative@,
            check_from(source@, sv, 0, relative@) == check_from(source@, sv, i as int, relative@),
        decreases segments@.len() - i,
    {
        let s = &segments[i];
        assert(sv[i as int] == s@);
        let text = match reconstruct(s.original.as_str(), s.placeholders.as_slice()) {
            Err(e) => return Err(e),
            Ok(t) => chars_of(t.as_str()),
        };
        let same = match byte_range_exec(&src, s.start, s.end) {
            Some((a, b)) => range_eq(&src, a, b, &text),
            None => false,
        };
        if !same {
            let mut m: Vec<char> = Vec::new();
            push_str(&mut m, "falha de reconstrução exata em ");
            push_range(&mut m, &rel, 0, rel.len());
            assert(rel@.subrange(0, rel@.len() as int) =~= rel@);
            return Err(string_from(&m));
        }
        i += 1;
    }
    proof {
        lemma_check_from(source@, sv, 0, relative@);
    }
    Ok(segments)
}

// ---------------------------------------------------------------------------
// Paths and chapters
// ---------------------------------------------------------------------------

/// The first component of a path, as `Path::components` gives it on Unix:
/// `/` for an absolute path, else everything before the first `/`.
pub open spec fn first_component(s: Seq<char>) -> Option<Seq<char>> {
    if s.len() == 0 {
        None
    } else if s[0] == '/' {
        Some(seq!['/'])
    } else {
        match find_from(s, 0, seq!['/']) {
            Some(p) => Some(s.take(p)),
            None => Some(s),
        }
    }
}

/// The chapter a file belongs to: the first component of its path
/// relative to the course root, or `Raiz` for an empty path.
pub open spec fn spec_chapter_of(relative: Seq<char>) -> Seq<char> {
    match first_component(relative) {
        Some(c) => c,
        None => "Raiz"@,
    }
}

fn first_component_exec(s: &[char]) -> (r: Option<Vec<char>>)
    ensures
        match r {
            Some(v) => first_component(s@) == Some(v@),
            None => first_component(s@) is None,
        },
{
    if s.len() == 0 {
        return None;
    }
    if s[0] == '/' {
        let mut v: Vec<char> = Vec::new();
        v.push('/');
        assert(v@ =~= seq!['/']);
        return Some(v);
    }
    let mut slash: Vec<char> = Vec::new();
    slash.push('/');
    assert(slash@ =~= seq!['/']);
    proof {
        lemma_find_from_bounds(s@, 0, slash@);
    }
    let end = match find_chars(s, 0, &slash) {
        Some(p) => p,
        None => s.len(),
    };
    let mut v: Vec<char> = Vec::new();
    push_range(&mut v, s, 0, end);
    assert(v@ =~= s@.take(end as int));
    assert(s@.take(s@.len() as int) =~= s@);
    Some(v)
}

/// The chapter of a file from its path relative to the course root.
pub fn chapter_of(relative: &str) -> (c: String)
    ensures
        c@ == spec_chapter_of(relative@),
{
    let s = chars_of(relative);
    match first_component_exec(&s) {
        Some(v) => string_from(&v),
        None => {
            let v = chars_of("Raiz");
            string_from(&v)
        },
    }
}

/// `s` with every backslash turned into a slash.
pub open spec fn with_slashes(s: Seq<char>) -> Seq<char> {
    s.map_values(|c: char| if c == '\\' { '/' } else { c })
}

fn with_slashes_exec(s: &[char]) -> (r: Vec<char>)
    ensures
        r@ == with_slashes(s@),
{
    let mut r: Vec<char> = Vec::new();
    let mut i: usize = 0;
    while i < s.len()
        invariant
            i <= s@.len(),
            r@ == with_slashes(s@.take(i as int)),
        decreases s@.len() - i,
    {
        let c = s[i];
        r.push(if c == '\\' { '/' } else { c });
        assert(with_slashes(s@.take(i + 1)) =~= with_slashes(s@.take(i as int)).push(
            if c == '\\' { '/' } else { c },
        ));
        i += 1;
    }
    assert(s@.take(s@.len() as int) =~= s@);
    r
}

// ---------------------------------------------------------------------------
// The course manifest
// ---------------------------------------------------------------------------

/// The order a course manifest gives: chapters and files, each in the order
/// of its first `\activity{...}`. A name's position in its list is its rank.
#[derive(Debug, Clone)]
pub struct CourseOrder {
    pub chapters: Vec<String>,
    pub files: Vec<String>,
}

pub open spec fn strings_view(v: Seq<String>) -> Seq<Seq<char>> {
    v.map_values(|s: String| s@)
}

pub struct SpecCourseOrder {
    pub chapters: Seq<Seq<char>>,
    pub files: Seq<Seq<char>>,
}

impl View for CourseOrder {
    type V = SpecCourseOrder;

    open spec fn view(&self) -> SpecCourseOrder {
        SpecCourseOrder { chapters: strings_view(self.chapters@), files: strings_view(self.files@) }
    }
}

/// `names` with `name` added at the end, unless it is there already.
pub open spec fn add_distinct(names: Seq<Seq<char>>, name: Seq<char>) -> Seq<Seq<char>> {
    if names.contains(name) {
        names
    } else {
        names.push(name)
    }
}

/// The path that a manifest line names, if it is an activity line.
pub open spec fn activity_path(line: Seq<char>) -> Option<Seq<char>> {
    let t = line.skip(skip_ws(line, 0));
    if t.len() > 0 && t[0] == '%' {
        None
    } else if !starts_at(t, 0, "\\activity{"@) {
        None
    } else {
        let rest = t.skip(10);
        let path = match find_from(rest, 0, seq!['}']) {
            Some(p) => rest.take(p),
            None => rest,
        };
        if path.len() == 0 {
            None
        } else {
            Some(with_slashes(path))
        }
    }
}

pub open spec fn add_line(order: SpecCourseOrder, line: Seq<char>) -> SpecCourseOrder {
    match activity_path(line) {
        None => order,
        Some(path) => SpecCourseOrder {
            files: add_distinct(order.files, path),
            chapters: match first_component(path) {
                Some(c) => add_distinct(order.chapters, c),
                None => order.chapters,
            },
        },
    }
}

/// The line that starts at `at` and ends at `e` (a `\n` or the end), as
/// `str::lines` gives it: a `\r` before the `\n` is dropped.
pub open spec fn line_at(s: Seq<char>, at: int, e: int) -> Seq<char> {
    if e < s.len() && e > at && s[e - 1] == '\r' {
        s.subrange(at, e - 1)
    } else {
        s.subrange(at, e)
    }
}

/// The manifest read from `at` on, line by line, into `order`.
pub open spec fn manifest_from(s: Seq<char>, at: int, order: SpecCourseOrder) -> SpecCourseOrder
    decreases s.len() + 1 - at,
{
    if at < 0 || at >= s.len() {
        order
    } else {
        let e = match find_from(s, at, seq!['\n']) {
            Some(p) => p,
            None => s.len() as int,
        };
        proof {
            lemma_find_from_bounds(s, at, seq!['\n']);
        }
        manifest_from(s, e + 1, add_line(order, line_at(s, at, e)))
    }
}

pub open spec fn spec_course_order(s: Seq<char>) -> SpecCourseOrder {
    manifest_from(s, 0, SpecCourseOrder { chapters: Seq::empty(), files: Seq::empty() })
}

pub open spec fn empty_manifest_message(name: Seq<char>) -> Seq<char> {
    "manifesto "@ + name + " não contém atividades"@
}

fn contains_string(names: &Vec<String>, name: &[char]) -> (b: bool)
    ensures
        b == strings_view(names@).contains(name@),
{
    let mut i: usize = 0;
    while i < names.len()
        invariant
            i <= names@.len(),
            forall|j: int| 0 <= j < i ==> strings_view(names@)[j] != name@,
        decreases names@.len() - i,
    {
        let v = chars_of(names[i].as_str());
        if crate::text::chars_eq(&v, name) {
            assert(strings_view(names@)[i as int] == name@);
            return true;
        }
        i += 1;
    }
    false
}

fn add_distinct_exec(names: &mut Vec<String>, name: &[char])
    ensures
        strings_view(final(names)@) == add_distinct(strings_view(old(names)@), name@),
{
    if !contains_string(names, name) {
        let ghost before = names@;
        names.push(string_from(name));
        assert(strings_view(names@) =~= strings_view(before).push(name@));
    }
}

fn activity_path_exec(line: &[char]) -> (r: Option<Vec<char>>)
    ensures
        match r {
            Some(v) => activity_path(line@) == Some(v@),
            None => activity_path(line@) is None,
        },
{
    let n = line.len();
    let w = skip_whitespace(line, 0);
    let mut t: Vec<char> = Vec::new();
    push_range(&mut t, line, w, n);
    assert(t@ =~= line@.skip(w as int));
    if t.len() > 0 && t[0] == '%' {
        return None;
    }
    if !starts_str(&t, 0, "\\activity{") {
        return None;
    }
    proof {
        reveal_strlit("\\activity{");
    }
    let mut rest: Vec<char> = Vec::new();
    push_range(&mut rest, &t, 10, t.len());
    assert(rest@ =~= t@.skip(10));
    let mut close: Vec<char> = Vec::new();
    close.push('}');
    assert(close@ =~= seq!['}']);
    proof {
        lemma_find_from_bounds(rest@, 0, close@);
    }
    let end = match find_chars(&rest, 0, &close) {
        Some(p) => p,
        None => rest.len(),
    };
    let mut path: Vec<char> = Vec::new();
    push_range(&mut path, &rest, 0, end);
    assert(path@ =~= rest@.take(end as int));
    assert(rest@.take(rest@.len() as int) =~= rest@);
    if path.len() == 0 {
        return None;
    }
    Some(with_slashes_exec(&path))
}

/// Reads a course manifest: each `\activity{path}` line, leading blanks
/// allowed and `%` lines skipped, adds its file, and the file's first path
/// component as a chapter, where they are new. A manifest without
/// activities is refused.
pub fn course_order(manifest: &str, name: &str) -> (r: Result<CourseOrder, String>)
    ensures
        match r {
            Ok(o) => o@ == spec_course_order(manifest@) && spec_course_order(manifest@).files.len()
                > 0,
            Err(e) => spec_course_order(manifest@).files.len() == 0 && e@
                == empty_manifest_message(name@),
        },
{
    let s = chars_of(manifest);
    let n = s.len();
    let mut order = CourseOrder { chapters: Vec::new(), files: Vec::new() };
    let mut newline: Vec<char> = Vec::new();
    newline.push('\n');
    assert(newline@ =~= seq!['\n']);
    assert(order@.chapters =~= Seq::<Seq<char>>::empty());
    assert(order@.files =~= Seq::<Seq<char>>::empty());
    let mut at: usize = 0;
    while at < n
        invariant
            at <= n,
            n == s@.len(),
            s@ == manifest@,
            newline@ == seq!['\n'],
            spec_course_order(manifest@) == manifest_from(s@, at as int, order@),
        decreases n - at,
    {
        proof {
            lemma_find_from_bounds(s@, at as int, newline@);
        }
        let e = match find_chars(&s, at, &newline) {
            Some(p) => p,
            None => n,
        };
        let line_end = if e < n && e > at && s[e - 1] == '\r' {
            e - 1
        } else {
            e
        };
        let mut line: Vec<char> = Vec::new();
        push_range(&mut line, &s, at, line_end);
        assert(line@ =~= line_at(s@, at as int, e as int));
        let ghost before = order@;
        match activity_path_exec(&line) {
            None => {},
            Some(path) => {
                add_distinct_exec(&mut order.files, &path);
                match first_component_exec(&path) {
                    Some(c) => add_distinct_exec(&mut order.chapters, &c),
                    None => {},
                }
            },
        }
        assert(order@ == add_line(before, line@));
        assert(manifest_from(s@, at as int, before) == manifest_from(
            s@,
            e + 1,
            add_line(before, line_at(s@, at as int, e as int)),
        ));
        assert(manifest_from(s@, n + 1, order@) == manifest_from(s@, n as int, order@));
        at = if e < n {
            e + 1
        } else {
            n
        };
    }
    if order.files.len() == 0 {
        let mut m: Vec<char> = Vec::new();
        push_str(&mut m, "manifesto ");
        let nm = chars_of(name);
        push_range(&mut m, &nm, 0, nm.len());
        push_str(&mut m, " não contém atividades");
        assert(nm@.subrange(0, nm@.len() as int) =~= nm@);
        assert(m@ =~= empty_manifest_message(name@));
        return Err(string_from(&m));
    }
    Ok(order)
}

// ---------------------------------------------------------------------------
// Hashes, plans and reports
// ---------------------------------------------------------------------------

/// The stored hash of a source: its SHA-256 digest in lowercase hexadecimal.
pub fn source_hash(source: &str) -> (h: String)
    ensures
        h@ == spec_hex(sha256(encode_utf8(source@))),
{
    let digest = sha256_digest(source.as_bytes());
    hex_digest(digest.as_slice())
}

/// What the store already holds for a file's path.
#[derive(Debug, Clone)]
pub struct ExistingFile {
    pub id: i64,
    pub course: String,
    pub hash: String,
    pub chapter: String,
    pub chapter_order: i64,
    pub order: i64,
}

/// A file that an import will write, or keep, at its place.
#[derive(Debug, Clone)]
pub struct PlannedFile {
    pub relative: String,
    pub chapter: String,
    pub chapter_order: i64,
    pub file_order: i64,
    pub source: String,
    pub hash: String,
    pub existing: Option<ExistingFile>,
    /// Parsed only for new and changed files; unchanged files keep their segments.
    pub segments: Option<Vec<ParsedSegment>>,
}

impl PlannedFile {
    /// An already stored file changes chapter or place.
    pub open spec fn spec_moves_existing(&self) -> bool {
        match self.existing {
            Some(e) => e.chapter@ != self.chapter@ || e.chapter_order != self.chapter_order
                || e.order != self.file_order,
            None => false,
        }
    }

    /// Whether an already stored file changes chapter or place.
    pub fn moves_existing(&self) -> (b: bool)
        ensures
            b == self.spec_moves_existing(),
    {
        match &self.existing {
            Some(existing) => {
                let a = chars_of(existing.chapter.as_str());
                let b = chars_of(self.chapter.as_str());
                !crate::text::chars_eq(&a, &b) || existing.chapter_order != self.chapter_order
                    || existing.order != self.file_order
            },
            None => false,
        }
    }
}

/// The paths listed when changed files stop an import: the first ten,
/// separated by commas.
pub open spec fn listed_paths(changed: Seq<Seq<char>>, i: int) -> Seq<char>
    decreases i,
{
    if i <= 0 {
        Seq::empty()
    } else if i == 1 {
        changed[0]
    } else {
        listed_paths(changed, i - 1) + ", "@ + changed[i - 1]
    }
}

pub open spec fn spec_changed_files_message(changed: Seq<Seq<char>>) -> Seq<char> {
    let n = changed.len();
    let shown = if n < 10 {
        n as int
    } else {
        10
    };
    let listed = listed_paths(changed, shown) + if n > 10 {
        " e mais "@ + decimal((n - 10) as nat)
    } else {
        Seq::empty()
    };
    decimal(n as nat) + " arquivo(s) mudaram desde a última importação: "@ + listed
        + "; repita com --replace após conferir (o banco não foi alterado)"@
}

/// Why an import without `--replace` stops when stored files have changed.
pub fn changed_files_message(changed: &[String]) -> (m: String)
    ensures
        m@ == spec_changed_files_message(strings_view(changed@)),
{
    let ghost cv = strings_view(changed@);
    let n = changed.len();
    let shown = if n < 10 {
        n
    } else {
        10
    };
    let mut listed: Vec<char> = Vec::new();
    let mut i: usize = 0;
    while i < shown
        invariant
            i <= shown <= n,
            n == changed@.len(),
            cv == strings_view(changed@),
            listed@ == listed_paths(cv, i as int),
        decreases shown - i,
    {
        if i > 0 {
            push_str(&mut listed, ", ");
        }
        let p = chars_of(changed[i].as_str());
        push_range(&mut listed, &p, 0, p.len());
        proof {
            assert(p@.subrange(0, p@.len() as int) =~= p@);
            assert(cv[i as int] == p@);
            if i == 0 {
                assert(listed@ =~= listed_paths(cv, 1));
            } else {
                assert(listed@ =~= listed_paths(cv, i + 1));
            }
        }
        i += 1;
    }
    if n > 10 {
        push_str(&mut listed, " e mais ");
        crate::text::push_decimal(&mut listed, n - 10);
    }
    let mut m: Vec<char> = Vec::new();
    crate::text::push_decimal(&mut m, n);
    push_str(&mut m, " arquivo(s) mudaram desde a última importação: ");
    push_range(&mut m, &listed, 0, listed.len());
    push_str(&mut m, "; repita com --replace após conferir (o banco não foi alterado)");
    proof {
        assert(listed@.subrange(0, listed@.len() as int) =~= listed@);
        assert(m@ =~= spec_changed_files_message(cv));
    }
    string_from(&m)
}

/// What an import did.
#[derive(Debug)]
pub struct ImportReport {
    pub imported: usize,
    pub unchanged: usize,
    pub segments: usize,
    /// Translations moved from replaced files onto identical new segments.
    pub translations_kept: usize,
    /// Replaced files whose translations could not be paired; those remain
    /// only in the backup.
    pub translations_dropped: Vec<(String, usize)>,
    /// Where the backup made before a replacing import was written.
    pub backup: Option<String>,
}

impl Default for ImportReport {
    fn default() -> (r: Self)
        ensures
            r.imported == 0 && r.unchanged == 0 && r.segments == 0 && r.translations_kept == 0
                && r.translations_dropped@.len() == 0 && r.backup is None,
    {
        ImportReport {
            imported: 0,
            unchanged: 0,
            segments: 0,
            translations_kept: 0,
            translations_dropped: Vec::new(),
            backup: None,
        }
    }
}

/// How many of the carried translations were kept.
pub open spec fn kept_count(carried: Seq<Option<(String, String)>>) -> nat
    decreases carried.len(),
{
    if carried.len() == 0 {
        0
    } else {
        kept_count(carried.drop_last()) + if carried.last() is Some {
            1nat
        } else {
            0nat
        }
    }
}

/// How many of the old segments held a translation.
pub open spec fn translated_count(previous: Seq<Segment>) -> nat
    decreases previous.len(),
{
    if previous.len() == 0 {
        0
    } else {
        translated_count(previous.drop_last()) + if previous.last().translated@.len() > 0 {
            1nat
        } else {
            0nat
        }
    }
}

fn kept_count_exec(carried: &[Option<(String, String)>]) -> (n: usize)
    ensures
        n == kept_count(carried@),
        n <= carried@.len(),
{
    let mut n: usize = 0;
    let mut i: usize = 0;
    while i < carried.len()
        invariant
            i <= carried@.len(),
            n <= i,
            n == kept_count(carried@.take(i as int)),
        decreases carried@.len() - i,
    {
        assert(carried@.take(i + 1).drop_last() =~= carried@.take(i as int));
        if carried[i].is_some() {
            n += 1;
        }
        i += 1;
    }
    assert(carried@.take(carried@.len() as int) =~= carried@);
    n
}

fn translated_count_exec(previous: &[Segment]) -> (n: usize)
    ensures
        n == translated_count(previous@),
        n <= previous@.len(),
{
    let mut n: usize = 0;
    let mut i: usize = 0;
    while i < previous.len()
        invariant
            i <= previous@.len(),
            n <= i,
            n == translated_count(previous@.take(i as int)),
        decreases previous@.len() - i,
    {
        let ghost next = previous@.take(i + 1);
        assert(next.drop_last() =~= previous@.take(i as int));
        assert(next.last() == previous@[i as int]);
        assert(translated_count(next) == translated_count(previous@.take(i as int)) + if next.last().translated@.len()
            > 0 {
            1nat
        } else {
            0nat
        });
        if !previous[i].translated.as_str().is_empty() {
            n += 1;
        }
        i += 1;
    }
    assert(previous@.take(previous@.len() as int) =~= previous@);
    n
}

impl ImportReport {
    /// Records a replaced file: the translations carried to its new
    /// segments are kept, and the file is listed with the number of its
    /// translations that could not be carried, when there are any.
    pub fn record_replaced(
        &mut self,
        relative: &str,
        previous: &[Segment],
        carried: &[Option<(String, String)>],
    )
        requires
            old(self).translations_kept + carried@.len() <= usize::MAX,
        ensures
            ({
                let kept = kept_count(carried@);
                let dropped = if translated_count(previous@) > kept {
                    translated_count(previous@) - kept
                } else {
                    0
                };
                &&& final(self).translations_kept == old(self).translations_kept + kept
                &&& final(self).imported == old(self).imported
                &&& final(self).unchanged == old(self).unchanged
                &&& final(self).segments == old(self).segments
                &&& final(self).backup == old(self).backup
                &&& final(self).translations_dropped@.len() == old(
                    self,
                ).translations_dropped@.len() + if dropped > 0 {
                    1int
                } else {
                    0int
                }
                &&& forall|k: int|
                    0 <= k < old(self).translations_dropped@.len() ==> (
                    #[trigger] final(self).translations_dropped@[k]) == old(
                        self,
                    ).translations_dropped@[k]
                &&& dropped > 0 ==> final(self).translations_dropped@.last().0@ == relative@
                    && final(self).translations_dropped@.last().1 == dropped
            }),
    {
        let kept = kept_count_exec(carried);
        let translated = translated_count_exec(previous);
        let dropped = if translated > kept {
            translated - kept
        } else {
            0
        };
        self.translations_kept += kept;
        if dropped > 0 {
            let r = chars_of(relative);
            self.translations_dropped.push((string_from(&r), dropped));
        }
    }
}

/// A file ready to be written to the store with its segments.
pub struct NewFile<'a> {
    pub course: i64,
    pub chapter: &'a str,
    pub chapter_order: i64,
    pub path: &'a str,
    pub file_order: i64,
    pub hash: &'a str,
    pub source: &'a str,
    pub segments: &'a [ParsedSegment],
}

/// What an import does with one file of the tree.
#[derive(Debug, Clone, Copy, PartialEq, Eq, Structural)]
pub enum FileAction {
    /// Stored already with the same source: its segments stay.
    Keep,
    /// New, or replaced on request: its source is parsed again.
    Parse,
    /// Changed since it was stored, and replacing was not asked for.
    Changed,
}

pub open spec fn other_course_message(relative: Seq<char>, course: Seq<char>) -> Seq<char> {
    relative + " já foi importado no curso `"@ + course
        + "`; o caminho precisa ser único no banco"@
}

/// What to do with a file, given what the store holds for its path: a path
/// stored for another course is refused; a changed source needs `replace`.
pub fn file_action(
    relative: &str,
    course_name: &str,
    hash: &str,
    existing: Option<&ExistingFile>,
    replace: bool,
) -> (r: Result<FileAction, String>)
    ensures
        match existing {
            None => r == Ok::<FileAction, String>(FileAction::Parse),
            Some(e) => if e.course@ != course_name@ {
                r matches Err(m) && m@ == other_course_message(relative@, e.course@)
            } else if e.hash@ == hash@ {
                r == Ok::<FileAction, String>(FileAction::Keep)
            } else if replace {
                r == Ok::<FileAction, String>(FileAction::Parse)
            } else {
                r == Ok::<FileAction, String>(FileAction::Changed)
            },
        },
{
    match existing {
        None => Ok(FileAction::Parse),
        Some(e) => {
            let stored_course = chars_of(e.course.as_str());
            let course = chars_of(course_name);
            if !crate::text::chars_eq(&stored_course, &course) {
                let mut m: Vec<char> = Vec::new();
                let r = chars_of(relative);
                push_range(&mut m, &r, 0, r.len());
                push_str(&mut m, " já foi importado no curso `");
                push_range(&mut m, &stored_course, 0, stored_course.len());
                push_str(&mut m, "`; o caminho precisa ser único no banco");
                proof {
                    assert(r@.subrange(0, r@.len() as int) =~= r@);
                    assert(stored_course@.subrange(0, stored_course@.len() as int)
                        =~= stored_course@);
                    assert(m@ =~= other_course_message(relative@, e.course@));
                }
                return Err(string_from(&m));
            }
            let stored_hash = chars_of(e.hash.as_str());
            let h = chars_of(hash);
            if crate::text::chars_eq(&stored_hash, &h) {
                Ok(FileAction::Keep)
            } else if replace {
                Ok(FileAction::Parse)
            } else {
                Ok(FileAction::Changed)
            }
        },
    }
}

/// A replaced file or a moved one calls for a backup before writing.
pub open spec fn spec_needs_backup(plan: Seq<PlannedFile>) -> bool {
    exists|i: int|
        0 <= i < plan.len() && ((#[trigger] plan[i]).existing is Some && plan[i].segments is Some
            || plan[i].spec_moves_existing())
}

/// Moved or new files call for the stored file orders to be set aside first.
pub open spec fn spec_parks(plan: Seq<PlannedFile>) -> bool {
    exists|i: int|
        0 <= i < plan.len() && ((#[trigger] plan[i]).spec_moves_existing() || plan[i].existing is None)
}

/// Whether the planned writes call for a backup, and whether they call for
/// the stored file orders to be set aside while files are placed.
pub fn write_plan(plan: &[PlannedFile]) -> (r: (bool, bool))
    ensures
        r.0 == spec_needs_backup(plan@),
        r.1 == spec_parks(plan@),
{
    let mut backup = false;
    let mut parks = false;
    let mut i: usize = 0;
    while i < plan.len()
        invariant
            i <= plan@.len(),
            backup == exists|k: int|
                0 <= k < i && ((#[trigger] plan@[k]).existing is Some && plan@[k].segments is Some
                    || plan@[k].spec_moves_existing()),
            parks == exists|k: int|
                0 <= k < i && ((#[trigger] plan@[k]).spec_moves_existing() || plan@[k].existing is None),
        decreases plan@.len() - i,
    {
        let file = &plan[i];
        let moves = file.moves_existing();
        if file.existing.is_some() && file.segments.is_some() || moves {
            backup = true;
        }
        if moves || file.existing.is_none() {
            parks = true;
        }
        i += 1;
    }
    (backup, parks)
}

} // verus!
