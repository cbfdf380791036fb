//! Groups scanned pieces into editable segments, and puts protected LaTeX
//! back into edited text.
use vstd::prelude::*;
use crate::models::{
    ParsedSegment, Piece, Placeholder, PlaceholderKind, SpecParsedSegment, SpecPiece,
    SpecPlaceholder, pieces_view, placeholders_view, parsed_segments_view, push_placeholder,
    piece_text, pieces_text,
};
use crate::text::{
    starts_at, find_from, is_ws, is_upper, is_digit, decimal, utf8_len, char_utf8_len,
    lemma_find_from_bounds, lemma_utf8_len_concat, lemma_utf8_len_push, lemma_starts_at,
    chars_of, string_from, push_str, push_range, push_decimal, push_decimal_u128, find_chars,
    whitespace, uppercase, digit, utf8_width,
};

verus! {

// ---------------------------------------------------------------------------
// Tokens
// ---------------------------------------------------------------------------

pub open spec fn kind_name(kind: PlaceholderKind) -> Seq<char> {
    match kind {
        PlaceholderKind::Math => "MATH"@,
        PlaceholderKind::Command => "CMD"@,
        PlaceholderKind::Comment => "COMMENT"@,
        PlaceholderKind::Environment => "ENV"@,
        PlaceholderKind::Preamble => "PREAMBLE"@,
        PlaceholderKind::Delimiter => "DELIM"@,
    }
}

/// The token that stands for the `n`-th protected piece of a segmenting pass.
pub open spec fn token(kind: PlaceholderKind, n: nat) -> Seq<char> {
    "{{"@ + kind_name(kind) + "_"@ + decimal(n) + "}}"@
}

/// End of the run of characters satisfying `upper` (or `digit`) from `at`.
pub open spec fn upper_run_end(t: Seq<char>, at: int) -> int
    decreases t.len() - at,
{
    if 0 <= at < t.len() && is_upper(t[at]) {
        upper_run_end(t, at + 1)
    } else {
        at
    }
}

pub open spec fn digit_run_end(t: Seq<char>, at: int) -> int
    decreases t.len() - at,
{
    if 0 <= at < t.len() && is_digit(t[at]) {
        digit_run_end(t, at + 1)
    } else {
        at
    }
}

/// The end of a token-shaped run `{{NAME_123}}` that starts at `at`.
pub open spec fn token_at(t: Seq<char>, at: int) -> Option<int> {
    if starts_at(t, at, "{{"@) {
        let cursor = upper_run_end(t, at + 2);
        if cursor > at + 2 && cursor < t.len() && t[cursor] == '_' {
            let digits_end = digit_run_end(t, cursor + 1);
            if digits_end > cursor + 1 && starts_at(t, digits_end, "}}"@) {
                Some(digits_end + 2)
            } else {
                None
            }
        } else {
            None
        }
    } else {
        None
    }
}

pub proof fn lemma_run_ends(t: Seq<char>, at: int)
    requires
        0 <= at <= t.len(),
    ensures
        at <= upper_run_end(t, at) <= t.len(),
        at <= digit_run_end(t, at) <= t.len(),
        forall|k: int| at <= k < upper_run_end(t, at) ==> is_upper(t[k]),
        forall|k: int| at <= k < digit_run_end(t, at) ==> is_digit(t[k]),
        upper_run_end(t, at) < t.len() ==> !is_upper(t[upper_run_end(t, at)]),
        digit_run_end(t, at) < t.len() ==> !is_digit(t[digit_run_end(t, at)]),
    decreases t.len() - at,
{
    if at < t.len() {
        lemma_run_ends(t, at + 1);
    }
}

pub proof fn lemma_token_at(t: Seq<char>, at: int)
    requires
        0 <= at <= t.len(),
    ensures
        token_at(t, at) matches Some(e) ==> at + 6 <= e <= t.len(),
{
    reveal_strlit("{{");
    reveal_strlit("}}");
    if starts_at(t, at, "{{"@) {
        lemma_run_ends(t, at + 2);
        let cursor = upper_run_end(t, at + 2);
        if cursor > at + 2 && cursor < t.len() && t[cursor] == '_' {
            lemma_run_ends(t, cursor + 1);
        }
    }
}

/// Whether `t[at..]` holds a character a translator could edit: one that is
/// not whitespace, not a brace, and not part of a token.
pub open spec fn editable_from(t: Seq<char>, at: int) -> bool
    decreases t.len() - at,
{
    if at < 0 || at >= t.len() {
        false
    } else {
        match token_at(t, at) {
            Some(e) => {
                proof {
                    lemma_token_at(t, at);
                }
                editable_from(t, e)
            },
            None => {
                let c = t[at];
                if !is_ws(c) && c != '{' && c != '}' {
                    true
                } else {
                    editable_from(t, at + 1)
                }
            },
        }
    }
}

pub open spec fn has_editable(t: Seq<char>) -> bool {
    editable_from(t, 0)
}

/// Whether a token-shaped run `{{NAME_123}}` starts anywhere in `t[at..]`.
pub open spec fn token_like_from(t: Seq<char>, at: int) -> bool
    decreases t.len() - at,
{
    if at < 0 || at >= t.len() {
        false
    } else {
        token_at(t, at) is Some || token_like_from(t, at + 1)
    }
}

pub open spec fn has_token_like(t: Seq<char>) -> bool {
    token_like_from(t, 0)
}

// ---------------------------------------------------------------------------
// Segmentation
// ---------------------------------------------------------------------------

/// The segmenter's state between pieces. `start` and `offset` are byte
/// offsets into the source the pieces cover.
pub struct SegState {
    pub result: Seq<SpecParsedSegment>,
    pub current: Seq<char>,
    pub placeholders: Seq<SpecPlaceholder>,
    pub start: int,
    pub offset: int,
    pub counter: int,
}

pub open spec fn initial_state() -> SegState {
    SegState {
        result: Seq::empty(),
        current: Seq::empty(),
        placeholders: Seq::empty(),
        start: 0,
        offset: 0,
        counter: 0,
    }
}

/// Closes the current segment at byte offset `at` when it holds editable text.
pub open spec fn flush(st: SegState, at: int) -> SegState {
    if has_editable(st.current) {
        SegState {
            result: st.result.push(
                SpecParsedSegment {
                    original: st.current,
                    placeholders: st.placeholders,
                    start: st.start,
                    end: at,
                },
            ),
            current: Seq::empty(),
            placeholders: Seq::empty(),
            start: at,
            ..st
        }
    } else {
        st
    }
}

/// Appends `part` to the current text.
pub open spec fn extend(st: SegState, part: Seq<char>) -> SegState {
    SegState { current: st.current + part, offset: st.offset + utf8_len(part), ..st }
}

/// Consumes prose up to each paragraph break `\n\n` (kept with the text
/// before it), closing a segment after each; returns the state and the prose
/// left after the last break.
pub open spec fn paragraphs(st: SegState, rest: Seq<char>) -> (SegState, Seq<char>)
    decreases rest.len(),
{
    match find_from(rest, 0, "\n\n"@) {
        None => (st, rest),
        Some(pos) => {
            proof {
                lemma_find_from_bounds(rest, 0, "\n\n"@);
                reveal_strlit("\n\n");
            }
            let part = rest.take(pos + 2);
            let st1 = extend(st, part);
            paragraphs(flush(st1, st1.offset), rest.skip(pos + 2))
        },
    }
}

pub open spec fn is_sentence_end(c: char) -> bool {
    c == '.' || c == '!' || c == '?' || c == ';'
}

/// The first character of `rest` at or after index `k` that ends a sentence
/// and whose end, in bytes from the start of `rest`, lies in `[min, max]`;
/// `bpos` is the byte offset of index `k`. Gives its index and end offset.
pub open spec fn sentence_end(rest: Seq<char>, k: int, bpos: int, min: int, max: int) -> Option<
    (int, int),
>
    decreases rest.len() - k,
{
    if k < 0 || k >= rest.len() {
        None
    } else {
        let c = rest[k];
        let end = bpos + char_utf8_len(c);
        if min <= end <= max && is_sentence_end(c) {
            Some((k, end))
        } else {
            sentence_end(rest, k + 1, end, min, max)
        }
    }
}

pub proof fn lemma_sentence_end_index(rest: Seq<char>, k: int, bpos: int, min: int, max: int)
    ensures
        sentence_end(rest, k, bpos, min, max) matches Some((j, end)) ==> k <= j < rest.len()
            && 0 <= j,
    decreases rest.len() - k,
{
    if 0 <= k < rest.len() {
        lemma_sentence_end_index(rest, k + 1, bpos + char_utf8_len(rest[k]), min, max);
    }
}

/// The state after closing the first `split` characters of the current text
/// as a segment that ends at byte `boundary`, where the rest starts the next.
pub open spec fn cut_state(st: SegState, split: int, boundary: int) -> SegState {
    SegState {
        current: st.current.skip(split),
        start: boundary,
        ..flush(SegState { current: st.current.take(split), ..st }, boundary)
    }
}

/// One cut of a current segment longer than 1200 bytes, after the first
/// sentence end in `rest` (the prose at its end) that leaves it between 800
/// and 1200 bytes long: the state after closing it, and the prose after the
/// cut, which starts the next segment.
pub open spec fn cut_once(st: SegState, rest: Seq<char>) -> Option<(SegState, Seq<char>)> {
    if utf8_len(st.current) > 1200 {
        let prefix_len = utf8_len(st.current) - utf8_len(rest);
        let min = if prefix_len >= 800 { 0 } else { 800 - prefix_len };
        let max = if prefix_len >= 1200 { 0 } else { 1200 - prefix_len };
        match sentence_end(rest, 0, 0, min, max) {
            None => None,
            Some((k, cut)) => {
                let split = st.current.len() - rest.len() + k + 1;
                let boundary = st.offset - utf8_len(rest) + cut;
                Some((cut_state(st, split, boundary), rest.skip(k + 1)))
            },
        }
    } else {
        None
    }
}

pub proof fn lemma_cut_once_shrinks(st: SegState, rest: Seq<char>)
    ensures
        cut_once(st, rest) matches Some((next, r2)) ==> r2.len() < rest.len(),
{
    if utf8_len(st.current) > 1200 {
        let prefix_len = utf8_len(st.current) - utf8_len(rest);
        let min = if prefix_len >= 800 { 0 } else { 800 - prefix_len };
        let max = if prefix_len >= 1200 { 0 } else { 1200 - prefix_len };
        lemma_sentence_end_index(rest, 0, 0, min, max);
    }
}

/// Cuts the current segment again and again while it is too long and a
/// sentence end allows it.
pub open spec fn cut_long(st: SegState, rest: Seq<char>) -> SegState
    decreases rest.len(),
{
    match cut_once(st, rest) {
        None => st,
        Some((next, r2)) => {
            proof {
                lemma_cut_once_shrinks(st, rest);
            }
            cut_long(next, r2)
        },
    }
}

/// Adds a prose piece: paragraphs close segments, and a segment that grows
/// beyond 1200 bytes is cut after sentence ends that leave each part between
/// 800 and 1200 bytes long.
pub open spec fn prose_piece(st: SegState, text: Seq<char>) -> SegState {
    let (st1, rest) = paragraphs(st, text);
    cut_long(extend(st1, rest), rest)
}

/// Adds a protected piece: before any editable text it is left out of the
/// segment (the segment then starts after it); otherwise it becomes the next
/// token.
pub open spec fn protected_piece(st: SegState, kind: PlaceholderKind, original: Seq<char>) -> SegState {
    let offset = st.offset + utf8_len(original);
    if !has_editable(st.current) {
        SegState {
            current: Seq::empty(),
            placeholders: Seq::empty(),
            offset,
            start: offset,
            ..st
        }
    } else {
        let n = st.counter + 1;
        let t = token(kind, n as nat);
        SegState {
            counter: n,
            current: st.current + t,
            placeholders: st.placeholders.push(SpecPlaceholder { token: t, original, kind }),
            offset,
            ..st
        }
    }
}

pub open spec fn segment_step(st: SegState, p: SpecPiece) -> SegState {
    match p {
        SpecPiece::Prose(t) => prose_piece(st, t),
        SpecPiece::Protected { kind, original } => protected_piece(st, kind, original),
    }
}

pub open spec fn segment_fold(ps: Seq<SpecPiece>) -> SegState
    decreases ps.len(),
{
    if ps.len() == 0 {
        initial_state()
    } else {
        segment_step(segment_fold(ps.drop_last()), ps.last())
    }
}

/// What `segment` returns for the pieces `ps`.
pub open spec fn spec_segment(ps: Seq<SpecPiece>) -> Seq<SpecParsedSegment> {
    let st = segment_fold(ps);
    flush(st, st.offset).result
}

/// Room the segmenter needs for its byte counters: the source's bytes and a
/// token's worth for each piece.
pub open spec fn segment_budget(ps: Seq<SpecPiece>) -> int {
    (utf8_len(pieces_text(ps)) + 200 * ps.len()) as int
}

// ---------------------------------------------------------------------------
// Reconstruction
// ---------------------------------------------------------------------------

/// Number of non-overlapping occurrences of `t` in `s[at..]`, leftmost
/// first, as `str::matches` counts them; an empty `t` matches at every
/// character boundary.
pub open spec fn count_from(s: Seq<char>, at: int, t: Seq<char>) -> nat
    decreases s.len() + 1 - at,
{
    if t.len() == 0 {
        if 0 <= at <= s.len() { (s.len() - at + 1) as nat } else { 0 }
    } else {
        match find_from(s, at, t) {
            None => 0,
            Some(p) => {
                proof {
                    lemma_find_from_bounds(s, at, t);
                }
                count_from(s, p + t.len(), t) + 1
            },
        }
    }
}

pub open spec fn count_matches(s: Seq<char>, t: Seq<char>) -> nat {
    count_from(s, 0, t)
}

/// `s` with its first occurrence of `t` replaced by `r`.
pub open spec fn replace_first(s: Seq<char>, t: Seq<char>, r: Seq<char>) -> Seq<char> {
    match find_from(s, 0, t) {
        Some(p) => s.take(p) + r + s.skip(p + t.len()),
        None => s,
    }
}

pub open spec fn wrong_count_message(token: Seq<char>, count: nat) -> Seq<char> {
    "placeholder `"@ + token + "` aparece "@ + decimal(count) + " vezes"@
}

/// Replaces each token, in order, by the LaTeX it stands for, checking that
/// each occurs exactly once when its turn comes.
pub open spec fn reconstruct_from(text: Seq<char>, ps: Seq<SpecPlaceholder>, i: int) -> Result<
    Seq<char>,
    Seq<char>,
>
    decreases ps.len() - i,
{
    if i < 0 || i >= ps.len() {
        if has_token_like(text) {
            Err("placeholder desconhecido ou alterado"@)
        } else {
            Ok(text)
        }
    } else {
        let p = ps[i];
        let count = count_matches(text, p.token);
        if count != 1 {
            Err(wrong_count_message(p.token, count))
        } else {
            reconstruct_from(replace_first(text, p.token, p.original), ps, i + 1)
        }
    }
}

/// What `reconstruct` returns.
pub open spec fn spec_reconstruct(text: Seq<char>, ps: Seq<SpecPlaceholder>) -> Result<
    Seq<char>,
    Seq<char>,
> {
    reconstruct_from(text, ps, 0)
}

} // verus!

verus! {

// ---------------------------------------------------------------------------
// Lemmas on sizes
// ---------------------------------------------------------------------------

pub open spec fn pow10(k: nat) -> nat
    decreases k,
{
    if k == 0 {
        1
    } else {
        10 * pow10((k - 1) as nat)
    }
}

pub proof fn lemma_decimal_len(n: nat, k: nat)
    requires
        k >= 1,
        n < pow10(k),
    ensures
        decimal(n).len() <= k,
    decreases n,
{
    if n >= 10 {
        assert(k >= 2) by {
            if k == 1 {
                assert(pow10(1) == 10) by {
                    reveal_with_fuel(pow10, 2);
                }
            }
        }
        assert(pow10(k) == 10 * pow10((k - 1) as nat));
        assert(n / 10 < pow10((k - 1) as nat)) by (nonlinear_arith)
            requires
                n < 10 * pow10((k - 1) as nat),
        ;
        lemma_decimal_len(n / 10, (k - 1) as nat);
    }
}

pub proof fn lemma_decimal_len_usize(n: usize)
    ensures
        decimal(n as nat).len() <= 20,
{
    assert(pow10(20) == 100000000000000000000) by {
        reveal_with_fuel(pow10, 21);
    }
    lemma_decimal_len(n as nat, 20);
}

pub proof fn lemma_utf8_len_bound(s: Seq<char>)
    ensures
        utf8_len(s) <= 4 * s.len(),
    decreases s.len(),
{
    if s.len() > 0 {
        lemma_utf8_len_bound(s.drop_last());
        assert(s == s.drop_last().push(s.last()));
        lemma_utf8_len_push(s.drop_last(), s.last());
        vstd::utf8::char_is_scalar(s.last());
    }
}

pub proof fn lemma_pieces_text_take(ps: Seq<SpecPiece>, i: int)
    requires
        0 <= i < ps.len(),
    ensures
        pieces_text(ps.take(i + 1)) == pieces_text(ps.take(i)) + piece_text(ps[i]),
        segment_fold(ps.take(i + 1)) == segment_step(segment_fold(ps.take(i)), ps[i]),
{
    assert(ps.take(i + 1).drop_last() =~= ps.take(i));
    assert(ps.take(i + 1).last() == ps[i]);
}

pub proof fn lemma_budget_take(ps: Seq<SpecPiece>, i: int)
    requires
        0 <= i <= ps.len(),
    ensures
        segment_budget(ps.take(i)) <= segment_budget(ps),
        utf8_len(pieces_text(ps.take(i))) <= utf8_len(pieces_text(ps)),
    decreases ps.len() - i,
{
    if i < ps.len() {
        lemma_pieces_text_take(ps, i);
        lemma_utf8_len_concat(pieces_text(ps.take(i)), piece_text(ps[i]));
        lemma_budget_take(ps, i + 1);
    } else {
        assert(ps.take(i) =~= ps);
    }
}

// ---------------------------------------------------------------------------
// Executable helpers
// ---------------------------------------------------------------------------

/// Number of UTF-8 bytes in `s[from..to]`.
fn bytes_of(s: &[char], from: usize, to: usize) -> (b: usize)
    requires
        from <= to <= s@.len(),
        utf8_len(s@.subrange(from as int, to as int)) <= usize::MAX,
    ensures
        b == utf8_len(s@.subrange(from as int, to as int)),
{
    let mut b: usize = 0;
    let mut i = from;
    while i < to
        invariant
            from <= i <= to <= s@.len(),
            b == utf8_len(s@.subrange(from as int, i as int)),
            utf8_len(s@.subrange(from as int, to as int)) <= usize::MAX,
        decreases to - i,
    {
        proof {
            assert(s@.subrange(from as int, i + 1) == s@.subrange(from as int, i as int).push(
                s@[i as int],
            ));
            lemma_utf8_len_push(s@.subrange(from as int, i as int), s@[i as int]);
            assert(s@.subrange(from as int, to as int) == s@.subrange(from as int, i + 1)
                + s@.subrange(i + 1, to as int));
            lemma_utf8_len_concat(s@.subrange(from as int, i + 1), s@.subrange(i + 1, to as int));
        }
        b = b + utf8_width(s[i]);
        i += 1;
    }
    b
}

fn token_at_exec(t: &[char], at: usize) -> (r: Option<usize>)
    requires
        at <= t@.len(),
    ensures
        r matches Some(e) ==> token_at(t@, at as int) == Some(e as int),
        r is None ==> token_at(t@, at as int) is None,
{
    let n = t.len();
    if !(at < n && n - at >= 2 && t[at] == '{' && t[at + 1] == '{') {
        proof {
            reveal_strlit("{{");
            if starts_at(t@, at as int, "{{"@) {
                lemma_starts_at(t@, at as int, "{{"@);
                assert(t@[at + 1] == "{{"@[1]);
            }
        }
        return None;
    }
    proof {
        reveal_strlit("{{");
        assert(t@.subrange(at as int, at + 2) =~= "{{"@);
        lemma_run_ends(t@, at + 2);
    }
    let mut cursor = at + 2;
    while cursor < n && uppercase(t[cursor])
        invariant
            at + 2 <= cursor <= n,
            n == t@.len(),
            upper_run_end(t@, at + 2) == upper_run_end(t@, cursor as int),
        decreases n - cursor,
    {
        cursor += 1;
    }
    if !(cursor > at + 2 && cursor < n && t[cursor] == '_') {
        return None;
    }
    proof {
        lemma_run_ends(t@, cursor + 1);
    }
    let mut d = cursor + 1;
    while d < n && digit(t[d])
        invariant
            cursor + 1 <= d <= n,
            n == t@.len(),
            digit_run_end(t@, cursor + 1) == digit_run_end(t@, d as int),
        decreases n - d,
    {
        d += 1;
    }
    proof {
        reveal_strlit("}}");
    }
    if d > cursor + 1 && n - d >= 2 && t[d] == '}' && t[d + 1] == '}' {
        assert(t@.subrange(d as int, d + 2) =~= "}}"@);
        Some(d + 2)
    } else {
        proof {
            if starts_at(t@, d as int, "}}"@) {
                lemma_starts_at(t@, d as int, "}}"@);
                assert(t@[d + 1] == "}}"@[1]);
            }
        }
        None
    }
}

/// Whether the text holds a character a translator could edit.
pub fn has_editable_text(t: &[char]) -> (b: bool)
    ensures
        b == has_editable(t@),
{
    let n = t.len();
    let mut at: usize = 0;
    while at < n
        invariant
            at <= n,
            n == t@.len(),
            editable_from(t@, 0) == editable_from(t@, at as int),
        decreases n - at,
    {
        match token_at_exec(t, at) {
            Some(e) => {
                proof {
                    lemma_token_at(t@, at as int);
                }
                at = e;
            },
            None => {
                let c = t[at];
                if !whitespace(c) && c != '{' && c != '}' {
                    return true;
                }
                at += 1;
            },
        }
    }
    false
}

/// Whether a token-shaped run remains in the text.
pub fn has_token_like_placeholder(t: &[char]) -> (b: bool)
    ensures
        b == has_token_like(t@),
{
    let n = t.len();
    let mut at: usize = 0;
    while at < n
        invariant
            at <= n,
            n == t@.len(),
            token_like_from(t@, 0) == token_like_from(t@, at as int),
        decreases n - at,
    {
        if token_at_exec(t, at).is_some() {
            return true;
        }
        at += 1;
    }
    false
}

} // verus!

verus! {

// ---------------------------------------------------------------------------
// The executable segmenter
// ---------------------------------------------------------------------------

struct Segmenter {
    result: Vec<ParsedSegment>,
    current: Vec<char>,
    current_bytes: u128,
    placeholders: Vec<Placeholder>,
    start: usize,
    offset: usize,
    counter: usize,
}

impl Segmenter {
    spec fn state(&self) -> SegState {
        SegState {
            result: parsed_segments_view(self.result@),
            current: self.current@,
            placeholders: placeholders_view(self.placeholders@),
            start: self.start as int,
            offset: self.offset as int,
            counter: self.counter as int,
        }
    }

    spec fn inv(&self) -> bool {
        &&& self.current_bytes == utf8_len(self.current@)
        &&& self.start <= self.offset
    }

    /// Closes the current segment at byte offset `at`.
    fn flush(&mut self, at: usize)
        requires
            old(self).inv(),
            at <= old(self).offset,
        ensures
            final(self).state() == flush(old(self).state(), at as int),
            final(self).inv(),
            final(self).offset == old(self).offset,
            final(self).counter == old(self).counter,
            final(self).current_bytes <= old(self).current_bytes,
    {
        if has_editable_text(&self.current) {
            let mut placeholders: Vec<Placeholder> = Vec::new();
            std::mem::swap(&mut placeholders, &mut self.placeholders);
            let ghost before = parsed_segments_view(self.result@);
            let seg = ParsedSegment {
                original: string_from(&self.current),
                placeholders,
                start: self.start,
                end: at,
            };
            self.result.push(seg);
            assert(parsed_segments_view(self.result@) =~= before.push(seg@));
            self.current = Vec::new();
            self.current_bytes = 0;
            self.start = at;
            assert(placeholders_view(self.placeholders@) =~= Seq::<SpecPlaceholder>::empty());
            assert(utf8_len(self.current@) == 0) by {
                assert(self.current@ =~= Seq::<char>::empty());
                assert(vstd::utf8::encode_utf8(Seq::<char>::empty()) =~= Seq::<u8>::empty());
            }
        }
    }

    /// Appends `s[from..to]` to the current text.
    fn extend(&mut self, s: &[char], from: usize, to: usize)
        requires
            old(self).inv(),
            from <= to <= s@.len(),
            old(self).offset + utf8_len(s@.subrange(from as int, to as int)) <= usize::MAX,
            old(self).current_bytes + utf8_len(s@.subrange(from as int, to as int)) <= u128::MAX,
        ensures
            final(self).state() == extend(old(self).state(), s@.subrange(from as int, to as int)),
            final(self).inv(),
            final(self).counter == old(self).counter,
            final(self).current_bytes == old(self).current_bytes + utf8_len(
                s@.subrange(from as int, to as int),
            ),
    {
        let b = bytes_of(s, from, to);
        proof {
            lemma_utf8_len_concat(self.current@, s@.subrange(from as int, to as int));
        }
        push_range(&mut self.current, s, from, to);
        self.current_bytes = self.current_bytes + b as u128;
        self.offset = self.offset + b;
    }

    /// Adds a prose piece.
    fn prose(&mut self, text: &[char])
        requires
            old(self).inv(),
            old(self).offset + utf8_len(text@) <= usize::MAX,
            old(self).current_bytes + utf8_len(text@) <= u128::MAX,
        ensures
            final(self).state() == prose_piece(old(self).state(), text@),
            final(self).inv(),
            final(self).counter == old(self).counter,
            final(self).offset == old(self).offset + utf8_len(text@),
            final(self).current_bytes <= old(self).current_bytes + utf8_len(text@),
    {
        let ghost st0 = self.state();
        let ghost b0 = self.current_bytes;
        let ghost off0 = self.offset;
        let n = text.len();
        let mut rest_start: usize = 0;
        assert(text@.skip(0) =~= text@);
        loop
            invariant
                self.inv(),
                rest_start <= n == text@.len(),
                paragraphs(st0, text@) == paragraphs(self.state(), text@.skip(rest_start as int)),
                self.offset == off0 + utf8_len(text@.take(rest_start as int)),
                self.current_bytes + utf8_len(text@.skip(rest_start as int)) <= b0 + utf8_len(
                    text@,
                ),
                off0 + utf8_len(text@) <= usize::MAX,
                b0 + utf8_len(text@) <= u128::MAX,
                self.counter == st0.counter,
            ensures
                paragraphs(st0, text@) == (self.state(), text@.skip(rest_start as int)),
            decreases n - rest_start,
        {
            let ghost rest = text@.skip(rest_start as int);
            proof {
                assert(text@ == text@.take(rest_start as int) + rest);
                lemma_utf8_len_concat(text@.take(rest_start as int), rest);
            }
            let found = find_chars(text, rest_start, &['\n', '\n']);
            proof {
                reveal_strlit("\n\n");
                assert(seq!['\n', '\n'] =~= "\n\n"@);
                lemma_find_from_skip(text@, rest_start as int, "\n\n"@);
            }
            match found {
                None => {
                    proof {
                        if find_from(rest, 0, "\n\n"@) is Some {
                            assert(false);
                        }
                    }
                    assert(paragraphs(self.state(), rest) == (self.state(), rest));
                    break;
                },
                Some(p) => {
                    proof {
                        lemma_find_from_bounds(text@, rest_start as int, "\n\n"@);
                    }
                    let pos = p - rest_start;
                    let part_end = p + 2;
                    proof {
                        assert(rest.take(pos + 2) =~= text@.subrange(
                            rest_start as int,
                            part_end as int,
                        ));
                        assert(rest == rest.take(pos + 2) + rest.skip(pos + 2));
                        lemma_utf8_len_concat(rest.take(pos + 2), rest.skip(pos + 2));
                        assert(rest.skip(pos + 2) =~= text@.skip(part_end as int));
                        assert(text@.take(part_end as int) =~= text@.take(rest_start as int)
                            + rest.take(pos + 2));
                        lemma_utf8_len_concat(text@.take(rest_start as int), rest.take(pos + 2));
                    }
                    self.extend(text, rest_start, part_end);
                    let off = self.offset;
                    self.flush(off);
                    rest_start = part_end;
                },
            }
        }
        let ghost st1 = self.state();
        let ghost rest = text@.skip(rest_start as int);
        assert(paragraphs(st0, text@) == (st1, rest));
        proof {
            assert(rest =~= text@.subrange(rest_start as int, n as int));
            assert(text@ == text@.take(rest_start as int) + rest);
            lemma_utf8_len_concat(text@.take(rest_start as int), rest);
        }
        self.extend(text, rest_start, n);
        let ghost st2 = self.state();
        assert(st2 == extend(st1, rest));
        proof {
            assert(self.current@.skip(self.current@.len() - (n - rest_start)) =~= rest);
        }
        loop
            invariant
                self.inv(),
                rest_start <= n == text@.len(),
                self.current@.len() >= n - rest_start,
                self.current@.skip(self.current@.len() - (n - rest_start)) == text@.skip(
                    rest_start as int,
                ),
                cut_long(st2, rest) == cut_long(self.state(), text@.skip(rest_start as int)),
                self.offset == off0 + utf8_len(text@),
                utf8_len(text@.skip(rest_start as int)) <= self.offset,
                self.counter == st0.counter,
                self.current_bytes <= b0 + utf8_len(text@),
            ensures
                self.inv(),
                self.state() == cut_long(st2, rest),
                self.offset == off0 + utf8_len(text@),
                self.counter == st0.counter,
                self.current_bytes <= b0 + utf8_len(text@),
            decreases n - rest_start,
        {
            match self.cut_step(text, rest_start) {
                None => {
                    break;
                },
                Some(next) => {
                    rest_start = next;
                },
            }
        }
    }

    /// Closes the first `split` characters of the current text as a segment
    /// ending at byte `boundary`; the rest starts the next segment there.
    fn close_at(&mut self, split: usize, boundary: usize)
        requires
            old(self).inv(),
            split <= old(self).current@.len(),
            boundary <= old(self).offset,
            utf8_len(old(self).current@.skip(split as int)) <= usize::MAX,
        ensures
            final(self).inv(),
            final(self).state() == cut_state(old(self).state(), split as int, boundary as int),
            final(self).offset == old(self).offset,
            final(self).counter == old(self).counter,
            final(self).current_bytes <= old(self).current_bytes,
    {
        let ghost st = self.state();
        let cur_len = self.current.len();
        let mut head = Vec::new();
        push_range(&mut head, &self.current, 0, split);
        let mut tail = Vec::new();
        push_range(&mut tail, &self.current, split, cur_len);
        proof {
            assert(head@ =~= st.current.take(split as int));
            assert(tail@ =~= st.current.skip(split as int));
            assert(st.current == head@ + tail@);
            lemma_utf8_len_concat(head@, tail@);
        }
        assert(tail@.subrange(0, tail@.len() as int) =~= tail@);
        let tail_bytes = bytes_of(&tail, 0, tail.len());
        let head_bytes = self.current_bytes - tail_bytes as u128;
        self.current = head;
        self.current_bytes = head_bytes;
        assert(self.state() == (SegState { current: st.current.take(split as int), ..st }));
        self.flush(boundary);
        self.current = tail;
        self.current_bytes = tail_bytes as u128;
        self.start = boundary;
    }

    /// Cuts the current segment once, where it is too long and a sentence
    /// end in the prose from `rest_start` allows it; gives where the prose
    /// left after the cut starts.
    #[verifier::rlimit(40)]
    #[verifier::spinoff_prover]
    fn cut_step(&mut self, text: &[char], rest_start: usize) -> (r: Option<usize>)
        requires
            old(self).inv(),
            rest_start <= text@.len(),
            old(self).current@.len() >= text@.len() - rest_start,
            old(self).current@.skip(old(self).current@.len() - (text@.len() - rest_start))
                == text@.skip(rest_start as int),
            utf8_len(text@.skip(rest_start as int)) <= old(self).offset,
        ensures
            final(self).inv(),
            final(self).offset == old(self).offset,
            final(self).counter == old(self).counter,
            final(self).current_bytes <= old(self).current_bytes,
            match r {
                None => cut_once(old(self).state(), text@.skip(rest_start as int)) is None
                    && final(self).state() == old(self).state(),
                Some(next) => rest_start < next <= text@.len() && cut_once(
                    old(self).state(),
                    text@.skip(rest_start as int),
                ) == Some((final(self).state(), text@.skip(next as int)))
                    && final(self).current@.len() >= text@.len() - next
                    && final(self).current@.skip(final(self).current@.len() - (text@.len() - next))
                    == text@.skip(next as int) && utf8_len(text@.skip(next as int)) <= utf8_len(
                    text@.skip(rest_start as int),
                ),
            },
    {
        let n = text.len();
        let ghost r = text@.skip(rest_start as int);
        let ghost st = self.state();
        if self.current_bytes <= 1200 {
            return None;
        }
        let rest_len = n - rest_start;
        let ghost pre = self.current@.take(self.current@.len() - rest_len);
        proof {
            assert(self.current@ =~= pre + r);
            lemma_utf8_len_concat(pre, r);
            assert(r =~= text@.subrange(rest_start as int, n as int));
        }
        let rest_bytes = bytes_of(text, rest_start, n);
        let prefix_len = self.current_bytes - rest_bytes as u128;
        let min: usize = if prefix_len >= 800 { 0 } else { (800 - prefix_len) as usize };
        let max: usize = if prefix_len >= 1200 { 0 } else { (1200 - prefix_len) as usize };
        let rest_copy = {
            let mut v: Vec<char> = Vec::new();
            push_range(&mut v, text, rest_start, n);
            v
        };
        assert(rest_copy@ =~= r);
        let found = find_sentence_end(&rest_copy, min, max);
        match found {
            None => None,
            Some((k, cut)) => {
                let cur_len = self.current.len();
                let split = cur_len - rest_len + k + 1;
                proof {
                    lemma_utf8_len_concat(r.take(k + 1), r.skip(k + 1));
                    assert(r =~= r.take(k + 1) + r.skip(k + 1));
                }
                let boundary = self.offset - rest_bytes + cut;
                proof {
                    assert(st.current.skip(split as int) =~= r.skip(k + 1));
                    assert(r.skip(k + 1) =~= text@.skip(rest_start + k + 1));
                }
                self.close_at(split, boundary);
                let next = rest_start + k + 1;
                proof {
                    assert(self.current@.skip(self.current@.len() - (n - next)) =~= self.current@);
                }
                Some(next)
            },
        }
    }

    /// Adds a protected piece.
    fn protected(&mut self, kind: PlaceholderKind, original: &String)
        requires
            old(self).inv(),
            old(self).offset + utf8_len(original@) <= usize::MAX,
            old(self).current_bytes + 200 <= u128::MAX,
            old(self).counter < usize::MAX,
        ensures
            final(self).state() == protected_piece(old(self).state(), kind, original@),
            final(self).inv(),
            final(self).offset == old(self).offset + utf8_len(original@),
            final(self).current_bytes <= old(self).current_bytes + 200,
            final(self).counter <= old(self).counter + 1,
    {
        let len = original.as_str().len();
        let offset = self.offset + len;
        if !has_editable_text(&self.current) {
            self.current = Vec::new();
            self.current_bytes = 0;
            self.placeholders = Vec::new();
            self.offset = offset;
            self.start = offset;
            assert(placeholders_view(self.placeholders@) =~= Seq::<SpecPlaceholder>::empty());
            assert(utf8_len(self.current@) == 0) by {
                assert(self.current@ =~= Seq::<char>::empty());
                assert(vstd::utf8::encode_utf8(Seq::<char>::empty()) =~= Seq::<u8>::empty());
            }
            return;
        }
        self.counter = self.counter + 1;
        let mut t: Vec<char> = Vec::new();
        push_str(&mut t, "{{");
        push_str(&mut t, kind_str(kind));
        push_str(&mut t, "_");
        push_decimal(&mut t, self.counter);
        push_str(&mut t, "}}");
        proof {
            assert(t@ =~= token(kind, self.counter as nat));
            reveal_strlit("{{");
            reveal_strlit("}}");
            reveal_strlit("_");
            reveal_strlit("MATH");
            reveal_strlit("CMD");
            reveal_strlit("COMMENT");
            reveal_strlit("ENV");
            reveal_strlit("PREAMBLE");
            reveal_strlit("DELIM");
            lemma_decimal_len_usize(self.counter);
            lemma_utf8_len_bound(t@);
            assert(kind_name(kind).len() <= 8);
            assert(t@.len() <= 33);
            assert(t@.subrange(0, t@.len() as int) =~= t@);
        }
        let tb = bytes_of(&t, 0, t.len());
        proof {
            lemma_utf8_len_concat(self.current@, t@);
        }
        push_range(&mut self.current, &t, 0, t.len());
        self.current_bytes = self.current_bytes + tb as u128;
        push_placeholder(
            &mut self.placeholders,
            Placeholder { token: string_from(&t), original: original.clone(), kind },
        );
        self.offset = offset;
    }
}

/// The first sentence end in `rest` whose end offset lies in `[min, max]`.
fn find_sentence_end(rest: &[char], min: usize, max: usize) -> (r: Option<(usize, usize)>)
    requires
        utf8_len(rest@) <= usize::MAX,
    ensures
        match sentence_end(rest@, 0, 0, min as int, max as int) {
            Some((k, e)) => r == Some((k as usize, e as usize)) && 0 <= k < rest@.len() && e
                == utf8_len(rest@.take(k + 1)) && e <= utf8_len(rest@),
            None => r is None,
        },
{
    let n = rest.len();
    let mut k: usize = 0;
    let mut bpos: usize = 0;
    assert(rest@.take(0) =~= Seq::<char>::empty());
    assert(utf8_len(Seq::<char>::empty()) == 0) by {
        assert(vstd::utf8::encode_utf8(Seq::<char>::empty()) =~= Seq::<u8>::empty());
    }
    while k < n
        invariant
            k <= n == rest@.len(),
            bpos == utf8_len(rest@.take(k as int)),
            utf8_len(rest@) <= usize::MAX,
            sentence_end(rest@, 0, 0, min as int, max as int) == sentence_end(
                rest@,
                k as int,
                bpos as int,
                min as int,
                max as int,
            ),
        decreases n - k,
    {
        let c = rest[k];
        proof {
            assert(rest@.take(k + 1) == rest@.take(k as int).push(c));
            lemma_utf8_len_push(rest@.take(k as int), c);
            assert(rest@ == rest@.take(k + 1) + rest@.skip(k + 1));
            lemma_utf8_len_concat(rest@.take(k + 1), rest@.skip(k + 1));
        }
        let end = bpos + utf8_width(c);
        if min <= end && end <= max && (c == '.' || c == '!' || c == '?' || c == ';') {
            return Some((k, end));
        }
        bpos = end;
        k += 1;
    }
    None
}

fn kind_str(kind: PlaceholderKind) -> (s: &'static str)
    ensures
        s@ == kind_name(kind),
{
    match kind {
        PlaceholderKind::Math => "MATH",
        PlaceholderKind::Command => "CMD",
        PlaceholderKind::Comment => "COMMENT",
        PlaceholderKind::Environment => "ENV",
        PlaceholderKind::Preamble => "PREAMBLE",
        PlaceholderKind::Delimiter => "DELIM",
    }
}

pub proof fn lemma_find_from_skip(s: Seq<char>, k: int, needle: Seq<char>)
    requires
        0 <= k <= s.len(),
    ensures
        find_from(s.skip(k), 0, needle) matches Some(p) ==> find_from(s, k, needle) == Some(p + k),
        find_from(s.skip(k), 0, needle) is None ==> find_from(s, k, needle) is None,
{
    lemma_find_from_bounds(s.skip(k), 0, needle);
    lemma_find_from_bounds(s, k, needle);
    assert forall|q: int| 0 <= q ==> starts_at(s.skip(k), q, needle) == starts_at(s, q + k, needle) by {
        if 0 <= q && q + needle.len() <= s.skip(k).len() {
            assert(s.skip(k).subrange(q, q + needle.len()) =~= s.subrange(q + k, q + k + needle.len()));
        }
    }
    if let Some(p) = find_from(s.skip(k), 0, needle) {
        assert(starts_at(s, p + k, needle));
        if let Some(p2) = find_from(s, k, needle) {
            assert(starts_at(s.skip(k), p2 - k, needle));
        }
    } else {
        if let Some(p2) = find_from(s, k, needle) {
            assert(starts_at(s.skip(k), p2 - k, needle));
        }
    }
}

/// Turns pieces into contiguous editable ranges. Boundaries prefer
/// paragraphs and stay below about 1200 bytes.
pub fn segment(pieces: &[Piece]) -> (r: Vec<ParsedSegment>)
    requires
        utf8_len(pieces_text(pieces_view(pieces@))) <= usize::MAX,
    ensures
        parsed_segments_view(r@) == spec_segment(pieces_view(pieces@)),
        all_editable(parsed_segments_view(r@)),
        ordered_segments(parsed_segments_view(r@)),
        forall|i: int|
            0 <= i < r@.len() ==> (#[trigger] r@[i]).end <= utf8_len(
                pieces_text(pieces_view(pieces@)),
            ),
{
    proof {
        segments_hold_editable_text(pieces_view(pieces@));
        segments_follow_the_source(pieces_view(pieces@));
    }
    let ghost ps = pieces_view(pieces@);
    let np = pieces.len();
    assert(segment_budget(ps) <= u128::MAX) by {
        assert(ps.len() == pieces@.len());
        assert(pieces@.len() <= usize::MAX);
        assert(usize::MAX < 0x1_0000_0000_0000_0000);
    }
    let mut seg = Segmenter {
        result: Vec::new(),
        current: Vec::new(),
        current_bytes: 0,
        placeholders: Vec::new(),
        start: 0,
        offset: 0,
        counter: 0,
    };
    proof {
        assert(parsed_segments_view(seg.result@) =~= Seq::<SpecParsedSegment>::empty());
        assert(placeholders_view(seg.placeholders@) =~= Seq::<SpecPlaceholder>::empty());
        assert(utf8_len(seg.current@) == 0) by {
            assert(seg.current@ =~= Seq::<char>::empty());
            assert(vstd::utf8::encode_utf8(Seq::<char>::empty()) =~= Seq::<u8>::empty());
        }
        assert(ps.take(0) =~= Seq::<SpecPiece>::empty());
        assert(pieces_text(Seq::<SpecPiece>::empty()) =~= Seq::<char>::empty());
    }
    let mut i: usize = 0;
    while i < pieces.len()
        invariant
            i <= pieces@.len(),
            ps == pieces_view(pieces@),
            segment_budget(ps) <= u128::MAX,
            utf8_len(pieces_text(ps)) <= usize::MAX,
            seg.inv(),
            seg.state() == segment_fold(ps.take(i as int)),
            seg.offset == utf8_len(pieces_text(ps.take(i as int))),
            seg.current_bytes <= segment_budget(ps.take(i as int)),
            seg.counter <= i,
        decreases pieces@.len() - i,
    {
        proof {
            lemma_pieces_text_take(ps, i as int);
            lemma_utf8_len_concat(pieces_text(ps.take(i as int)), piece_text(ps[i as int]));
            lemma_budget_take(ps, i + 1);
            assert(ps[i as int] == pieces@[i as int]@);
        }
        match &pieces[i] {
            Piece::Prose(t) => {
                let chars = chars_of(t.as_str());
                seg.prose(&chars);
            },
            Piece::Protected { kind, original } => {
                seg.protected(*kind, original);
            },
        }
        i += 1;
    }
    proof {
        assert(ps.take(i as int) =~= ps);
    }
    let off = seg.offset;
    seg.flush(off);
    proof {
        assert forall|k: int| 0 <= k < seg.result@.len() implies (#[trigger] seg.result@[k]).end
            <= utf8_len(pieces_text(ps)) by {
            assert(parsed_segments_view(seg.result@)[k] == seg.result@[k]@);
        }
    }
    seg.result
}

} // verus!

verus! {

// ---------------------------------------------------------------------------
// Executable reconstruction
// ---------------------------------------------------------------------------

fn count_matches_exec(s: &[char], t: &[char]) -> (c: u128)
    ensures
        c == count_matches(s@, t@),
{
    if t.len() == 0 {
        return s.len() as u128 + 1;
    }
    let n = s.len();
    let mut count: u128 = 0;
    let mut at: usize = 0;
    loop
        invariant
            t@.len() > 0,
            n == s@.len(),
            at <= n + 1,
            count <= at,
            count_from(s@, 0, t@) == count + count_from(s@, at as int, t@),
        decreases n + 1 - at,
    {
        if at > n {
            return count;
        }
        match find_chars(s, at, t) {
            None => {
                return count;
            },
            Some(p) => {
                proof {
                    lemma_find_from_bounds(s@, at as int, t@);
                }
                count += 1;
                at = p + t.len();
            },
        }
    }
}

fn replace_first_exec(s: &[char], t: &[char], r: &[char]) -> (out: Vec<char>)
    ensures
        out@ == replace_first(s@, t@, r@),
{
    let n = s.len();
    match find_chars(s, 0, t) {
        None => {
            let mut v = Vec::new();
            push_range(&mut v, s, 0, s.len());
            assert(s@.subrange(0, s@.len() as int) =~= s@);
            assert(v@ =~= s@);
            v
        },
        Some(p) => {
            proof {
                lemma_find_from_bounds(s@, 0, t@);
            }
            let mut v = Vec::new();
            push_range(&mut v, s, 0, p);
            push_range(&mut v, r, 0, r.len());
            push_range(&mut v, s, p + t.len(), s.len());
            assert(v@ =~= s@.take(p as int) + r@ + s@.skip(p + t@.len()));
            v
        },
    }
}

/// Puts the LaTeX back in place of each token, checking that every token
/// occurs exactly once and that no unknown token remains.
pub fn reconstruct(text: &str, placeholders: &[Placeholder]) -> (r: Result<String, String>)
    ensures
        match r {
            Ok(s) => spec_reconstruct(text@, placeholders_view(placeholders@)) == Ok::<
                Seq<char>,
                Seq<char>,
            >(s@),
            Err(e) => spec_reconstruct(text@, placeholders_view(placeholders@)) == Err::<
                Seq<char>,
                Seq<char>,
            >(e@),
        },
{
    let ghost pv = placeholders_view(placeholders@);
    let mut result = chars_of(text);
    let mut i: usize = 0;
    assert(pv.take(0) =~= Seq::<SpecPlaceholder>::empty());
    while i < placeholders.len()
        invariant
            i <= placeholders@.len(),
            pv == placeholders_view(placeholders@),
            reconstruct_from(text@, pv, 0) == reconstruct_from(result@, pv, i as int),
        decreases placeholders@.len() - i,
    {
        let p = &placeholders[i];
        let token = chars_of(p.token.as_str());
        let original = chars_of(p.original.as_str());
        proof {
            assert(pv[i as int] == p@);
        }
        let count = count_matches_exec(&result, &token);
        if count != 1 {
            let mut m: Vec<char> = Vec::new();
            push_str(&mut m, "placeholder `");
            push_range(&mut m, &token, 0, token.len());
            push_str(&mut m, "` aparece ");
            push_decimal_u128(&mut m, count);
            push_str(&mut m, " vezes");
            proof {
                assert(token@.subrange(0, token@.len() as int) =~= token@);
                assert(m@ =~= wrong_count_message(token@, count as nat));
            }
            return Err(string_from(&m));
        }
        proof {
            lemma_find_from_bounds(result@, 0, token@);
        }
        result = replace_first_exec(&result, &token, &original);
        i += 1;
    }
    if has_token_like_placeholder(&result) {
        let mut m: Vec<char> = Vec::new();
        push_str(&mut m, "placeholder desconhecido ou alterado");
        assert(m@ =~= "placeholder desconhecido ou alterado"@);
        return Err(string_from(&m));
    }
    Ok(string_from(&result))
}

} // verus!

verus! {

// ---------------------------------------------------------------------------
// Every segment holds editable text
// ---------------------------------------------------------------------------

pub open spec fn all_editable(segs: Seq<SpecParsedSegment>) -> bool {
    forall|i: int| 0 <= i < segs.len() ==> has_editable(#[trigger] segs[i].original)
}

proof fn lemma_flush_editable(st: SegState, at: int)
    requires
        all_editable(st.result),
    ensures
        all_editable(flush(st, at).result),
{
    if has_editable(st.current) {
        let r = flush(st, at).result;
        assert forall|i: int| 0 <= i < r.len() implies has_editable(#[trigger] r[i].original) by {
            if i < st.result.len() {
                assert(r[i] == st.result[i]);
            }
        }
    }
}

proof fn lemma_paragraphs_editable(st: SegState, rest: Seq<char>)
    requires
        all_editable(st.result),
    ensures
        all_editable(paragraphs(st, rest).0.result),
    decreases rest.len(),
{
    match find_from(rest, 0, "\n\n"@) {
        None => {},
        Some(pos) => {
            lemma_find_from_bounds(rest, 0, "\n\n"@);
            reveal_strlit("\n\n");
            let st1 = extend(st, rest.take(pos + 2));
            lemma_flush_editable(st1, st1.offset);
            lemma_paragraphs_editable(flush(st1, st1.offset), rest.skip(pos + 2));
        },
    }
}

proof fn lemma_cut_editable(st: SegState, rest: Seq<char>)
    requires
        all_editable(st.result),
    ensures
        all_editable(cut_long(st, rest).result),
    decreases rest.len(),
{
    lemma_cut_once_shrinks(st, rest);
    if utf8_len(st.current) > 1200 {
        let prefix_len = utf8_len(st.current) - utf8_len(rest);
        let min = if prefix_len >= 800 { 0 } else { 800 - prefix_len };
        let max = if prefix_len >= 1200 { 0 } else { 1200 - prefix_len };
        match sentence_end(rest, 0, 0, min, max) {
            None => {},
            Some((k, cut)) => {
                let split = st.current.len() - rest.len() + k + 1;
                let boundary = st.offset - utf8_len(rest) + cut;
                lemma_flush_editable(SegState { current: st.current.take(split), ..st }, boundary);
                let (next, r2) = cut_once(st, rest)->Some_0;
                lemma_cut_editable(next, r2);
            },
        }
    }
}

proof fn lemma_step_editable(st: SegState, p: SpecPiece)
    requires
        all_editable(st.result),
    ensures
        all_editable(segment_step(st, p).result),
{
    match p {
        SpecPiece::Prose(text) => {
            lemma_paragraphs_editable(st, text);
            let (st1, rest) = paragraphs(st, text);
            lemma_cut_editable(extend(st1, rest), rest);
        },
        SpecPiece::Protected { kind, original } => {},
    }
}

proof fn lemma_fold_editable(ps: Seq<SpecPiece>)
    ensures
        all_editable(segment_fold(ps).result),
    decreases ps.len(),
{
    if ps.len() > 0 {
        lemma_fold_editable(ps.drop_last());
        lemma_step_editable(segment_fold(ps.drop_last()), ps.last());
    }
}

/// No segment is empty or made of tokens alone: each holds a character a
/// translator can edit.
pub proof fn segments_hold_editable_text(ps: Seq<SpecPiece>)
    ensures
        all_editable(spec_segment(ps)),
{
    lemma_fold_editable(ps);
    let st = segment_fold(ps);
    lemma_flush_editable(st, st.offset);
}

// ---------------------------------------------------------------------------
// Segments come in source order
// ---------------------------------------------------------------------------

/// Each segment starts no later than it ends, and ends no later than the
/// next one starts.
pub open spec fn ordered_segments(segs: Seq<SpecParsedSegment>) -> bool {
    &&& forall|i: int| 0 <= i < segs.len() ==> 0 <= (#[trigger] segs[i]).start <= segs[i].end
    &&& forall|i: int, j: int|
        0 <= i < j < segs.len() ==> (#[trigger] segs[i]).end <= (#[trigger] segs[j]).start
}

/// The closed segments are ordered and end where the current one may start,
/// which is no later than the text seen so far.
pub open spec fn in_order(st: SegState) -> bool {
    &&& 0 <= st.start <= st.offset
    &&& ordered_segments(st.result)
    &&& forall|i: int| 0 <= i < st.result.len() ==> (#[trigger] st.result[i]).end <= st.start
}

proof fn lemma_flush_order(st: SegState, at: int)
    requires
        in_order(st),
        st.start <= at <= st.offset,
    ensures
        in_order(flush(st, at)),
        flush(st, at).start == (if has_editable(st.current) { at } else { st.start }),
{
    if has_editable(st.current) {
        let r = flush(st, at).result;
        assert forall|i: int| 0 <= i < r.len() implies 0 <= (#[trigger] r[i]).start <= r[i].end
            && r[i].end <= at by {
            if i < st.result.len() {
                assert(r[i] == st.result[i]);
            }
        }
        assert forall|i: int, j: int| 0 <= i < j < r.len() implies (#[trigger] r[i]).end <= (
        #[trigger] r[j]).start by {
            assert(r[i] == st.result[i]);
            if j < st.result.len() {
                assert(r[j] == st.result[j]);
            }
        }
    }
}

proof fn lemma_paragraphs_order(st: SegState, rest: Seq<char>)
    requires
        in_order(st),
    ensures
        in_order(paragraphs(st, rest).0),
        paragraphs(st, rest).0.offset == st.offset + utf8_len(
            rest.take(rest.len() - paragraphs(st, rest).1.len()),
        ),
        paragraphs(st, rest).1.len() <= rest.len(),
        rest == rest.take(rest.len() - paragraphs(st, rest).1.len()) + paragraphs(st, rest).1,
    decreases rest.len(),
{
    match find_from(rest, 0, "\n\n"@) {
        None => {
            assert(rest.take(0) =~= Seq::<char>::empty());
            assert(utf8_len(Seq::<char>::empty()) == 0) by {
                assert(vstd::utf8::encode_utf8(Seq::<char>::empty()) =~= Seq::<u8>::empty());
            }
            assert(rest =~= rest.take(0) + rest);
        },
        Some(pos) => {
            lemma_find_from_bounds(rest, 0, "\n\n"@);
            reveal_strlit("\n\n");
            let part = rest.take(pos + 2);
            let st1 = extend(st, part);
            lemma_flush_order(st1, st1.offset);
            let st2 = flush(st1, st1.offset);
            let rest2 = rest.skip(pos + 2);
            lemma_paragraphs_order(st2, rest2);
            let left = paragraphs(st2, rest2).1;
            let used2 = rest2.take(rest2.len() - left.len());
            assert(rest.take(rest.len() - left.len()) =~= part + used2);
            lemma_utf8_len_concat(part, used2);
            assert(rest =~= part + rest2);
            assert(rest =~= (part + used2) + left);
        },
    }
}

pub proof fn lemma_sentence_end_offsets(rest: Seq<char>, k: int, bpos: int, min: int, max: int)
    requires
        0 <= k <= rest.len(),
        bpos == utf8_len(rest.take(k)),
    ensures
        sentence_end(rest, k, bpos, min, max) matches Some((j, end)) ==> k <= j < rest.len()
            && end == utf8_len(rest.take(j + 1)) && is_sentence_end(rest[j]) && min <= end <= max,
    decreases rest.len() - k,
{
    if k < rest.len() {
        assert(rest.take(k + 1) =~= rest.take(k).push(rest[k]));
        lemma_utf8_len_push(rest.take(k), rest[k]);
        lemma_sentence_end_offsets(rest, k + 1, bpos + char_utf8_len(rest[k]), min, max);
    }
}

proof fn lemma_cut_order(st: SegState, rest: Seq<char>)
    requires
        in_order(st),
        st.start + utf8_len(rest) <= st.offset,
    ensures
        in_order(cut_long(st, rest)),
    decreases rest.len(),
{
    lemma_cut_once_shrinks(st, rest);
    if utf8_len(st.current) > 1200 {
        let prefix_len = utf8_len(st.current) - utf8_len(rest);
        let min = if prefix_len >= 800 { 0 } else { 800 - prefix_len };
        let max = if prefix_len >= 1200 { 0 } else { 1200 - prefix_len };
        assert(rest.take(0) =~= Seq::<char>::empty());
        assert(utf8_len(Seq::<char>::empty()) == 0) by {
            assert(vstd::utf8::encode_utf8(Seq::<char>::empty()) =~= Seq::<u8>::empty());
        }
        lemma_sentence_end_offsets(rest, 0, 0, min, max);
        match sentence_end(rest, 0, 0, min, max) {
            None => {},
            Some((k, cut)) => {
                let split = st.current.len() - rest.len() + k + 1;
                let boundary = st.offset - utf8_len(rest) + cut;
                assert(rest =~= rest.take(k + 1) + rest.skip(k + 1));
                lemma_utf8_len_concat(rest.take(k + 1), rest.skip(k + 1));
                let cutting = SegState { current: st.current.take(split), ..st };
                lemma_flush_order(cutting, boundary);
                let st3 = flush(cutting, boundary);
                let next = SegState { current: st.current.skip(split), start: boundary, ..st3 };
                assert(cut_once(st, rest) == Some((next, rest.skip(k + 1))));
                assert forall|i: int| 0 <= i < next.result.len() implies (
                #[trigger] next.result[i]).end <= next.start by {
                    assert(next.result[i] == st3.result[i]);
                }
                lemma_cut_order(next, rest.skip(k + 1));
            },
        }
    }
}

proof fn lemma_step_order(st: SegState, p: SpecPiece)
    requires
        in_order(st),
    ensures
        in_order(segment_step(st, p)),
{
    match p {
        SpecPiece::Prose(text) => {
            lemma_paragraphs_order(st, text);
            let (st1, rest) = paragraphs(st, text);
            lemma_cut_order(extend(st1, rest), rest);
        },
        SpecPiece::Protected { kind, original } => {},
    }
}

proof fn lemma_fold_order(ps: Seq<SpecPiece>)
    ensures
        in_order(segment_fold(ps)),
    decreases ps.len(),
{
    if ps.len() > 0 {
        lemma_fold_order(ps.drop_last());
        lemma_step_order(segment_fold(ps.drop_last()), ps.last());
    }
}

proof fn lemma_cut_offset(st: SegState, rest: Seq<char>)
    ensures
        cut_long(st, rest).offset == st.offset,
    decreases rest.len(),
{
    lemma_cut_once_shrinks(st, rest);
    if let Some((next, r2)) = cut_once(st, rest) {
        lemma_cut_offset(next, r2);
    }
}

proof fn lemma_fold_offset(ps: Seq<SpecPiece>)
    ensures
        segment_fold(ps).offset == utf8_len(pieces_text(ps)),
    decreases ps.len(),
{
    if ps.len() == 0 {
        assert(pieces_text(ps) =~= Seq::<char>::empty());
        assert(utf8_len(Seq::<char>::empty()) == 0) by {
            assert(vstd::utf8::encode_utf8(Seq::<char>::empty()) =~= Seq::<u8>::empty());
        }
    } else {
        lemma_fold_offset(ps.drop_last());
        lemma_fold_order(ps.drop_last());
        let st = segment_fold(ps.drop_last());
        lemma_utf8_len_concat(pieces_text(ps.drop_last()), piece_text(ps.last()));
        match ps.last() {
            SpecPiece::Prose(text) => {
                lemma_paragraphs_order(st, text);
                let (st1, rest) = paragraphs(st, text);
                let used = text.take(text.len() - rest.len());
                lemma_utf8_len_concat(used, rest);
                lemma_cut_offset(extend(st1, rest), rest);
            },
            SpecPiece::Protected { kind, original } => {},
        }
    }
}

/// Segments come in source order and never overlap: each starts no later
/// than it ends, and ends no later than the next one starts and than the
/// source's bytes.
pub proof fn segments_follow_the_source(ps: Seq<SpecPiece>)
    ensures
        ordered_segments(spec_segment(ps)),
        forall|i: int|
            0 <= i < spec_segment(ps).len() ==> (#[trigger] spec_segment(ps)[i]).end <= utf8_len(
                pieces_text(ps),
            ),
{
    lemma_fold_order(ps);
    lemma_fold_offset(ps);
    let st = segment_fold(ps);
    lemma_flush_order(st, st.offset);
}

} // verus!
