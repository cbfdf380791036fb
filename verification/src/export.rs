//! Writing a stored file back out with its finished translations.
//!
//! Segments name their place in the source by byte offsets into its UTF-8
//! encoding; the source is modelled as characters, and `char_index` turns a
//! byte offset into the index of the character that starts there.
use vstd::prelude::*;
use crate::models::{Segment, SpecParsedSegment, placeholders_view};
use crate::parser::latex::spec_scan;
use crate::parser::roundtrip::{rebuilds_exactly, segments_rebuild_their_source, token_free};
use crate::parser::segmenter::{spec_reconstruct, spec_segment};
use crate::parser::reconstruct;
use crate::text::{
    char_utf8_len, chars_of, is_ws, lemma_skip_ws, lemma_utf8_len_push, push_range,
    push_signed_decimal, push_str, range_eq, signed_decimal, skip_whitespace, skip_ws, string_from,
    utf8_len, utf8_width, whitespace,
};

verus! {

broadcast use vstd::seq_lib::group_seq_properties;

// ---------------------------------------------------------------------------
// Byte offsets
// ---------------------------------------------------------------------------

/// Walking from character `k`, which starts at byte `bytes`, the index of the
/// character that starts at byte `b`.
pub open spec fn char_index_from(s: Seq<char>, k: int, bytes: int, b: int) -> Option<int>
    decreases s.len() - k,
{
    if bytes == b {
        Some(k)
    } else if bytes > b || k < 0 || k >= s.len() {
        None
    } else {
        char_index_from(s, k + 1, bytes + char_utf8_len(s[k]), b)
    }
}

/// The index of the character that starts at byte `b` of the UTF-8 encoding
/// of `s` (`s.len()` for the end); `None` where `b` falls inside a character
/// or past the end.
pub open spec fn char_index(s: Seq<char>, b: int) -> Option<int> {
    char_index_from(s, 0, 0, b)
}

/// The character range that the byte range `a..b` covers, as `str::get` finds it.
pub open spec fn byte_range(s: Seq<char>, a: int, b: int) -> Option<(int, int)> {
    match char_index(s, a) {
        Some(i) => match char_index(s, b) {
            Some(j) => if i <= j {
                Some((i, j))
            } else {
                None
            },
            None => None,
        },
        None => None,
    }
}

proof fn lemma_char_index_from(s: Seq<char>, k: int, bytes: int, b: int)
    requires
        0 <= k <= s.len(),
        bytes == utf8_len(s.take(k)),
    ensures
        char_index_from(s, k, bytes, b) matches Some(i) ==> k <= i <= s.len() && utf8_len(
            s.take(i),
        ) == b,
    decreases s.len() - k,
{
    if bytes == b {
    } else if bytes > b || k >= s.len() {
    } else {
        assert(s.take(k + 1) == s.take(k).push(s[k]));
        lemma_utf8_len_push(s.take(k), s[k]);
        lemma_char_index_from(s, k + 1, bytes + char_utf8_len(s[k]), b);
    }
}

/// A character index found for a byte offset starts exactly that many bytes in.
pub proof fn char_index_counts_bytes(s: Seq<char>, b: int)
    ensures
        char_index(s, b) matches Some(i) ==> 0 <= i <= s.len() && utf8_len(s.take(i)) == b,
{
    assert(s.take(0) =~= Seq::<char>::empty());
    assert(utf8_len(Seq::<char>::empty()) == 0) by {
        assert(vstd::utf8::encode_utf8(Seq::<char>::empty()) =~= Seq::<u8>::empty());
    }
    lemma_char_index_from(s, 0, 0, b);
}

fn char_index_exec(s: &[char], b: usize) -> (r: Option<usize>)
    ensures
        match r {
            Some(i) => char_index(s@, b as int) == Some(i as int),
            None => char_index(s@, b as int) is None,
        },
{
    let n = s.len();
    let mut k: usize = 0;
    let mut bytes: usize = 0;
    loop
        invariant
            k <= n,
            n == s@.len(),
            bytes <= b,
            char_index(s@, b as int) == char_index_from(s@, k as int, bytes as int, b as int),
        decreases n - k,
    {
        if bytes == b {
            return Some(k);
        }
        if k >= n {
            return None;
        }
        let w = utf8_width(s[k]);
        if w > b - bytes {
            assert(char_index_from(s@, k + 1, bytes + w, b as int) is None);
            assert(char_index_from(s@, k as int, bytes as int, b as int) is None);
            return None;
        }
        bytes += w;
        k += 1;
    }
}

pub(crate) fn byte_range_exec(s: &[char], a: usize, b: usize) -> (r: Option<(usize, usize)>)
    ensures
        match r {
            Some((i, j)) => byte_range(s@, a as int, b as int) == Some((i as int, j as int)) && i
                <= j <= s@.len(),
            None => byte_range(s@, a as int, b as int) is None,
        },
{
    proof {
        char_index_counts_bytes(s@, a as int);
        char_index_counts_bytes(s@, b as int);
    }
    match char_index_exec(s, a) {
        Some(i) => match char_index_exec(s, b) {
            Some(j) => if i <= j {
                Some((i, j))
            } else {
                None
            },
            None => None,
        },
        None => None,
    }
}

// ---------------------------------------------------------------------------
// Edge whitespace
// ---------------------------------------------------------------------------

/// Where the run of whitespace that ends at `k` begins.
pub open spec fn trailing_ws_start(s: Seq<char>, k: int) -> int
    decreases k,
{
    if 0 < k <= s.len() && is_ws(s[k - 1]) {
        trailing_ws_start(s, k - 1)
    } else {
        k
    }
}

proof fn lemma_trailing_ws_start(s: Seq<char>, k: int)
    requires
        0 <= k <= s.len(),
    ensures
        0 <= trailing_ws_start(s, k) <= k,
    decreases k,
{
    if 0 < k && is_ws(s[k - 1]) {
        lemma_trailing_ws_start(s, k - 1);
    }
}

pub open spec fn starts_with_ws(s: Seq<char>) -> bool {
    s.len() > 0 && is_ws(s[0])
}

pub open spec fn ends_with_ws(s: Seq<char>) -> bool {
    s.len() > 0 && is_ws(s.last())
}

/// The translation with the original's leading and trailing whitespace
/// restored where the translator left it out.
pub open spec fn spec_preserve_edge_whitespace(original: Seq<char>, translation: Seq<char>) -> Seq<
    char,
> {
    let leading = skip_ws(original, 0);
    let trailing = trailing_ws_start(original, original.len() as int);
    let head = if leading > 0 && !starts_with_ws(translation) {
        original.take(leading) + translation
    } else {
        translation
    };
    if trailing < original.len() && !ends_with_ws(head) {
        head + original.skip(trailing)
    } else {
        head
    }
}

/// Translators rarely retype the whitespace around a segment, yet it is what
/// separates the text from a preceding `\item` or from the next paragraph.
fn preserve_edge_whitespace(original: &[char], translation: &[char]) -> (r: Vec<char>)
    ensures
        r@ == spec_preserve_edge_whitespace(original@, translation@),
        r@.len() <= 2 * original@.len() + translation@.len(),
{
    let n = original.len();
    let leading = skip_whitespace(original, 0);
    let mut trailing = n;
    while trailing > 0 && whitespace(original[trailing - 1])
        invariant
            trailing <= n,
            n == original@.len(),
            trailing_ws_start(original@, n as int) == trailing_ws_start(
                original@,
                trailing as int,
            ),
        decreases trailing,
    {
        trailing -= 1;
    }
    proof {
        lemma_skip_ws(original@, 0);
        lemma_trailing_ws_start(original@, trailing as int);
    }
    let mut result: Vec<char> = Vec::new();
    let starts_ws = translation.len() > 0 && whitespace(translation[0]);
    if leading > 0 && !starts_ws {
        push_range(&mut result, original, 0, leading);
    }
    push_range(&mut result, translation, 0, translation.len());
    proof {
        assert(translation@.subrange(0, translation@.len() as int) =~= translation@);
        assert(original@.subrange(0, leading as int) =~= original@.take(leading as int));
    }
    let ghost head = result@;
    let ends_ws = result.len() > 0 && whitespace(result[result.len() - 1]);
    if trailing < n && !ends_ws {
        push_range(&mut result, original, trailing, n);
        assert(original@.subrange(trailing as int, n as int) =~= original@.skip(
            trailing as int,
        ));
    }
    result
}

// ---------------------------------------------------------------------------
// Rebuilding a source
// ---------------------------------------------------------------------------

pub open spec fn mismatch_message(id: int) -> Seq<char> {
    "fonte armazenada não corresponde ao segmento "@ + signed_decimal(id)
}

/// Processes `segs[k - 1]` down to `segs[0]` on `result`: each segment's
/// stored LaTeX must sit at its byte range, and a finished one is replaced
/// there by its translation.
pub open spec fn rebuild(result: Seq<char>, segs: Seq<Segment>, k: int) -> Result<
    Seq<char>,
    Seq<char>,
>
    decreases k,
{
    if k <= 0 {
        Ok(result)
    } else {
        let seg = segs[k - 1];
        let pv = placeholders_view(seg.placeholders@);
        match spec_reconstruct(seg.original@, pv) {
            Err(e) => Err(e),
            Ok(orig) => match byte_range(result, seg.start as int, seg.end as int) {
                None => Err(mismatch_message(seg.id as int)),
                Some((i, j)) => if result.subrange(i, j) != orig {
                    Err(mismatch_message(seg.id as int))
                } else if !seg.spec_is_complete() {
                    rebuild(result, segs, k - 1)
                } else {
                    match spec_reconstruct(
                        spec_preserve_edge_whitespace(seg.original@, seg.translated@),
                        pv,
                    ) {
                        Err(e) => Err(e),
                        Ok(tr) => rebuild(result.take(i) + tr + result.skip(j), segs, k - 1),
                    }
                },
            },
        }
    }
}

/// What `translated_source` returns.
pub open spec fn spec_translated_source(source: Seq<char>, segs: Seq<Segment>) -> Result<
    Seq<char>,
    Seq<char>,
> {
    rebuild(source, segs, segs.len() as int)
}

proof fn lemma_rebuild_unchanged(result: Seq<char>, segs: Seq<Segment>, k: int)
    requires
        forall|m: int| 0 <= m < k ==> !(#[trigger] segs[m]).spec_is_complete(),
    ensures
        rebuild(result, segs, k) matches Ok(x) ==> x == result,
    decreases k,
{
    if k > 0 {
        lemma_rebuild_unchanged(result, segs, k - 1);
    }
}

fn mismatch_error(id: i64) -> (e: String)
    ensures
        e@ == mismatch_message(id as int),
{
    let mut m: Vec<char> = Vec::new();
    push_str(&mut m, "fonte armazenada não corresponde ao segmento ");
    push_signed_decimal(&mut m, id);
    string_from(&m)
}

/// Rebuilds a stored file with its finished translations. Drafts and pending
/// segments keep the original prose, so the export and the reader agree.
/// Where no segment is finished, what comes back is the source itself.
pub fn translated_source(source: &str, segments: &[Segment]) -> (r: Result<String, String>)
    ensures
        match r {
            Ok(s) => spec_translated_source(source@, segments@) == Ok::<Seq<char>, Seq<char>>(
                s@,
            ),
            Err(e) => spec_translated_source(source@, segments@) == Err::<Seq<char>, Seq<char>>(
                e@,
            ),
        },
        (forall|m: int| 0 <= m < segments@.len() ==> !(#[trigger] segments@[m]).spec_is_complete())
            ==> (r matches Ok(s) ==> s@ == source@),
{
    proof {
        if forall|m: int| 0 <= m < segments@.len() ==> !(#[trigger] segments@[m]).spec_is_complete() {
            lemma_rebuild_unchanged(source@, segments@, segments@.len() as int);
        }
    }
    let mut result = chars_of(source);
    let mut k = segments.len();
    while k > 0
        invariant
            k <= segments@.len(),
            spec_translated_source(source@, segments@) == rebuild(result@, segments@, k as int),
        decreases k,
    {
        let seg = &segments[k - 1];
        let ghost pv = placeholders_view(seg.placeholders@);
        let orig = match reconstruct(seg.original.as_str(), seg.placeholders.as_slice()) {
            Err(e) => return Err(e),
            Ok(o) => chars_of(o.as_str()),
        };
        let (i, j) = match byte_range_exec(&result, seg.start, seg.end) {
            None => return Err(mismatch_error(seg.id)),
            Some(range) => range,
        };
        if !range_eq(&result, i, j, &orig) {
            return Err(mismatch_error(seg.id));
        }
        if seg.is_complete() {
            let original = chars_of(seg.original.as_str());
            let translated = chars_of(seg.translated.as_str());
            let translation = string_from(&preserve_edge_whitespace(&original, &translated));
            let tr = match reconstruct(translation.as_str(), seg.placeholders.as_slice()) {
                Err(e) => return Err(e),
                Ok(t) => chars_of(t.as_str()),
            };
            let mut next: Vec<char> = Vec::new();
            push_range(&mut next, &result, 0, i);
            push_range(&mut next, &tr, 0, tr.len());
            push_range(&mut next, &result, j, result.len());
            proof {
                assert(next@ =~= result@.take(i as int) + tr@ + result@.skip(j as int));
            }
            result = next;
        }
        k -= 1;
    }
    Ok(string_from(&result))
}

// ---------------------------------------------------------------------------
// The export report
// ---------------------------------------------------------------------------

/// What an export wrote and what it left untranslated.
#[derive(Debug)]
pub struct ExportReport {
    pub files: usize,
    pub completed: usize,
    pub pending: usize,
    /// Pending segments with an unfinished draft; they are exported as the original.
    pub drafts: usize,
}

impl Default for ExportReport {
    fn default() -> (r: Self)
        ensures
            r.files == 0 && r.completed == 0 && r.pending == 0 && r.drafts == 0,
    {
        ExportReport { files: 0, completed: 0, pending: 0, drafts: 0 }
    }
}

/// A pending segment whose translation holds more than whitespace.
pub open spec fn is_draft(seg: Segment) -> bool {
    !seg.spec_is_complete() && skip_ws(seg.translated@, 0) < seg.translated@.len()
}

pub open spec fn count_complete(segs: Seq<Segment>) -> nat
    decreases segs.len(),
{
    if segs.len() == 0 {
        0
    } else {
        count_complete(segs.drop_last()) + if segs.last().spec_is_complete() {
            1nat
        } else {
            0nat
        }
    }
}

pub open spec fn count_drafts(segs: Seq<Segment>) -> nat
    decreases segs.len(),
{
    if segs.len() == 0 {
        0
    } else {
        count_drafts(segs.drop_last()) + if is_draft(segs.last()) {
            1nat
        } else {
            0nat
        }
    }
}

/// The first segment at or after `k` that is not finished.
pub open spec fn first_pending_from(segs: Seq<Segment>, k: int) -> Option<int>
    decreases segs.len() - k,
{
    if k < 0 || k >= segs.len() {
        None
    } else if !segs[k].spec_is_complete() {
        Some(k)
    } else {
        first_pending_from(segs, k + 1)
    }
}

/// How many segments a tally looks at before it stops.
pub open spec fn tally_stop(segs: Seq<Segment>, require_complete: bool) -> int {
    if require_complete {
        match first_pending_from(segs, 0) {
            Some(p) => p + 1,
            None => segs.len() as int,
        }
    } else {
        segs.len() as int
    }
}

pub open spec fn pending_message(id: int, path: Seq<char>) -> Seq<char> {
    "segmento pendente "@ + signed_decimal(id) + " em "@ + path
}

proof fn lemma_counts_push(segs: Seq<Segment>, k: int)
    requires
        0 <= k < segs.len(),
    ensures
        count_complete(segs.take(k + 1)) == count_complete(segs.take(k)) + if segs[k].spec_is_complete() {
            1nat
        } else {
            0nat
        },
        count_drafts(segs.take(k + 1)) == count_drafts(segs.take(k)) + if is_draft(segs[k]) {
            1nat
        } else {
            0nat
        },
        count_complete(segs.take(k)) <= k,
        count_drafts(segs.take(k)) <= k,
    decreases k,
{
    assert(segs.take(k + 1).drop_last() =~= segs.take(k));
    if k > 0 {
        lemma_counts_push(segs, k - 1);
    } else {
        assert(segs.take(0) =~= Seq::<Segment>::empty());
    }
}

fn has_non_whitespace(s: &str) -> (b: bool)
    ensures
        b == (skip_ws(s@, 0) < s@.len()),
{
    let v = chars_of(s);
    skip_whitespace(&v, 0) < v.len()
}

impl ExportReport {
    /// Counts the segments of one file: finished, pending, and pending with
    /// a draft. Where every segment must be finished, the first pending one
    /// stops the export with its id and the file's path.
    pub fn tally(&mut self, path: &str, segments: &[Segment], require_complete: bool) -> (r: Result<
        (),
        String,
    >)
        requires
            old(self).completed + segments@.len() <= usize::MAX,
            old(self).pending + segments@.len() <= usize::MAX,
            old(self).drafts + segments@.len() <= usize::MAX,
        ensures
            ({
                let stop = tally_stop(segments@, require_complete);
                let seen = segments@.take(stop);
                &&& final(self).files == old(self).files
                &&& final(self).completed == old(self).completed + count_complete(seen)
                &&& final(self).pending == old(self).pending + stop - count_complete(seen)
                &&& final(self).drafts == old(self).drafts + count_drafts(seen)
            }),
            match r {
                Ok(()) => !(require_complete && first_pending_from(segments@, 0) is Some),
                Err(e) => require_complete && (first_pending_from(segments@, 0) matches Some(p)
                    && e@ == pending_message(segments@[p].id as int, path@)),
            },
    {
        let ghost start = *self;
        let mut k: usize = 0;
        assert(segments@.take(0) =~= Seq::<Segment>::empty());
        while k < segments.len()
            invariant
                k <= segments@.len(),
                start == *old(self),
                self.files == start.files,
                start.completed + segments@.len() <= usize::MAX,
                start.pending + segments@.len() <= usize::MAX,
                start.drafts + segments@.len() <= usize::MAX,
                self.completed == start.completed + count_complete(segments@.take(k as int)),
                self.pending == start.pending + k - count_complete(segments@.take(k as int)),
                self.drafts == start.drafts + count_drafts(segments@.take(k as int)),
                require_complete ==> first_pending_from(segments@, 0) == first_pending_from(
                    segments@,
                    k as int,
                ),
            decreases segments@.len() - k,
        {
            let seg = &segments[k];
            proof {
                lemma_counts_push(segments@, k as int);
            }
            if seg.is_complete() {
                self.completed += 1;
            } else {
                self.pending += 1;
                if has_non_whitespace(seg.translated.as_str()) {
                    self.drafts += 1;
                }
                if require_complete {
                    assert(first_pending_from(segments@, k as int) == Some(k as int));
                    assert(tally_stop(segments@, require_complete) == k + 1);
                    let mut m: Vec<char> = Vec::new();
                    push_str(&mut m, "segmento pendente ");
                    push_signed_decimal(&mut m, seg.id);
                    push_str(&mut m, " em ");
                    let p = chars_of(path);
                    push_range(&mut m, &p, 0, p.len());
                    proof {
                        assert(p@.subrange(0, p@.len() as int) =~= p@);
                        assert(m@ =~= pending_message(seg.id as int, path@));
                    }
                    return Err(string_from(&m));
                }
            }
            k += 1;
        }
        assert(segments@.take(segments@.len() as int) =~= segments@);
        Ok(())
    }
}

// ---------------------------------------------------------------------------
// Exporting what was imported
// ---------------------------------------------------------------------------

/// A stored segment as the parser made it: its text, tokens and byte range.
pub open spec fn parsed_form(seg: Segment) -> SpecParsedSegment {
    SpecParsedSegment {
        original: seg.original@,
        placeholders: placeholders_view(seg.placeholders@),
        start: seg.start as int,
        end: seg.end as int,
    }
}

proof fn lemma_rebuild_untranslated(source: Seq<char>, segs: Seq<Segment>, k: int)
    requires
        0 <= k <= segs.len(),
        forall|m: int| 0 <= m < k ==> !(#[trigger] segs[m]).spec_is_complete(),
        forall|m: int| 0 <= m < k ==> rebuilds_exactly(source, parsed_form(#[trigger] segs[m])),
    ensures
        rebuild(source, segs, k) == Ok::<Seq<char>, Seq<char>>(source),
    decreases k,
{
    if k > 0 {
        assert(rebuilds_exactly(source, parsed_form(segs[k - 1])));
        lemma_rebuild_untranslated(source, segs, k - 1);
    }
}

/// With nothing finished, exporting gives the source back byte for byte, as
/// long as every stored segment still rebuilds to the bytes it spans.
pub proof fn untranslated_export_is_the_source(source: Seq<char>, segs: Seq<Segment>)
    requires
        forall|m: int| 0 <= m < segs.len() ==> !(#[trigger] segs[m]).spec_is_complete(),
        forall|m: int|
            0 <= m < segs.len() ==> rebuilds_exactly(source, parsed_form(#[trigger] segs[m])),
    ensures
        spec_translated_source(source, segs) == Ok::<Seq<char>, Seq<char>>(source),
{
    lemma_rebuild_untranslated(source, segs, segs.len() as int);
}

/// Importing a source and exporting it with nothing translated gives the
/// source back byte for byte, wherever no run shaped like a token
/// (`{{NAME_123}}`) occurs in the source.
pub proof fn import_then_export_gives_the_source(source: Seq<char>, segs: Seq<Segment>)
    requires
        token_free(source),
        spec_scan(source) is Ok,
        segs.len() == spec_segment(spec_scan(source)->Ok_0).len(),
        forall|m: int|
            0 <= m < segs.len() ==> parsed_form(#[trigger] segs[m]) == spec_segment(
                spec_scan(source)->Ok_0,
            )[m],
        forall|m: int| 0 <= m < segs.len() ==> !(#[trigger] segs[m]).spec_is_complete(),
    ensures
        spec_translated_source(source, segs) == Ok::<Seq<char>, Seq<char>>(source),
{
    let parsed = spec_segment(spec_scan(source)->Ok_0);
    segments_rebuild_their_source(source);
    assert forall|m: int| 0 <= m < segs.len() implies rebuilds_exactly(
        source,
        parsed_form(#[trigger] segs[m]),
    ) by {
        assert(parsed_form(segs[m]) == parsed[m]);
        assert(rebuilds_exactly(source, parsed[m]));
    }
    untranslated_export_is_the_source(source, segs);
}

// ---------------------------------------------------------------------------
// What an export replaces
// ---------------------------------------------------------------------------

/// Where the source text after segment `k - 1` ends: at the next segment's
/// first character, or at the end of the source.
pub open spec fn lead(source: Seq<char>, spans: Seq<(int, int)>, k: int) -> int {
    if 0 <= k < spans.len() {
        spans[k].0
    } else {
        source.len() as int
    }
}

/// What stands in the export for a segment spanning `span` of the source:
/// its rebuilt translation once finished, else the source's own text.
pub open spec fn exported_piece(source: Seq<char>, seg: Segment, span: (int, int)) -> Seq<char> {
    if seg.spec_is_complete() {
        spec_reconstruct(
            spec_preserve_edge_whitespace(seg.original@, seg.translated@),
            placeholders_view(seg.placeholders@),
        )->Ok_0
    } else {
        source.subrange(span.0, span.1)
    }
}

/// The export from segment `m`'s first character on: each segment's piece,
/// then the source between it and the next segment, unchanged.
pub open spec fn exported_from(source: Seq<char>, segs: Seq<Segment>, spans: Seq<(int, int)>, m: int) -> Seq<
    char,
>
    decreases segs.len() - m,
{
    if m < 0 || m >= segs.len() {
        Seq::empty()
    } else {
        exported_piece(source, segs[m], spans[m]) + source.subrange(spans[m].1, lead(source, spans, m + 1))
            + exported_from(source, segs, spans, m + 1)
    }
}

/// `spans` gives, in source order and without overlap, the characters of
/// `source` that each segment spans; each segment rebuilds to its span, and
/// each finished one has a translation that rebuilds.
pub open spec fn spans_fit(source: Seq<char>, segs: Seq<Segment>, spans: Seq<(int, int)>) -> bool {
    &&& spans.len() == segs.len()
    &&& forall|m: int|
        0 <= m < segs.len() ==> {
            let (a, b) = #[trigger] spans[m];
            let pv = placeholders_view(segs[m].placeholders@);
            &&& 0 <= a <= b <= lead(source, spans, m + 1) <= source.len()
            &&& utf8_len(source.take(a)) == segs[m].start
            &&& utf8_len(source.take(b)) == segs[m].end
            &&& spec_reconstruct(segs[m].original@, pv) == Ok::<Seq<char>, Seq<char>>(
                source.subrange(a, b),
            )
            &&& segs[m].spec_is_complete() ==> spec_reconstruct(
                spec_preserve_edge_whitespace(segs[m].original@, segs[m].translated@),
                pv,
            ) is Ok
        }
}

proof fn lemma_rebuild_spans(
    source: Seq<char>,
    segs: Seq<Segment>,
    spans: Seq<(int, int)>,
    k: int,
    result: Seq<char>,
)
    requires
        spans_fit(source, segs, spans),
        0 <= k <= segs.len(),
        result == source.take(lead(source, spans, k)) + exported_from(source, segs, spans, k),
    ensures
        rebuild(result, segs, k) == Ok::<Seq<char>, Seq<char>>(
            source.take(lead(source, spans, 0)) + exported_from(source, segs, spans, 0),
        ),
    decreases k,
{
    if k > 0 {
        let m = k - 1;
        let (a, b) = spans[m];
        let l = lead(source, spans, k);
        assert(0 <= a <= b <= l <= source.len());
        let seg = segs[m];
        let pv = placeholders_view(seg.placeholders@);
        assert(result.take(a) =~= source.take(a));
        assert(result.take(b) =~= source.take(b));
        assert(result.subrange(a, b) =~= source.subrange(a, b));
        crate::parser::roundtrip::lemma_char_index_exact(result, a);
        crate::parser::roundtrip::lemma_char_index_exact(result, b);
        assert(byte_range(result, seg.start as int, seg.end as int) == Some((a, b)));
        let next = if seg.spec_is_complete() {
            result.take(a) + exported_piece(source, seg, (a, b)) + result.skip(b)
        } else {
            result
        };
        assert(result.skip(b) =~= source.subrange(b, l) + exported_from(source, segs, spans, k));
        assert(next =~= source.take(a) + exported_from(source, segs, spans, m));
        if m > 0 {
            assert(lead(source, spans, m) == a);
        } else {
            assert(lead(source, spans, 0) == a);
        }
        lemma_rebuild_spans(source, segs, spans, m, next);
    } else {
        assert(rebuild(result, segs, 0) == Ok::<Seq<char>, Seq<char>>(result));
    }
}

/// Exporting replaces the span of each finished segment by its rebuilt
/// translation and keeps every other character of the source in place,
/// wherever the segments lie in order, without overlap, on spans they
/// rebuild to.
pub proof fn export_replaces_finished_spans(
    source: Seq<char>,
    segs: Seq<Segment>,
    spans: Seq<(int, int)>,
)
    requires
        spans_fit(source, segs, spans),
    ensures
        spec_translated_source(source, segs) == Ok::<Seq<char>, Seq<char>>(
            source.take(lead(source, spans, 0)) + exported_from(source, segs, spans, 0),
        ),
{
    let n = segs.len() as int;
    assert(source.take(lead(source, spans, n)) + exported_from(source, segs, spans, n) =~= source);
    lemma_rebuild_spans(source, segs, spans, n, source);
}

} // verus!

verus! {

// ---------------------------------------------------------------------------
// What edge whitespace a translation gets back
// ---------------------------------------------------------------------------

proof fn lemma_skip_lead(o: Seq<char>, lead_len: int, k: int)
    requires
        0 <= k <= lead_len < o.len(),
        forall|i: int| 0 <= i < lead_len ==> is_ws(#[trigger] o[i]),
        !is_ws(o[lead_len]),
    ensures
        skip_ws(o, k) == lead_len,
    decreases lead_len - k,
{
    if k < lead_len {
        lemma_skip_lead(o, lead_len, k + 1);
    }
}

proof fn lemma_trailing_run(o: Seq<char>, stop: int, k: int)
    requires
        0 < stop <= k <= o.len(),
        forall|i: int| stop <= i < o.len() ==> is_ws(#[trigger] o[i]),
        !is_ws(o[stop - 1]),
    ensures
        trailing_ws_start(o, k) == stop,
    decreases k,
{
    if k > stop {
        lemma_trailing_run(o, stop, k - 1);
    }
}

/// A translation gets back the whitespace around the original that the
/// translator left out: for an original made of a whitespace run `lead`,
/// text `mid` that starts and ends with other characters, and a whitespace
/// run `trail`, a translation that ends in another character is followed by
/// the whole of `trail`, and preceded by `lead` unless it starts with
/// whitespace of its own.
pub proof fn edge_whitespace_is_restored(
    lead: Seq<char>,
    mid: Seq<char>,
    trail: Seq<char>,
    t: Seq<char>,
)
    requires
        forall|i: int| 0 <= i < lead.len() ==> is_ws(#[trigger] lead[i]),
        forall|i: int| 0 <= i < trail.len() ==> is_ws(#[trigger] trail[i]),
        mid.len() > 0,
        !is_ws(mid[0]),
        !is_ws(mid.last()),
        t.len() > 0,
        !is_ws(t.last()),
    ensures
        spec_preserve_edge_whitespace(lead + mid + trail, t) == (if is_ws(t[0]) {
            t
        } else {
            lead + t
        }) + trail,
{
    let o = lead + mid + trail;
    let ll = lead.len() as int;
    let stop = (lead.len() + mid.len()) as int;
    assert forall|i: int| 0 <= i < ll implies is_ws(#[trigger] o[i]) by {
        assert(o[i] == lead[i]);
    }
    assert(o[ll] == mid[0]);
    lemma_skip_lead(o, ll, 0);
    assert forall|i: int| stop <= i < o.len() implies is_ws(#[trigger] o[i]) by {
        assert(o[i] == trail[i - stop]);
    }
    assert(o[stop - 1] == mid.last());
    lemma_trailing_run(o, stop, o.len() as int);
    assert(o.take(ll) =~= lead);
    assert(o.skip(stop) =~= trail);
    let head = if ll > 0 && !starts_with_ws(t) {
        o.take(ll) + t
    } else {
        t
    };
    assert(head.last() == t.last());
    if ll == 0 {
        assert(lead + t =~= t);
    }
    if trail.len() == 0 {
        assert(head + trail =~= head);
    }
}

} // verus!
