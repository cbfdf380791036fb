//! The reading view of a finished segment: its translation as HTML, with the
//! mathematics it protects shown again and everything else escaped.
use vstd::prelude::*;
use crate::models::{Placeholder, PlaceholderKind, Segment, SpecPlaceholder, placeholders_view};
use crate::parser::segmenter::spec_reconstruct;
use crate::parser::reconstruct;
use crate::text::{
    chars_of, push_str, starts_at, starts_chars, starts_str, string_from,
};

verus! {

broadcast use vstd::seq_lib::group_seq_properties;

/// A finished segment as the reader shows it.
#[derive(Debug, Clone)]
pub struct ReadBlock {
    pub html: String,
}

// ---------------------------------------------------------------------------
// Escaping
// ---------------------------------------------------------------------------

/// The HTML for one character of text.
pub open spec fn escape_char(c: char) -> Seq<char> {
    if c == '&' {
        "&amp;"@
    } else if c == '<' {
        "&lt;"@
    } else if c == '>' {
        "&gt;"@
    } else if c == '"' {
        "&quot;"@
    } else if c == '\'' {
        "&#39;"@
    } else {
        seq![c]
    }
}

/// Text made safe for HTML: each character escaped in turn.
pub open spec fn spec_escape(s: Seq<char>) -> Seq<char>
    decreases s.len(),
{
    if s.len() == 0 {
        Seq::empty()
    } else {
        spec_escape(s.drop_last()) + escape_char(s.last())
    }
}

/// None of the characters that carry markup in HTML survives escaping:
/// every `<`, `>`, `"` and `'` of the text comes out as an entity.
pub proof fn escaped_text_holds_no_markup(s: Seq<char>)
    ensures
        forall|i: int|
            0 <= i < spec_escape(s).len() ==> {
                let c = #[trigger] spec_escape(s)[i];
                c != '<' && c != '>' && c != '"' && c != '\''
            },
    decreases s.len(),
{
    if s.len() > 0 {
        escaped_text_holds_no_markup(s.drop_last());
        let c = s.last();
        reveal_strlit("&amp;");
        reveal_strlit("&lt;");
        reveal_strlit("&gt;");
        reveal_strlit("&quot;");
        reveal_strlit("&#39;");
        let e = escape_char(c);
        assert forall|i: int| 0 <= i < e.len() implies {
            let d = #[trigger] e[i];
            d != '<' && d != '>' && d != '"' && d != '\''
        } by {}
        let p = spec_escape(s.drop_last());
        assert forall|i: int| 0 <= i < spec_escape(s).len() implies {
            let d = #[trigger] spec_escape(s)[i];
            d != '<' && d != '>' && d != '"' && d != '\''
        } by {
            if i < p.len() {
                assert(spec_escape(s)[i] == p[i]);
            } else {
                assert(spec_escape(s)[i] == e[i - p.len()]);
            }
        }
    }
}

proof fn lemma_escape_push(s: Seq<char>, c: char)
    ensures
        spec_escape(s.push(c)) == spec_escape(s) + escape_char(c),
{
    assert(s.push(c).drop_last() =~= s);
}

fn push_escaped_char(out: &mut Vec<char>, c: char)
    ensures
        final(out)@ == old(out)@ + escape_char(c),
{
    if c == '&' {
        push_str(out, "&amp;");
    } else if c == '<' {
        push_str(out, "&lt;");
    } else if c == '>' {
        push_str(out, "&gt;");
    } else if c == '"' {
        push_str(out, "&quot;");
    } else if c == '\'' {
        push_str(out, "&#39;");
    } else {
        out.push(c);
        assert(seq![c] =~= escape_char(c));
    }
}

/// Appends `s[from..to]` escaped for HTML.
fn push_escaped(out: &mut Vec<char>, s: &[char], from: usize, to: usize)
    requires
        from <= to <= s@.len(),
    ensures
        final(out)@ == old(out)@ + spec_escape(s@.subrange(from as int, to as int)),
{
    let ghost start = out@;
    let mut k = from;
    assert(s@.subrange(from as int, from as int) =~= Seq::<char>::empty());
    while k < to
        invariant
            from <= k <= to <= s@.len(),
            out@ == start + spec_escape(s@.subrange(from as int, k as int)),
        decreases to - k,
    {
        push_escaped_char(out, s[k]);
        proof {
            assert(s@.subrange(from as int, k + 1) =~= s@.subrange(from as int, k as int).push(
                s@[k as int],
            ));
            lemma_escape_push(s@.subrange(from as int, k as int), s@[k as int]);
        }
        k += 1;
    }
}

// ---------------------------------------------------------------------------
// Mathematics
// ---------------------------------------------------------------------------

/// `s` without the delimiters `open` and `close` around it, when it has both.
pub open spec fn strip_delimiters(s: Seq<char>, open: Seq<char>, close: Seq<char>) -> Option<
    Seq<char>,
> {
    if starts_at(s, 0, open) && open.len() + close.len() <= s.len() && starts_at(
        s,
        s.len() - close.len(),
        close,
    ) {
        Some(s.subrange(open.len() as int, s.len() - close.len()))
    } else {
        None
    }
}

/// The TeX between the math delimiters, tried in the order `$$`, `$`, `\(`, `\[`.
pub open spec fn math_body(s: Seq<char>) -> Seq<char> {
    match strip_delimiters(s, "$$"@, "$$"@) {
        Some(b) => b,
        None => match strip_delimiters(s, "$"@, "$"@) {
            Some(b) => b,
            None => match strip_delimiters(s, "\\("@, "\\)"@) {
                Some(b) => b,
                None => match strip_delimiters(s, "\\["@, "\\]"@) {
                    Some(b) => b,
                    None => s,
                },
            },
        },
    }
}

/// Inline TeX that the reader page typesets, with its source escaped.
pub open spec fn spec_math_html(s: Seq<char>) -> Seq<char> {
    "<span class=\"reader-math\">\\("@ + spec_escape(math_body(s)) + "\\)</span>"@
}

fn strip_delimiters_exec(s: &[char], open: &str, close: &str) -> (r: Option<(usize, usize)>)
    ensures
        match r {
            Some((a, b)) => strip_delimiters(s@, open@, close@) == Some(
                s@.subrange(a as int, b as int),
            ) && a <= b <= s@.len(),
            None => strip_delimiters(s@, open@, close@) is None,
        },
{
    let o = open.unicode_len();
    let c = close.unicode_len();
    if starts_str(s, 0, open) && o <= s.len() && c <= s.len() - o && starts_str(
        s,
        s.len() - c,
        close,
    ) {
        Some((o, s.len() - c))
    } else {
        None
    }
}

fn push_math_html(out: &mut Vec<char>, s: &[char])
    ensures
        final(out)@ == old(out)@ + spec_math_html(s@),
{
    let ghost start = out@;
    push_str(out, "<span class=\"reader-math\">\\(");
    let bounds = match strip_delimiters_exec(s, "$$", "$$") {
        Some(b) => b,
        None => match strip_delimiters_exec(s, "$", "$") {
            Some(b) => b,
            None => match strip_delimiters_exec(s, "\\(", "\\)") {
                Some(b) => b,
                None => match strip_delimiters_exec(s, "\\[", "\\]") {
                    Some(b) => b,
                    None => (0, s.len()),
                },
            },
        },
    };
    assert(s@.subrange(0, s@.len() as int) =~= s@);
    push_escaped(out, s, bounds.0, bounds.1);
    push_str(out, "\\)</span>");
    assert(out@ =~= start + spec_math_html(s@));
}

// ---------------------------------------------------------------------------
// Blocks
// ---------------------------------------------------------------------------

/// What a protected token shows in the reader: mathematics is typeset; the
/// syntax of commands, environments and links is left out, while their
/// labels are prose of their own and remain.
pub open spec fn placeholder_html(p: SpecPlaceholder) -> Seq<char> {
    if p.kind == PlaceholderKind::Math {
        spec_math_html(p.original)
    } else {
        Seq::empty()
    }
}

/// The first placeholder, from `j` on, whose (non-empty) token starts at
/// index `k` of `t`.
pub open spec fn token_here(t: Seq<char>, ps: Seq<SpecPlaceholder>, k: int, j: int) -> Option<int>
    decreases ps.len() - j,
{
    if j < 0 || j >= ps.len() {
        None
    } else if ps[j].token.len() > 0 && starts_at(t, k, ps[j].token) {
        Some(j)
    } else {
        token_here(t, ps, k, j + 1)
    }
}

pub proof fn lemma_token_here(t: Seq<char>, ps: Seq<SpecPlaceholder>, k: int, j: int)
    requires
        0 <= j,
    ensures
        token_here(t, ps, k, j) matches Some(m) ==> j <= m < ps.len() && ps[m].token.len() > 0
            && starts_at(t, k, ps[m].token),
    decreases ps.len() - j,
{
    if j < ps.len() && !(ps[j].token.len() > 0 && starts_at(t, k, ps[j].token)) {
        lemma_token_here(t, ps, k, j + 1);
    }
}

/// The HTML for `t` from index `k` on: each token, wherever it stands, shows
/// its placeholder; every other character is escaped.
pub open spec fn read_from(t: Seq<char>, ps: Seq<SpecPlaceholder>, k: int) -> Seq<char>
    decreases t.len() - k,
{
    if k < 0 || k >= t.len() {
        Seq::empty()
    } else {
        match token_here(t, ps, k, 0) {
            Some(m) => {
                proof {
                    lemma_token_here(t, ps, k, 0);
                }
                placeholder_html(ps[m]) + read_from(t, ps, k + ps[m].token.len())
            },
            None => escape_char(t[k]) + read_from(t, ps, k + 1),
        }
    }
}

fn token_here_exec(t: &[char], ps: &[Placeholder], tokens: &[Vec<char>], k: usize) -> (r: Option<
    usize,
>)
    requires
        tokens@.len() == ps@.len(),
        forall|m: int|
            0 <= m < tokens@.len() ==> (#[trigger] tokens@[m])@ == placeholders_view(ps@)[m].token,
    ensures
        match r {
            Some(m) => token_here(t@, placeholders_view(ps@), k as int, 0) == Some(m as int) && m
                < ps@.len(),
            None => token_here(t@, placeholders_view(ps@), k as int, 0) is None,
        },
{
    let ghost pv = placeholders_view(ps@);
    let mut j: usize = 0;
    while j < tokens.len()
        invariant
            j <= tokens@.len(),
            tokens@.len() == ps@.len(),
            pv == placeholders_view(ps@),
            forall|m: int| 0 <= m < tokens@.len() ==> (#[trigger] tokens@[m])@ == pv[m].token,
            token_here(t@, pv, k as int, 0) == token_here(t@, pv, k as int, j as int),
        decreases tokens@.len() - j,
    {
        let tok = &tokens[j];
        assert(tok@ == pv[j as int].token);
        if tok.len() > 0 && starts_chars(t, k, tok.as_slice()) {
            return Some(j);
        }
        j += 1;
    }
    None
}

/// What `completed_block` gives for a segment with this translation, status
/// and placeholders.
pub open spec fn spec_completed_block(
    translated: Seq<char>,
    status: Seq<char>,
    ps: Seq<SpecPlaceholder>,
) -> Result<Option<Seq<char>>, Seq<char>> {
    if !(status == "traduzido"@ && translated.len() > 0) {
        Ok(None)
    } else {
        match spec_reconstruct(translated, ps) {
            Err(e) => Err(e),
            Ok(_) => Ok(Some(read_from(translated, ps, 0))),
        }
    }
}

/// The reader's HTML for a finished segment; `None` for one that is not
/// finished, whose original prose the reader keeps.
pub fn completed_block(segment: &Segment) -> (r: Result<Option<ReadBlock>, String>)
    ensures
        ({
            let spec = spec_completed_block(
                segment.translated@,
                segment.status@,
                placeholders_view(segment.placeholders@),
            );
            match r {
                Ok(Some(b)) => spec == Ok::<Option<Seq<char>>, Seq<char>>(Some(b.html@)),
                Ok(None) => spec == Ok::<Option<Seq<char>>, Seq<char>>(None),
                Err(e) => spec == Err::<Option<Seq<char>>, Seq<char>>(e@),
            }
        }),
{
    if !segment.is_complete() {
        return Ok(None);
    }
    // Validation guarantees that every token occurs exactly once, wherever
    // the translation puts it.
    match reconstruct(segment.translated.as_str(), segment.placeholders.as_slice()) {
        Err(e) => return Err(e),
        Ok(_) => {},
    }
    let ghost pv = placeholders_view(segment.placeholders@);
    let t = chars_of(segment.translated.as_str());
    let n = t.len();
    let ps = segment.placeholders.as_slice();
    let mut tokens: Vec<Vec<char>> = Vec::new();
    let mut j: usize = 0;
    while j < ps.len()
        invariant
            j <= ps@.len(),
            pv == placeholders_view(ps@),
            tokens@.len() == j,
            forall|m: int| 0 <= m < j ==> (#[trigger] tokens@[m])@ == pv[m].token,
        decreases ps@.len() - j,
    {
        tokens.push(chars_of(ps[j].token.as_str()));
        assert(pv[j as int] == ps@[j as int]@);
        j += 1;
    }
    let mut html: Vec<char> = Vec::new();
    let mut k: usize = 0;
    while k < n
        invariant
            k <= n,
            n == t@.len(),
            pv == placeholders_view(ps@),
            tokens@.len() == ps@.len(),
            forall|m: int| 0 <= m < tokens@.len() ==> (#[trigger] tokens@[m])@ == pv[m].token,
            html@ + read_from(t@, pv, k as int) == read_from(t@, pv, 0),
        decreases n - k,
    {
        let ghost before = html@;
        match token_here_exec(&t, ps, &tokens, k) {
            Some(m) => {
                proof {
                    lemma_token_here(t@, pv, k as int, 0);
                    assert(pv[m as int] == ps@[m as int]@);
                }
                match ps[m].kind {
                    PlaceholderKind::Math => {
                        let original = chars_of(ps[m].original.as_str());
                        push_math_html(&mut html, &original);
                    },
                    _ => {
                        assert(html@ =~= html@ + placeholder_html(ps@[m as int]@));
                    },
                }
                assert(html@ + read_from(t@, pv, k + tokens@[m as int]@.len()) =~= before
                    + read_from(t@, pv, k as int));
                k = k + tokens[m].len();
            },
            None => {
                push_escaped_char(&mut html, t[k]);
                assert(html@ + read_from(t@, pv, k + 1) =~= before + read_from(t@, pv, k as int));
                k += 1;
            },
        }
    }
    assert(read_from(t@, pv, n as int) =~= Seq::<char>::empty());
    assert(html@ =~= read_from(t@, pv, 0));
    Ok(Some(ReadBlock { html: string_from(&html) }))
}

} // verus!

verus! {

// ---------------------------------------------------------------------------
// The only markup in a block is the reader's own math tags
// ---------------------------------------------------------------------------

pub open spec fn is_markup(c: char) -> bool {
    c == '<' || c == '>' || c == '"' || c == '\''
}

pub open spec fn math_open_tag() -> Seq<char> {
    "<span class=\"reader-math\">"@
}

pub open spec fn math_close_tag() -> Seq<char> {
    "</span>"@
}

/// A math tag starting at `q` of `h` covers index `i`.
pub open spec fn tag_covers(h: Seq<char>, q: int, i: int) -> bool {
    ||| starts_at(h, q, math_open_tag()) && q <= i < q + math_open_tag().len()
    ||| starts_at(h, q, math_close_tag()) && q <= i < q + math_close_tag().len()
}

/// Every `<`, `>`, `"` and `'` of `h` belongs to a math tag.
pub open spec fn markup_only_in_tags(h: Seq<char>) -> bool {
    forall|i: int|
        0 <= i < h.len() && is_markup(#[trigger] h[i]) ==> exists|q: int| tag_covers(h, q, i)
}

proof fn lemma_no_markup(h: Seq<char>)
    requires
        forall|i: int| 0 <= i < h.len() ==> !is_markup(#[trigger] h[i]),
    ensures
        markup_only_in_tags(h),
{
}

proof fn lemma_tags_concat(a: Seq<char>, b: Seq<char>)
    requires
        markup_only_in_tags(a),
        markup_only_in_tags(b),
    ensures
        markup_only_in_tags(a + b),
{
    let h = a + b;
    assert forall|i: int| 0 <= i < h.len() && is_markup(#[trigger] h[i]) implies exists|q: int|
        tag_covers(h, q, i) by {
        if i < a.len() {
            assert(h[i] == a[i]);
            let q = choose|q: int| tag_covers(a, q, i);
            assert(h.subrange(q, q + math_open_tag().len()) =~= a.subrange(q, q + math_open_tag().len())
                || !starts_at(a, q, math_open_tag()));
            assert(h.subrange(q, q + math_close_tag().len()) =~= a.subrange(q, q + math_close_tag().len())
                || !starts_at(a, q, math_close_tag()));
            assert(tag_covers(h, q, i));
        } else {
            let j = i - a.len();
            assert(h[i] == b[j]);
            let q = choose|q: int| tag_covers(b, q, j);
            let q2 = q + a.len();
            assert(h.subrange(q2, q2 + math_open_tag().len()) =~= b.subrange(q, q + math_open_tag().len())
                || !starts_at(b, q, math_open_tag()));
            assert(h.subrange(q2, q2 + math_close_tag().len()) =~= b.subrange(
                q,
                q + math_close_tag().len(),
            ) || !starts_at(b, q, math_close_tag()));
            assert(tag_covers(h, q2, i));
        }
    }
}

proof fn lemma_escape_tags(s: Seq<char>)
    ensures
        markup_only_in_tags(spec_escape(s)),
{
    escaped_text_holds_no_markup(s);
    let e = spec_escape(s);
    assert forall|i: int| 0 <= i < e.len() implies !is_markup(#[trigger] e[i]) by {
        let c = e[i];
        assert(c != '<' && c != '>' && c != '"' && c != '\'');
    }
    lemma_no_markup(e);
}

proof fn lemma_escape_char_tags(c: char)
    ensures
        markup_only_in_tags(escape_char(c)),
{
    lemma_escape_push(Seq::empty(), c);
    assert(Seq::<char>::empty().push(c).drop_last() =~= Seq::<char>::empty());
    assert(spec_escape(Seq::<char>::empty()) + escape_char(c) =~= escape_char(c));
    lemma_escape_tags(Seq::<char>::empty().push(c));
}

proof fn lemma_math_tags(s: Seq<char>)
    ensures
        markup_only_in_tags(spec_math_html(s)),
{
    reveal_strlit("<span class=\"reader-math\">\\(");
    reveal_strlit("<span class=\"reader-math\">");
    reveal_strlit("\\)</span>");
    reveal_strlit("</span>");
    let head = "<span class=\"reader-math\">\\("@;
    let tail = "\\)</span>"@;
    assert(head =~= math_open_tag() + seq!['\\', '(']);
    assert(tail =~= seq!['\\', ')'] + math_close_tag());
    assert forall|i: int| 0 <= i < head.len() && is_markup(#[trigger] head[i]) implies exists|q: int|
        tag_covers(head, q, i) by {
        assert(head.subrange(0, math_open_tag().len() as int) =~= math_open_tag());
        assert(tag_covers(head, 0, i));
    }
    assert forall|i: int| 0 <= i < tail.len() && is_markup(#[trigger] tail[i]) implies exists|q: int|
        tag_covers(tail, q, i) by {
        assert(tail.subrange(2, 2 + math_close_tag().len() as int) =~= math_close_tag());
        assert(tag_covers(tail, 2, i));
    }
    lemma_escape_tags(math_body(s));
    lemma_tags_concat(head, spec_escape(math_body(s)));
    lemma_tags_concat(head + spec_escape(math_body(s)), tail);
}

proof fn lemma_read_tags(t: Seq<char>, ps: Seq<SpecPlaceholder>, k: int)
    ensures
        markup_only_in_tags(read_from(t, ps, k)),
    decreases t.len() - k,
{
    if 0 <= k < t.len() {
        match token_here(t, ps, k, 0) {
            Some(m) => {
                lemma_token_here(t, ps, k, 0);
                lemma_read_tags(t, ps, k + ps[m].token.len());
                if ps[m].kind == PlaceholderKind::Math {
                    lemma_math_tags(ps[m].original);
                } else {
                    lemma_no_markup(Seq::<char>::empty());
                }
                lemma_tags_concat(placeholder_html(ps[m]), read_from(t, ps, k + ps[m].token.len()));
            },
            None => {
                lemma_read_tags(t, ps, k + 1);
                lemma_escape_char_tags(t[k]);
                lemma_tags_concat(escape_char(t[k]), read_from(t, ps, k + 1));
            },
        }
    } else {
        lemma_no_markup(Seq::<char>::empty());
    }
}

/// Nothing from a translation or from its LaTeX reaches the reader as
/// markup: in the HTML of a finished block, every `<`, `>`, `"` and `'`
/// belongs to a `<span class="reader-math">` or `</span>` tag of the reader's
/// own; all other text comes escaped.
pub proof fn reader_blocks_hold_no_foreign_markup(
    translated: Seq<char>,
    status: Seq<char>,
    ps: Seq<SpecPlaceholder>,
)
    ensures
        spec_completed_block(translated, status, ps) matches Ok(Some(h)) ==> markup_only_in_tags(h),
{
    lemma_read_tags(translated, ps, 0);
}

} // verus!

verus! {

// ---------------------------------------------------------------------------
// Mathematics loses its own delimiters
// ---------------------------------------------------------------------------

/// The reader typesets mathematics as inline TeX inside its own tag: for a
/// body `b` between any of the delimiter pairs `$$ $$`, `$ $`, `\( \)` and
/// `\[ \]` (with no `$` in it), the HTML is the tag around `\(`, the escaped
/// body and `\)`, without the original delimiters.
pub proof fn math_loses_its_delimiters(b: Seq<char>)
    requires
        forall|i: int| 0 <= i < b.len() ==> b[i] != '$',
    ensures
        ({
            let shown = math_open_tag() + "\\("@ + spec_escape(b) + "\\)"@ + math_close_tag();
            &&& spec_math_html("$$"@ + b + "$$"@) == shown
            &&& spec_math_html("$"@ + b + "$"@) == shown
            &&& spec_math_html("\\("@ + b + "\\)"@) == shown
            &&& spec_math_html("\\["@ + b + "\\]"@) == shown
        }),
{
    reveal_strlit("$$");
    reveal_strlit("$");
    reveal_strlit("\\(");
    reveal_strlit("\\)");
    reveal_strlit("\\[");
    reveal_strlit("\\]");
    reveal_strlit("<span class=\"reader-math\">\\(");
    reveal_strlit("<span class=\"reader-math\">");
    reveal_strlit("\\)</span>");
    reveal_strlit("</span>");
    let shown = math_open_tag() + "\\("@ + spec_escape(b) + "\\)"@ + math_close_tag();
    assert("<span class=\"reader-math\">\\("@ + spec_escape(b) + "\\)</span>"@ =~= shown) by {
        assert("<span class=\"reader-math\">\\("@ =~= math_open_tag() + "\\("@);
        assert("\\)</span>"@ =~= "\\)"@ + math_close_tag());
    }
    let s1 = "$$"@ + b + "$$"@;
    assert(s1.subrange(0, 2) =~= "$$"@);
    assert(s1.subrange(s1.len() - 2, s1.len() as int) =~= "$$"@);
    assert(s1.subrange(2, s1.len() - 2) =~= b);
    assert(math_body(s1) == b);
    let s2 = "$"@ + b + "$"@;
    if b.len() > 0 {
        assert(s2[1] == b[0]);
        if starts_at(s2, 0, "$$"@) {
            assert(s2.subrange(0, 2)[1] == s2[1]);
        }
    } else {
        assert(s2.len() == 2);
    }
    assert(s2.subrange(0, 1) =~= "$"@);
    assert(s2.subrange(s2.len() - 1, s2.len() as int) =~= "$"@);
    assert(s2.subrange(1, s2.len() - 1) =~= b);
    assert(math_body(s2) == b);
    let s3 = "\\("@ + b + "\\)"@;
    assert(s3[0] == '\\');
    assert(s3.subrange(0, 2) =~= "\\("@);
    assert(s3.subrange(s3.len() - 2, s3.len() as int) =~= "\\)"@);
    assert(s3.subrange(2, s3.len() - 2) =~= b);
    assert(math_body(s3) == b);
    let s4 = "\\["@ + b + "\\]"@;
    assert(s4[0] == '\\');
    assert(s4[1] == '[');
    assert(s4.subrange(0, 2) =~= "\\["@);
    assert(s4.subrange(s4.len() - 2, s4.len() as int) =~= "\\]"@);
    assert(s4.subrange(2, s4.len() - 2) =~= b);
    assert(!starts_at(s4, 0, "\\("@)) by {
        if starts_at(s4, 0, "\\("@) {
            assert(s4.subrange(0, 2)[1] == '(');
        }
    }
    assert(math_body(s4) == b);
}

} // verus!
