//! The scan keeps every character of its input: joined in order, the pieces
//! give back the source; and the argument of a formatting command stays
//! editable prose.
use vstd::prelude::*;
use crate::models::{PlaceholderKind, SpecPiece, piece_text, pieces_text};
use crate::parser::latex::{
    command, is_escaped, lemma_command_end, lemma_find_environment_end, lemma_link_spans,
    lemma_text_argument_spans, lemma_unescaped_from, link_spans, opaque_environments, protected,
    scan_backslash, scan_body_step, scan_command, scan_document_start, scan_from,
    scan_preamble_step, spec_command_end, spec_env_name, spec_find_environment_end,
    spec_is_standalone_preamble, spec_push_prose, spec_scan, text_argument_commands,
    text_argument_spans, text_environments, title_commands, unescaped_from, wrapped,
    SpecScanError, first_content_line, preamble_prefixes, backslash_run, balanced_from,
    matching_command, skip_options,
};
use crate::text::{
    contains, find_from, is_alpha, lemma_find_from_bounds, lemma_skip_ws, lemma_starts_at, skip_ws,
    starts_at,
};

verus! {

broadcast use vstd::seq_lib::group_seq_properties;

// ---------------------------------------------------------------------------
// The text of pieces
// ---------------------------------------------------------------------------

proof fn lemma_text_push(out: Seq<SpecPiece>, p: SpecPiece)
    ensures
        pieces_text(out.push(p)) == pieces_text(out) + piece_text(p),
{
    assert(out.push(p).drop_last() =~= out);
}

proof fn lemma_text_concat(a: Seq<SpecPiece>, b: Seq<SpecPiece>)
    ensures
        pieces_text(a + b) == pieces_text(a) + pieces_text(b),
    decreases b.len(),
{
    if b.len() == 0 {
        assert(a + b =~= a);
        assert(pieces_text(a) + Seq::<char>::empty() =~= pieces_text(a));
    } else {
        assert((a + b).drop_last() =~= a + b.drop_last());
        lemma_text_concat(a, b.drop_last());
        assert(pieces_text(a) + pieces_text(b.drop_last()) + piece_text(b.last()) =~= pieces_text(
            a,
        ) + (pieces_text(b.drop_last()) + piece_text(b.last())));
    }
}

proof fn lemma_text_push_prose(out: Seq<SpecPiece>, t: Seq<char>)
    ensures
        pieces_text(spec_push_prose(out, t)) == pieces_text(out) + t,
{
    if t.len() == 0 {
        assert(pieces_text(out) + t =~= pieces_text(out));
    } else if out.len() > 0 && out.last() is Prose {
        let last = out.last()->0;
        lemma_text_push(out.drop_last(), SpecPiece::Prose(last + t));
        assert(pieces_text(out.drop_last()) + (last + t) =~= pieces_text(out.drop_last()) + last
            + t);
    } else {
        lemma_text_push(out, SpecPiece::Prose(t));
    }
}

proof fn lemma_text_wrapped(
    s: Seq<char>,
    at: int,
    a: int,
    b: int,
    e: int,
    inner: Seq<SpecPiece>,
)
    ensures
        pieces_text(wrapped(s, at, a, b, e, inner)) == s.subrange(at, a) + pieces_text(inner)
            + s.subrange(b, e),
{
    let head = seq![command(s.subrange(at, a))];
    let tail = seq![command(s.subrange(b, e))];
    lemma_text_concat(head + inner, tail);
    lemma_text_concat(head, inner);
    lemma_text_push(Seq::empty(), command(s.subrange(at, a)));
    lemma_text_push(Seq::empty(), command(s.subrange(b, e)));
    assert(Seq::<SpecPiece>::empty().push(command(s.subrange(at, a))) =~= head);
    assert(Seq::<SpecPiece>::empty().push(command(s.subrange(b, e))) =~= tail);
    assert(pieces_text(Seq::<SpecPiece>::empty()) =~= Seq::<char>::empty());
}

/// The text up to `at`, then a protected piece covering `s[at..end]`.
proof fn lemma_text_extends(s: Seq<char>, out: Seq<SpecPiece>, at: int, end: int, p: SpecPiece)
    requires
        0 <= at <= end <= s.len(),
        pieces_text(out) == s.take(at),
        piece_text(p) == s.subrange(at, end),
    ensures
        pieces_text(out.push(p)) == s.take(end),
{
    lemma_text_push(out, p);
    assert(s.take(at) + s.subrange(at, end) =~= s.take(end));
}

/// Pending prose from `ps` to `at` joined onto text that reached `ps`.
proof fn lemma_text_prose(s: Seq<char>, out: Seq<SpecPiece>, ps: int, at: int)
    requires
        0 <= ps <= at <= s.len(),
        pieces_text(out) == s.take(ps),
    ensures
        pieces_text(spec_push_prose(out, s.subrange(ps, at))) == s.take(at),
{
    lemma_text_push_prose(out, s.subrange(ps, at));
    assert(s.take(ps) + s.subrange(ps, at) =~= s.take(at));
}

/// A split command whose editable part the scan keeps whole.
proof fn lemma_text_split(
    s: Seq<char>,
    out: Seq<SpecPiece>,
    at: int,
    a: int,
    b: int,
    e: int,
    inner: Seq<SpecPiece>,
)
    requires
        0 <= at <= a <= b <= e <= s.len(),
        pieces_text(out) == s.take(at),
        pieces_text(inner) == s.subrange(a, b),
    ensures
        pieces_text(out + wrapped(s, at, a, b, e, inner)) == s.take(e),
{
    lemma_text_concat(out, wrapped(s, at, a, b, e, inner));
    lemma_text_wrapped(s, at, a, b, e, inner);
    assert(s.take(at) + (s.subrange(at, a) + s.subrange(a, b) + s.subrange(b, e)) =~= s.take(e));
}

// ---------------------------------------------------------------------------
// The proof, step by step as the scan goes
// ---------------------------------------------------------------------------

proof fn lemma_scan_from(s: Seq<char>, at: int, ps: int, in_body: bool, out: Seq<SpecPiece>)
    requires
        0 <= ps <= at <= s.len(),
        pieces_text(out) == s.take(ps),
    ensures
        scan_from(s, at, ps, in_body, out) matches Ok(r) ==> pieces_text(r) == s,
    decreases s.len(), s.len() - at, 3int,
{
    if at >= s.len() {
        if in_body {
            lemma_text_prose(s, out, ps, s.len() as int);
        } else if ps < s.len() {
            lemma_text_extends(
                s,
                out,
                ps,
                s.len() as int,
                protected(PlaceholderKind::Preamble, s.subrange(ps, s.len() as int)),
            );
        }
        assert(s.take(s.len() as int) =~= s);
    } else if !in_body {
        lemma_preamble_step(s, at, ps, out);
    } else {
        lemma_body_step(s, at, ps, out);
    }
}

proof fn lemma_preamble_step(s: Seq<char>, at: int, ps: int, out: Seq<SpecPiece>)
    requires
        0 <= ps <= at < s.len(),
        pieces_text(out) == s.take(ps),
    ensures
        scan_preamble_step(s, at, ps, out) matches Ok(r) ==> pieces_text(r) == s,
    decreases s.len(), s.len() - at, 2int,
{
    if starts_at(s, at, "\\title"@) || starts_at(s, at, "\\subtitle"@) {
        let out1 = out.push(protected(PlaceholderKind::Preamble, s.subrange(ps, at)));
        lemma_text_extends(s, out, ps, at, protected(PlaceholderKind::Preamble, s.subrange(ps, at)));
        match text_argument_spans(s, at, title_commands()) {
            Err(_) => {},
            Ok(Some((a, b, e))) => {
                lemma_text_argument_spans(s, at, title_commands());
                match spec_scan(s.subrange(a, b)) {
                    Err(_) => {},
                    Ok(inner) => {
                        lemma_scan(s.subrange(a, b));
                        lemma_text_split(s, out1, at, a, b, e, inner);
                        lemma_scan_from(s, e, e, false, out1 + wrapped(s, at, a, b, e, inner));
                    },
                }
            },
            Ok(None) => {
                lemma_document_start(s, at, at, out1);
            },
        }
    } else {
        lemma_document_start(s, at, ps, out);
    }
}

proof fn lemma_document_start(s: Seq<char>, at: int, ps: int, out: Seq<SpecPiece>)
    requires
        0 <= at < s.len(),
        0 <= ps <= at,
        pieces_text(out) == s.take(ps) || (pieces_text(out) == s.take(at) && ps == at),
    ensures
        scan_document_start(s, at, ps, out) matches Ok(r) ==> pieces_text(r) == s,
    decreases s.len(), s.len() - at, 1int,
{
    if starts_at(s, at, "\\begin{document}"@) {
        let p = protected(PlaceholderKind::Preamble, s.subrange(ps, at));
        let out1 = out.push(p);
        lemma_text_extends(s, out, ps, at, p);
        match spec_command_end(s, at) {
            Err(_) => {},
            Ok(end) => {
                lemma_command_end(s, at);
                lemma_text_extends(s, out1, at, end, command(s.subrange(at, end)));
                lemma_scan_from(s, end, end, true, out1.push(command(s.subrange(at, end))));
            },
        }
    } else {
        lemma_scan_from(s, at + 1, ps, false, out);
    }
}

proof fn lemma_body_step(s: Seq<char>, at: int, ps: int, out: Seq<SpecPiece>)
    requires
        0 <= ps <= at < s.len(),
        pieces_text(out) == s.take(ps),
    ensures
        scan_body_step(s, at, ps, out) matches Ok(r) ==> pieces_text(r) == s,
    decreases s.len(), s.len() - at, 2int,
{
    let prose = s.subrange(ps, at);
    let c = s[at];
    lemma_text_prose(s, out, ps, at);
    let before = spec_push_prose(out, prose);
    if starts_at(s, at, "\\end{document}"@) {
        lemma_text_extends(s, before, at, s.len() as int, command(s.subrange(at, s.len() as int)));
        assert(s.take(s.len() as int) =~= s);
    } else if c == '%' && !is_escaped(s, at) {
        let end = match find_from(s, at, "\n"@) {
            Some(n) => n,
            None => s.len() as int,
        };
        lemma_find_from_bounds(s, at, "\n"@);
        reveal_strlit("\n");
        if let Some(n) = find_from(s, at, "\n"@) {
            lemma_starts_at(s, n, "\n"@);
        }
        let p = protected(PlaceholderKind::Comment, s.subrange(at, end));
        lemma_text_extends(s, before, at, end, p);
        lemma_scan_from(s, end, end, true, before.push(p));
    } else if c == '$' && !is_escaped(s, at) {
        let display = starts_at(s, at, "$$"@);
        let from = at + if display { 2int } else { 1int };
        let delim = if display { "$$"@ } else { "$"@ };
        match unescaped_from(s, from, delim) {
            None => {},
            Some(q) => {
                lemma_unescaped_from(s, from, delim);
                let end = q + delim.len();
                let p = protected(PlaceholderKind::Math, s.subrange(at, end));
                lemma_text_extends(s, before, at, end, p);
                lemma_scan_from(s, end, end, true, before.push(p));
            },
        }
    } else if starts_at(s, at, "\\("@) || starts_at(s, at, "\\["@) {
        let closing = if starts_at(s, at, "\\("@) { "\\)"@ } else { "\\]"@ };
        match find_from(s, at + 2, closing) {
            None => {},
            Some(n) => {
                lemma_find_from_bounds(s, at + 2, closing);
                reveal_strlit("\\)");
                reveal_strlit("\\]");
                let end = n + 2;
                let p = protected(PlaceholderKind::Math, s.subrange(at, end));
                lemma_text_extends(s, before, at, end, p);
                lemma_scan_from(s, end, end, true, before.push(p));
            },
        }
    } else if c == '\\' {
        lemma_backslash(s, at, before);
    } else {
        lemma_scan_from(s, at + 1, ps, true, out);
    }
}

proof fn lemma_backslash(s: Seq<char>, at: int, out: Seq<SpecPiece>)
    requires
        0 <= at < s.len(),
        pieces_text(out) == s.take(at),
    ensures
        scan_backslash(s, at, out) matches Ok(r) ==> pieces_text(r) == s,
    decreases s.len(), s.len() - at, 1int,
{
    match link_spans(s, at) {
        Err(_) => {},
        Ok(Some((a, b, e))) => {
            lemma_link_spans(s, at);
            match spec_scan(s.subrange(a, b)) {
                Err(_) => {},
                Ok(inner) => {
                    lemma_scan(s.subrange(a, b));
                    lemma_text_split(s, out, at, a, b, e, inner);
                    lemma_scan_from(s, e, e, true, out + wrapped(s, at, a, b, e, inner));
                },
            }
        },
        Ok(None) => match text_argument_spans(s, at, text_argument_commands()) {
            Err(_) => {},
            Ok(Some((a, b, e))) => {
                lemma_text_argument_spans(s, at, text_argument_commands());
                match spec_scan(s.subrange(a, b)) {
                    Err(_) => {},
                    Ok(inner) => {
                        lemma_scan(s.subrange(a, b));
                        lemma_text_split(s, out, at, a, b, e, inner);
                        lemma_scan_from(s, e, e, true, out + wrapped(s, at, a, b, e, inner));
                    },
                }
            },
            Ok(None) => {
                lemma_command(s, at, out);
            },
        },
    }
}

proof fn lemma_command(s: Seq<char>, at: int, out: Seq<SpecPiece>)
    requires
        0 <= at < s.len(),
        pieces_text(out) == s.take(at),
    ensures
        scan_command(s, at, out) matches Ok(r) ==> pieces_text(r) == s,
    decreases s.len(), s.len() - at, 0int,
{
    if starts_at(s, at, "\\begin"@) && spec_env_name(s, at) is None {
    } else if starts_at(s, at, "\\begin"@) && opaque_environments().contains(
        spec_env_name(s, at)->0,
    ) {
        let name = spec_env_name(s, at)->0;
        match spec_find_environment_end(s, at, name) {
            Err(_) => {},
            Ok(end) => {
                lemma_find_environment_end(s, at, name);
                let p = protected(PlaceholderKind::Environment, s.subrange(at, end));
                lemma_text_extends(s, out, at, end, p);
                lemma_scan_from(s, end, end, true, out.push(p));
            },
        }
    } else if starts_at(s, at, "\\begin"@) && !text_environments().contains(
        spec_env_name(s, at)->0,
    ) {
    } else {
        match spec_command_end(s, at) {
            Err(_) => {},
            Ok(end) => {
                lemma_command_end(s, at);
                lemma_text_extends(s, out, at, end, command(s.subrange(at, end)));
                lemma_scan_from(s, end, end, true, out.push(command(s.subrange(at, end))));
            },
        }
    }
}

proof fn lemma_scan(s: Seq<char>)
    ensures
        spec_scan(s) matches Ok(r) ==> pieces_text(r) == s,
    decreases s.len(), s.len() + 1, 0int,
{
    if !contains(s, "\\begin{document}"@) && spec_is_standalone_preamble(s) {
        lemma_text_push(Seq::empty(), protected(PlaceholderKind::Preamble, s));
        assert(seq![protected(PlaceholderKind::Preamble, s)] =~= Seq::<SpecPiece>::empty().push(
            protected(PlaceholderKind::Preamble, s),
        ));
        assert(pieces_text(Seq::<SpecPiece>::empty()) + s =~= s);
    } else {
        assert(pieces_text(Seq::<SpecPiece>::empty()) =~= s.take(0));
        lemma_scan_from(s, 0, 0, !contains(s, "\\begin{document}"@), Seq::empty());
    }
}

/// Joined in order, the pieces of a successful scan give back the source.
pub proof fn scan_covers_the_source(s: Seq<char>)
    ensures
        spec_scan(s) matches Ok(ps) ==> pieces_text(ps) == s,
{
    lemma_scan(s);
}

// ---------------------------------------------------------------------------
// Prose pieces are never empty and never side by side
// ---------------------------------------------------------------------------

/// Every prose piece holds text, and no two prose pieces are adjacent.
pub open spec fn prose_well_formed(ps: Seq<SpecPiece>) -> bool {
    forall|i: int|
        0 <= i < ps.len() && (#[trigger] ps[i]) is Prose ==> ps[i]->Prose_0.len() > 0 && (i + 1
            < ps.len() ==> !(ps[i + 1] is Prose))
}

proof fn lemma_well_push_protected(out: Seq<SpecPiece>, p: SpecPiece)
    requires
        prose_well_formed(out),
        p is Protected,
    ensures
        prose_well_formed(out.push(p)),
{
    let r = out.push(p);
    assert forall|i: int| 0 <= i < r.len() && (#[trigger] r[i]) is Prose implies r[i]->Prose_0.len()
        > 0 && (i + 1 < r.len() ==> !(r[i + 1] is Prose)) by {
        assert(r[i] == out[i]);
        if i + 1 < out.len() {
            assert(r[i + 1] == out[i + 1]);
        }
    }
}

proof fn lemma_well_push_prose(out: Seq<SpecPiece>, t: Seq<char>)
    requires
        prose_well_formed(out),
    ensures
        prose_well_formed(spec_push_prose(out, t)),
{
    let r = spec_push_prose(out, t);
    if t.len() == 0 {
    } else if out.len() > 0 && out.last() is Prose {
        assert forall|i: int| 0 <= i < r.len() && (#[trigger] r[i]) is Prose implies r[i]->Prose_0.len()
            > 0 && (i + 1 < r.len() ==> !(r[i + 1] is Prose)) by {
            if i + 1 < r.len() {
                assert(r[i] == out[i]);
                if i + 1 < r.len() - 1 {
                    assert(r[i + 1] == out[i + 1]);
                } else {
                    assert(out[i] is Prose);
                    assert(out[i + 1] == out.last());
                }
            }
        }
    } else {
        assert forall|i: int| 0 <= i < r.len() && (#[trigger] r[i]) is Prose implies r[i]->Prose_0.len()
            > 0 && (i + 1 < r.len() ==> !(r[i + 1] is Prose)) by {
            if i < out.len() {
                assert(r[i] == out[i]);
                if i + 1 < out.len() {
                    assert(r[i + 1] == out[i + 1]);
                } else {
                    assert(out[i] == out.last());
                }
            }
        }
    }
}

proof fn lemma_well_wrapped(
    s: Seq<char>,
    out: Seq<SpecPiece>,
    at: int,
    a: int,
    b: int,
    e: int,
    inner: Seq<SpecPiece>,
)
    requires
        prose_well_formed(out),
        prose_well_formed(inner),
    ensures
        prose_well_formed(out + wrapped(s, at, a, b, e, inner)),
{
    let w = wrapped(s, at, a, b, e, inner);
    let r = out + w;
    let o = out.len();
    assert forall|i: int| 0 <= i < r.len() && (#[trigger] r[i]) is Prose implies r[i]->Prose_0.len()
        > 0 && (i + 1 < r.len() ==> !(r[i + 1] is Prose)) by {
        if i < o {
            assert(r[i] == out[i]);
            if i + 1 < o {
                assert(r[i + 1] == out[i + 1]);
            } else {
                assert(r[i + 1] == w[0]);
            }
        } else {
            assert(r[i] == w[i - o]);
            let j = i - o;
            if j == 0 {
            } else if j <= inner.len() {
                assert(w[j] == inner[j - 1]);
                if j + 1 <= inner.len() {
                    assert(w[j + 1] == inner[j]);
                } else {
                    assert(w[j + 1] == command(s.subrange(b, e)));
                }
                assert(r[i + 1] == w[j + 1]);
            }
        }
    }
}

proof fn lemma_well_scan_from(s: Seq<char>, at: int, ps: int, in_body: bool, out: Seq<SpecPiece>)
    requires
        0 <= ps <= at <= s.len(),
        prose_well_formed(out),
    ensures
        scan_from(s, at, ps, in_body, out) matches Ok(r) ==> prose_well_formed(r),
    decreases s.len(), s.len() - at, 3int,
{
    if at >= s.len() {
        if in_body {
            lemma_well_push_prose(out, s.subrange(ps, s.len() as int));
        } else if ps < s.len() {
            lemma_well_push_protected(
                out,
                protected(PlaceholderKind::Preamble, s.subrange(ps, s.len() as int)),
            );
        }
    } else if !in_body {
        lemma_well_preamble_step(s, at, ps, out);
    } else {
        lemma_well_body_step(s, at, ps, out);
    }
}

proof fn lemma_well_preamble_step(s: Seq<char>, at: int, ps: int, out: Seq<SpecPiece>)
    requires
        0 <= ps <= at < s.len(),
        prose_well_formed(out),
    ensures
        scan_preamble_step(s, at, ps, out) matches Ok(r) ==> prose_well_formed(r),
    decreases s.len(), s.len() - at, 2int,
{
    if starts_at(s, at, "\\title"@) || starts_at(s, at, "\\subtitle"@) {
        let out1 = out.push(protected(PlaceholderKind::Preamble, s.subrange(ps, at)));
        lemma_well_push_protected(out, protected(PlaceholderKind::Preamble, s.subrange(ps, at)));
        match text_argument_spans(s, at, title_commands()) {
            Err(_) => {},
            Ok(Some((a, b, e))) => {
                lemma_text_argument_spans(s, at, title_commands());
                match spec_scan(s.subrange(a, b)) {
                    Err(_) => {},
                    Ok(inner) => {
                        lemma_well_scan(s.subrange(a, b));
                        lemma_well_wrapped(s, out1, at, a, b, e, inner);
                        lemma_well_scan_from(s, e, e, false, out1 + wrapped(s, at, a, b, e, inner));
                    },
                }
            },
            Ok(None) => {
                lemma_well_document_start(s, at, at, out1);
            },
        }
    } else {
        lemma_well_document_start(s, at, ps, out);
    }
}

proof fn lemma_well_document_start(s: Seq<char>, at: int, ps: int, out: Seq<SpecPiece>)
    requires
        0 <= ps <= at < s.len(),
        prose_well_formed(out),
    ensures
        scan_document_start(s, at, ps, out) matches Ok(r) ==> prose_well_formed(r),
    decreases s.len(), s.len() - at, 1int,
{
    if starts_at(s, at, "\\begin{document}"@) {
        let p = protected(PlaceholderKind::Preamble, s.subrange(ps, at));
        let out1 = out.push(p);
        lemma_well_push_protected(out, p);
        match spec_command_end(s, at) {
            Err(_) => {},
            Ok(end) => {
                lemma_command_end(s, at);
                lemma_well_push_protected(out1, command(s.subrange(at, end)));
                lemma_well_scan_from(s, end, end, true, out1.push(command(s.subrange(at, end))));
            },
        }
    } else {
        lemma_well_scan_from(s, at + 1, ps, false, out);
    }
}

proof fn lemma_well_body_step(s: Seq<char>, at: int, ps: int, out: Seq<SpecPiece>)
    requires
        0 <= ps <= at < s.len(),
        prose_well_formed(out),
    ensures
        scan_body_step(s, at, ps, out) matches Ok(r) ==> prose_well_formed(r),
    decreases s.len(), s.len() - at, 2int,
{
    let prose = s.subrange(ps, at);
    let c = s[at];
    lemma_well_push_prose(out, prose);
    let before = spec_push_prose(out, prose);
    if starts_at(s, at, "\\end{document}"@) {
        lemma_well_push_protected(before, command(s.subrange(at, s.len() as int)));
    } else if c == '%' && !is_escaped(s, at) {
        let end = match find_from(s, at, "\n"@) {
            Some(n) => n,
            None => s.len() as int,
        };
        lemma_find_from_bounds(s, at, "\n"@);
        reveal_strlit("\n");
        if let Some(n) = find_from(s, at, "\n"@) {
            lemma_starts_at(s, n, "\n"@);
        }
        let p = protected(PlaceholderKind::Comment, s.subrange(at, end));
        lemma_well_push_protected(before, p);
        lemma_well_scan_from(s, end, end, true, before.push(p));
    } else if c == '$' && !is_escaped(s, at) {
        let display = starts_at(s, at, "$$"@);
        let from = at + if display { 2int } else { 1int };
        let delim = if display { "$$"@ } else { "$"@ };
        match unescaped_from(s, from, delim) {
            None => {},
            Some(q) => {
                lemma_unescaped_from(s, from, delim);
                let end = q + delim.len();
                let p = protected(PlaceholderKind::Math, s.subrange(at, end));
                lemma_well_push_protected(before, p);
                lemma_well_scan_from(s, end, end, true, before.push(p));
            },
        }
    } else if starts_at(s, at, "\\("@) || starts_at(s, at, "\\["@) {
        let closing = if starts_at(s, at, "\\("@) { "\\)"@ } else { "\\]"@ };
        match find_from(s, at + 2, closing) {
            None => {},
            Some(n) => {
                lemma_find_from_bounds(s, at + 2, closing);
                reveal_strlit("\\)");
                reveal_strlit("\\]");
                let end = n + 2;
                let p = protected(PlaceholderKind::Math, s.subrange(at, end));
                lemma_well_push_protected(before, p);
                lemma_well_scan_from(s, end, end, true, before.push(p));
            },
        }
    } else if c == '\\' {
        lemma_well_backslash(s, at, before);
    } else {
        lemma_well_scan_from(s, at + 1, ps, true, out);
    }
}

proof fn lemma_well_backslash(s: Seq<char>, at: int, out: Seq<SpecPiece>)
    requires
        0 <= at < s.len(),
        prose_well_formed(out),
    ensures
        scan_backslash(s, at, out) matches Ok(r) ==> prose_well_formed(r),
    decreases s.len(), s.len() - at, 1int,
{
    match link_spans(s, at) {
        Err(_) => {},
        Ok(Some((a, b, e))) => {
            lemma_link_spans(s, at);
            match spec_scan(s.subrange(a, b)) {
                Err(_) => {},
                Ok(inner) => {
                    lemma_well_scan(s.subrange(a, b));
                    lemma_well_wrapped(s, out, at, a, b, e, inner);
                    lemma_well_scan_from(s, e, e, true, out + wrapped(s, at, a, b, e, inner));
                },
            }
        },
        Ok(None) => match text_argument_spans(s, at, text_argument_commands()) {
            Err(_) => {},
            Ok(Some((a, b, e))) => {
                lemma_text_argument_spans(s, at, text_argument_commands());
                match spec_scan(s.subrange(a, b)) {
                    Err(_) => {},
                    Ok(inner) => {
                        lemma_well_scan(s.subrange(a, b));
                        lemma_well_wrapped(s, out, at, a, b, e, inner);
                        lemma_well_scan_from(s, e, e, true, out + wrapped(s, at, a, b, e, inner));
                    },
                }
            },
            Ok(None) => {
                lemma_well_command(s, at, out);
            },
        },
    }
}

proof fn lemma_well_command(s: Seq<char>, at: int, out: Seq<SpecPiece>)
    requires
        0 <= at < s.len(),
        prose_well_formed(out),
    ensures
        scan_command(s, at, out) matches Ok(r) ==> prose_well_formed(r),
    decreases s.len(), s.len() - at, 0int,
{
    if starts_at(s, at, "\\begin"@) && spec_env_name(s, at) is None {
    } else if starts_at(s, at, "\\begin"@) && opaque_environments().contains(
        spec_env_name(s, at)->0,
    ) {
        let name = spec_env_name(s, at)->0;
        match spec_find_environment_end(s, at, name) {
            Err(_) => {},
            Ok(end) => {
                lemma_find_environment_end(s, at, name);
                let p = protected(PlaceholderKind::Environment, s.subrange(at, end));
                lemma_well_push_protected(out, p);
                lemma_well_scan_from(s, end, end, true, out.push(p));
            },
        }
    } else if starts_at(s, at, "\\begin"@) && !text_environments().contains(
        spec_env_name(s, at)->0,
    ) {
    } else {
        match spec_command_end(s, at) {
            Err(_) => {},
            Ok(end) => {
                lemma_command_end(s, at);
                lemma_well_push_protected(out, command(s.subrange(at, end)));
                lemma_well_scan_from(s, end, end, true, out.push(command(s.subrange(at, end))));
            },
        }
    }
}

proof fn lemma_well_scan(s: Seq<char>)
    ensures
        spec_scan(s) matches Ok(r) ==> prose_well_formed(r),
    decreases s.len(), s.len() + 1, 0int,
{
    if !contains(s, "\\begin{document}"@) && spec_is_standalone_preamble(s) {
        lemma_well_push_protected(Seq::empty(), protected(PlaceholderKind::Preamble, s));
        assert(seq![protected(PlaceholderKind::Preamble, s)] =~= Seq::<SpecPiece>::empty().push(
            protected(PlaceholderKind::Preamble, s),
        ));
    } else {
        lemma_well_scan_from(s, 0, 0, !contains(s, "\\begin{document}"@), Seq::empty());
    }
}

/// The scan never yields an empty prose piece, nor two prose pieces side
/// by side: prose between protected pieces comes out as one piece.
pub proof fn scan_prose_is_whole(s: Seq<char>)
    ensures
        spec_scan(s) matches Ok(ps) ==> prose_well_formed(ps),
{
    lemma_well_scan(s);
}

} // verus!

verus! {

// ---------------------------------------------------------------------------
// Formatting commands keep their words editable
// ---------------------------------------------------------------------------

/// Text with none of the characters that start LaTeX syntax or end an
/// argument: no backslash, brace, dollar or percent sign.
pub open spec fn plain_prose(b: Seq<char>) -> bool {
    forall|i: int|
        0 <= i < b.len() ==> #[trigger] b[i] != '\\' && b[i] != '{' && b[i] != '}' && b[i] != '$'
            && b[i] != '%'
}

proof fn lemma_plain_scan_from(b: Seq<char>, at: int)
    requires
        plain_prose(b),
        b.len() > 0,
        0 <= at <= b.len(),
    ensures
        scan_from(b, at, 0, true, Seq::empty()) == Ok::<Seq<SpecPiece>, SpecScanError>(
            seq![SpecPiece::Prose(b)],
        ),
    decreases b.len() - at,
{
    if at >= b.len() {
        assert(b.subrange(0, b.len() as int) =~= b);
        assert(spec_push_prose(Seq::empty(), b) =~= seq![SpecPiece::Prose(b)]);
    } else {
        let c = b[at];
        assert(c != '\\' && c != '{' && c != '}' && c != '$' && c != '%');
        reveal_strlit("\\end{document}");
        reveal_strlit("\\(");
        reveal_strlit("\\[");
        assert(!starts_at(b, at, "\\end{document}"@)) by {
            if starts_at(b, at, "\\end{document}"@) {
                assert(b.subrange(at, at + 14)[0] == b[at]);
            }
        }
        assert(!starts_at(b, at, "\\("@)) by {
            if starts_at(b, at, "\\("@) {
                assert(b.subrange(at, at + 2)[0] == b[at]);
            }
        }
        assert(!starts_at(b, at, "\\["@)) by {
            if starts_at(b, at, "\\["@) {
                assert(b.subrange(at, at + 2)[0] == b[at]);
            }
        }
        lemma_plain_scan_from(b, at + 1);
    }
}

proof fn lemma_no_backslash_literal(s: Seq<char>, lit: Seq<char>)
    requires
        forall|i: int| 0 <= i < s.len() ==> #[trigger] s[i] != '\\',
        lit.len() > 0,
        lit[0] == '\\',
    ensures
        !contains(s, lit),
{
    lemma_find_from_bounds(s, 0, lit);
    if let Some(p) = find_from(s, 0, lit) {
        assert(s.subrange(p, p + lit.len())[0] == s[p]);
    }
}

proof fn lemma_first_line_plain(s: Seq<char>, at: int)
    requires
        forall|i: int| 0 <= i < s.len() ==> #[trigger] s[i] != '\\',
    ensures
        first_content_line(s, at) matches Some(t) ==> t.len() > 0 && t[0] != '\\',
    decreases s.len() + 1 - at,
{
    if 0 <= at <= s.len() {
        reveal_strlit("\n");
        lemma_find_from_bounds(s, at, "\n"@);
        let e = match find_from(s, at, "\n"@) {
            Some(p) => p,
            None => s.len() as int,
        };
        let line = s.subrange(at, e);
        lemma_skip_ws(line, 0);
        let t = line.subrange(skip_ws(line, 0), line.len() as int);
        if t.len() > 0 && t[0] != '%' {
            assert(t[0] == s[at + skip_ws(line, 0)]);
        } else if e < s.len() {
            lemma_first_line_plain(s, e + 1);
        }
    }
}

/// Plain text scans as one prose piece.
proof fn lemma_plain_scan(b: Seq<char>)
    requires
        plain_prose(b),
        b.len() > 0,
    ensures
        spec_scan(b) == Ok::<Seq<SpecPiece>, SpecScanError>(seq![SpecPiece::Prose(b)]),
{
    reveal_strlit("\\begin{document}");
    assert forall|i: int| 0 <= i < b.len() implies #[trigger] b[i] != '\\' by {
        assert(b[i] != '\\' && b[i] != '{');
    }
    lemma_no_backslash_literal(b, "\\begin{document}"@);
    lemma_first_line_plain(b, 0);
    if let Some(line) = first_content_line(b, 0) {
        assert forall|i: int| 0 <= i < preamble_prefixes().len() implies !starts_at(
            line,
            0,
            #[trigger] preamble_prefixes()[i],
        ) by {
            reveal_strlit("\\documentclass");
            reveal_strlit("\\usepackage");
            reveal_strlit("\\newcommand");
            reveal_strlit("\\renewcommand");
            reveal_strlit("\\def");
            reveal_strlit("\\input");
            reveal_strlit("\\RequirePackage");
            let p = preamble_prefixes()[i];
            assert(p[0] == '\\');
            if starts_at(line, 0, p) {
                assert(line.subrange(0, p.len() as int)[0] == line[0]);
            }
        }
    }
    lemma_plain_scan_from(b, 0);
}

/// The formatting commands whose argument stays editable prose.
pub open spec fn formatting_commands() -> Seq<Seq<char>> {
    seq![
        "emph"@, "textbf"@, "textit"@, "textrm"@, "textsf"@, "texttt"@, "textsc"@,
        "textnormal"@, "text"@, "choice"@, "wordChoice"@, "outcome"@, "section"@,
        "subsection"@, "subsubsection"@, "paragraph"@,
    ]
}

/// The shape of a command name the law below relies on: letters only, and
/// unlike the names the scan treats otherwise (`\begin`, `\end`, `\link`,
/// `\href`, and the preamble's commands).
pub open spec fn ordinary_name(n: Seq<char>) -> bool {
    &&& n.len() > 0
    &&& n.len() != 3
    &&& forall|j: int| 0 <= j < n.len() ==> is_alpha(#[trigger] n[j])
    &&& n[0] != 'b' && n[0] != 'l' && n[0] != 'h' && n[0] != 'd' && n[0] != 'u'
    &&& n[0] != 'n' && n[0] != 'r' && n[0] != 'i' && n[0] != 'R'
}

proof fn lemma_formatting_names()
    ensures
        formatting_commands() == text_argument_commands(),
        forall|k: int|
            0 <= k < formatting_commands().len() ==> ordinary_name(#[trigger] formatting_commands()[k]),
{
    reveal_strlit("emph");
    reveal_strlit("textbf");
    reveal_strlit("textit");
    reveal_strlit("textrm");
    reveal_strlit("textsf");
    reveal_strlit("texttt");
    reveal_strlit("textsc");
    reveal_strlit("textnormal");
    reveal_strlit("text");
    reveal_strlit("choice");
    reveal_strlit("wordChoice");
    reveal_strlit("outcome");
    reveal_strlit("section");
    reveal_strlit("subsection");
    reveal_strlit("subsubsection");
    reveal_strlit("paragraph");
    assert(formatting_commands() =~= text_argument_commands());
    assert forall|k: int| 0 <= k < formatting_commands().len() implies ordinary_name(
        #[trigger] formatting_commands()[k],
    ) by {
        let n = formatting_commands()[k];
        assert forall|j: int| 0 <= j < n.len() implies is_alpha(#[trigger] n[j]) by {}
    }
}

/// The source of a formatting command with its argument.
#[verifier::opaque]
pub open spec fn formatted(name: Seq<char>, b: Seq<char>) -> Seq<char> {
    seq!['\\'] + name + seq!['{'] + b + seq!['}']
}

proof fn lemma_head_mismatch(s: Seq<char>, name: Seq<char>, w: Seq<char>, c: char, rest: Seq<char>)
    requires
        s.len() >= name.len() + 2,
        s[0] == '\\',
        forall|k: int| 0 <= k < name.len() ==> s[k + 1] == #[trigger] name[k],
        s[name.len() + 1int] == '{',
        forall|k: int| 0 <= k < name.len() ==> is_alpha(#[trigger] name[k]),
        forall|k: int| 0 <= k < w.len() ==> is_alpha(#[trigger] w[k]),
        !is_alpha(c),
        name != w,
    ensures
        !starts_at(s, 0, seq!['\\'] + w + seq![c] + rest),
{
    let lit = seq!['\\'] + w + seq![c] + rest;
    if starts_at(s, 0, lit) {
        let sub = s.subrange(0, lit.len() as int);
        assert(sub == lit);
        if name.len() > w.len() {
            let j: int = w.len() + 1int;
            assert(lit[j] == c);
            assert(sub[j] == s[j]);
            assert(s[j] == name[w.len() as int]);
        } else if name.len() < w.len() {
            let j: int = name.len() + 1int;
            assert(lit[j] == w[name.len() as int]);
            assert(sub[j] == s[j]);
        } else {
            assert(exists|k: int| 0 <= k < name.len() && name[k] != w[k]) by {
                if forall|k: int| 0 <= k < name.len() ==> name[k] == w[k] {
                    assert(name =~= w);
                }
            }
            let k = choose|k: int| 0 <= k < name.len() && name[k] != w[k];
            assert(lit[k + 1] == w[k]);
            assert(sub[k + 1] == s[k + 1]);
        }
    }
}

proof fn lemma_formatted_shape(name: Seq<char>, b: Seq<char>)
    ensures
        ({
            let s = formatted(name, b);
            let n = name.len() as int;
            &&& s.len() == n + b.len() + 3
            &&& s[0] == '\\'
            &&& forall|k: int| 0 <= k < n ==> s[k + 1] == #[trigger] name[k]
            &&& s[n + 1] == '{'
            &&& forall|k: int| 0 <= k < b.len() ==> s[n + 2 + k] == #[trigger] b[k]
            &&& s[s.len() - 1] == '}'
            &&& s.subrange(n + 2, s.len() - 1) == b
            &&& s.subrange(0, n + 2) == seq!['\\'] + name + seq!['{']
            &&& s.subrange(s.len() - 1, s.len() as int) == seq!['}']
        }),
{
    reveal(formatted);
    let s = formatted(name, b);
    let n = name.len() as int;
    assert(s.subrange(n + 2, s.len() - 1) =~= b);
    assert(s.subrange(0, n + 2) =~= seq!['\\'] + name + seq!['{']);
    assert(s.subrange(s.len() - 1, s.len() as int) =~= seq!['}']);
}

/// Only the command's own name matches at its backslash.
proof fn lemma_only_name_matches(s: Seq<char>, name: Seq<char>, c: Seq<char>)
    requires
        s.len() >= name.len() + 2,
        s[0] == '\\',
        forall|k: int| 0 <= k < name.len() ==> s[k + 1] == #[trigger] name[k],
        s[name.len() + 1int] == '{',
        forall|k: int| 0 <= k < name.len() ==> is_alpha(#[trigger] name[k]),
        forall|k: int| 0 <= k < c.len() ==> is_alpha(#[trigger] c[k]),
    ensures
        (starts_at(s, 0, seq!['\\'] + c) && !(1int + c.len() < s.len() && (is_alpha(s[1int + c.len()])
            || s[1int + c.len()] == '@'))) <==> c == name,
{
    let lit = seq!['\\'] + c;
    if c == name {
        assert(s.subrange(0, lit.len() as int) =~= lit);
    } else if starts_at(s, 0, lit) {
        let sub = s.subrange(0, lit.len() as int);
        assert(sub == lit);
        if c.len() > name.len() {
            let j: int = name.len() + 1int;
            assert(lit[j] == c[name.len() as int]);
            assert(sub[j] == s[j]);
        } else if c.len() < name.len() {
            let j: int = c.len() + 1int;
            assert(s[j] == name[c.len() as int]);
        } else {
            assert(exists|k: int| 0 <= k < name.len() && name[k] != c[k]) by {
                if forall|k: int| 0 <= k < name.len() ==> name[k] == c[k] {
                    assert(name =~= c);
                }
            }
            let k = choose|k: int| 0 <= k < name.len() && name[k] != c[k];
            assert(lit[k + 1] == c[k]);
            assert(sub[k + 1] == s[k + 1]);
        }
    }
}

pub open spec fn letters_only(n: Seq<char>) -> bool {
    forall|k: int| 0 <= k < n.len() ==> is_alpha(#[trigger] n[k])
}

proof fn lemma_matching_name(s: Seq<char>, name: Seq<char>, cmds: Seq<Seq<char>>)
    requires
        s.len() >= name.len() + 2,
        s[0] == '\\',
        forall|k: int| 0 <= k < name.len() ==> s[k + 1] == #[trigger] name[k],
        s[name.len() + 1int] == '{',
        forall|k: int| 0 <= k < name.len() ==> is_alpha(#[trigger] name[k]),
        forall|i: int| 0 <= i < cmds.len() ==> letters_only(#[trigger] cmds[i]),
        cmds.contains(name),
    ensures
        matching_command(s, 0, cmds) == Some(name),
    decreases cmds.len(),
{
    let c = cmds[0];
    assert(letters_only(c));
    lemma_only_name_matches(s, name, c);
    if c != name {
        let j = choose|j: int| 0 <= j < cmds.len() && cmds[j] == name;
        assert(cmds.drop_first()[j - 1] == name);
        assert forall|i: int| 0 <= i < cmds.drop_first().len() implies letters_only(
            #[trigger] cmds.drop_first()[i],
        ) by {
            assert(cmds.drop_first()[i] == cmds[i + 1]);
        }
        lemma_matching_name(s, name, cmds.drop_first());
    }
}

proof fn lemma_argument_closes(s: Seq<char>, from: int, at: int)
    requires
        1 <= from <= at < s.len(),
        s[s.len() - 1] == '}',
        forall|i: int| from <= i < s.len() - 1 ==> #[trigger] s[i] != '{' && s[i] != '}',
        forall|i: int| from - 1 <= i < s.len() ==> #[trigger] s[i] != '\\',
    ensures
        balanced_from(s, at, 1, '{', '}') == Some(s.len() as int),
    decreases s.len() - at,
{
    assert(backslash_run(s, at) == 0) by {
        assert(s[at - 1] != '\\');
    }
    if at < s.len() - 1 {
        lemma_argument_closes(s, from, at + 1);
    }
}

proof fn lemma_backslash_first(name: Seq<char>, b: Seq<char>)
    requires
        ordinary_name(name),
        plain_prose(b),
    ensures
        forall|i: int| 1 <= i < formatted(name, b).len() ==> #[trigger] formatted(name, b)[i] != '\\',
        formatted(name, b)[1] == name[0],
        is_alpha(name[0]),
{
    let s = formatted(name, b);
    let n = name.len() as int;
    lemma_formatted_shape(name, b);
    assert forall|i: int| 1 <= i < s.len() implies #[trigger] s[i] != '\\' by {
        if i <= n {
            assert(s[(i - 1) + 1] == name[i - 1]);
            assert(is_alpha(name[i - 1]));
        } else if i == n + 1 {
        } else if i < s.len() - 1 {
            assert(s[n + 2 + (i - n - 2)] == b[i - n - 2]);
        }
    }
    assert(s[0int + 1] == name[0]);
}

proof fn lemma_formatted_in_body(name: Seq<char>, b: Seq<char>)
    requires
        ordinary_name(name),
        plain_prose(b),
    ensures
        !contains(formatted(name, b), "\\begin{document}"@),
        !spec_is_standalone_preamble(formatted(name, b)),
{
    let s = formatted(name, b);
    lemma_formatted_shape(name, b);
    lemma_backslash_first(name, b);
    let doc = "\\begin{document}"@;
    reveal_strlit("\\begin{document}");
    lemma_find_from_bounds(s, 0, doc);
    if let Some(p) = find_from(s, 0, doc) {
        assert(s.subrange(p, p + 16)[0] == s[p]);
        assert(s.subrange(p, p + 16)[1] == s[p + 1]);
    }
    reveal_strlit("\n");
    lemma_find_from_bounds(s, 0, "\n"@);
    let e = match find_from(s, 0, "\n"@) {
        Some(p) => p,
        None => s.len() as int,
    };
    if let Some(p) = find_from(s, 0, "\n"@) {
        assert(s.subrange(p, p + 1)[0] == s[p]);
        assert(p != 0 && p != 1);
    }
    let line = s.subrange(0, e);
    assert(line[0] == '\\');
    assert(skip_ws(line, 0) == 0);
    assert(line.subrange(0, line.len() as int) =~= line);
    assert(first_content_line(s, 0) == Some(line));
    assert(line[1] == name[0]);
    assert forall|i: int| 0 <= i < preamble_prefixes().len() implies !starts_at(
        line,
        0,
        #[trigger] preamble_prefixes()[i],
    ) by {
        reveal_strlit("\\documentclass");
        reveal_strlit("\\usepackage");
        reveal_strlit("\\newcommand");
        reveal_strlit("\\renewcommand");
        reveal_strlit("\\def");
        reveal_strlit("\\input");
        reveal_strlit("\\RequirePackage");
        let q = preamble_prefixes()[i];
        if starts_at(line, 0, q) {
            assert(line.subrange(0, q.len() as int)[1] == line[1]);
        }
    }
}

proof fn lemma_formatted_head(name: Seq<char>, b: Seq<char>)
    requires
        ordinary_name(name),
        plain_prose(b),
    ensures
        formatted(name, b)[0] == '\\',
        !starts_at(formatted(name, b), 0, "\\end{document}"@),
        !starts_at(formatted(name, b), 0, "\\("@),
        !starts_at(formatted(name, b), 0, "\\["@),
        !starts_at(formatted(name, b), 0, "\\link["@),
        !starts_at(formatted(name, b), 0, "\\href{"@),
{
    let s = formatted(name, b);
    lemma_formatted_shape(name, b);
    lemma_backslash_first(name, b);
    reveal_strlit("end");
    reveal_strlit("document}");
    reveal_strlit("\\end{document}");
    assert("\\end{document}"@ =~= seq!['\\'] + "end"@ + seq!['{'] + "document}"@);
    assert forall|k: int| 0 <= k < "end"@.len() implies is_alpha(#[trigger] "end"@[k]) by {}
    assert(name != "end"@);
    lemma_head_mismatch(s, name, "end"@, '{', "document}"@);
    reveal_strlit("\\(");
    reveal_strlit("\\[");
    reveal_strlit("\\link[");
    reveal_strlit("\\href{");
    if starts_at(s, 0, "\\("@) {
        assert(s.subrange(0, 2)[1] == s[1]);
    }
    if starts_at(s, 0, "\\["@) {
        assert(s.subrange(0, 2)[1] == s[1]);
    }
    if starts_at(s, 0, "\\link["@) {
        assert(s.subrange(0, 6)[1] == s[1]);
    }
    if starts_at(s, 0, "\\href{"@) {
        assert(s.subrange(0, 6)[1] == s[1]);
    }
}

proof fn lemma_backslash_step(s: Seq<char>)
    requires
        s.len() > 0,
        s[0] == '\\',
        !starts_at(s, 0, "\\end{document}"@),
        !starts_at(s, 0, "\\("@),
        !starts_at(s, 0, "\\["@),
    ensures
        scan_body_step(s, 0, 0, Seq::empty()) == scan_backslash(s, 0, Seq::empty()),
{
    assert(s.subrange(0, 0) =~= Seq::<char>::empty());
    assert(spec_push_prose(Seq::empty(), s.subrange(0, 0)) == Seq::<SpecPiece>::empty());
}

proof fn lemma_no_link(s: Seq<char>)
    requires
        !starts_at(s, 0, "\\link["@),
        !starts_at(s, 0, "\\href{"@),
    ensures
        link_spans(s, 0) == Ok::<Option<(int, int, int)>, SpecScanError>(None),
{
}

proof fn lemma_formatted_spans(name: Seq<char>, b: Seq<char>)
    requires
        formatting_commands().contains(name),
        plain_prose(b),
        b.len() > 0,
    ensures
        text_argument_spans(formatted(name, b), 0, text_argument_commands()) == Ok::<
            Option<(int, int, int)>,
            SpecScanError,
        >(Some((name.len() + 2int, formatted(name, b).len() - 1, formatted(name, b).len() as int))),
{
    let s = formatted(name, b);
    let n = name.len() as int;
    lemma_formatting_names();
    lemma_formatted_shape(name, b);
    let j = choose|j: int| 0 <= j < formatting_commands().len() && formatting_commands()[j] == name;
    assert(ordinary_name(formatting_commands()[j]));
    lemma_backslash_first(name, b);
    assert forall|i: int| 0 <= i < text_argument_commands().len() implies letters_only(
        #[trigger] text_argument_commands()[i],
    ) by {
        assert(ordinary_name(formatting_commands()[i]));
    }
    assert(text_argument_commands()[j] == name);
    lemma_matching_name(s, name, text_argument_commands());
    let c0 = n + 1;
    reveal_strlit("*");
    reveal_strlit("[");
    reveal_strlit("{");
    if starts_at(s, c0, "*"@) {
        assert(s.subrange(c0, c0 + 1)[0] == s[c0]);
    }
    assert(skip_ws(s, c0) == c0);
    if starts_at(s, c0, "["@) {
        assert(s.subrange(c0, c0 + 1)[0] == s[c0]);
    }
    assert(skip_options(s, c0) == Ok::<int, SpecScanError>(c0));
    assert(s.subrange(c0, c0 + 1) =~= "{"@);
    assert(s[(n - 1) + 1] == name[n - 1]);
    assert(backslash_run(s, c0) == 0);
    assert forall|i: int| c0 + 1 <= i < s.len() - 1 implies #[trigger] s[i] != '{' && s[i] != '}' by {
        assert(s[n + 2 + (i - n - 2)] == b[i - n - 2]);
    }
    lemma_argument_closes(s, c0 + 1, c0 + 1);
    assert(balanced_from(s, c0, 0, '{', '}') == Some(s.len() as int));
}

proof fn lemma_wrapped_tail(s: Seq<char>, out: Seq<SpecPiece>)
    ensures
        scan_from(s, s.len() as int, s.len() as int, true, Seq::empty() + out) == Ok::<
            Seq<SpecPiece>,
            SpecScanError,
        >(out),
{
    assert(s.subrange(s.len() as int, s.len() as int) =~= Seq::<char>::empty());
    assert(Seq::<SpecPiece>::empty() + out =~= out);
}

proof fn lemma_formatting_name_ordinary(name: Seq<char>)
    requires
        formatting_commands().contains(name),
    ensures
        ordinary_name(name),
{
    lemma_formatting_names();
    let j = choose|j: int| 0 <= j < formatting_commands().len() && formatting_commands()[j] == name;
    assert(ordinary_name(formatting_commands()[j]));
}

proof fn lemma_scan_enters_body(s: Seq<char>)
    requires
        s.len() > 0,
        !contains(s, "\\begin{document}"@),
        !spec_is_standalone_preamble(s),
    ensures
        spec_scan(s) == scan_body_step(s, 0, 0, Seq::empty()),
{
    assert(spec_scan(s) == scan_from(s, 0, 0, true, Seq::empty()));
}

proof fn lemma_backslash_wraps(s: Seq<char>, a: int, b: int, e: int, inner: Seq<SpecPiece>)
    requires
        s.len() > 0,
        link_spans(s, 0) == Ok::<Option<(int, int, int)>, SpecScanError>(None),
        text_argument_spans(s, 0, text_argument_commands()) == Ok::<
            Option<(int, int, int)>,
            SpecScanError,
        >(Some((a, b, e))),
        spec_scan(s.subrange(a, b)) == Ok::<Seq<SpecPiece>, SpecScanError>(inner),
    ensures
        scan_backslash(s, 0, Seq::empty()) == scan_from(
            s,
            e,
            e,
            true,
            Seq::empty() + wrapped(s, 0, a, b, e, inner),
        ),
{
}

proof fn lemma_scan_wraps(s: Seq<char>, a: int, b: int, inner: Seq<SpecPiece>)
    requires
        s.len() > 0,
        s[0] == '\\',
        !contains(s, "\\begin{document}"@),
        !spec_is_standalone_preamble(s),
        !starts_at(s, 0, "\\end{document}"@),
        !starts_at(s, 0, "\\("@),
        !starts_at(s, 0, "\\["@),
        link_spans(s, 0) == Ok::<Option<(int, int, int)>, SpecScanError>(None),
        text_argument_spans(s, 0, text_argument_commands()) == Ok::<
            Option<(int, int, int)>,
            SpecScanError,
        >(Some((a, b, s.len() as int))),
        spec_scan(s.subrange(a, b)) == Ok::<Seq<SpecPiece>, SpecScanError>(inner),
    ensures
        spec_scan(s) == Ok::<Seq<SpecPiece>, SpecScanError>(
            wrapped(s, 0, a, b, s.len() as int, inner),
        ),
{
    lemma_scan_enters_body(s);
    lemma_backslash_step(s);
    lemma_backslash_wraps(s, a, b, s.len() as int, inner);
    lemma_wrapped_tail(s, wrapped(s, 0, a, b, s.len() as int, inner));
}

proof fn lemma_formatted_steps(name: Seq<char>, b: Seq<char>)
    requires
        formatting_commands().contains(name),
        plain_prose(b),
        b.len() > 0,
    ensures
        ({
            let s = formatted(name, b);
            &&& s.len() > 0
            &&& s[0] == '\\'
            &&& !contains(s, "\\begin{document}"@)
            &&& !spec_is_standalone_preamble(s)
            &&& !starts_at(s, 0, "\\end{document}"@)
            &&& !starts_at(s, 0, "\\("@)
            &&& !starts_at(s, 0, "\\["@)
            &&& link_spans(s, 0) == Ok::<Option<(int, int, int)>, SpecScanError>(None)
            &&& text_argument_spans(s, 0, text_argument_commands()) == Ok::<
                Option<(int, int, int)>,
                SpecScanError,
            >(Some((name.len() + 2int, s.len() - 1, s.len() as int)))
            &&& spec_scan(s.subrange(name.len() + 2int, s.len() - 1)) == Ok::<
                Seq<SpecPiece>,
                SpecScanError,
            >(seq![SpecPiece::Prose(b)])
        }),
{
    let s = formatted(name, b);
    lemma_formatting_name_ordinary(name);
    lemma_formatted_shape(name, b);
    lemma_formatted_in_body(name, b);
    lemma_formatted_head(name, b);
    lemma_no_link(s);
    lemma_formatted_spans(name, b);
    lemma_plain_scan(b);
}

/// The pieces of a formatting command around plain text: its protected
/// opening, the text as prose, and its protected closing brace.
pub open spec fn formatting_pieces(name: Seq<char>, b: Seq<char>) -> Seq<SpecPiece> {
    seq![command(seq!['\\'] + name + seq!['{']), SpecPiece::Prose(b), command(seq!['}'])]
}

proof fn lemma_wrapped_pieces(name: Seq<char>, b: Seq<char>)
    ensures
        ({
            let s = formatted(name, b);
            wrapped(s, 0, name.len() + 2int, s.len() - 1, s.len() as int, seq![SpecPiece::Prose(b)])
                == formatting_pieces(name, b)
        }),
{
    let s = formatted(name, b);
    let n = name.len() as int;
    lemma_formatted_shape(name, b);
    assert(wrapped(s, 0, n + 2, s.len() - 1, s.len() as int, seq![SpecPiece::Prose(b)]) =~= seq![
        command(seq!['\\'] + name + seq!['{']),
        SpecPiece::Prose(b),
        command(seq!['}']),
    ]);
}

/// A formatting command keeps its words editable: for each command of the
/// formatting list (`\emph`, `\textbf`, ..., `\paragraph`) and any plain text
/// `b`, the scan of `\name{b}` is the protected opening `\name{`, the words of
/// `b` as prose, and the protected closing brace.
pub proof fn formatting_commands_keep_their_text(name: Seq<char>, b: Seq<char>)
    requires
        formatting_commands().contains(name),
        plain_prose(b),
        b.len() > 0,
    ensures
        spec_scan(formatted(name, b)) == Ok::<Seq<SpecPiece>, SpecScanError>(
            formatting_pieces(name, b),
        ),
{
    let s = formatted(name, b);
    lemma_formatted_steps(name, b);
    lemma_scan_wraps(s, name.len() + 2int, s.len() - 1, seq![SpecPiece::Prose(b)]);
    lemma_wrapped_pieces(name, b);
}

} // verus!
