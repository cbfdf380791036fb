//! What the reader needs from a Ximera activity beside its rendering: the
//! title and summary of an activity, the checks made before its source goes
//! to the official compiler, and the handling of the HTML that comes back.
use vstd::prelude::*;
use crate::export::trailing_ws_start;
use crate::digest::{hex_digest, push_bytes, sha256, sha256_digest, spec_hex};
use crate::models::{FileRecord, Placeholder, Segment, SpecPlaceholder, placeholders_view};
use vstd::utf8::{decode_utf8, encode_utf8, valid_utf8};
use crate::parser::segmenter::spec_reconstruct;
use crate::parser::reconstruct;
use crate::text::{
    alphabetic, chars_of, contains, find_from, find_str, find_chars, is_alpha, is_ws,
    lemma_find_from_bounds, lemma_skip_ws, push_range, skip_whitespace, skip_ws, starts_at,
    push_signed_decimal, push_str, signed_decimal, starts_str, string_from, whitespace,
};

verus! {

broadcast use vstd::seq_lib::group_seq_properties;

// ---------------------------------------------------------------------------
// Balanced groups
// ---------------------------------------------------------------------------

/// From `at`, with `depth` groups open, the index just past the `close` that
/// closes the outermost group; `None` where a `close` has nothing to close
/// or the text ends first.
pub open spec fn balanced_end_from(s: Seq<char>, at: int, depth: int, open: char, close: char) -> Option<
    int,
>
    decreases s.len() - at,
{
    if at < 0 || at >= s.len() {
        None
    } else if s[at] == open {
        balanced_end_from(s, at + 1, depth + 1, open, close)
    } else if s[at] == close {
        if depth <= 0 {
            None
        } else if depth == 1 {
            Some(at + 1)
        } else {
            balanced_end_from(s, at + 1, depth - 1, open, close)
        }
    } else {
        balanced_end_from(s, at + 1, depth, open, close)
    }
}

pub open spec fn balanced_end(s: Seq<char>, start: int, open: char, close: char) -> Option<int> {
    balanced_end_from(s, start, 0, open, close)
}

pub proof fn lemma_balanced_end_from(s: Seq<char>, at: int, depth: int, open: char, close: char)
    requires
        0 <= at,
    ensures
        balanced_end_from(s, at, depth, open, close) matches Some(e) ==> at < e <= s.len(),
    decreases s.len() - at,
{
    if at < s.len() {
        lemma_balanced_end_from(s, at + 1, depth + 1, open, close);
        lemma_balanced_end_from(s, at + 1, depth - 1, open, close);
        lemma_balanced_end_from(s, at + 1, depth, open, close);
    }
}

fn balanced_end_exec(s: &[char], start: usize, open: char, close: char) -> (r: Option<usize>)
    requires
        start <= s@.len(),
    ensures
        match r {
            Some(e) => balanced_end(s@, start as int, open, close) == Some(e as int),
            None => balanced_end(s@, start as int, open, close) is None,
        },
{
    let n = s.len();
    let mut depth: usize = 0;
    let mut at = start;
    while at < n
        invariant
            start <= at <= n,
            n == s@.len(),
            depth <= at - start,
            balanced_end(s@, start as int, open, close) == balanced_end_from(
                s@,
                at as int,
                depth as int,
                open,
                close,
            ),
        decreases n - at,
    {
        let c = s[at];
        if c == open {
            depth += 1;
        } else if c == close {
            if depth == 0 {
                return None;
            }
            depth -= 1;
            if depth == 0 {
                return Some(at + 1);
            }
        }
        at += 1;
    }
    None
}

// ---------------------------------------------------------------------------
// Finding a command's argument
// ---------------------------------------------------------------------------

/// The first `\command` from `search` that is not the start of a longer
/// command name and is followed (after blanks and an optional `[...]`) by a
/// braced argument: the character range inside the braces. An unbalanced
/// `[...]` or `{...}` gives `None`.
pub open spec fn command_argument_from(s: Seq<char>, command: Seq<char>, search: int) -> Option<
    (int, int),
>
    decreases s.len() + 1 - search,
{
    let needle = seq!['\\'] + command;
    if search < 0 {
        None
    } else {
        match find_from(s, search, needle) {
            None => None,
            Some(found) => {
                proof {
                    lemma_find_from_bounds(s, search, needle);
                }
                let cursor = found + needle.len();
                if cursor < s.len() && is_alpha(s[cursor]) {
                    command_argument_from(s, command, cursor)
                } else {
                    proof {
                        lemma_skip_ws(s, cursor);
                    }
                    let c1 = skip_ws(s, cursor);
                    let c2 = if c1 < s.len() && s[c1] == '[' {
                        match balanced_end(s, c1, '[', ']') {
                            None => -1,
                            Some(e) => {
                                proof {
                                    lemma_balanced_end_from(s, c1, 0, '[', ']');
                                    lemma_skip_ws(s, e);
                                }
                                skip_ws(s, e)
                            },
                        }
                    } else {
                        c1
                    };
                    if c2 < 0 {
                        None
                    } else if c2 < s.len() && s[c2] == '{' {
                        match balanced_end(s, c2, '{', '}') {
                            None => None,
                            Some(e) => Some((c2 + 1, e - 1)),
                        }
                    } else {
                        command_argument_from(s, command, c2)
                    }
                }
            },
        }
    }
}

proof fn lemma_command_argument_from(s: Seq<char>, command: Seq<char>, search: int)
    requires
        0 <= search,
    ensures
        command_argument_from(s, command, search) matches Some((a, b)) ==> 0 < a <= b < s.len(),
    decreases s.len() + 1 - search,
{
    let needle = seq!['\\'] + command;
    lemma_find_from_bounds(s, search, needle);
    match find_from(s, search, needle) {
        None => {},
        Some(found) => {
            let cursor = found + needle.len();
            if cursor < s.len() && is_alpha(s[cursor]) {
                lemma_command_argument_from(s, command, cursor);
            } else {
                lemma_skip_ws(s, cursor);
                let c1 = skip_ws(s, cursor);
                lemma_balanced_end_from(s, c1, 0, '[', ']');
                if c1 < s.len() && s[c1] == '[' {
                    if let Some(e) = balanced_end(s, c1, '[', ']') {
                        lemma_skip_ws(s, e);
                        let c2 = skip_ws(s, e);
                        lemma_balanced_end_from(s, c2, 0, '{', '}');
                        if !(c2 < s.len() && s[c2] == '{') {
                            lemma_command_argument_from(s, command, c2);
                        } else if let Some(e2) = balanced_end(s, c2, '{', '}') {
                            lemma_closing_brace(s, c2, 0, '{', '}');
                        }
                    }
                } else {
                    lemma_balanced_end_from(s, c1, 0, '{', '}');
                    if !(c1 < s.len() && s[c1] == '{') {
                        lemma_command_argument_from(s, command, c1);
                    } else {
                        lemma_closing_brace(s, c1, 0, '{', '}');
                    }
                }
            }
        },
    }
}

/// A group that opens at `at` closes at least one character later.
proof fn lemma_closing_brace(s: Seq<char>, at: int, depth: int, open: char, close: char)
    requires
        0 <= at < s.len(),
        s[at] == open,
        depth == 0,
        open != close,
    ensures
        balanced_end_from(s, at, depth, open, close) matches Some(e) ==> at + 2 <= e <= s.len(),
{
    lemma_balanced_end_from(s, at + 1, 1, open, close);
}

pub open spec fn command_argument(s: Seq<char>, command: Seq<char>) -> Option<(int, int)> {
    command_argument_from(s, command, 0)
}

fn command_argument_exec(s: &[char], command: &str) -> (r: Option<(usize, usize)>)
    ensures
        match r {
            Some((a, b)) => command_argument(s@, command@) == Some((a as int, b as int)) && a
                <= b <= s@.len(),
            None => command_argument(s@, command@) is None,
        },
{
    let n = s.len();
    let mut needle: Vec<char> = Vec::new();
    needle.push('\\');
    let cv = chars_of(command);
    push_range(&mut needle, &cv, 0, cv.len());
    assert(needle@ =~= seq!['\\'] + command@);
    proof {
        lemma_command_argument_from(s@, command@, 0);
    }
    let mut search: usize = 0;
    loop
        invariant
            search <= n,
            n == s@.len(),
            needle@ == seq!['\\'] + command@,
            command_argument(s@, command@) == command_argument_from(s@, command@, search as int),
        decreases n + 1 - search,
    {
        proof {
            lemma_find_from_bounds(s@, search as int, needle@);
        }
        let found = match find_chars(s, search, &needle) {
            None => return None,
            Some(f) => f,
        };
        let cursor = found + needle.len();
        if cursor < n && alphabetic(s[cursor]) {
            search = cursor;
            continue;
        }
        proof {
            lemma_skip_ws(s@, cursor as int);
        }
        let c1 = skip_whitespace(s, cursor);
        let c2 = if c1 < n && s[c1] == '[' {
            match balanced_end_exec(s, c1, '[', ']') {
                None => return None,
                Some(e) => {
                    proof {
                        lemma_balanced_end_from(s@, c1 as int, 0, '[', ']');
                    }
                    skip_whitespace(s, e)
                },
            }
        } else {
            c1
        };
        if c2 < n && s[c2] == '{' {
            proof {
                lemma_command_argument_from(s@, command@, search as int);
                lemma_closing_brace(s@, c2 as int, 0, '{', '}');
            }
            match balanced_end_exec(s, c2, '{', '}') {
                None => return None,
                Some(e) => return Some((c2 + 1, e - 1)),
            }
        }
        search = c2;
    }
}

// ---------------------------------------------------------------------------
// Environments and prose around tokens
// ---------------------------------------------------------------------------

/// The character range between `\begin{env}` and the `\end{env}` after it.
pub open spec fn environment_body(s: Seq<char>, env: Seq<char>) -> Option<(int, int)> {
    let opening = "\\begin{"@ + env + "}"@;
    let closing = "\\end{"@ + env + "}"@;
    match find_from(s, 0, opening) {
        None => None,
        Some(p) => match find_from(s, p + opening.len(), closing) {
            None => None,
            Some(e) => Some((p + opening.len(), e)),
        },
    }
}

fn environment_body_exec(s: &[char], env: &str) -> (r: Option<(usize, usize)>)
    ensures
        match r {
            Some((a, b)) => environment_body(s@, env@) == Some((a as int, b as int)) && a <= b
                <= s@.len(),
            None => environment_body(s@, env@) is None,
        },
{
    let ev = chars_of(env);
    let mut opening: Vec<char> = Vec::new();
    crate::text::push_str(&mut opening, "\\begin{");
    push_range(&mut opening, &ev, 0, ev.len());
    crate::text::push_str(&mut opening, "}");
    let mut closing: Vec<char> = Vec::new();
    crate::text::push_str(&mut closing, "\\end{");
    push_range(&mut closing, &ev, 0, ev.len());
    crate::text::push_str(&mut closing, "}");
    assert(ev@.subrange(0, ev@.len() as int) =~= ev@);
    assert(opening@ =~= "\\begin{"@ + env@ + "}"@);
    assert(closing@ =~= "\\end{"@ + env@ + "}"@);
    proof {
        lemma_find_from_bounds(s@, 0, opening@);
    }
    match find_chars(s, 0, &opening) {
        None => None,
        Some(p) => {
            assert(starts_at(s@, p as int, opening@));
            let n = s.len();
            assert(p + opening@.len() <= n);
            let start = p + opening.len();
            proof {
                lemma_find_from_bounds(s@, start as int, closing@);
            }
            match find_chars(s, start, &closing) {
                None => None,
                Some(e) => Some((start, e)),
            }
        },
    }
}

/// The translation up to its first token.
pub open spec fn leading_prose(t: Seq<char>) -> Seq<char> {
    match find_from(t, 0, "{{"@) {
        Some(p) => t.take(p),
        None => t,
    }
}

/// The first placeholder from `i` whose LaTeX contains `needle`.
pub open spec fn first_containing(ps: Seq<SpecPlaceholder>, needle: Seq<char>, i: int) -> Option<
    int,
>
    decreases ps.len() - i,
{
    if i < 0 || i >= ps.len() {
        None
    } else if contains(ps[i].original, needle) {
        Some(i)
    } else {
        first_containing(ps, needle, i + 1)
    }
}

/// The prose between the tokens that stand for `\begin{abstract}` and
/// `\end{abstract}`.
pub open spec fn abstract_prose(t: Seq<char>, ps: Seq<SpecPlaceholder>) -> Option<(int, int)> {
    match first_containing(ps, "\\begin{abstract}"@, 0) {
        None => None,
        Some(b) => match first_containing(ps, "\\end{abstract}"@, 0) {
            None => None,
            Some(e) => match find_from(t, 0, ps[b].token) {
                None => None,
                Some(p) => {
                    let start = p + ps[b].token.len();
                    match find_from(t, start, ps[e].token) {
                        None => None,
                        Some(q) => Some((start, q)),
                    }
                },
            },
        },
    }
}

fn first_containing_exec(ps: &[Placeholder], needle: &str) -> (r: Option<usize>)
    ensures
        match r {
            Some(i) => first_containing(placeholders_view(ps@), needle@, 0) == Some(i as int) && i
                < ps@.len(),
            None => first_containing(placeholders_view(ps@), needle@, 0) is None,
        },
{
    let ghost pv = placeholders_view(ps@);
    let mut i: usize = 0;
    while i < ps.len()
        invariant
            i <= ps@.len(),
            pv == placeholders_view(ps@),
            first_containing(pv, needle@, 0) == first_containing(pv, needle@, i as int),
        decreases ps@.len() - i,
    {
        let original = chars_of(ps[i].original.as_str());
        assert(pv[i as int] == ps@[i as int]@);
        if crate::text::contains_str(&original, needle) {
            return Some(i);
        }
        i += 1;
    }
    None
}

fn abstract_prose_exec(t: &[char], ps: &[Placeholder]) -> (r: Option<(usize, usize)>)
    ensures
        match r {
            Some((a, b)) => abstract_prose(t@, placeholders_view(ps@)) == Some((a as int, b as int))
                && a <= b <= t@.len(),
            None => abstract_prose(t@, placeholders_view(ps@)) is None,
        },
{
    let ghost pv = placeholders_view(ps@);
    let b = match first_containing_exec(ps, "\\begin{abstract}") {
        None => return None,
        Some(b) => b,
    };
    let e = match first_containing_exec(ps, "\\end{abstract}") {
        None => return None,
        Some(e) => e,
    };
    let begin_token = chars_of(ps[b].token.as_str());
    let end_token = chars_of(ps[e].token.as_str());
    assert(pv[b as int] == ps@[b as int]@);
    assert(pv[e as int] == ps@[e as int]@);
    proof {
        lemma_find_from_bounds(t@, 0, begin_token@);
    }
    let p = match find_chars(t, 0, &begin_token) {
        None => return None,
        Some(p) => p,
    };
    assert(starts_at(t@, p as int, begin_token@));
    let n = t.len();
    assert(p + begin_token@.len() <= n);
    let start = p + begin_token.len();
    proof {
        lemma_find_from_bounds(t@, start as int, end_token@);
    }
    match find_chars(t, start, &end_token) {
        None => None,
        Some(q) => Some((start, q)),
    }
}

// ---------------------------------------------------------------------------
// Plain text
// ---------------------------------------------------------------------------

/// Past the letters, `@` and `*` of a command name that starts at `at`.
pub open spec fn name_run_end(v: Seq<char>, at: int) -> int
    decreases v.len() - at,
{
    if 0 <= at < v.len() && (is_alpha(v[at]) || v[at] == '@' || v[at] == '*') {
        name_run_end(v, at + 1)
    } else {
        at
    }
}

pub proof fn lemma_name_run_end(v: Seq<char>, at: int)
    requires
        0 <= at <= v.len(),
    ensures
        at <= name_run_end(v, at) <= v.len(),
    decreases v.len() - at,
{
    if at < v.len() && (is_alpha(v[at]) || v[at] == '@' || v[at] == '*') {
        lemma_name_run_end(v, at + 1);
    }
}

/// From `at`, the readable text of `v` appended to `out`: tokens and command
/// names are dropped, braces too, and each run of whitespace becomes one space.
pub open spec fn plain_from(v: Seq<char>, at: int, out: Seq<char>, in_space: bool) -> Seq<char>
    decreases v.len() - at,
{
    if at < 0 || at >= v.len() {
        out
    } else if starts_at(v, at, seq!['{', '{']) && find_from(v, at + 2, seq!['}', '}']) is Some {
        let e = find_from(v, at + 2, seq!['}', '}'])->0;
        proof {
            lemma_find_from_bounds(v, at + 2, seq!['}', '}']);
        }
        plain_from(v, e + 2, out, in_space)
    } else if v[at] == '\\' {
        proof {
            lemma_name_run_end(v, at + 1);
        }
        plain_from(v, name_run_end(v, at + 1), out, in_space)
    } else if v[at] == '{' || v[at] == '}' {
        plain_from(v, at + 1, out, in_space)
    } else if is_ws(v[at]) {
        if in_space {
            plain_from(v, at + 1, out, true)
        } else {
            plain_from(v, at + 1, out.push(' '), true)
        }
    } else {
        plain_from(v, at + 1, out.push(v[at]), false)
    }
}

/// `s` without whitespace at either end.
pub open spec fn trim(s: Seq<char>) -> Seq<char> {
    if skip_ws(s, 0) >= s.len() {
        Seq::empty()
    } else {
        s.subrange(skip_ws(s, 0), trailing_ws_start(s, s.len() as int))
    }
}

/// The readable text of a piece of LaTeX, if any is left.
pub open spec fn spec_plain_text(v: Seq<char>) -> Option<Seq<char>> {
    let t = trim(plain_from(v, 0, Seq::empty(), false));
    if t.len() == 0 {
        None
    } else {
        Some(t)
    }
}

fn name_run_end_exec(v: &[char], at: usize) -> (r: usize)
    requires
        at <= v@.len(),
    ensures
        r == name_run_end(v@, at as int),
{
    let n = v.len();
    let mut k = at;
    while k < n && (alphabetic(v[k]) || v[k] == '@' || v[k] == '*')
        invariant
            at <= k <= n,
            n == v@.len(),
            name_run_end(v@, at as int) == name_run_end(v@, k as int),
        decreases n - k,
    {
        k += 1;
    }
    k
}

fn trim_exec(s: &[char]) -> (r: Vec<char>)
    ensures
        r@ == trim(s@),
{
    let n = s.len();
    let a = skip_whitespace(s, 0);
    proof {
        lemma_skip_ws(s@, 0);
    }
    if a >= n {
        return Vec::new();
    }
    let mut b = n;
    while b > 0 && whitespace(s[b - 1])
        invariant
            b <= n,
            n == s@.len(),
            a < b,
            a == skip_ws(s@, 0),
            !is_ws(s@[a as int]),
            trailing_ws_start(s@, n as int) == trailing_ws_start(s@, b as int),
        decreases b,
    {
        b -= 1;
    }
    let mut r: Vec<char> = Vec::new();
    push_range(&mut r, s, a, b);
    r
}

fn plain_text(v: &[char]) -> (r: Option<Vec<char>>)
    ensures
        match r {
            Some(t) => spec_plain_text(v@) == Some(t@),
            None => spec_plain_text(v@) is None,
        },
{
    let n = v.len();
    let mut out: Vec<char> = Vec::new();
    let mut in_space = false;
    let mut at: usize = 0;
    let mut close: Vec<char> = Vec::new();
    close.push('}');
    close.push('}');
    assert(close@ =~= seq!['}', '}']);
    let mut open: Vec<char> = Vec::new();
    open.push('{');
    open.push('{');
    assert(open@ =~= seq!['{', '{']);
    while at < n
        invariant
            at <= n,
            n == v@.len(),
            close@ == seq!['}', '}'],
            open@ == seq!['{', '{'],
            plain_from(v@, 0, Seq::empty(), false) == plain_from(v@, at as int, out@, in_space),
        decreases n - at,
    {
        let c = v[at];
        if crate::text::starts_chars(v, at, &open) {
            proof {
                lemma_find_from_bounds(v@, at + 2, close@);
            }
            match find_chars(v, at + 2, &close) {
                Some(e) => {
                    at = e + 2;
                    continue;
                },
                None => {},
            }
        }
        if c == '\\' {
            proof {
                lemma_name_run_end(v@, at + 1);
            }
            at = name_run_end_exec(v, at + 1);
            continue;
        } else if c == '{' || c == '}' {
        } else if whitespace(c) {
            if !in_space {
                out.push(' ');
                in_space = true;
            }
        } else {
            out.push(c);
            in_space = false;
        }
        at += 1;
    }
    let t = trim_exec(&out);
    if t.len() == 0 {
        None
    } else {
        Some(t)
    }
}

// ---------------------------------------------------------------------------
// Activity metadata
// ---------------------------------------------------------------------------

/// The title and summary of an activity, as the reader lists it.
#[derive(Debug, Clone, Default)]
pub struct ActivityMetadata {
    pub title: Option<String>,
    pub summary: Option<String>,
}

pub open spec fn opt_chars(o: Option<String>) -> Option<Seq<char>> {
    match o {
        Some(s) => Some(s@),
        None => None,
    }
}

/// The title: the argument of `\title` in the rebuilt source, else the
/// prose before the first token (the segmenter starts an activity's first
/// segment inside `\title{...}`).
pub open spec fn spec_title(t: Seq<char>, ps: Seq<SpecPlaceholder>) -> Option<Seq<char>> {
    let from_source = match spec_reconstruct(t, ps) {
        Ok(src) => match command_argument(src, "title"@) {
            Some((a, b)) => spec_plain_text(src.subrange(a, b)),
            None => None,
        },
        Err(_) => None,
    };
    match from_source {
        Some(x) => Some(x),
        None => spec_plain_text(leading_prose(t)),
    }
}

/// The summary: the `abstract` environment of the rebuilt source, else the
/// prose between the tokens that open and close it.
pub open spec fn spec_summary(t: Seq<char>, ps: Seq<SpecPlaceholder>) -> Option<Seq<char>> {
    let from_source = match spec_reconstruct(t, ps) {
        Ok(src) => match environment_body(src, "abstract"@) {
            Some((a, b)) => spec_plain_text(src.subrange(a, b)),
            None => None,
        },
        Err(_) => None,
    };
    match from_source {
        Some(x) => Some(x),
        None => match abstract_prose(t, ps) {
            Some((a, b)) => spec_plain_text(t.subrange(a, b)),
            None => None,
        },
    }
}

fn plain_text_of(v: &[char], from: usize, to: usize) -> (r: Option<String>)
    requires
        from <= to <= v@.len(),
    ensures
        opt_chars(r) == spec_plain_text(v@.subrange(from as int, to as int)),
{
    let mut part: Vec<char> = Vec::new();
    push_range(&mut part, v, from, to);
    assert(part@ =~= v@.subrange(from as int, to as int));
    match plain_text(&part) {
        Some(t) => Some(crate::text::string_from(&t)),
        None => None,
    }
}

/// Title and summary of an activity from the translation of its first
/// segment and that segment's placeholders.
pub fn metadata(translation: &str, placeholders: &[Placeholder]) -> (m: ActivityMetadata)
    ensures
        opt_chars(m.title) == spec_title(translation@, placeholders_view(placeholders@)),
        opt_chars(m.summary) == spec_summary(translation@, placeholders_view(placeholders@)),
{
    let t = chars_of(translation);
    let source: Option<Vec<char>> = match reconstruct(translation, placeholders) {
        Ok(s) => Some(chars_of(s.as_str())),
        Err(_) => None,
    };
    let title_from_source = match &source {
        Some(src) => match command_argument_exec(src, "title") {
            Some((a, b)) => plain_text_of(src, a, b),
            None => None,
        },
        None => None,
    };
    let title = match title_from_source {
        Some(x) => Some(x),
        None => {
            proof {
                lemma_find_from_bounds(t@, 0, "{{"@);
            }
            let end = match find_str(&t, 0, "{{") {
                Some(p) => p,
                None => t.len(),
            };
            assert(t@.subrange(0, end as int) =~= leading_prose(t@));
            plain_text_of(&t, 0, end)
        },
    };
    let summary_from_source = match &source {
        Some(src) => match environment_body_exec(src, "abstract") {
            Some((a, b)) => plain_text_of(src, a, b),
            None => None,
        },
        None => None,
    };
    let summary = match summary_from_source {
        Some(x) => Some(x),
        None => match abstract_prose_exec(&t, placeholders) {
            Some((a, b)) => plain_text_of(&t, a, b),
            None => None,
        },
    };
    ActivityMetadata { title, summary }
}

// ---------------------------------------------------------------------------
// Before compiling
// ---------------------------------------------------------------------------

/// The first finished segment from `i` whose translation holds a backslash.
pub open spec fn first_unsafe_from(segs: Seq<Segment>, i: int) -> Option<int>
    decreases segs.len() - i,
{
    if i < 0 || i >= segs.len() {
        None
    } else if segs[i].spec_is_complete() && contains(segs[i].translated@, seq!['\\']) {
        Some(i)
    } else {
        first_unsafe_from(segs, i + 1)
    }
}

pub open spec fn unsafe_translation_message(id: int) -> Seq<char> {
    "segmento "@ + signed_decimal(id) + " contém um comando TeX fora dos tokens protegidos"@
}

/// User-entered backslashes would be executable TeX when the official
/// compiler runs. Commands the document needs already live in protected
/// tokens, so a finished translation with a backslash is refused.
pub fn ensure_safe_translations(segments: &[Segment]) -> (r: Result<(), String>)
    ensures
        match r {
            Ok(()) => first_unsafe_from(segments@, 0) is None,
            Err(e) => first_unsafe_from(segments@, 0) matches Some(i) && e@
                == unsafe_translation_message(segments@[i].id as int),
        },
{
    let mut i: usize = 0;
    let mut backslash: Vec<char> = Vec::new();
    backslash.push('\\');
    assert(backslash@ =~= seq!['\\']);
    while i < segments.len()
        invariant
            i <= segments@.len(),
            backslash@ == seq!['\\'],
            first_unsafe_from(segments@, 0) == first_unsafe_from(segments@, i as int),
        decreases segments@.len() - i,
    {
        let seg = &segments[i];
        if seg.is_complete() {
            let t = chars_of(seg.translated.as_str());
            if find_chars(&t, 0, &backslash).is_some() {
                let mut m: Vec<char> = Vec::new();
                push_str(&mut m, "segmento ");
                push_signed_decimal(&mut m, seg.id);
                push_str(&mut m, " contém um comando TeX fora dos tokens protegidos");
                return Err(string_from(&m));
            }
        }
        i += 1;
    }
    Ok(())
}

/// A `..` part of a path begins at `i`.
pub open spec fn parent_part_at(s: Seq<char>, i: int) -> bool {
    &&& 0 <= i
    &&& i + 2 <= s.len()
    &&& s[i] == '.'
    &&& s[i + 1] == '.'
    &&& (i == 0 || s[i - 1] == '/')
    &&& (i + 2 == s.len() || s[i + 2] == '/')
}

/// The path is absolute or climbs out of the course with `..`.
pub open spec fn escapes_course(s: Seq<char>) -> bool {
    (s.len() > 0 && s[0] == '/') || exists|i: int| parent_part_at(s, i)
}

pub open spec fn outside_course_message() -> Seq<char> {
    "caminho de atividade fora da fonte do curso"@
}

/// An activity's path, checked to stay inside the course: neither absolute
/// nor climbing out with `..`.
pub fn safe_relative_path(path: &str) -> (r: Result<String, String>)
    ensures
        match r {
            Ok(p) => !escapes_course(path@) && p@ == path@,
            Err(e) => escapes_course(path@) && e@ == outside_course_message(),
        },
{
    let s = chars_of(path);
    let n = s.len();
    let refused = if n > 0 && s[0] == '/' {
        true
    } else {
        let mut found = false;
        let mut i: usize = 0;
        while n >= 2 && i <= n - 2
            invariant
                n == s@.len(),
                found ==> exists|j: int| parent_part_at(s@, j),
                !found ==> forall|j: int| 0 <= j < i ==> !parent_part_at(s@, j),
            decreases n - i,
        {
            if s[i] == '.' && s[i + 1] == '.' && (i == 0 || s[i - 1] == '/') && (i + 2 == n || s[i
                + 2] == '/') {
                assert(parent_part_at(s@, i as int));
                found = true;
            }
            i += 1;
        }
        if !found {
            assert forall|j: int| !parent_part_at(s@, j) by {
                if parent_part_at(s@, j) {
                    assert(j < i);
                }
            }
        }
        found
    };
    if refused {
        Err(string_from_str("caminho de atividade fora da fonte do curso"))
    } else {
        Ok(string_from(&s))
    }
}

fn string_from_str(lit: &str) -> (s: String)
    ensures
        s@ == lit@,
{
    let v = chars_of(lit);
    string_from(&v)
}

// ---------------------------------------------------------------------------
// The compiled HTML
// ---------------------------------------------------------------------------

/// `s` with each `<script ...</script>` taken out, and everything from an
/// unclosed `<script` on.
pub open spec fn spec_remove_scripts(s: Seq<char>) -> Seq<char>
    decreases s.len(),
{
    match find_from(s, 0, "<script"@) {
        None => s,
        Some(st) => {
            proof {
                lemma_find_from_bounds(s, 0, "<script"@);
                lemma_find_from_bounds(s, st, "</script>"@);
                reveal_strlit("</script>");
            }
            match find_from(s, st, "</script>"@) {
                None => s.take(st),
                Some(e) => spec_remove_scripts(s.take(st) + s.skip(e + 9)),
            }
        },
    }
}

/// No `<script` is left once the scripts are taken out.
pub proof fn removing_scripts_leaves_none(s: Seq<char>)
    ensures
        !contains(spec_remove_scripts(s), "<script"@),
    decreases s.len(),
{
    let open = "<script"@;
    reveal_strlit("<script");
    lemma_find_from_bounds(s, 0, open);
    match find_from(s, 0, open) {
        None => {},
        Some(st) => {
            lemma_find_from_bounds(s, st, "</script>"@);
            reveal_strlit("</script>");
            match find_from(s, st, "</script>"@) {
                None => {
                    let t = s.take(st);
                    lemma_find_from_bounds(t, 0, open);
                    if let Some(q) = find_from(t, 0, open) {
                        assert(t.subrange(q, q + open.len()) =~= s.subrange(q, q + open.len()));
                        assert(starts_at(s, q, open));
                    }
                },
                Some(e) => {
                    removing_scripts_leaves_none(s.take(st) + s.skip(e + 9));
                },
            }
        },
    }
}

fn remove_scripts(input: &[char]) -> (r: Vec<char>)
    ensures
        r@ == spec_remove_scripts(input@),
{
    let mut result: Vec<char> = Vec::new();
    push_range(&mut result, input, 0, input.len());
    assert(input@.subrange(0, input@.len() as int) =~= input@);
    let open = chars_of("<script");
    let close = chars_of("</script>");
    proof {
        reveal_strlit("</script>");
    }
    loop
        invariant
            open@ == "<script"@,
            close@ == "</script>"@,
            close@.len() == 9,
            spec_remove_scripts(input@) == spec_remove_scripts(result@),
        decreases result@.len(),
    {
        proof {
            lemma_find_from_bounds(result@, 0, open@);
        }
        let start = match find_chars(&result, 0, &open) {
            None => return result,
            Some(st) => st,
        };
        proof {
            lemma_find_from_bounds(result@, start as int, close@);
        }
        match find_chars(&result, start, &close) {
            None => {
                let mut cut: Vec<char> = Vec::new();
                push_range(&mut cut, &result, 0, start);
                assert(cut@ =~= result@.take(start as int));
                return cut;
            },
            Some(e) => {
                let n = result.len();
                assert(e + 9 <= n);
                let mut next: Vec<char> = Vec::new();
                push_range(&mut next, &result, 0, start);
                push_range(&mut next, &result, e + 9, n);
                assert(next@ =~= result@.take(start as int) + result@.skip(e + 9));
                result = next;
            },
        }
    }
}

pub open spec fn missing_body_message() -> Seq<char> {
    "HTML do Ximera não contém body"@
}

/// The inside of the page's `<body ...>`, without scripts.
pub open spec fn spec_activity_html(s: Seq<char>) -> Result<Seq<char>, Seq<char>> {
    match find_from(s, 0, "<body"@) {
        None => Err(missing_body_message()),
        Some(b) => match find_from(s, b, seq!['>']) {
            None => Err(missing_body_message()),
            Some(g) => {
                let start = g + 1;
                let end = match find_from(s, start, "</body>"@) {
                    Some(e) => e,
                    None => s.len() as int,
                };
                Ok(spec_remove_scripts(s.subrange(start, end)))
            },
        },
    }
}

/// The activity fragment of the HTML that the Ximera compiler produced.
pub fn activity_html(html: &str) -> (r: Result<String, String>)
    ensures
        match r {
            Ok(s) => spec_activity_html(html@) == Ok::<Seq<char>, Seq<char>>(s@),
            Err(e) => spec_activity_html(html@) == Err::<Seq<char>, Seq<char>>(e@),
        },
{
    let s = chars_of(html);
    let n = s.len();
    let mut gt: Vec<char> = Vec::new();
    gt.push('>');
    assert(gt@ =~= seq!['>']);
    proof {
        lemma_find_from_bounds(s@, 0, "<body"@);
    }
    let b = match find_str(&s, 0, "<body") {
        None => return Err(string_from_str("HTML do Ximera não contém body")),
        Some(b) => b,
    };
    proof {
        lemma_find_from_bounds(s@, b as int, gt@);
    }
    let g = match find_chars(&s, b, &gt) {
        None => return Err(string_from_str("HTML do Ximera não contém body")),
        Some(g) => g,
    };
    assert(g + 1 <= n);
    let start = g + 1;
    proof {
        lemma_find_from_bounds(s@, start as int, "</body>"@);
    }
    let end = match find_str(&s, start, "</body>") {
        Some(e) => e,
        None => n,
    };
    let mut body: Vec<char> = Vec::new();
    push_range(&mut body, &s, start, end);
    Ok(string_from(&remove_scripts(&body)))
}

// ---------------------------------------------------------------------------
// Inlined images
// ---------------------------------------------------------------------------

/// Where the part of a path that ends at `end` begins.
pub open spec fn part_start(s: Seq<char>, end: int) -> int
    decreases end,
{
    if end <= 0 || end > s.len() {
        0
    } else if s[end - 1] == '/' {
        end
    } else {
        part_start(s, end - 1)
    }
}

pub proof fn lemma_part_start(s: Seq<char>, end: int)
    requires
        0 <= end <= s.len(),
    ensures
        0 <= part_start(s, end) <= end,
        end > 0 && s[end - 1] != '/' ==> part_start(s, end) < end,
        forall|k: int| part_start(s, end) <= k < end ==> s[k] != '/',
        part_start(s, end) > 0 ==> s[part_start(s, end) - 1] == '/',
    decreases end,
{
    if end > 0 && s[end - 1] != '/' {
        lemma_part_start(s, end - 1);
    }
}

/// The last part of the path `s[..end]` that names something, as
/// `Path::file_name` finds it: slashes and `.` parts are passed over, and a
/// path that ends in `..` or holds no part has none.
pub open spec fn file_name_before(s: Seq<char>, end: int) -> Option<Seq<char>>
    decreases end,
{
    if end <= 0 || end > s.len() {
        None
    } else if s[end - 1] == '/' {
        file_name_before(s, end - 1)
    } else {
        proof {
            lemma_part_start(s, end);
        }
        let start = part_start(s, end);
        let part = s.subrange(start, end);
        if part == seq!['.'] {
            file_name_before(s, start)
        } else if part == seq!['.', '.'] {
            None
        } else {
            Some(part)
        }
    }
}

/// The index of the last `.` in `name`, if any.
pub open spec fn last_dot(name: Seq<char>, end: int) -> Option<int>
    decreases end,
{
    if end <= 0 || end > name.len() {
        None
    } else if name[end - 1] == '.' {
        Some(end - 1)
    } else {
        last_dot(name, end - 1)
    }
}

/// The extension of a path, as `Path::extension` finds it: what follows the
/// last `.` of the file name, unless that `.` is the name's first character.
pub open spec fn extension(path: Seq<char>) -> Option<Seq<char>> {
    match file_name_before(path, path.len() as int) {
        None => None,
        Some(name) => match last_dot(name, name.len() as int) {
            None => None,
            Some(d) => if d == 0 {
                None
            } else {
                Some(name.skip(d + 1))
            },
        },
    }
}

proof fn lemma_not_dots(s: Seq<char>, start: int, end: int)
    requires
        0 <= start < end <= s.len(),
        !(end - start == 1 && s[start] == '.'),
        !(end - start == 2 && s[start] == '.' && s[start + 1] == '.'),
    ensures
        s.subrange(start, end) != seq!['.'],
        s.subrange(start, end) != seq!['.', '.'],
{
    let part = s.subrange(start, end);
    let one = seq!['.'];
    let two = seq!['.', '.'];
    assert(one.len() == 1 && one[0] == '.');
    assert(two.len() == 2 && two[0] == '.' && two[1] == '.');
    assert(part[0] == s[start]);
    if end - start >= 2 {
        assert(part[1] == s[start + 1]);
    }
    if part == one {
        assert(part.len() == 1);
    }
    if part == two {
        assert(part.len() == 2);
    }
}

/// The media type of an image, by the extension of its path.
pub open spec fn spec_mime_type(path: Seq<char>) -> Seq<char> {
    match extension(path) {
        Some(e) => if e == "svg"@ {
            "image/svg+xml"@
        } else if e == "png"@ {
            "image/png"@
        } else if e == "jpg"@ || e == "jpeg"@ {
            "image/jpeg"@
        } else if e == "gif"@ {
            "image/gif"@
        } else if e == "webp"@ {
            "image/webp"@
        } else {
            "application/octet-stream"@
        },
        None => "application/octet-stream"@,
    }
}

fn part_start_exec(s: &[char], end: usize) -> (r: usize)
    requires
        end <= s@.len(),
    ensures
        r == part_start(s@, end as int),
{
    let mut k = end;
    while k > 0 && s[k - 1] != '/'
        invariant
            k <= end <= s@.len(),
            part_start(s@, end as int) == part_start(s@, k as int),
        decreases k,
    {
        k -= 1;
    }
    k
}

fn file_name_exec(s: &[char]) -> (r: Option<(usize, usize)>)
    ensures
        match r {
            Some((a, b)) => file_name_before(s@, s@.len() as int) == Some(
                s@.subrange(a as int, b as int),
            ) && a <= b <= s@.len(),
            None => file_name_before(s@, s@.len() as int) is None,
        },
{
    let mut end = s.len();
    loop
        invariant
            end <= s@.len(),
            file_name_before(s@, s@.len() as int) == file_name_before(s@, end as int),
        decreases end,
    {
        if end == 0 {
            return None;
        }
        if s[end - 1] == '/' {
            end -= 1;
            continue;
        }
        proof {
            lemma_part_start(s@, end as int);
        }
        let start = part_start_exec(s, end);
        if end - start == 1 && s[start] == '.' {
            assert(s@.subrange(start as int, end as int) =~= seq!['.']);
            end = start;
            continue;
        }
        if end - start == 2 && s[start] == '.' && s[start + 1] == '.' {
            assert(s@.subrange(start as int, end as int) =~= seq!['.', '.']);
            return None;
        }
        proof {
            lemma_not_dots(s@, start as int, end as int);
            assert(file_name_before(s@, end as int) == Some(s@.subrange(start as int, end as int)));
        }
        return Some((start, end));
    }
}

fn extension_is(s: &[char], from: usize, to: usize, ext: &str) -> (b: bool)
    requires
        from <= to <= s@.len(),
    ensures
        b == (s@.subrange(from as int, to as int) == ext@),
{
    let e = chars_of(ext);
    crate::text::range_eq(s, from, to, &e)
}

/// The media type of an image, by the extension of its path.
pub fn mime_type(path: &str) -> (r: &'static str)
    ensures
        r@ == spec_mime_type(path@),
{
    let s = chars_of(path);
    let (a, b) = match file_name_exec(&s) {
        None => return "application/octet-stream",
        Some(range) => range,
    };
    let ghost name = s@.subrange(a as int, b as int);
    let mut k = b;
    while k > a && s[k - 1] != '.'
        invariant
            a <= k <= b <= s@.len(),
            name == s@.subrange(a as int, b as int),
            last_dot(name, name.len() as int) == last_dot(name, k - a),
        decreases k,
    {
        k -= 1;
    }
    if k == a || k - 1 == a {
        return "application/octet-stream";
    }
    assert(name.skip(k - a) =~= s@.subrange(k as int, b as int));
    if extension_is(&s, k, b, "svg") {
        "image/svg+xml"
    } else if extension_is(&s, k, b, "png") {
        "image/png"
    } else if extension_is(&s, k, b, "jpg") || extension_is(&s, k, b, "jpeg") {
        "image/jpeg"
    } else if extension_is(&s, k, b, "gif") {
        "image/gif"
    } else if extension_is(&s, k, b, "webp") {
        "image/webp"
    } else {
        "application/octet-stream"
    }
}

/// The base64 digit for a value below 64.
pub open spec fn base64_digit(i: int) -> char {
    if i < 26 {
        (65 + i) as char
    } else if i < 52 {
        (71 + i) as char
    } else if i < 62 {
        (i - 4) as char
    } else if i == 62 {
        '+'
    } else {
        '/'
    }
}

/// The four characters that encode the first (up to) three bytes of `b`.
pub open spec fn base64_group(b: Seq<u8>) -> Seq<char> {
    let first = b[0] as int;
    let second = if b.len() > 1 {
        b[1] as int
    } else {
        0
    };
    let third = if b.len() > 2 {
        b[2] as int
    } else {
        0
    };
    seq![
        base64_digit(first / 4),
        base64_digit((first % 4) * 16 + second / 16),
        if b.len() > 1 {
            base64_digit((second % 16) * 4 + third / 64)
        } else {
            '='
        },
        if b.len() > 2 {
            base64_digit(third % 64)
        } else {
            '='
        },
    ]
}

/// Standard base64 with `=` padding: each group of up to three bytes gives
/// four characters.
pub open spec fn spec_base64(b: Seq<u8>) -> Seq<char>
    decreases b.len(),
{
    if b.len() == 0 {
        Seq::empty()
    } else if b.len() <= 3 {
        base64_group(b)
    } else {
        base64_group(b) + spec_base64(b.skip(3))
    }
}

fn base64_digit_exec(i: u8) -> (c: char)
    requires
        i < 64,
    ensures
        c == base64_digit(i as int),
{
    if i < 26 {
        (65u8 + i) as char
    } else if i < 52 {
        (71u8 + i) as char
    } else if i < 62 {
        (i - 4) as char
    } else if i == 62 {
        '+'
    } else {
        '/'
    }
}

proof fn lemma_base64_step(b: Seq<u8>, i: int, before: Seq<char>)
    requires
        0 <= i < b.len(),
        before + spec_base64(b.skip(i)) == spec_base64(b),
    ensures
        b.len() - i <= 3 ==> before + base64_group(b.skip(i)) + spec_base64(b.skip(b.len() as int))
            == spec_base64(b),
        b.len() - i > 3 ==> before + base64_group(b.skip(i)) + spec_base64(b.skip(i + 3))
            == spec_base64(b),
{
    let t = b.skip(i);
    let g = base64_group(t);
    assert(b.skip(b.len() as int) =~= Seq::<u8>::empty());
    if t.len() <= 3 {
        assert(spec_base64(t) == g);
        assert(before + g + Seq::<char>::empty() =~= before + g);
    } else {
        assert(t.skip(3) =~= b.skip(i + 3));
        assert(spec_base64(t) == g + spec_base64(t.skip(3)));
        assert(before + g + spec_base64(b.skip(i + 3)) =~= before + (g + spec_base64(t.skip(3))));
    }
}

/// Appends the four characters that encode the bytes from `i` on.
fn push_base64_group(out: &mut Vec<char>, bytes: &[u8], i: usize)
    requires
        i < bytes@.len(),
    ensures
        final(out)@ == old(out)@ + base64_group(bytes@.skip(i as int)),
{
    let ghost t = bytes@.skip(i as int);
    let rest = bytes.len() - i;
    let first = bytes[i];
    let second = if rest > 1 {
        bytes[i + 1]
    } else {
        0
    };
    let third = if rest > 2 {
        bytes[i + 2]
    } else {
        0
    };
    let c0 = base64_digit_exec(first / 4);
    let c1 = base64_digit_exec((first % 4) * 16 + second / 16);
    let c2 = if rest > 1 {
        base64_digit_exec((second % 16) * 4 + third / 64)
    } else {
        '='
    };
    let c3 = if rest > 2 {
        base64_digit_exec(third % 64)
    } else {
        '='
    };
    proof {
        assert(t[0] == first);
        assert(rest > 1 ==> t[1] == second);
        assert(rest > 2 ==> t[2] == third);
        assert(base64_group(t) =~= seq![c0, c1, c2, c3]);
    }
    out.push(c0);
    out.push(c1);
    out.push(c2);
    out.push(c3);
}

/// The bytes of an image as base64, for a `data:` URL.
pub fn base64(bytes: &[u8]) -> (s: String)
    ensures
        s@ == spec_base64(bytes@),
{
    let n = bytes.len();
    let mut out: Vec<char> = Vec::new();
    let mut i: usize = 0;
    while i < n
        invariant
            i <= n,
            n == bytes@.len(),
            out@ + spec_base64(bytes@.skip(i as int)) == spec_base64(bytes@),
        decreases n - i,
    {
        let rest = n - i;
        let ghost before = out@;
        push_base64_group(&mut out, bytes, i);
        proof {
            lemma_base64_step(bytes@, i as int, before);
        }
        if rest <= 3 {
            i = n;
        } else {
            i += 3;
        }
    }
    assert(bytes@.skip(0) =~= bytes@);
    string_from(&out)
}

// ---------------------------------------------------------------------------
// The render cache
// ---------------------------------------------------------------------------

/// The eight bytes of `n`, least significant first.
pub open spec fn le_bytes(n: i64) -> Seq<u8> {
    let v = n as u64;
    seq![
        (v & 0xff) as u8,
        ((v >> 8u64) & 0xff) as u8,
        ((v >> 16u64) & 0xff) as u8,
        ((v >> 24u64) & 0xff) as u8,
        ((v >> 32u64) & 0xff) as u8,
        ((v >> 40u64) & 0xff) as u8,
        ((v >> 48u64) & 0xff) as u8,
        ((v >> 56u64) & 0xff) as u8,
    ]
}

/// What the cache key of a rendering is the digest of: a version tag, the
/// file's id and the translated source.
pub open spec fn render_key(id: i64, source: Seq<char>) -> Seq<u8> {
    encode_utf8("ximera-render-v3"@) + le_bytes(id) + encode_utf8(source)
}

/// The cache key of a rendering: the hexadecimal SHA-256 of the version tag,
/// the file's id and the translated source.
pub fn signature(file: &FileRecord, source: &str) -> (s: String)
    ensures
        s@ == spec_hex(sha256(render_key(file.id, source@))),
{
    let mut data: Vec<u8> = Vec::new();
    push_bytes(&mut data, "ximera-render-v3".as_bytes());
    let v = file.id as u64;
    data.push((v & 0xff) as u8);
    data.push(((v >> 8u64) & 0xff) as u8);
    data.push(((v >> 16u64) & 0xff) as u8);
    data.push(((v >> 24u64) & 0xff) as u8);
    data.push(((v >> 32u64) & 0xff) as u8);
    data.push(((v >> 40u64) & 0xff) as u8);
    data.push(((v >> 48u64) & 0xff) as u8);
    data.push(((v >> 56u64) & 0xff) as u8);
    push_bytes(&mut data, source.as_bytes());
    assert(data@ =~= render_key(file.id, source@));
    let digest = sha256_digest(data.as_slice());
    hex_digest(digest.as_slice())
}

/// An image reference that the reader inlines: neither a URL, nor a `data:`
/// URL, nor an absolute path.
pub open spec fn spec_is_local_reference(value: Seq<char>) -> bool {
    !contains(value, "://"@) && !starts_at(value, 0, "data:"@) && !starts_at(value, 0, seq!['/'])
}

/// Whether an image reference in the compiled HTML points to a file beside
/// the activity, so that the reader can inline it.
pub fn is_local_reference(value: &str) -> (b: bool)
    ensures
        b == spec_is_local_reference(value@),
{
    let v = chars_of(value);
    let mut slash: Vec<char> = Vec::new();
    slash.push('/');
    assert(slash@ =~= seq!['/']);
    !crate::text::contains_str(&v, "://") && !starts_str(&v, 0, "data:")
        && !crate::text::starts_chars(&v, 0, &slash)
}

} // verus!

verus! {

// ---------------------------------------------------------------------------
// Messages for failed outside work
// ---------------------------------------------------------------------------

/// What `String::from_utf8_lossy` makes of `bytes`.
pub uninterp spec fn lossy_utf8(bytes: Seq<u8>) -> Seq<char>;

/// `String::from_utf8_lossy`, made owned: the text of `bytes`, each invalid
/// sequence replaced by U+FFFD. Claimed: the result is `lossy_utf8` of the
/// bytes, and bytes that are valid UTF-8 are decoded unchanged. How invalid
/// sequences are replaced is left unsaid.
#[verifier::external_body]
fn decode_lossy(bytes: &[u8]) -> (s: String)
    ensures
        s@ == lossy_utf8(bytes@),
        valid_utf8(bytes@) ==> s@ == decode_utf8(bytes@),
{
    String::from_utf8_lossy(bytes).into_owned()
}

/// The index just past the last `\n` in `t[..k]`, or 0.
pub open spec fn line_start(t: Seq<char>, k: int) -> int
    decreases k,
{
    if k <= 0 {
        0
    } else if t[k - 1] == '\n' {
        k
    } else {
        line_start(t, k - 1)
    }
}

/// The last line of `s` as `str::lines` splits it: lines end at `\n` or
/// `\r\n`, and a line break at the very end starts no new line.
pub open spec fn last_line(s: Seq<char>) -> Option<Seq<char>> {
    if s.len() == 0 {
        None
    } else if s.last() == '\n' {
        let body = s.drop_last();
        let line = body.skip(line_start(body, body.len() as int));
        if line.len() > 0 && line.last() == '\r' {
            Some(line.drop_last())
        } else {
            Some(line)
        }
    } else {
        Some(s.skip(line_start(s, s.len() as int)))
    }
}

/// The message for an outside command that failed, given the text of what
/// it wrote to its error stream: the command, then its last line.
pub open spec fn spec_command_failure(command: Seq<char>, stderr: Seq<char>) -> Seq<char> {
    command + " falhou: "@ + match last_line(stderr) {
        Some(line) => line,
        None => "sem detalhes"@,
    }
}

proof fn lemma_line_start(t: Seq<char>, k: int)
    requires
        0 <= k <= t.len(),
    ensures
        0 <= line_start(t, k) <= k,
        forall|j: int| line_start(t, k) <= j < k ==> t[j] != '\n',
        line_start(t, k) > 0 ==> t[line_start(t, k) - 1] == '\n',
    decreases k,
{
    if k > 0 && t[k - 1] != '\n' {
        lemma_line_start(t, k - 1);
    }
}

fn line_start_exec(t: &[char], k: usize) -> (r: usize)
    requires
        k <= t@.len(),
    ensures
        r == line_start(t@, k as int),
{
    let mut i = k;
    while i > 0 && t[i - 1] != '\n'
        invariant
            i <= k <= t@.len(),
            line_start(t@, i as int) == line_start(t@, k as int),
        decreases i,
    {
        i -= 1;
    }
    i
}

/// The message for an outside command that failed, from the text of its
/// error stream.
pub fn command_failure(command: &str, stderr: &str) -> (r: String)
    ensures
        r@ == spec_command_failure(command@, stderr@),
{
    let s = chars_of(stderr);
    let mut out: Vec<char> = chars_of(command);
    push_str(&mut out, " falhou: ");
    let n = s.len();
    if n == 0 {
        push_str(&mut out, "sem detalhes");
    } else if s[n - 1] == '\n' {
        let start = line_start_exec(&s, n - 1);
        proof {
            lemma_line_start(s@, n - 1);
        }
        let end = if n - 1 > start && s[n - 2] == '\r' {
            n - 2
        } else {
            n - 1
        };
        push_range(&mut out, &s, start, end);
        proof {
            let body = s@.drop_last();
            assert(line_start(body, body.len() as int) == line_start(s@, n - 1)) by {
                lemma_line_start_prefix(s@, body, (n - 1) as int);
            }
            let line = body.skip(start as int);
            if line.len() > 0 && line.last() == '\r' {
                assert(line.drop_last() =~= s@.subrange(start as int, end as int));
            } else {
                assert(line =~= s@.subrange(start as int, end as int));
            }
        }
    } else {
        let start = line_start_exec(&s, n);
        proof {
            lemma_line_start(s@, n as int);
            assert(s@.skip(start as int) =~= s@.subrange(start as int, n as int));
        }
        push_range(&mut out, &s, start, n);
    }
    string_from(&out)
}

proof fn lemma_line_start_prefix(s: Seq<char>, body: Seq<char>, k: int)
    requires
        0 <= k <= body.len() <= s.len(),
        body == s.take(body.len() as int),
    ensures
        line_start(body, k) == line_start(s, k),
    decreases k,
{
    if k > 0 {
        lemma_line_start_prefix(s, body, k - 1);
    }
}

/// The message for an outside command that failed, from the bytes of its
/// error stream, decoded as UTF-8 with invalid sequences replaced.
pub fn command_error(command: &str, stderr: &[u8]) -> (r: String)
    ensures
        r@ == spec_command_failure(command@, lossy_utf8(stderr@)),
        valid_utf8(stderr@) ==> r@ == spec_command_failure(command@, decode_utf8(stderr@)),
{
    let text = decode_lossy(stderr);
    command_failure(command, text.as_str())
}

/// The message for a failed file or process operation: what was being
/// done, then the error's own words.
pub fn io_error(action: &str, error: &str) -> (r: String)
    ensures
        r@ == "erro ao "@ + action@ + ": "@ + error@,
{
    let mut out: Vec<char> = Vec::new();
    push_str(&mut out, "erro ao ");
    let a = chars_of(action);
    push_range(&mut out, &a, 0, a.len());
    push_str(&mut out, ": ");
    let e = chars_of(error);
    push_range(&mut out, &e, 0, e.len());
    proof {
        assert(a@.subrange(0, a@.len() as int) =~= a@);
        assert(e@.subrange(0, e@.len() as int) =~= e@);
    }
    string_from(&out)
}

} // verus!

verus! {

// ---------------------------------------------------------------------------
// Image references in compiled HTML
// ---------------------------------------------------------------------------

/// The attribute opening `src=` followed by `quote`.
pub open spec fn src_marker(quote: u8) -> Seq<u8> {
    seq![0x73u8, 0x72u8, 0x63u8, 0x3du8, quote]
}

/// The first index from `at` where `h` holds `src=` and `quote`.
pub open spec fn marker_from(h: Seq<u8>, at: int, quote: u8) -> Option<int>
    decreases h.len() - at,
{
    if at < 0 || at + 5 > h.len() {
        None
    } else if h.subrange(at, at + 5) == src_marker(quote) {
        Some(at)
    } else {
        marker_from(h, at + 1, quote)
    }
}

/// The first index from `at` where `h` holds the byte `b`.
pub open spec fn byte_from(h: Seq<u8>, at: int, b: u8) -> Option<int>
    decreases h.len() - at,
{
    if at < 0 || at >= h.len() {
        None
    } else if h[at] == b {
        Some(at)
    } else {
        byte_from(h, at + 1, b)
    }
}

/// The next image reference at or after byte `from` of `h`: the bytes between
/// the first `src=` + `quote` from there and the next `quote`; none where no
/// such attribute follows or its value never closes.
pub open spec fn spec_next_reference(h: Seq<u8>, quote: u8, from: int) -> Option<(int, int)> {
    match marker_from(h, from, quote) {
        None => None,
        Some(p) => match byte_from(h, p + 5, quote) {
            None => None,
            Some(e) => Some((p + 5, e)),
        },
    }
}

proof fn lemma_marker_from(h: Seq<u8>, at: int, quote: u8)
    requires
        0 <= at,
    ensures
        marker_from(h, at, quote) matches Some(p) ==> at <= p && p + 5 <= h.len(),
    decreases h.len() - at,
{
    if at + 5 <= h.len() && h.subrange(at, at + 5) != src_marker(quote) {
        lemma_marker_from(h, at + 1, quote);
    }
}

proof fn lemma_byte_from(h: Seq<u8>, at: int, b: u8)
    requires
        0 <= at,
    ensures
        byte_from(h, at, b) matches Some(e) ==> at <= e < h.len() && h[e] == b,
    decreases h.len() - at,
{
    if at < h.len() && h[at] != b {
        lemma_byte_from(h, at + 1, b);
    }
}

/// Finds the next image reference in `html` at or after byte `from`, for
/// attributes quoted with `quote`: the byte range of its value.
pub fn next_image_reference(html: &str, quote: u8, from: usize) -> (r: Option<(usize, usize)>)
    ensures
        match r {
            Some((a, b)) => spec_next_reference(encode_utf8(html@), quote, from as int) == Some(
                (a as int, b as int),
            ) && a <= b <= encode_utf8(html@).len(),
            None => spec_next_reference(encode_utf8(html@), quote, from as int) is None,
        },
{
    let h = html.as_bytes();
    let ghost hv = encode_utf8(html@);
    assert(h@ == hv);
    let n = h.len();
    let mut p = from;
    loop
        invariant
            h@ == hv,
            hv == encode_utf8(html@),
            n == hv.len(),
            from <= p,
            marker_from(hv, from as int, quote) == marker_from(hv, p as int, quote),
        ensures
            p + 5 <= n,
            marker_from(hv, from as int, quote) == Some(p as int),
        decreases n + 1 - p,
    {
        if p > n || n - p < 5 {
            assert(spec_next_reference(hv, quote, from as int) is None);
            return None;
        }
        if h[p] == 0x73u8 && h[p + 1] == 0x72u8 && h[p + 2] == 0x63u8 && h[p + 3] == 0x3du8 && h[p
            + 4] == quote {
            assert(hv.subrange(p as int, p + 5) =~= src_marker(quote));
            break;
        }
        proof {
            if hv.subrange(p as int, p + 5) == src_marker(quote) {
                assert(hv.subrange(p as int, p + 5)[0] == hv[p as int]);
                assert(hv.subrange(p as int, p + 5)[1] == hv[p + 1]);
                assert(hv.subrange(p as int, p + 5)[2] == hv[p + 2]);
                assert(hv.subrange(p as int, p + 5)[3] == hv[p + 3]);
                assert(hv.subrange(p as int, p + 5)[4] == hv[p + 4]);
            }
        }
        p += 1;
    }
    let start = p + 5;
    let mut e = start;
    while e < n && h[e] != quote
        invariant
            h@ == hv,
            n == hv.len(),
            start <= e <= n,
            byte_from(hv, start as int, quote) == byte_from(hv, e as int, quote),
        decreases n - e,
    {
        e += 1;
    }
    proof {
        lemma_byte_from(hv, start as int, quote);
    }
    if e < n {
        Some((start, e))
    } else {
        None
    }
}

} // verus!

verus! {

/// The `data:` URL that inlines an image: its media type, by the path's
/// extension, and its bytes in base64.
pub fn data_url(path: &str, bytes: &[u8]) -> (r: String)
    ensures
        r@ == "data:"@ + spec_mime_type(path@) + ";base64,"@ + spec_base64(bytes@),
{
    let mut out: Vec<char> = Vec::new();
    push_str(&mut out, "data:");
    push_str(&mut out, mime_type(path));
    push_str(&mut out, ";base64,");
    let b = chars_of(base64(bytes).as_str());
    push_range(&mut out, &b, 0, b.len());
    assert(b@.subrange(0, b@.len() as int) =~= b@);
    string_from(&out)
}

} // verus!

verus! {

// ---------------------------------------------------------------------------
// Readable text holds no LaTeX syntax
// ---------------------------------------------------------------------------

pub open spec fn holds_no_syntax(t: Seq<char>) -> bool {
    forall|i: int| 0 <= i < t.len() ==> #[trigger] t[i] != '\\' && t[i] != '{' && t[i] != '}'
}

proof fn lemma_plain_no_syntax(v: Seq<char>, at: int, out: Seq<char>, in_space: bool)
    requires
        holds_no_syntax(out),
    ensures
        holds_no_syntax(plain_from(v, at, out, in_space)),
    decreases v.len() - at,
{
    if at < 0 || at >= v.len() {
    } else if starts_at(v, at, seq!['{', '{']) && find_from(v, at + 2, seq!['}', '}']) is Some {
        let e = find_from(v, at + 2, seq!['}', '}'])->0;
        lemma_find_from_bounds(v, at + 2, seq!['}', '}']);
        lemma_plain_no_syntax(v, e + 2, out, in_space);
    } else if v[at] == '\\' {
        lemma_name_run_end(v, at + 1);
        lemma_plain_no_syntax(v, name_run_end(v, at + 1), out, in_space);
    } else if v[at] == '{' || v[at] == '}' {
        lemma_plain_no_syntax(v, at + 1, out, in_space);
    } else if is_ws(v[at]) {
        if in_space {
            lemma_plain_no_syntax(v, at + 1, out, true);
        } else {
            assert(holds_no_syntax(out.push(' ')));
            lemma_plain_no_syntax(v, at + 1, out.push(' '), true);
        }
    } else {
        assert(holds_no_syntax(out.push(v[at])));
        lemma_plain_no_syntax(v, at + 1, out.push(v[at]), false);
    }
}

proof fn lemma_trailing_past(p: Seq<char>, j: int, k: int)
    requires
        0 <= j < k <= p.len(),
        !is_ws(p[j]),
    ensures
        j < trailing_ws_start(p, k) <= k,
    decreases k,
{
    if k - 1 > j && is_ws(p[k - 1]) {
        lemma_trailing_past(p, j, k - 1);
    }
}

/// The readable text of a title or summary never carries LaTeX syntax: no
/// backslash, command name or brace of the source reaches it — as in
/// `a \emph{b}`, whose readable text is `a b`.
pub proof fn plain_text_drops_latex_syntax(v: Seq<char>)
    ensures
        spec_plain_text(v) matches Some(t) ==> holds_no_syntax(t),
        spec_plain_text("a \\emph{b}"@) == Some("a b"@),
{
    lemma_plain_no_syntax(v, 0, Seq::empty(), false);
    let p = plain_from(v, 0, Seq::empty(), false);
    if skip_ws(p, 0) < p.len() {
        lemma_skip_ws(p, 0);
        lemma_trailing_past(p, skip_ws(p, 0), p.len() as int);
        let t = p.subrange(skip_ws(p, 0), trailing_ws_start(p, p.len() as int));
        assert forall|i: int| 0 <= i < t.len() implies #[trigger] t[i] != '\\' && t[i] != '{'
            && t[i] != '}' by {
            assert(t[i] == p[skip_ws(p, 0) + i]);
        }
    }
    reveal_strlit("a \\emph{b}");
    reveal_strlit("a b");
    let w = "a \\emph{b}"@;
    assert(w.len() == 10);
    assert(!starts_at(w, 0, seq!['{', '{']));
    assert(!starts_at(w, 1, seq!['{', '{']));
    assert(!starts_at(w, 2, seq!['{', '{']));
    assert(name_run_end(w, 3) == 7) by {
        reveal_with_fuel(name_run_end, 6);
    }
    assert(!starts_at(w, 7, seq!['{', '{'])) by {
        assert(w[8] == 'b');
    }
    assert(!starts_at(w, 8, seq!['{', '{']));
    assert(!starts_at(w, 9, seq!['{', '{']));
    let q = plain_from(w, 0, Seq::empty(), false);
    assert(q =~= seq!['a', ' ', 'b']) by {
        reveal_with_fuel(plain_from, 8);
    }
    assert(skip_ws(q, 0) == 0);
    assert(trailing_ws_start(q, 3) == 3);
    assert(q.subrange(0, 3) =~= "a b"@);
}

} // verus!
