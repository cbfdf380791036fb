//! The LaTeX scanner. All LaTeX syntax is protected; only plain body text is
//! editable.
//!
//! The specification is a small-step description of the scan: `scan_from`
//! says what the scanner produces from a given position and state.
use vstd::prelude::*;
use crate::models::{Piece, PlaceholderKind, SpecPiece, pieces_view, push_piece, append_pieces};
use crate::text::{
    starts_at, find_from, contains, skip_ws, is_ws, is_alpha, lemma_find_from_bounds, lemma_starts_at,
    lemma_skip_ws, starts_str, find_str, contains_str, skip_whitespace, string_range, push_str,
    push_range, chars_of, chars_eq, chars_eq_str, decimal, push_decimal, alphabetic, whitespace,
    string_from,
};

verus! {

// ---------------------------------------------------------------------------
// Errors
// ---------------------------------------------------------------------------

/// A scanning failure, located by line and column (both counted from 1) with
/// up to 40 characters of the text that follows.
#[derive(Debug, PartialEq, Eq)]
pub struct ScanError {
    pub message: String,
    pub line: usize,
    pub column: usize,
    pub context: String,
}

pub struct SpecScanError {
    pub message: Seq<char>,
    pub line: nat,
    pub column: nat,
    pub context: Seq<char>,
}

impl View for ScanError {
    type V = SpecScanError;

    open spec fn view(&self) -> SpecScanError {
        SpecScanError {
            message: self.message@,
            line: self.line as nat,
            column: self.column as nat,
            context: self.context@,
        }
    }
}

/// Number of line breaks in `s[..at]`.
pub open spec fn newlines_before(s: Seq<char>, at: int) -> nat
    decreases at,
{
    if at <= 0 || at > s.len() {
        0
    } else if s[at - 1] == '\n' {
        newlines_before(s, at - 1) + 1
    } else {
        newlines_before(s, at - 1)
    }
}

/// Number of characters between the last line break before `at` and `at`.
pub open spec fn chars_since_newline(s: Seq<char>, at: int) -> nat
    decreases at,
{
    if at <= 0 || at > s.len() || s[at - 1] == '\n' {
        0
    } else {
        chars_since_newline(s, at - 1) + 1
    }
}

pub open spec fn spec_error(s: Seq<char>, at: int, message: Seq<char>) -> SpecScanError {
    SpecScanError {
        message,
        line: newlines_before(s, at) + 1,
        column: chars_since_newline(s, at) + 1,
        context: s.subrange(at, if at + 40 <= s.len() { at + 40 } else { s.len() as int }),
    }
}

impl ScanError {
    /// The message, then where it occurred and the text that follows.
    pub fn describe(&self) -> (s: String)
        ensures
            s@ == describe_error(self@),
    {
        let mut m: Vec<char> = Vec::new();
        let message = chars_of(self.message.as_str());
        push_range(&mut m, &message, 0, message.len());
        push_str(&mut m, " na linha ");
        push_decimal(&mut m, self.line);
        push_str(&mut m, ", coluna ");
        push_decimal(&mut m, self.column);
        push_str(&mut m, ": ");
        let context = chars_of(self.context.as_str());
        push_range(&mut m, &context, 0, context.len());
        proof {
            assert(message@.subrange(0, message@.len() as int) =~= message@);
            assert(context@.subrange(0, context@.len() as int) =~= context@);
            assert(m@ =~= describe_error(self@));
        }
        string_from(&m)
    }
}

pub open spec fn unclosed_delimiter_message(open: char) -> Seq<char> {
    "delimitador `"@ + seq![open] + "` não fechado"@
}

pub open spec fn unclosed_environment_message(name: Seq<char>) -> Seq<char> {
    "ambiente `"@ + name + "` não fechado"@
}

pub open spec fn unknown_environment_message(name: Seq<char>) -> Seq<char> {
    "ambiente desconhecido `"@ + name + "`"@
}

/// The text `ScanError`'s description holds.
pub open spec fn describe_error(e: SpecScanError) -> Seq<char> {
    e.message + " na linha "@ + decimal(e.line) + ", coluna "@ + decimal(e.column) + ": "@
        + e.context
}

// ---------------------------------------------------------------------------
// Vocabulary
// ---------------------------------------------------------------------------

pub open spec fn opaque_environments() -> Seq<Seq<char>> {
    seq![
        "equation"@, "equation*"@, "align"@, "align*"@, "alignat"@, "alignat*"@, "gather"@,
        "gather*"@, "multline"@, "multline*"@, "tikzpicture"@, "figure"@, "figure*"@,
        "table"@, "table*"@, "tabular"@, "tabular*"@, "verbatim"@, "verbatim*"@,
        "lstlisting"@, "minted"@, "thebibliography"@, "aligned"@, "array"@, "cases"@,
        "axis"@, "comment"@, "formula"@, "sagesilent"@,
    ]
}

pub open spec fn text_environments() -> Seq<Seq<char>> {
    seq![
        "document"@, "itemize"@, "enumerate"@, "description"@, "quote"@, "quotation"@,
        "center"@, "flushleft"@, "flushright"@, "minipage"@, "abstract"@, "proof"@,
        "theorem"@, "lemma"@, "proposition"@, "definition"@, "example"@, "remark"@,
        "exercise"@, "solution"@, "frame"@, "columns"@, "column"@, "dialogue"@,
        "explanation"@, "feedback"@, "hint"@, "image"@, "multipleChoice"@, "problem"@,
        "prompt"@, "question"@, "sectionOutcomes"@, "selectAll"@, "warning"@,
        "expandable"@, "freeResponse"@, "onlineOnly"@, "corollary"@, "observation"@,
    ]
}

pub open spec fn text_argument_commands() -> Seq<Seq<char>> {
    seq![
        "emph"@, "textbf"@, "textit"@, "textrm"@, "textsf"@, "texttt"@, "textsc"@,
        "textnormal"@, "text"@, "choice"@, "wordChoice"@, "outcome"@, "section"@,
        "subsection"@, "subsubsection"@, "paragraph"@,
    ]
}

pub open spec fn title_commands() -> Seq<Seq<char>> {
    seq!["title"@, "subtitle"@]
}

pub open spec fn preamble_prefixes() -> Seq<Seq<char>> {
    seq![
        "\\documentclass"@, "\\usepackage"@, "\\newcommand"@, "\\renewcommand"@, "\\def"@,
        "\\input"@, "\\RequirePackage"@,
    ]
}

// ---------------------------------------------------------------------------
// Escapes and balanced delimiters
// ---------------------------------------------------------------------------

/// Number of backslashes directly before `at`.
pub open spec fn backslash_run(s: Seq<char>, at: int) -> nat
    decreases at,
{
    if 0 < at <= s.len() && s[at - 1] == '\\' {
        backslash_run(s, at - 1) + 1
    } else {
        0
    }
}

/// The character at `at` is escaped by an odd run of backslashes.
pub open spec fn is_escaped(s: Seq<char>, at: int) -> bool {
    backslash_run(s, at) % 2 == 1
}

/// Scans from `at` with `depth` open delimiters; the index just past the
/// closing delimiter that brings the depth back to zero.
pub open spec fn balanced_from(s: Seq<char>, at: int, depth: int, open: char, close: char) -> Option<
    int,
>
    decreases s.len() - at,
{
    if at < 0 || at >= s.len() {
        None
    } else {
        let c = s[at];
        let esc = is_escaped(s, at);
        let d = if c == open && !esc { depth + 1 } else { depth };
        if c == close && !esc {
            if d - 1 == 0 {
                Some(at + 1)
            } else {
                balanced_from(s, at + 1, d - 1, open, close)
            }
        } else {
            balanced_from(s, at + 1, d, open, close)
        }
    }
}

pub open spec fn spec_balanced(s: Seq<char>, open_at: int, open: char, close: char) -> Result<
    int,
    SpecScanError,
> {
    match balanced_from(s, open_at, 0, open, close) {
        Some(e) => Ok(e),
        None => Err(spec_error(s, open_at, unclosed_delimiter_message(open))),
    }
}

pub proof fn lemma_balanced_from(s: Seq<char>, at: int, depth: int, open: char, close: char)
    ensures
        balanced_from(s, at, depth, open, close) matches Some(e) ==> at < e <= s.len() && s[e
            - 1] == close && 0 <= at,
    decreases s.len() - at,
{
    if at < 0 || at >= s.len() {
    } else {
        let c = s[at];
        let esc = is_escaped(s, at);
        let d = if c == open && !esc { depth + 1 } else { depth };
        if c == close && !esc {
            if d - 1 != 0 {
                lemma_balanced_from(s, at + 1, d - 1, open, close);
            }
        } else {
            lemma_balanced_from(s, at + 1, d, open, close);
        }
    }
}

pub proof fn lemma_balanced(s: Seq<char>, open_at: int, open: char, close: char)
    requires
        0 <= open_at < s.len(),
        s[open_at] == open,
        open != close,
    ensures
        spec_balanced(s, open_at, open, close) matches Ok(e) ==> open_at + 1 < e <= s.len()
            && s[e - 1] == close,
{
    lemma_balanced_from(s, open_at, 0, open, close);
    let c = s[open_at];
    let esc = is_escaped(s, open_at);
    let d: int = if c == open && !esc { 1 } else { 0 };
    lemma_balanced_from(s, open_at + 1, d, open, close);
}

// ---------------------------------------------------------------------------
// Commands and environments
// ---------------------------------------------------------------------------

/// End of a run of command-name characters (letters, `@`, `*`).
pub open spec fn name_end(s: Seq<char>, at: int) -> int
    decreases s.len() - at,
{
    if 0 <= at < s.len() && (is_alpha(s[at]) || s[at] == '@' || s[at] == '*') {
        name_end(s, at + 1)
    } else {
        at
    }
}

/// End of the control sequence that starts with the backslash at `at`.
pub open spec fn control_end(s: Seq<char>, at: int) -> int {
    let end0 = at + 1;
    if end0 < s.len() {
        let c = s[end0];
        if is_alpha(c) || c == '@' {
            name_end(s, end0 + 1)
        } else {
            end0 + 1
        }
    } else {
        end0
    }
}

/// Consumes the `[...]` and `{...}` arguments that follow `cursor`, each
/// possibly preceded by whitespace.
pub open spec fn command_args(s: Seq<char>, cursor: int) -> Result<int, SpecScanError>
    decreases s.len() - cursor,
{
    let w = skip_ws(s, cursor);
    if w < 0 || w >= s.len() {
        Ok(cursor)
    } else if s[w] == '[' || s[w] == '{' {
        let close = if s[w] == '[' { ']' } else { '}' };
        match spec_balanced(s, w, s[w], close) {
            Err(e) => Err(e),
            Ok(e) => {
                proof {
                    if 0 <= cursor {
                        lemma_skip_ws(s, cursor);
                    }
                    lemma_balanced(s, w, s[w], close);
                }
                if cursor < 0 {
                    Ok(cursor)
                } else {
                    command_args(s, e)
                }
            },
        }
    } else {
        Ok(cursor)
    }
}

/// End of the command at `at` (a backslash), arguments included.
pub open spec fn spec_command_end(s: Seq<char>, at: int) -> Result<int, SpecScanError> {
    command_args(s, control_end(s, at))
}

/// The name in `\begin{name}` or `\end{name}` at `at`.
pub open spec fn spec_env_name(s: Seq<char>, at: int) -> Option<Seq<char>> {
    match spec_command_end(s, at) {
        Err(_) => None,
        Ok(end) => {
            let sub = s.subrange(at, end);
            let rest = if starts_at(sub, 0, "\\begin"@) {
                Some(sub.subrange("\\begin"@.len() as int, sub.len() as int))
            } else if starts_at(sub, 0, "\\end"@) {
                Some(sub.subrange("\\end"@.len() as int, sub.len() as int))
            } else {
                None
            };
            match rest {
                None => None,
                Some(rest) => match find_from(rest, 0, "{"@) {
                    None => None,
                    Some(a0) => match find_from(rest, a0 + 1, "}"@) {
                        None => None,
                        Some(b) => Some(rest.subrange(a0 + 1, b)),
                    },
                },
            }
        },
    }
}

/// Looks for the `\end{name}` that closes an environment, counting nested
/// `\begin{name}`s, from `at` with `depth` environments open.
pub open spec fn env_end_from(
    s: Seq<char>,
    at: int,
    depth: int,
    name: Seq<char>,
    begin_at: int,
) -> Result<int, SpecScanError>
    decreases s.len() - at,
{
    if at < 0 || at >= s.len() {
        Err(spec_error(s, begin_at, unclosed_environment_message(name)))
    } else if s[at] != '\\' {
        env_end_from(s, at + 1, depth, name, begin_at)
    } else {
        let d = if starts_at(s, at, "\\begin"@) && spec_env_name(s, at) == Some(name) {
            depth + 1
        } else {
            depth
        };
        if starts_at(s, at, "\\end"@) && spec_env_name(s, at) == Some(name) {
            match spec_command_end(s, at) {
                Err(e) => Err(e),
                Ok(end) => {
                    proof {
                        lemma_command_end(s, at);
                    }
                    if d - 1 == 0 {
                        Ok(end)
                    } else {
                        env_end_from(s, end, d - 1, name, begin_at)
                    }
                },
            }
        } else {
            env_end_from(s, at + 1, d, name, begin_at)
        }
    }
}

pub open spec fn spec_find_environment_end(s: Seq<char>, begin_at: int, name: Seq<char>) -> Result<
    int,
    SpecScanError,
> {
    match spec_command_end(s, begin_at) {
        Err(e) => Err(e),
        Ok(at) => env_end_from(s, at, 1, name, begin_at),
    }
}

pub proof fn lemma_name_end(s: Seq<char>, at: int)
    requires
        0 <= at <= s.len(),
    ensures
        at <= name_end(s, at) <= s.len(),
        name_end(s, at) > at ==> {
            let c = s[name_end(s, at) - 1];
            is_alpha(c) || c == '@' || c == '*'
        },
    decreases s.len() - at,
{
    if at < s.len() && (is_alpha(s[at]) || s[at] == '@' || s[at] == '*') {
        lemma_name_end(s, at + 1);
    }
}

pub proof fn lemma_command_args(s: Seq<char>, cursor: int)
    requires
        0 <= cursor <= s.len(),
    ensures
        command_args(s, cursor) matches Ok(e) ==> cursor <= e <= s.len() && (e > cursor ==> (
        s[e - 1] == ']' || s[e - 1] == '}')),
    decreases s.len() - cursor,
{
    lemma_skip_ws(s, cursor);
    let w = skip_ws(s, cursor);
    if w < s.len() && (s[w] == '[' || s[w] == '{') {
        let close = if s[w] == '[' { ']' } else { '}' };
        lemma_balanced(s, w, s[w], close);
        if let Ok(e) = spec_balanced(s, w, s[w], close) {
            lemma_command_args(s, e);
        }
    }
}

pub proof fn lemma_command_end(s: Seq<char>, at: int)
    requires
        0 <= at < s.len(),
    ensures
        spec_command_end(s, at) matches Ok(e) ==> at < e <= s.len() && (s[e - 1] != '\\' || (e
            == at + 1 && e == s.len()) || (e == at + 2 && !(is_alpha(s[at + 1]) || s[at + 1]
            == '@'))),
{
    let end0 = at + 1;
    if end0 < s.len() {
        let c = s[end0];
        if is_alpha(c) || c == '@' {
            lemma_name_end(s, end0 + 1);
        }
    }
    lemma_command_args(s, control_end(s, at));
}

// ---------------------------------------------------------------------------
// Pieces
// ---------------------------------------------------------------------------

pub open spec fn command(original: Seq<char>) -> SpecPiece {
    SpecPiece::Protected { kind: PlaceholderKind::Command, original }
}

/// Appends prose, merging it with prose that ends the sequence.
pub open spec fn spec_push_prose(out: Seq<SpecPiece>, text: Seq<char>) -> Seq<SpecPiece> {
    if text.len() == 0 {
        out
    } else if out.len() > 0 && out.last() is Prose {
        out.drop_last().push(SpecPiece::Prose(out.last()->0 + text))
    } else {
        out.push(SpecPiece::Prose(text))
    }
}

/// The first of `cmds` whose control sequence starts at `at` and is not the
/// prefix of a longer command name.
pub open spec fn matching_command(s: Seq<char>, at: int, cmds: Seq<Seq<char>>) -> Option<
    Seq<char>,
>
    decreases cmds.len(),
{
    if cmds.len() == 0 {
        None
    } else {
        let c = cmds[0];
        let name_end = at + 1 + c.len();
        if starts_at(s, at, seq!['\\'] + c) && !(name_end < s.len() && (is_alpha(s[name_end])
            || s[name_end] == '@')) {
            Some(c)
        } else {
            matching_command(s, at, cmds.drop_first())
        }
    }
}

/// Skips whitespace and `[...]` options; the position of what follows.
pub open spec fn skip_options(s: Seq<char>, cursor: int) -> Result<int, SpecScanError>
    decreases s.len() - cursor,
{
    let w = skip_ws(s, cursor);
    if 0 <= cursor && starts_at(s, w, "["@) {
        match spec_balanced(s, w, '[', ']') {
            Err(e) => Err(e),
            Ok(e) => {
                proof {
                    lemma_skip_ws(s, cursor);
                    reveal_strlit("[");
                    lemma_starts_at(s, w, "["@);
                    lemma_balanced(s, w, '[', ']');
                }
                skip_options(s, e)
            },
        }
    } else {
        Ok(w)
    }
}

/// Where a formatting command such as `\\emph{...}` at `at` splits: its
/// protected opening ends at `a`, its argument is `s[a..b]`, and its protected
/// closing brace is `s[b..e]`.
pub open spec fn text_argument_spans(s: Seq<char>, at: int, cmds: Seq<Seq<char>>) -> Result<
    Option<(int, int, int)>,
    SpecScanError,
> {
    match matching_command(s, at, cmds) {
        None => Ok(None),
        Some(c) => {
            let c0 = at + 1 + c.len();
            let c1 = if starts_at(s, c0, "*"@) { c0 + 1 } else { c0 };
            match skip_options(s, c1) {
                Err(e) => Err(e),
                Ok(cursor) => if !starts_at(s, cursor, "{"@) {
                    Ok(None)
                } else {
                    match spec_balanced(s, cursor, '{', '}') {
                        Err(e) => Err(e),
                        Ok(end) => Ok(Some((cursor + 1, end - 1, end))),
                    }
                },
            }
        },
    }
}

/// Where `\\link[label]{url}` or `\\href{url}{label}` at `at` splits: the
/// protected text before the label ends at `a`, the label is `s[a..b]`, and
/// the protected rest is `s[b..e]`.
pub open spec fn link_spans(s: Seq<char>, at: int) -> Result<
    Option<(int, int, int)>,
    SpecScanError,
> {
    if starts_at(s, at, "\\link["@) {
        match spec_balanced(s, at + 5, '[', ']') {
            Err(e) => Err(e),
            Ok(label_end) => if !starts_at(s, label_end, "{"@) {
                Ok(None)
            } else {
                match spec_balanced(s, label_end, '{', '}') {
                    Err(e) => Err(e),
                    Ok(url_end) => Ok(Some((at + 6, label_end - 1, url_end))),
                }
            },
        }
    } else if starts_at(s, at, "\\href{"@) {
        match spec_balanced(s, at + 5, '{', '}') {
            Err(e) => Err(e),
            Ok(url_end) => if !starts_at(s, url_end, "{"@) {
                Ok(None)
            } else {
                match spec_balanced(s, url_end, '{', '}') {
                    Err(e) => Err(e),
                    Ok(b) => Ok(Some((url_end + 1, b - 1, b))),
                }
            },
        }
    } else {
        Ok(None)
    }
}

/// The pieces of a split command: its protected opening `s[at..a]`, the
/// pieces scanned from its editable part, and its protected closing `s[b..e]`.
pub open spec fn wrapped(
    s: Seq<char>,
    at: int,
    a: int,
    b: int,
    e: int,
    inner: Seq<SpecPiece>,
) -> Seq<SpecPiece> {
    seq![command(s.subrange(at, a))] + inner + seq![command(s.subrange(b, e))]
}

// ---------------------------------------------------------------------------
// The scan
// ---------------------------------------------------------------------------

/// The first unescaped occurrence of `delim` at or after `at`.
pub open spec fn unescaped_from(s: Seq<char>, at: int, delim: Seq<char>) -> Option<int>
    decreases s.len() + 1 - at,
{
    if at < 0 || at + delim.len() > s.len() {
        None
    } else if starts_at(s, at, delim) && !is_escaped(s, at) {
        Some(at)
    } else {
        unescaped_from(s, at + 1, delim)
    }
}

/// The first content line: the first line that, once leading whitespace is
/// removed, is neither empty nor a comment.
pub open spec fn first_content_line(s: Seq<char>, at: int) -> Option<Seq<char>>
    decreases s.len() + 1 - at,
{
    if at < 0 || at > s.len() {
        None
    } else {
        let e = match find_from(s, at, "\n"@) {
            Some(p) => p,
            None => s.len() as int,
        };
        let line = s.subrange(at, e);
        let t = line.subrange(skip_ws(line, 0), line.len() as int);
        if t.len() > 0 && t[0] != '%' {
            Some(t)
        } else if e < s.len() {
            proof {
                lemma_find_from_bounds(s, at, "\n"@);
            }
            first_content_line(s, e + 1)
        } else {
            None
        }
    }
}

/// A file of definitions only: its first content line loads a class or
/// package, defines a macro or inputs another file.
pub open spec fn spec_is_standalone_preamble(s: Seq<char>) -> bool {
    match first_content_line(s, 0) {
        Some(line) => exists|i: int|
            0 <= i < preamble_prefixes().len() && starts_at(line, 0, #[trigger] preamble_prefixes()[i]),
        None => false,
    }
}

pub open spec fn protected(kind: PlaceholderKind, original: Seq<char>) -> SpecPiece {
    SpecPiece::Protected { kind, original }
}

/// The pieces the scan produces from position `at`, with editable prose
/// pending since `prose_start`, `in_body` telling whether `\begin{document}`
/// (or its absence) has put the scan in the document body, and `out` the
/// pieces produced so far.
pub open spec fn scan_from(
    s: Seq<char>,
    at: int,
    prose_start: int,
    in_body: bool,
    out: Seq<SpecPiece>,
) -> Result<Seq<SpecPiece>, SpecScanError>
    decreases s.len(), s.len() - at, 3int,
{
    if at < 0 || at >= s.len() || prose_start < 0 || prose_start > at {
        Ok(
            if in_body && 0 <= prose_start <= s.len() {
                spec_push_prose(out, s.subrange(prose_start, s.len() as int))
            } else if !in_body && 0 <= prose_start < s.len() {
                out.push(protected(PlaceholderKind::Preamble, s.subrange(prose_start, s.len() as int)))
            } else {
                out
            },
        )
    } else if !in_body {
        scan_preamble_step(s, at, prose_start, out)
    } else {
        scan_body_step(s, at, prose_start, out)
    }
}

/// One step of the scan before `\begin{document}`.
pub open spec fn scan_preamble_step(
    s: Seq<char>,
    at: int,
    prose_start: int,
    out: Seq<SpecPiece>,
) -> Result<Seq<SpecPiece>, SpecScanError>
    decreases s.len(), s.len() - at, 2int,
{
    if !(0 <= prose_start <= at < s.len()) {
        Ok(out)
    } else if starts_at(s, at, "\\title"@) || starts_at(s, at, "\\subtitle"@) {
        let out1 = out.push(protected(PlaceholderKind::Preamble, s.subrange(prose_start, at)));
        match text_argument_spans(s, at, title_commands()) {
            Err(e) => Err(e),
            Ok(Some((a, b, e))) => {
                proof {
                    lemma_text_argument_spans(s, at, title_commands());
                }
                match spec_scan(s.subrange(a, b)) {
                    Err(err) => Err(err),
                    Ok(inner) => scan_from(s, e, e, false, out1 + wrapped(s, at, a, b, e, inner)),
                }
            },
            Ok(None) => scan_document_start(s, at, at, out1),
        }
    } else {
        scan_document_start(s, at, prose_start, out)
    }
}

/// Before `\begin{document}`: either the body starts at `at`, or the scan
/// moves on one character.
pub open spec fn scan_document_start(
    s: Seq<char>,
    at: int,
    prose_start: int,
    out: Seq<SpecPiece>,
) -> Result<Seq<SpecPiece>, SpecScanError>
    decreases s.len(), s.len() - at, 1int,
{
    if !(0 <= prose_start <= at < s.len()) {
        Ok(out)
    } else if starts_at(s, at, "\\begin{document}"@) {
        let out1 = out.push(protected(PlaceholderKind::Preamble, s.subrange(prose_start, at)));
        match spec_command_end(s, at) {
            Err(e) => Err(e),
            Ok(end) => {
                proof {
                    lemma_command_end(s, at);
                }
                scan_from(s, end, end, true, out1.push(command(s.subrange(at, end))))
            },
        }
    } else {
        scan_from(s, at + 1, prose_start, false, out)
    }
}

/// One step of the scan in the document body.
pub open spec fn scan_body_step(s: Seq<char>, at: int, prose_start: int, out: Seq<SpecPiece>) -> Result<
    Seq<SpecPiece>,
    SpecScanError,
>
    decreases s.len(), s.len() - at, 2int,
{
    if !(0 <= prose_start <= at < s.len()) {
        Ok(out)
    } else {
        let prose = s.subrange(prose_start, at);
        let c = s[at];
        if starts_at(s, at, "\\end{document}"@) {
            Ok(spec_push_prose(out, prose).push(command(s.subrange(at, s.len() as int))))
        } else if c == '%' && !is_escaped(s, at) {
            let end = match find_from(s, at, "\n"@) {
                Some(n) => n,
                None => s.len() as int,
            };
            proof {
                lemma_find_from_bounds(s, at, "\n"@);
                reveal_strlit("\n");
                if let Some(n) = find_from(s, at, "\n"@) {
                    lemma_starts_at(s, n, "\n"@);
                }
            }
            scan_from(
                s,
                end,
                end,
                true,
                spec_push_prose(out, prose).push(
                    protected(PlaceholderKind::Comment, s.subrange(at, end)),
                ),
            )
        } else if c == '$' && !is_escaped(s, at) {
            let display = starts_at(s, at, "$$"@);
            let from = at + if display { 2int } else { 1int };
            let delim = if display { "$$"@ } else { "$"@ };
            match unescaped_from(s, from, delim) {
                None => Err(spec_error(s, at, "matemática `$` não fechada"@)),
                Some(p) => {
                    let end = p + delim.len();
                    proof {
                        lemma_unescaped_from(s, from, delim);
                    }
                    scan_from(
                        s,
                        end,
                        end,
                        true,
                        spec_push_prose(out, prose).push(
                            protected(PlaceholderKind::Math, s.subrange(at, end)),
                        ),
                    )
                },
            }
        } else if starts_at(s, at, "\\("@) || starts_at(s, at, "\\["@) {
            let closing = if starts_at(s, at, "\\("@) { "\\)"@ } else { "\\]"@ };
            match find_from(s, at + 2, closing) {
                None => Err(spec_error(s, at, "matemática delimitada não fechada"@)),
                Some(n) => {
                    let end = n + 2;
                    proof {
                        lemma_find_from_bounds(s, at + 2, closing);
                        reveal_strlit("\\)");
                        reveal_strlit("\\]");
                    }
                    scan_from(
                        s,
                        end,
                        end,
                        true,
                        spec_push_prose(out, prose).push(
                            protected(PlaceholderKind::Math, s.subrange(at, end)),
                        ),
                    )
                },
            }
        } else if c == '\\' {
            scan_backslash(s, at, spec_push_prose(out, prose))
        } else {
            scan_from(s, at + 1, prose_start, true, out)
        }
    }
}

/// A backslash in the body: a link, a formatting command, or another
/// command; `out` already holds the prose before it.
pub open spec fn scan_backslash(s: Seq<char>, at: int, out: Seq<SpecPiece>) -> Result<
    Seq<SpecPiece>,
    SpecScanError,
>
    decreases s.len(), s.len() - at, 1int,
{
    if !(0 <= at < s.len()) {
        Ok(out)
    } else {
        let out1 = out;
        match link_spans(s, at) {
            Err(e) => Err(e),
            Ok(Some((a, b, e))) => {
                proof {
                    lemma_link_spans(s, at);
                }
                match spec_scan(s.subrange(a, b)) {
                    Err(err) => Err(err),
                    Ok(inner) => scan_from(s, e, e, true, out1 + wrapped(s, at, a, b, e, inner)),
                }
            },
            Ok(None) => match text_argument_spans(s, at, text_argument_commands()) {
                Err(e) => Err(e),
                Ok(Some((a, b, e))) => {
                    proof {
                        lemma_text_argument_spans(s, at, text_argument_commands());
                    }
                    match spec_scan(s.subrange(a, b)) {
                        Err(err) => Err(err),
                        Ok(inner) => scan_from(
                            s,
                            e,
                            e,
                            true,
                            out1 + wrapped(s, at, a, b, e, inner),
                        ),
                    }
                },
                Ok(None) => scan_command(s, at, out1),
            },
        }
    }
}

/// A command in the body that is neither a link nor a formatting command:
/// opaque environments are protected whole, unknown ones are rejected, and
/// anything else is protected together with its arguments.
pub open spec fn scan_command(s: Seq<char>, at: int, out: Seq<SpecPiece>) -> Result<
    Seq<SpecPiece>,
    SpecScanError,
>
    decreases s.len(), s.len() - at, 0int,
{
    if !(0 <= at < s.len()) {
        Ok(out)
    } else if starts_at(s, at, "\\begin"@) && spec_env_name(s, at) is None {
        Err(spec_error(s, at, "nome de ambiente inválido"@))
    } else if starts_at(s, at, "\\begin"@) && opaque_environments().contains(
        spec_env_name(s, at)->0,
    ) {
        let name = spec_env_name(s, at)->0;
        match spec_find_environment_end(s, at, name) {
            Err(e) => Err(e),
            Ok(end) => {
                proof {
                    lemma_find_environment_end(s, at, name);
                }
                scan_from(
                    s,
                    end,
                    end,
                    true,
                    out.push(protected(PlaceholderKind::Environment, s.subrange(at, end))),
                )
            },
        }
    } else if starts_at(s, at, "\\begin"@) && !text_environments().contains(
        spec_env_name(s, at)->0,
    ) {
        Err(spec_error(s, at, unknown_environment_message(spec_env_name(s, at)->0)))
    } else {
        match spec_command_end(s, at) {
            Err(e) => Err(e),
            Ok(end) => {
                proof {
                    lemma_command_end(s, at);
                }
                scan_from(s, end, end, true, out.push(command(s.subrange(at, end))))
            },
        }
    }
}

/// What `scan` returns for the text `s`.
pub open spec fn spec_scan(s: Seq<char>) -> Result<Seq<SpecPiece>, SpecScanError>
    decreases s.len(), s.len() + 1, 0int,
{
    if !contains(s, "\\begin{document}"@) && spec_is_standalone_preamble(s) {
        Ok(seq![protected(PlaceholderKind::Preamble, s)])
    } else {
        scan_from(s, 0, 0, !contains(s, "\\begin{document}"@), Seq::empty())
    }
}

// ---------------------------------------------------------------------------
// Progress lemmas used by the definitions above
// ---------------------------------------------------------------------------

pub proof fn lemma_unescaped_from(s: Seq<char>, at: int, delim: Seq<char>)
    ensures
        unescaped_from(s, at, delim) matches Some(p) ==> at <= p && p + delim.len() <= s.len()
            && starts_at(s, p, delim) && !is_escaped(s, p),
    decreases s.len() + 1 - at,
{
    if at < 0 || at + delim.len() > s.len() {
    } else if starts_at(s, at, delim) && !is_escaped(s, at) {
    } else {
        lemma_unescaped_from(s, at + 1, delim);
    }
}

pub proof fn lemma_find_environment_end(s: Seq<char>, begin_at: int, name: Seq<char>)
    requires
        0 <= begin_at < s.len(),
    ensures
        spec_find_environment_end(s, begin_at, name) matches Ok(e) ==> begin_at < e <= s.len(),
{
    lemma_command_end(s, begin_at);
    if let Ok(at) = spec_command_end(s, begin_at) {
        lemma_env_end_from(s, at, 1, name, begin_at);
    }
}

pub proof fn lemma_env_end_from(s: Seq<char>, at: int, depth: int, name: Seq<char>, begin_at: int)
    ensures
        env_end_from(s, at, depth, name, begin_at) matches Ok(e) ==> at < e <= s.len(),
    decreases s.len() - at,
{
    if at < 0 || at >= s.len() {
    } else if s[at] != '\\' {
        lemma_env_end_from(s, at + 1, depth, name, begin_at);
    } else {
        let d = if starts_at(s, at, "\\begin"@) && spec_env_name(s, at) == Some(name) {
            depth + 1
        } else {
            depth
        };
        lemma_command_end(s, at);
        if starts_at(s, at, "\\end"@) && spec_env_name(s, at) == Some(name) {
            if let Ok(end) = spec_command_end(s, at) {
                if d - 1 != 0 {
                    lemma_env_end_from(s, end, d - 1, name, begin_at);
                }
            }
        } else {
            lemma_env_end_from(s, at + 1, d, name, begin_at);
        }
    }
}

pub proof fn lemma_text_argument_spans(s: Seq<char>, at: int, cmds: Seq<Seq<char>>)
    requires
        0 <= at < s.len(),
    ensures
        text_argument_spans(s, at, cmds) matches Ok(Some((a, b, e))) ==> at < a <= b < e
            <= s.len(),
{
    if let Some(c) = matching_command(s, at, cmds) {
        lemma_matching_command(s, at, cmds);
        let c0 = at + 1 + c.len();
        assert((seq!['\\'] + c).len() == 1 + c.len());
        let c1 = if starts_at(s, c0, "*"@) { c0 + 1 } else { c0 };
        reveal_strlit("*");
        lemma_skip_options(s, c1);
        if let Ok(cursor) = skip_options(s, c1) {
            if starts_at(s, cursor, "{"@) {
                reveal_strlit("{");
                lemma_starts_at(s, cursor, "{"@);
                lemma_balanced(s, cursor, '{', '}');
            }
        }
    }
}

pub proof fn lemma_matching_command(s: Seq<char>, at: int, cmds: Seq<Seq<char>>)
    ensures
        matching_command(s, at, cmds) matches Some(c) ==> starts_at(s, at, seq!['\\'] + c),
    decreases cmds.len(),
{
    if cmds.len() > 0 {
        lemma_matching_command(s, at, cmds.drop_first());
    }
}

pub proof fn lemma_skip_options(s: Seq<char>, cursor: int)
    requires
        0 <= cursor <= s.len(),
    ensures
        skip_options(s, cursor) matches Ok(e) ==> cursor <= e <= s.len(),
    decreases s.len() - cursor,
{
    lemma_skip_ws(s, cursor);
    let w = skip_ws(s, cursor);
    if starts_at(s, w, "["@) {
        reveal_strlit("[");
        lemma_starts_at(s, w, "["@);
        lemma_balanced(s, w, '[', ']');
        if let Ok(e) = spec_balanced(s, w, '[', ']') {
            lemma_skip_options(s, e);
        }
    }
}

pub proof fn lemma_link_spans(s: Seq<char>, at: int)
    requires
        0 <= at < s.len(),
    ensures
        link_spans(s, at) matches Ok(Some((a, b, e))) ==> at < a <= b < e <= s.len(),
{
    if starts_at(s, at, "\\link["@) {
        reveal_strlit("\\link[");
        lemma_starts_at(s, at, "\\link["@);
        assert("\\link["@[5] == '[');
        lemma_balanced(s, at + 5, '[', ']');
        if let Ok(label_end) = spec_balanced(s, at + 5, '[', ']') {
            if starts_at(s, label_end, "{"@) {
                reveal_strlit("{");
                lemma_starts_at(s, label_end, "{"@);
                lemma_balanced(s, label_end, '{', '}');
            }
        }
    } else if starts_at(s, at, "\\href{"@) {
        reveal_strlit("\\href{");
        lemma_starts_at(s, at, "\\href{"@);
        assert("\\href{"@[5] == '{');
        lemma_balanced(s, at + 5, '{', '}');
        if let Ok(url_end) = spec_balanced(s, at + 5, '{', '}') {
            if starts_at(s, url_end, "{"@) {
                reveal_strlit("{");
                lemma_starts_at(s, url_end, "{"@);
                lemma_balanced(s, url_end, '{', '}');
            }
        }
    }
}

} // verus!

verus! {

// ---------------------------------------------------------------------------
// Executable scanner: helpers
// ---------------------------------------------------------------------------

/// An executable position result agrees with its specification.
pub open spec fn same_result(r: Result<usize, ScanError>, spec: Result<int, SpecScanError>) -> bool {
    match r {
        Ok(x) => spec == Ok::<int, SpecScanError>(x as int),
        Err(x) => spec == Err::<int, SpecScanError>(x@),
    }
}

fn escaped(s: &[char], at: usize) -> (b: bool)
    requires
        at <= s@.len(),
    ensures
        b == is_escaped(s@, at as int),
{
    let mut run: usize = 0;
    let mut p = at;
    while p > 0 && s[p - 1] == '\\'
        invariant
            p <= at <= s@.len(),
            run + p == at,
            backslash_run(s@, at as int) == run + backslash_run(s@, p as int),
        decreases p,
    {
        p -= 1;
        run += 1;
    }
    run % 2 == 1
}

/// Line and column (both from 1) of the character at `at`.
fn position(s: &[char], at: usize) -> (r: (usize, usize))
    requires
        at < s@.len(),
    ensures
        r.0 == newlines_before(s@, at as int) + 1,
        r.1 == chars_since_newline(s@, at as int) + 1,
{
    let mut i: usize = 0;
    let mut lines: usize = 0;
    let mut column: usize = 0;
    while i < at
        invariant
            i <= at <= s@.len(),
            lines == newlines_before(s@, i as int),
            column == chars_since_newline(s@, i as int),
            lines <= i,
            column <= i,
            s@.len() == s.len(),
        decreases at - i,
    {
        if s[i] == '\n' {
            lines += 1;
            column = 0;
        } else {
            column += 1;
        }
        i += 1;
    }
    (lines + 1, column + 1)
}

fn error(s: &[char], at: usize, message: Vec<char>) -> (e: ScanError)
    requires
        at < s@.len(),
    ensures
        e@ == spec_error(s@, at as int, message@),
{
    let (line, column) = position(s, at);
    let end = if s.len() - at >= 40 { at + 40 } else { s.len() };
    ScanError {
        message: string_from(&message),
        line,
        column,
        context: string_range(s, at, end),
    }
}

fn balanced(s: &[char], open_at: usize, open: char, close: char) -> (r: Result<usize, ScanError>)
    requires
        open_at < s@.len(),
        s@[open_at as int] == open,
        open != close,
        !is_escaped(s@, open_at as int),
    ensures
        same_result(r, spec_balanced(s@, open_at as int, open, close)),
        spec_balanced(s@, open_at as int, open, close) matches Ok(e) ==> open_at + 1 < e
            <= s@.len() && s@[e - 1] == close,
{
    proof {
        lemma_balanced(s@, open_at as int, open, close);
    }
    let mut depth: usize = 0;
    let mut at = open_at;
    while at < s.len()
        invariant
            open_at <= at <= s@.len(),
            s@[open_at as int] == open,
            open != close,
            at == open_at ==> depth == 0,
            at > open_at ==> depth >= 1,
            depth <= at - open_at,
            balanced_from(s@, open_at as int, 0, open, close) == balanced_from(
                s@,
                at as int,
                depth as int,
                open,
                close,
            ),
            !is_escaped(s@, open_at as int),
        decreases s@.len() - at,
    {
        let c = s[at];
        let esc = escaped(s, at);
        if c == open && !esc {
            depth += 1;
        }
        if c == close && !esc {
            depth -= 1;
            if depth == 0 {
                return Ok(at + 1);
            }
        }
        at += 1;
    }
    let mut message: Vec<char> = Vec::new();
    push_str(&mut message, "delimitador `");
    message.push(open);
    push_str(&mut message, "` não fechado");
    proof {
        assert(message@ =~= unclosed_delimiter_message(open));
    }
    Err(error(s, open_at, message))
}

fn name_end_exec(s: &[char], at: usize) -> (e: usize)
    requires
        at <= s@.len(),
    ensures
        e == name_end(s@, at as int),
{
    let mut p = at;
    while p < s.len() && (alphabetic(s[p]) || s[p] == '@' || s[p] == '*')
        invariant
            at <= p <= s@.len(),
            name_end(s@, at as int) == name_end(s@, p as int),
        decreases s@.len() - p,
    {
        p += 1;
    }
    p
}

/// The opening bracket at `w` follows a command name, whitespace or a
/// closing bracket, so no backslash escapes it.
pub open spec fn command_start_ok(s: Seq<char>, at: int) -> bool {
    &&& 0 <= at < s.len()
    &&& s[at] == '\\'
    &&& (at + 1 < s.len() && s[at + 1] == '\\') ==> !is_escaped(s, at)
}

proof fn lemma_run_after_bracket(s: Seq<char>, e: int)
    requires
        0 < e <= s.len(),
        s[e - 1] != '\\',
    ensures
        backslash_run(s, e) == 0,
{
}

fn command_end(s: &[char], at: usize) -> (r: Result<usize, ScanError>)
    requires
        command_start_ok(s@, at as int),
    ensures
        same_result(r, spec_command_end(s@, at as int)),
        r matches Ok(e) ==> at < e <= s@.len(),
{
    proof {
        lemma_command_end(s@, at as int);
    }
    let n = s.len();
    let end0 = at + 1;
    let mut cursor = if end0 < s.len() {
        let c = s[end0];
        if alphabetic(c) || c == '@' {
            proof {
                lemma_name_end(s@, end0 + 1);
            }
            name_end_exec(s, end0 + 1)
        } else {
            end0 + 1
        }
    } else {
        end0
    };
    assert(cursor == control_end(s@, at as int));
    // The first opener is unescaped: it follows whitespace, a name character,
    // or the second backslash of `\\`.
    let ghost first = cursor;
    proof {
        if cursor > 0 && cursor <= s@.len() && s@[cursor - 1] != '\\' {
            lemma_run_after_bracket(s@, cursor as int);
        }
        if cursor == at + 2 && s@[at + 1] == '\\' {
            assert(backslash_run(s@, at + 1) == backslash_run(s@, at as int) + 1);
            assert(backslash_run(s@, cursor as int) == backslash_run(s@, at as int) + 2);
        }
    }
    loop
        invariant
            at < cursor <= s@.len(),
            command_args(s@, control_end(s@, at as int)) == command_args(s@, cursor as int),
            cursor == first || s@[cursor - 1] == ']' || s@[cursor - 1] == '}',
            first == control_end(s@, at as int),
            command_start_ok(s@, at as int),
            cursor == first ==> (backslash_run(s@, cursor as int) % 2 == 0 || s@[cursor - 1]
                != '\\' || cursor == s@.len()),
        decreases s@.len() - cursor,
    {
        let w = skip_whitespace(s, cursor);
        proof {
            lemma_skip_ws(s@, cursor as int);
        }
        if w >= s.len() {
            return Ok(cursor);
        }
        let c = s[w];
        if c == '[' || c == '{' {
            let close = if c == '[' { ']' } else { '}' };
            proof {
                if w > cursor {
                    lemma_run_after_bracket(s@, w as int);
                } else if s@[cursor - 1] != '\\' {
                    lemma_run_after_bracket(s@, cursor as int);
                } else {
                    if cursor != first {
                        assert(false);
                    }
                }
                lemma_balanced(s@, w as int, c, close);
            }
            match balanced(s, w, c, close) {
                Ok(e) => {
                    cursor = e;
                },
                Err(e) => {
                    return Err(e);
                },
            }
        } else {
            return Ok(cursor);
        }
    }
}

} // verus!

verus! {

// ---------------------------------------------------------------------------
// Executable scanner: vocabulary
// ---------------------------------------------------------------------------

pub open spec fn strs_view(v: Seq<&str>) -> Seq<Seq<char>> {
    v.map_values(|c: &str| c@)
}

/// Every name is non-empty and does not end with a backslash, so the
/// argument that follows a command of the list is never escaped.
pub open spec fn plain_names(v: Seq<Seq<char>>) -> bool {
    forall|i: int| 0 <= i < v.len() ==> v[i].len() > 0 && #[trigger] v[i].last() != '\\'
}

fn title_command_names() -> (v: Vec<&'static str>)
    ensures
        strs_view(v@) == title_commands(),
        plain_names(strs_view(v@)),
{
    let v = vec!["title", "subtitle"];
    proof {
        reveal_strlit("title");
        reveal_strlit("subtitle");
        assert(strs_view(v@) =~= title_commands());
    }
    v
}

fn text_argument_command_names() -> (v: Vec<&'static str>)
    ensures
        strs_view(v@) == text_argument_commands(),
        plain_names(strs_view(v@)),
{
    let v = vec![
        "emph",
        "textbf",
        "textit",
        "textrm",
        "textsf",
        "texttt",
        "textsc",
        "textnormal",
        "text",
        "choice",
        "wordChoice",
        "outcome",
        "section",
        "subsection",
        "subsubsection",
        "paragraph",
    ];
    proof {
        reveal_strlit("emph");
        reveal_strlit("textbf");
        reveal_strlit("textit");
        reveal_strlit("textrm");
        reveal_strlit("textsf");
        reveal_strlit("texttt");
        reveal_strlit("textsc");
        reveal_strlit("textnormal");
        reveal_strlit("text");
        reveal_strlit("choice");
        reveal_strlit("wordChoice");
        reveal_strlit("outcome");
        reveal_strlit("section");
        reveal_strlit("subsection");
        reveal_strlit("subsubsection");
        reveal_strlit("paragraph");
        assert(strs_view(v@) =~= text_argument_commands());
    }
    v
}

fn opaque_environment_names() -> (v: Vec<&'static str>)
    ensures
        strs_view(v@) == opaque_environments(),
{
    let v = vec![
        "equation",
        "equation*",
        "align",
        "align*",
        "alignat",
        "alignat*",
        "gather",
        "gather*",
        "multline",
        "multline*",
        "tikzpicture",
        "figure",
        "figure*",
        "table",
        "table*",
        "tabular",
        "tabular*",
        "verbatim",
        "verbatim*",
        "lstlisting",
        "minted",
        "thebibliography",
        "aligned",
        "array",
        "cases",
        "axis",
        "comment",
        "formula",
        "sagesilent",
    ];
    proof {
        assert(strs_view(v@) =~= opaque_environments());
    }
    v
}

fn text_environment_names() -> (v: Vec<&'static str>)
    ensures
        strs_view(v@) == text_environments(),
{
    let v = vec![
        "document",
        "itemize",
        "enumerate",
        "description",
        "quote",
        "quotation",
        "center",
        "flushleft",
        "flushright",
        "minipage",
        "abstract",
        "proof",
        "theorem",
        "lemma",
        "proposition",
        "definition",
        "example",
        "remark",
        "exercise",
        "solution",
        "frame",
        "columns",
        "column",
        "dialogue",
        "explanation",
        "feedback",
        "hint",
        "image",
        "multipleChoice",
        "problem",
        "prompt",
        "question",
        "sectionOutcomes",
        "selectAll",
        "warning",
        "expandable",
        "freeResponse",
        "onlineOnly",
        "corollary",
        "observation",
    ];
    proof {
        assert(strs_view(v@) =~= text_environments());
    }
    v
}

fn preamble_prefix_names() -> (v: Vec<&'static str>)
    ensures
        strs_view(v@) == preamble_prefixes(),
{
    let v = vec![
        "\\documentclass",
        "\\usepackage",
        "\\newcommand",
        "\\renewcommand",
        "\\def",
        "\\input",
        "\\RequirePackage",
    ];
    proof {
        assert(strs_view(v@) =~= preamble_prefixes());
    }
    v
}

/// Whether `name` is one of `list`.
fn contains_name(list: &[&str], name: &[char]) -> (b: bool)
    ensures
        b == strs_view(list@).contains(name@),
{
    let mut i: usize = 0;
    while i < list.len()
        invariant
            i <= list@.len(),
            forall|j: int| 0 <= j < i ==> strs_view(list@)[j] != name@,
        decreases list@.len() - i,
    {
        if chars_eq_str(name, list[i]) {
            assert(strs_view(list@)[i as int] == name@);
            return true;
        }
        i += 1;
    }
    proof {
        if strs_view(list@).contains(name@) {
            let j = choose|j: int| 0 <= j < strs_view(list@).len() && strs_view(list@)[j] == name@;
            assert(false);
        }
    }
    false
}

} // verus!

verus! {

// ---------------------------------------------------------------------------
// Executable scanner: environments, prose, commands with text arguments
// ---------------------------------------------------------------------------

fn copy_range(s: &[char], from: usize, to: usize) -> (v: Vec<char>)
    requires
        from <= to <= s@.len(),
    ensures
        v@ == s@.subrange(from as int, to as int),
{
    let mut v: Vec<char> = Vec::new();
    push_range(&mut v, s, from, to);
    v
}

fn env_name(s: &[char], at: usize) -> (r: Option<Vec<char>>)
    requires
        command_start_ok(s@, at as int),
    ensures
        match spec_env_name(s@, at as int) {
            Some(n) => r matches Some(v) && v@ == n,
            None => r is None,
        },
{
    proof {
        lemma_command_end(s@, at as int);
    }
    let end = match command_end(s, at) {
        Ok(e) => e,
        Err(_) => {
            return None;
        },
    };
    assert(spec_command_end(s@, at as int) == Ok::<int, SpecScanError>(end as int));
    let sub = copy_range(s, at, end);
    let ghost spec_rest = if starts_at(sub@, 0, "\\begin"@) {
        Some(sub@.subrange("\\begin"@.len() as int, sub@.len() as int))
    } else if starts_at(sub@, 0, "\\end"@) {
        Some(sub@.subrange("\\end"@.len() as int, sub@.len() as int))
    } else {
        None
    };
    let rest = if starts_str(&sub, 0, "\\begin") {
        proof {
            reveal_strlit("\\begin");
        }
        copy_range(&sub, 6, sub.len())
    } else if starts_str(&sub, 0, "\\end") {
        proof {
            reveal_strlit("\\end");
        }
        copy_range(&sub, 4, sub.len())
    } else {
        assert(spec_env_name(s@, at as int) is None);
        return None;
    };
    assert(spec_rest == Some(rest@));
    let a0 = match find_str(&rest, 0, "{") {
        Some(p) => p,
        None => {
            assert(spec_env_name(s@, at as int) is None);
            return None;
        },
    };
    proof {
        lemma_find_from_bounds(rest@, 0, "{"@);
        reveal_strlit("{");
    }
    let b = match find_str(&rest, a0 + 1, "}") {
        Some(p) => p,
        None => {
            assert(spec_env_name(s@, at as int) is None);
            return None;
        },
    };
    proof {
        lemma_find_from_bounds(rest@, a0 + 1, "}"@);
        reveal_strlit("}");
    }
    Some(copy_range(&rest, a0 + 1, b))
}

fn names_match(s: &[char], at: usize, keyword: &str, name: &[char]) -> (b: bool)
    requires
        at < s@.len(),
        s@[at as int] == '\\',
        keyword@ == "\\begin"@ || keyword@ == "\\end"@,
    ensures
        b == (starts_at(s@, at as int, keyword@) && spec_env_name(s@, at as int) == Some(name@)),
{
    if !starts_str(s, at, keyword) {
        return false;
    }
    proof {
        reveal_strlit("\\begin");
        reveal_strlit("\\end");
        lemma_starts_at(s@, at as int, keyword@);
        assert(keyword@[1] == 'b' || keyword@[1] == 'e');
    }
    match env_name(s, at) {
        Some(n) => chars_eq(&n, name),
        None => false,
    }
}

fn find_environment_end(s: &[char], begin_at: usize, name: &[char]) -> (r: Result<
    usize,
    ScanError,
>)
    requires
        begin_at < s@.len(),
        starts_at(s@, begin_at as int, "\\begin"@),
    ensures
        same_result(r, spec_find_environment_end(s@, begin_at as int, name@)),
        r matches Ok(e) ==> begin_at < e <= s@.len() && s@[e - 1] != '\\',
{
    proof {
        reveal_strlit("\\begin");
        lemma_starts_at(s@, begin_at as int, "\\begin"@);
        assert("\\begin"@[1] == 'b');
    }
    let mut at = match command_end(s, begin_at) {
        Ok(e) => e,
        Err(e) => {
            return Err(e);
        },
    };
    let mut depth: usize = 1;
    let n = s.len();
    loop
        invariant
            begin_at < at <= s@.len(),
            n == s@.len(),
            1 <= depth <= at,
            spec_find_environment_end(s@, begin_at as int, name@) == env_end_from(
                s@,
                at as int,
                depth as int,
                name@,
                begin_at as int,
            ),
        decreases s@.len() - at,
    {
        if at >= n {
            let mut message: Vec<char> = Vec::new();
            push_str(&mut message, "ambiente `");
            push_range(&mut message, name, 0, name.len());
            push_str(&mut message, "` não fechado");
            proof {
                assert(name@.subrange(0, name@.len() as int) =~= name@);
                assert(message@ =~= unclosed_environment_message(name@));
            }
            return Err(error(s, begin_at, message));
        }
        if s[at] != '\\' {
            at += 1;
            continue;
        }
        let opens = names_match(s, at, "\\begin", name);
        let d = if opens { depth + 1 } else { depth };
        if names_match(s, at, "\\end", name) {
            proof {
                reveal_strlit("\\end");
                lemma_starts_at(s@, at as int, "\\end"@);
                assert("\\end"@[1] == 'e');
                lemma_command_end(s@, at as int);
            }
            let end = match command_end(s, at) {
                Ok(e) => e,
                Err(e) => {
                    return Err(e);
                },
            };
            if d - 1 == 0 {
                return Ok(end);
            }
            depth = d - 1;
            at = end;
        } else {
            depth = d;
            at += 1;
        }
    }
}

/// Appends `s[from..to]` as prose, merging it with prose that ends `out`.
fn push_prose(out: &mut Vec<Piece>, s: &[char], from: usize, to: usize)
    requires
        from <= to <= s@.len(),
    ensures
        pieces_view(final(out)@) == spec_push_prose(
            pieces_view(old(out)@),
            s@.subrange(from as int, to as int),
        ),
{
    if from == to {
        return;
    }
    let ghost before = pieces_view(out@);
    let last = out.pop();
    proof {
        if before.len() > 0 {
            assert(pieces_view(out@) =~= before.drop_last());
        }
    }
    match last {
        None => {
            push_piece(out, Piece::Prose(string_range(s, from, to)));
        },
        Some(Piece::Prose(previous)) => {
            let mut text = chars_of(previous.as_str());
            push_range(&mut text, s, from, to);
            push_piece(out, Piece::Prose(string_from(&text)));
        },
        Some(other) => {
            push_piece(out, other);
            proof {
                assert(pieces_view(out@) =~= before);
            }
            push_piece(out, Piece::Prose(string_range(s, from, to)));
        },
    }
}

/// Index into `cmds` of the command that `matching_command` picks.
fn matching_command_index(s: &[char], at: usize, cmds: &[&str]) -> (r: Option<usize>)
    ensures
        r matches Some(i) ==> i < cmds@.len() && matching_command(s@, at as int, strs_view(cmds@))
            == Some(cmds@[i as int]@),
        r is None ==> matching_command(s@, at as int, strs_view(cmds@)) is None,
{
    let ghost all = strs_view(cmds@);
    assert(all.skip(0) =~= all);
    let mut i: usize = 0;
    while i < cmds.len()
        invariant
            i <= cmds@.len(),
            all == strs_view(cmds@),
            matching_command(s@, at as int, all) == matching_command(
                s@,
                at as int,
                all.skip(i as int),
            ),
        decreases cmds@.len() - i,
    {
        let c = cmds[i];
        let ghost rest = all.skip(i as int);
        assert(rest[0] == c@);
        assert(rest.drop_first() =~= all.skip(i + 1));
        let starts = at < s.len() && s[at] == '\\' && starts_str(s, at + 1, c);
        proof {
            let needle = seq!['\\'] + c@;
            if starts {
                assert(s@.subrange(at as int, at + needle.len()) =~= needle) by {
                    lemma_starts_at(s@, at + 1, c@);
                }
            }
            if starts_at(s@, at as int, needle) {
                lemma_starts_at(s@, at as int, needle);
                assert forall|k: int| 0 <= k < c@.len() implies s@.subrange(
                    at + 1,
                    at + 1 + c@.len(),
                )[k] == c@[k] by {
                    assert(needle[k + 1] == c@[k]);
                }
                assert(s@.subrange(at + 1, at + 1 + c@.len()) =~= c@);
                assert(needle[0] == '\\');
            }
        }
        if starts {
            let name_end = at + 1 + c.unicode_len();
            if !(name_end < s.len() && (alphabetic(s[name_end]) || s[name_end] == '@')) {
                return Some(i);
            }
        }
        i += 1;
    }
    proof {
        assert(all.skip(i as int).len() == 0);
    }
    None
}

fn skip_options_exec(s: &[char], cursor: usize) -> (r: Result<usize, ScanError>)
    requires
        0 < cursor <= s@.len(),
        s@[cursor - 1] != '\\',
    ensures
        same_result(r, skip_options(s@, cursor as int)),
        r matches Ok(e) ==> cursor <= e <= s@.len() && (e == cursor || is_ws(s@[e - 1]) || s@[e
            - 1] == ']'),
{
    let mut c = cursor;
    loop
        invariant
            cursor <= c <= s@.len(),
            skip_options(s@, cursor as int) == skip_options(s@, c as int),
            c == cursor || s@[c - 1] == ']',
            0 < cursor,
            s@[cursor - 1] != '\\',
        decreases s@.len() - c,
    {
        let w = skip_whitespace(s, c);
        proof {
            lemma_skip_ws(s@, c as int);
        }
        if starts_str(s, w, "[") {
            proof {
                reveal_strlit("[");
                lemma_starts_at(s@, w as int, "["@);
                if w > c {
                    assert(is_ws(s@[w - 1]));
                }
                assert(backslash_run(s@, w as int) == 0) by {
                    if w > 0 {
                        assert(s@[w - 1] != '\\');
                    }
                }
                lemma_balanced(s@, w as int, '[', ']');
            }
            match balanced(s, w, '[', ']') {
                Ok(e) => {
                    assert(skip_options(s@, c as int) == skip_options(s@, e as int));
                    c = e;
                },
                Err(e) => {
                    return Err(e);
                },
            }
        } else {
            proof {
                if w > c {
                    assert(is_ws(s@[w - 1]));
                }
            }
            return Ok(w);
        }
    }
}

fn find_unescaped(s: &[char], from: usize, delim: &str) -> (r: Option<usize>)
    requires
        from <= s@.len(),
    ensures
        r matches Some(p) ==> unescaped_from(s@, from as int, delim@) == Some(p as int),
        r is None ==> unescaped_from(s@, from as int, delim@) is None,
{
    let dlen = delim.unicode_len();
    let mut p = from;
    loop
        invariant
            from <= p <= s@.len(),
            dlen == delim@.len(),
            unescaped_from(s@, from as int, delim@) == unescaped_from(s@, p as int, delim@),
        decreases s@.len() + 1 - p,
    {
        if dlen > s.len() - p {
            return None;
        }
        if starts_str(s, p, delim) && !escaped(s, p) {
            return Some(p);
        }
        if p == s.len() {
            assert(unescaped_from(s@, p + 1, delim@) is None);
            return None;
        }
        p += 1;
    }
}

fn is_standalone_preamble(s: &[char]) -> (b: bool)
    ensures
        b == spec_is_standalone_preamble(s@),
{
    let prefixes = preamble_prefix_names();
    let mut at: usize = 0;
    loop
        invariant
            at <= s@.len(),
            first_content_line(s@, 0) == first_content_line(s@, at as int),
            strs_view(prefixes@) == preamble_prefixes(),
        decreases s@.len() - at,
    {
        let e = match find_str(s, at, "\n") {
            Some(p) => p,
            None => s.len(),
        };
        proof {
            lemma_find_from_bounds(s@, at as int, "\n"@);
        }
        let line = copy_range(s, at, e);
        let w = skip_whitespace(&line, 0);
        if w < line.len() && line[w] != '%' {
            let t = copy_range(&line, w, line.len());
            assert(t@[0] == line@[w as int]);
            assert(first_content_line(s@, at as int) == Some(t@));
            assert(first_content_line(s@, 0) == Some(t@));
            let mut i: usize = 0;
            while i < prefixes.len()
                invariant
                    i <= prefixes@.len(),
                    strs_view(prefixes@) == preamble_prefixes(),
                    first_content_line(s@, 0) == Some(t@),
                    forall|j: int| 0 <= j < i ==> !starts_at(t@, 0, #[trigger] preamble_prefixes()[j]),
                decreases prefixes@.len() - i,
            {
                if starts_str(&t, 0, prefixes[i]) {
                    assert(strs_view(prefixes@)[i as int] == prefixes@[i as int]@);
                    assert(starts_at(t@, 0, preamble_prefixes()[i as int]));
                    assert(0 <= i < preamble_prefixes().len());
                    assert(first_content_line(s@, 0) == Some(t@));
                    return true;
                }
                i += 1;
            }
            return false;
        }
        if e < s.len() {
            at = e + 1;
        } else {
            return false;
        }
    }
}

} // verus!

verus! {

// ---------------------------------------------------------------------------
// Executable scanner: split commands and the scan itself
// ---------------------------------------------------------------------------

/// The pieces `text_argument_end` adds for the formatting command at `at`,
/// with the position after it.
pub open spec fn text_argument_result(s: Seq<char>, at: int, cmds: Seq<Seq<char>>) -> Result<
    Option<(int, Seq<SpecPiece>)>,
    SpecScanError,
> {
    match text_argument_spans(s, at, cmds) {
        Err(e) => Err(e),
        Ok(None) => Ok(None),
        Ok(Some((a, b, e))) => match spec_scan(s.subrange(a, b)) {
            Err(x) => Err(x),
            Ok(inner) => Ok(Some((e, wrapped(s, at, a, b, e, inner)))),
        },
    }
}

/// The pieces `link_end` adds for the link at `at`, with the position after it.
pub open spec fn link_result(s: Seq<char>, at: int) -> Result<
    Option<(int, Seq<SpecPiece>)>,
    SpecScanError,
> {
    match link_spans(s, at) {
        Err(e) => Err(e),
        Ok(None) => Ok(None),
        Ok(Some((a, b, e))) => match spec_scan(s.subrange(a, b)) {
            Err(x) => Err(x),
            Ok(inner) => Ok(Some((e, wrapped(s, at, a, b, e, inner)))),
        },
    }
}

/// A split command's executable result agrees with its specification.
pub open spec fn same_split(
    r: Result<Option<usize>, ScanError>,
    spec: Result<Option<(int, Seq<SpecPiece>)>, SpecScanError>,
    before: Seq<SpecPiece>,
    after: Seq<SpecPiece>,
) -> bool {
    match r {
        Err(x) => spec == Err::<Option<(int, Seq<SpecPiece>)>, SpecScanError>(x@),
        Ok(None) => spec == Ok::<Option<(int, Seq<SpecPiece>)>, SpecScanError>(None) && after
            == before,
        Ok(Some(e)) => spec matches Ok(Some((e2, ps))) && e2 == e as int && after == before + ps,
    }
}

/// A scan's executable result agrees with its specification.
pub open spec fn same_pieces(
    r: Result<Vec<Piece>, ScanError>,
    spec: Result<Seq<SpecPiece>, SpecScanError>,
) -> bool {
    match r {
        Ok(v) => spec == Ok::<Seq<SpecPiece>, SpecScanError>(pieces_view(v@)),
        Err(x) => spec == Err::<Seq<SpecPiece>, SpecScanError>(x@),
    }
}

fn protected_range(kind: PlaceholderKind, s: &[char], from: usize, to: usize) -> (p: Piece)
    requires
        from <= to <= s@.len(),
    ensures
        p@ == protected(kind, s@.subrange(from as int, to as int)),
{
    Piece::Protected { kind, original: string_range(s, from, to) }
}

fn text_argument_end(s: &[char], at: usize, cmds: &[&str], out: &mut Vec<Piece>) -> (r: Result<
    Option<usize>,
    ScanError,
>)
    requires
        at < s@.len(),
        plain_names(strs_view(cmds@)),
    ensures
        same_split(
            r,
            text_argument_result(s@, at as int, strs_view(cmds@)),
            pieces_view(old(out)@),
            pieces_view(final(out)@),
        ),
        r matches Ok(Some(e)) ==> at < e <= s@.len() && s@[e - 1] == '}',
    decreases s@.len(), 0int,
{
    let ghost cv = strs_view(cmds@);
    let ghost before = pieces_view(out@);
    let n = s.len();
    let i = match matching_command_index(s, at, cmds) {
        None => {
            return Ok(None);
        },
        Some(i) => i,
    };
    let c = cmds[i];
    proof {
        lemma_matching_command(s@, at as int, cv);
        assert(cv[i as int] == c@);
        let needle = seq!['\\'] + c@;
        lemma_starts_at(s@, at as int, needle);
        assert(needle[c@.len() as int] == c@.last());
    }
    let c0 = at + 1 + c.unicode_len();
    let star = starts_str(s, c0, "*");
    proof {
        reveal_strlit("*");
        if star {
            lemma_starts_at(s@, c0 as int, "*"@);
        }
    }
    let c1 = if star { c0 + 1 } else { c0 };
    let cursor = match skip_options_exec(s, c1) {
        Err(e) => {
            return Err(e);
        },
        Ok(x) => x,
    };
    if !starts_str(s, cursor, "{") {
        return Ok(None);
    }
    proof {
        reveal_strlit("{");
        lemma_starts_at(s@, cursor as int, "{"@);
        lemma_run_after_bracket(s@, cursor as int);
    }
    let end = match balanced(s, cursor, '{', '}') {
        Err(e) => {
            return Err(e);
        },
        Ok(x) => x,
    };
    let ghost spans = (cursor + 1, end - 1, end as int);
    assert(text_argument_spans(s@, at as int, cv) == Ok::<
        Option<(int, int, int)>,
        SpecScanError,
    >(Some(spans)));
    push_piece(out, protected_range(PlaceholderKind::Command, s, at, cursor + 1));
    let sub = vstd::slice::slice_subrange(s, cursor + 1, end - 1);
    let inner = match scan_chars(sub) {
        Err(e) => {
            return Err(e);
        },
        Ok(v) => v,
    };
    let ghost inner_view = pieces_view(inner@);
    append_pieces(out, inner);
    push_piece(out, protected_range(PlaceholderKind::Command, s, end - 1, end));
    proof {
        assert(pieces_view(out@) =~= before + wrapped(
            s@,
            at as int,
            cursor + 1,
            end - 1,
            end as int,
            inner_view,
        ));
    }
    Ok(Some(end))
}

fn link_end(s: &[char], at: usize, out: &mut Vec<Piece>) -> (r: Result<Option<usize>, ScanError>)
    requires
        at < s@.len(),
    ensures
        same_split(r, link_result(s@, at as int), pieces_view(old(out)@), pieces_view(final(out)@)),
        r matches Ok(Some(e)) ==> at < e <= s@.len() && s@[e - 1] == '}',
    decreases s@.len(), 0int,
{
    let ghost before = pieces_view(out@);
    let n = s.len();
    let (a, b, e) = if starts_str(s, at, "\\link[") {
        proof {
            reveal_strlit("\\link[");
            lemma_starts_at(s@, at as int, "\\link["@);
            assert("\\link["@[5] == '[');
            assert("\\link["@[4] == 'k');
            lemma_run_after_bracket(s@, at + 5);
        }
        let label_end = match balanced(s, at + 5, '[', ']') {
            Err(x) => {
                return Err(x);
            },
            Ok(x) => x,
        };
        if !starts_str(s, label_end, "{") {
            return Ok(None);
        }
        proof {
            reveal_strlit("{");
            lemma_starts_at(s@, label_end as int, "{"@);
            lemma_run_after_bracket(s@, label_end as int);
        }
        let url_end = match balanced(s, label_end, '{', '}') {
            Err(x) => {
                return Err(x);
            },
            Ok(x) => x,
        };
        (at + 6, label_end - 1, url_end)
    } else if starts_str(s, at, "\\href{") {
        proof {
            reveal_strlit("\\href{");
            lemma_starts_at(s@, at as int, "\\href{"@);
            assert("\\href{"@[5] == '{');
            assert("\\href{"@[4] == 'f');
            lemma_run_after_bracket(s@, at + 5);
        }
        let url_end = match balanced(s, at + 5, '{', '}') {
            Err(x) => {
                return Err(x);
            },
            Ok(x) => x,
        };
        if !starts_str(s, url_end, "{") {
            return Ok(None);
        }
        proof {
            reveal_strlit("{");
            lemma_starts_at(s@, url_end as int, "{"@);
            lemma_run_after_bracket(s@, url_end as int);
        }
        let close = match balanced(s, url_end, '{', '}') {
            Err(x) => {
                return Err(x);
            },
            Ok(x) => x,
        };
        (url_end + 1, close - 1, close)
    } else {
        return Ok(None);
    };
    assert(link_spans(s@, at as int) == Ok::<Option<(int, int, int)>, SpecScanError>(
        Some((a as int, b as int, e as int)),
    ));
    push_piece(out, protected_range(PlaceholderKind::Command, s, at, a));
    let sub = vstd::slice::slice_subrange(s, a, b);
    let inner = match scan_chars(sub) {
        Err(x) => {
            return Err(x);
        },
        Ok(v) => v,
    };
    let ghost inner_view = pieces_view(inner@);
    append_pieces(out, inner);
    push_piece(out, protected_range(PlaceholderKind::Command, s, b, e));
    proof {
        assert(pieces_view(out@) =~= before + wrapped(
            s@,
            at as int,
            a as int,
            b as int,
            e as int,
            inner_view,
        ));
    }
    Ok(Some(e))
}

fn message_of(lit: &str) -> (m: Vec<char>)
    ensures
        m@ == lit@,
{
    let mut m: Vec<char> = Vec::new();
    push_str(&mut m, lit);
    assert(m@ =~= lit@);
    m
}

/// The scan's state may continue at `at`: a backslash met in the body is
/// not itself escaped.
pub open spec fn resumable(s: Seq<char>, at: int, in_body: bool) -> bool {
    in_body && at < s.len() && s[at] == '\\' ==> !is_escaped(s, at)
}

/// Protected text ending at `end` leaves the scan resumable there.
proof fn lemma_resumable_after(s: Seq<char>, end: int)
    requires
        0 < end <= s.len(),
        s[end - 1] != '\\',
    ensures
        resumable(s, end, true),
{
    if end < s.len() {
        lemma_run_after_bracket(s, end);
    }
}

/// A command at `at` in the body that is neither a link nor a formatting
/// command; `out` already holds the pieces before it.
fn command_step(
    s: &[char],
    at: usize,
    out: &mut Vec<Piece>,
    opaque: &[&str],
    text_envs: &[&str],
) -> (r: Result<usize, ScanError>)
    requires
        at < s@.len(),
        s@[at as int] == '\\',
        resumable(s@, at as int, true),
        strs_view(opaque@) == opaque_environments(),
        strs_view(text_envs@) == text_environments(),
    ensures
        match r {
            Ok(end) => at < end <= s@.len() && resumable(s@, end as int, true) && scan_command(
                s@,
                at as int,
                pieces_view(old(out)@),
            ) == scan_from(s@, end as int, end as int, true, pieces_view(final(out)@)),
            Err(e) => scan_command(s@, at as int, pieces_view(old(out)@)) == Err::<
                Seq<SpecPiece>,
                SpecScanError,
            >(e@),
        },
{
    let n = s.len();
    if starts_str(s, at, "\\begin") {
        proof {
            reveal_strlit("\\begin");
            lemma_starts_at(s@, at as int, "\\begin"@);
            assert("\\begin"@[1] == 'b');
        }
        let name = match env_name(s, at) {
            None => {
                return Err(error(s, at, message_of("nome de ambiente inválido")));
            },
            Some(v) => v,
        };
        if contains_name(opaque, &name) {
            let end = match find_environment_end(s, at, &name) {
                Err(e) => {
                    return Err(e);
                },
                Ok(x) => x,
            };
            push_piece(out, protected_range(PlaceholderKind::Environment, s, at, end));
            proof {
                lemma_resumable_after(s@, end as int);
            }
            return Ok(end);
        }
        if !contains_name(text_envs, &name) {
            let mut message = message_of("ambiente desconhecido `");
            push_range(&mut message, &name, 0, name.len());
            push_str(&mut message, "`");
            proof {
                assert(name@.subrange(0, name@.len() as int) =~= name@);
                assert(message@ =~= unknown_environment_message(name@));
            }
            return Err(error(s, at, message));
        }
    }
    proof {
        lemma_command_end(s@, at as int);
    }
    let end = match command_end(s, at) {
        Err(e) => {
            return Err(e);
        },
        Ok(x) => x,
    };
    push_piece(out, protected_range(PlaceholderKind::Command, s, at, end));
    proof {
        if end < n {
            if s@[end - 1] != '\\' {
                lemma_run_after_bracket(s@, end as int);
            } else {
                assert(backslash_run(s@, at + 1) == backslash_run(s@, at as int) + 1);
                assert(backslash_run(s@, end as int) == backslash_run(s@, at as int) + 2);
            }
        }
    }
    Ok(end)
}

/// A backslash at `at` in the body; `out` already holds the prose before it.
fn backslash_step(
    s: &[char],
    at: usize,
    out: &mut Vec<Piece>,
    text_cmds: &[&str],
    opaque: &[&str],
    text_envs: &[&str],
) -> (r: Result<usize, ScanError>)
    requires
        at < s@.len(),
        s@[at as int] == '\\',
        resumable(s@, at as int, true),
        strs_view(text_cmds@) == text_argument_commands(),
        plain_names(strs_view(text_cmds@)),
        strs_view(opaque@) == opaque_environments(),
        strs_view(text_envs@) == text_environments(),
    ensures
        match r {
            Ok(end) => at < end <= s@.len() && resumable(s@, end as int, true) && scan_backslash(
                s@,
                at as int,
                pieces_view(old(out)@),
            ) == scan_from(s@, end as int, end as int, true, pieces_view(final(out)@)),
            Err(e) => scan_backslash(s@, at as int, pieces_view(old(out)@)) == Err::<
                Seq<SpecPiece>,
                SpecScanError,
            >(e@),
        },
    decreases s@.len(), 1int,
{
    match link_end(s, at, out) {
        Err(e) => {
            return Err(e);
        },
        Ok(Some(end)) => {
            proof {
                lemma_resumable_after(s@, end as int);
            }
            return Ok(end);
        },
        Ok(None) => {},
    }
    match text_argument_end(s, at, text_cmds, out) {
        Err(e) => {
            return Err(e);
        },
        Ok(Some(end)) => {
            proof {
                lemma_resumable_after(s@, end as int);
            }
            return Ok(end);
        },
        Ok(None) => {},
    }
    command_step(s, at, out, opaque, text_envs)
}

/// Math at `at` (`$`, `$$`, `\(` or `\[`); `out` already holds the prose
/// before it. `Ok(end)` is where the formula ends.
fn math_step(s: &[char], at: usize, out: &mut Vec<Piece>, dollar: bool) -> (r: Result<
    usize,
    ScanError,
>)
    requires
        at < s@.len(),
        dollar ==> s@[at as int] == '$',
        !dollar ==> (starts_at(s@, at as int, "\\("@) || starts_at(s@, at as int, "\\["@)),
    ensures
        match r {
            Ok(end) => at < end <= s@.len() && resumable(s@, end as int, true) && pieces_view(
                final(out)@,
            ) == pieces_view(old(out)@).push(
                protected(PlaceholderKind::Math, s@.subrange(at as int, end as int)),
            ) && (dollar ==> ({
                let display = starts_at(s@, at as int, "$$"@);
                let from = at + if display { 2int } else { 1int };
                let delim = if display { "$$"@ } else { "$"@ };
                unescaped_from(s@, from, delim) matches Some(p) && end == p + delim.len()
            })) && (!dollar ==> ({
                let closing = if starts_at(s@, at as int, "\\("@) { "\\)"@ } else { "\\]"@ };
                find_from(s@, at + 2, closing) matches Some(p) && end == p + 2
            })),
            Err(e) => (dollar ==> ({
                let display = starts_at(s@, at as int, "$$"@);
                let from = at + if display { 2int } else { 1int };
                let delim = if display { "$$"@ } else { "$"@ };
                unescaped_from(s@, from, delim) is None && e@ == spec_error(
                    s@,
                    at as int,
                    "matemática `$` não fechada"@,
                )
            })) && (!dollar ==> ({
                let closing = if starts_at(s@, at as int, "\\("@) { "\\)"@ } else { "\\]"@ };
                find_from(s@, at + 2, closing) is None && e@ == spec_error(
                    s@,
                    at as int,
                    "matemática delimitada não fechada"@,
                )
            })),
        },
{
    let n = s.len();
    if dollar {
        let display = starts_str(s, at, "$$");
        proof {
            reveal_strlit("$$");
            reveal_strlit("$");
        }
        let from = if display { at + 2 } else { at + 1 };
        let found = if display {
            find_unescaped(s, from, "$$")
        } else {
            find_unescaped(s, from, "$")
        };
        match found {
            None => Err(error(s, at, message_of("matemática `$` não fechada"))),
            Some(p) => {
                proof {
                    if display {
                        lemma_unescaped_from(s@, from as int, "$$"@);
                        lemma_starts_at(s@, p as int, "$$"@);
                        assert(s@[p + 1] == "$$"@[1]);
                    } else {
                        lemma_unescaped_from(s@, from as int, "$"@);
                        lemma_starts_at(s@, p as int, "$"@);
                    }
                }
                let end = if display { p + 2 } else { p + 1 };
                proof {
                    lemma_resumable_after(s@, end as int);
                }
                push_piece(out, protected_range(PlaceholderKind::Math, s, at, end));
                Ok(end)
            },
        }
    } else {
        let paren = starts_str(s, at, "\\(");
        proof {
            reveal_strlit("\\(");
            reveal_strlit("\\[");
            reveal_strlit("\\)");
            reveal_strlit("\\]");
            if paren {
                lemma_starts_at(s@, at as int, "\\("@);
            } else {
                lemma_starts_at(s@, at as int, "\\["@);
            }
        }
        let found = if paren {
            find_str(s, at + 2, "\\)")
        } else {
            find_str(s, at + 2, "\\]")
        };
        match found {
            None => Err(error(s, at, message_of("matemática delimitada não fechada"))),
            Some(p) => {
                proof {
                    if paren {
                        lemma_find_from_bounds(s@, at + 2, "\\)"@);
                        lemma_starts_at(s@, p as int, "\\)"@);
                        assert(s@[p + 1] == "\\)"@[1]);
                    } else {
                        lemma_find_from_bounds(s@, at + 2, "\\]"@);
                        lemma_starts_at(s@, p as int, "\\]"@);
                        assert(s@[p + 1] == "\\]"@[1]);
                    }
                }
                let end = p + 2;
                proof {
                    lemma_resumable_after(s@, end as int);
                }
                push_piece(out, protected_range(PlaceholderKind::Math, s, at, end));
                Ok(end)
            },
        }
    }
}

/// One step in the body. `Ok(Some((at, prose_start)))` is the state the scan
/// continues from; `Ok(None)` means the scan is over.
fn body_step(
    s: &[char],
    at: usize,
    prose_start: usize,
    out: &mut Vec<Piece>,
    text_cmds: &[&str],
    opaque: &[&str],
    text_envs: &[&str],
) -> (r: Result<Option<(usize, usize)>, ScanError>)
    requires
        prose_start <= at < s@.len(),
        resumable(s@, at as int, true),
        strs_view(text_cmds@) == text_argument_commands(),
        plain_names(strs_view(text_cmds@)),
        strs_view(opaque@) == opaque_environments(),
        strs_view(text_envs@) == text_environments(),
    ensures
        match r {
            Ok(Some((next, next_prose))) => at < next <= s@.len() && next_prose <= next
                && resumable(s@, next as int, true) && scan_body_step(
                s@,
                at as int,
                prose_start as int,
                pieces_view(old(out)@),
            ) == scan_from(
                s@,
                next as int,
                next_prose as int,
                true,
                pieces_view(final(out)@),
            ),
            Ok(None) => scan_body_step(s@, at as int, prose_start as int, pieces_view(old(out)@))
                == Ok::<Seq<SpecPiece>, SpecScanError>(pieces_view(final(out)@)),
            Err(e) => scan_body_step(s@, at as int, prose_start as int, pieces_view(old(out)@))
                == Err::<Seq<SpecPiece>, SpecScanError>(e@),
        },
    decreases s@.len(), 2int,
{
    let n = s.len();
    let ghost o = pieces_view(out@);
    if starts_str(s, at, "\\end{document}") {
        push_prose(out, s, prose_start, at);
        push_piece(out, protected_range(PlaceholderKind::Command, s, at, n));
        return Ok(None);
    }
    let c = s[at];
    if c == '%' && !escaped(s, at) {
        push_prose(out, s, prose_start, at);
        let end = match find_str(s, at, "\n") {
            Some(p) => p,
            None => n,
        };
        proof {
            lemma_find_from_bounds(s@, at as int, "\n"@);
            reveal_strlit("\n");
            if end < n {
                lemma_starts_at(s@, end as int, "\n"@);
            }
        }
        push_piece(out, protected_range(PlaceholderKind::Comment, s, at, end));
        return Ok(Some((end, end)));
    }
    if c == '$' && !escaped(s, at) {
        push_prose(out, s, prose_start, at);
        let end = math_step(s, at, out, true)?;
        return Ok(Some((end, end)));
    }
    if starts_str(s, at, "\\(") || starts_str(s, at, "\\[") {
        push_prose(out, s, prose_start, at);
        let end = math_step(s, at, out, false)?;
        return Ok(Some((end, end)));
    }
    if c == '\\' {
        push_prose(out, s, prose_start, at);
        let end = backslash_step(s, at, out, text_cmds, opaque, text_envs)?;
        return Ok(Some((end, end)));
    }
    proof {
        if at + 1 < n {
            lemma_run_after_bracket(s@, at + 1);
        }
    }
    Ok(Some((at + 1, prose_start)))
}

/// One step before `\begin{document}`; `Ok((at, prose_start, in_body))` is
/// the state the scan continues from.
fn preamble_step(
    s: &[char],
    at: usize,
    prose_start: usize,
    out: &mut Vec<Piece>,
    titles: &[&str],
) -> (r: Result<(usize, usize, bool), ScanError>)
    requires
        prose_start <= at < s@.len(),
        strs_view(titles@) == title_commands(),
        plain_names(strs_view(titles@)),
    ensures
        match r {
            Ok((next, next_prose, body)) => at < next <= s@.len() && next_prose <= next
                && resumable(s@, next as int, body) && scan_preamble_step(
                s@,
                at as int,
                prose_start as int,
                pieces_view(old(out)@),
            ) == scan_from(
                s@,
                next as int,
                next_prose as int,
                body,
                pieces_view(final(out)@),
            ),
            Err(e) => scan_preamble_step(s@, at as int, prose_start as int, pieces_view(old(out)@))
                == Err::<Seq<SpecPiece>, SpecScanError>(e@),
        },
    decreases s@.len(), 2int,
{
    let n = s.len();
    let ghost o = pieces_view(out@);
    let mut ps = prose_start;
    if starts_str(s, at, "\\title") || starts_str(s, at, "\\subtitle") {
        push_piece(out, protected_range(PlaceholderKind::Preamble, s, prose_start, at));
        match text_argument_end(s, at, titles, out) {
            Err(e) => {
                return Err(e);
            },
            Ok(Some(end)) => {
                return Ok((end, end, false));
            },
            Ok(None) => {
                ps = at;
            },
        }
    }
    let ghost o2 = pieces_view(out@);
    assert(scan_preamble_step(s@, at as int, prose_start as int, o) == scan_document_start(
        s@,
        at as int,
        ps as int,
        o2,
    ));
    if starts_str(s, at, "\\begin{document}") {
        proof {
            reveal_strlit("\\begin{document}");
            lemma_starts_at(s@, at as int, "\\begin{document}"@);
            assert("\\begin{document}"@[1] == 'b');
            lemma_command_end(s@, at as int);
        }
        push_piece(out, protected_range(PlaceholderKind::Preamble, s, ps, at));
        let end = match command_end(s, at) {
            Err(e) => {
                return Err(e);
            },
            Ok(x) => x,
        };
        push_piece(out, protected_range(PlaceholderKind::Command, s, at, end));
        proof {
            lemma_resumable_after(s@, end as int);
        }
        return Ok((end, end, true));
    }
    Ok((at + 1, ps, false))
}

fn scan_chars(s: &[char]) -> (r: Result<Vec<Piece>, ScanError>)
    ensures
        same_pieces(r, spec_scan(s@)),
    decreases s@.len(), 3int,
{
    let n = s.len();
    let has_doc = contains_str(s, "\\begin{document}");
    if !has_doc && is_standalone_preamble(s) {
        let mut out: Vec<Piece> = Vec::new();
        push_piece(&mut out, protected_range(PlaceholderKind::Preamble, s, 0, n));
        proof {
            assert(s@.subrange(0, n as int) =~= s@);
            assert(pieces_view(out@) =~= seq![protected(PlaceholderKind::Preamble, s@)]);
        }
        return Ok(out);
    }
    let titles = title_command_names();
    let text_cmds = text_argument_command_names();
    let opaque = opaque_environment_names();
    let text_envs = text_environment_names();
    let mut out: Vec<Piece> = Vec::new();
    let mut at: usize = 0;
    let mut prose_start: usize = 0;
    let mut in_body = !has_doc;
    let ghost target = spec_scan(s@);
    assert(pieces_view(out@) =~= Seq::<SpecPiece>::empty());
    loop
        invariant
            n == s@.len(),
            prose_start <= at <= n,
            target == spec_scan(s@),
            scan_from(s@, at as int, prose_start as int, in_body, pieces_view(out@)) == target,
            resumable(s@, at as int, in_body),
            strs_view(titles@) == title_commands(),
            plain_names(strs_view(titles@)),
            strs_view(text_cmds@) == text_argument_commands(),
            plain_names(strs_view(text_cmds@)),
            strs_view(opaque@) == opaque_environments(),
            strs_view(text_envs@) == text_environments(),
        decreases n - at,
    {
        let ghost o = pieces_view(out@);
        if at >= n {
            if in_body {
                push_prose(&mut out, s, prose_start, n);
            } else if prose_start < n {
                push_piece(&mut out, protected_range(PlaceholderKind::Preamble, s, prose_start, n));
            }
            return Ok(out);
        }
        if in_body {
            assert(target == scan_body_step(s@, at as int, prose_start as int, o));
            match body_step(s, at, prose_start, &mut out, &text_cmds, &opaque, &text_envs) {
                Err(e) => {
                    return Err(e);
                },
                Ok(None) => {
                    return Ok(out);
                },
                Ok(Some((next, next_prose))) => {
                    at = next;
                    prose_start = next_prose;
                },
            }
        } else {
            assert(target == scan_preamble_step(s@, at as int, prose_start as int, o));
            match preamble_step(s, at, prose_start, &mut out, &titles) {
                Err(e) => {
                    return Err(e);
                },
                Ok((next, next_prose, body)) => {
                    at = next;
                    prose_start = next_prose;
                    in_body = body;
                },
            }
        }
    }
}

/// Conservative scanner: all LaTeX syntax is protected; only plain body text
/// is editable.
pub fn scan(input: &str) -> (r: Result<Vec<Piece>, ScanError>)
    ensures
        same_pieces(r, spec_scan(input@)),
{
    let s = chars_of(input);
    scan_chars(&s)
}

} // verus!
