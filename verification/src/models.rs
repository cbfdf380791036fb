//! The values that flow between the scanner, the segmenter, the store and the
//! reader, with their mathematical views.
use vstd::prelude::*;

verus! {

/// What a protected piece of LaTeX is.
#[derive(Debug, Clone, Copy, PartialEq, Eq, Structural)]
pub enum PlaceholderKind {
    Math,
    Command,
    Comment,
    Environment,
    Preamble,
    Delimiter,
}

/// A token in editable text and the LaTeX it stands for.
#[derive(Debug, Clone, PartialEq, Eq)]
pub struct Placeholder {
    pub token: String,
    pub original: String,
    pub kind: PlaceholderKind,
}

pub struct SpecPlaceholder {
    pub token: Seq<char>,
    pub original: Seq<char>,
    pub kind: PlaceholderKind,
}

impl View for Placeholder {
    type V = SpecPlaceholder;

    open spec fn view(&self) -> SpecPlaceholder {
        SpecPlaceholder { token: self.token@, original: self.original@, kind: self.kind }
    }
}

pub open spec fn placeholders_view(v: Seq<Placeholder>) -> Seq<SpecPlaceholder> {
    v.map_values(|p: Placeholder| p@)
}

/// A stretch of scanned source: editable prose, or LaTeX kept verbatim.
#[derive(Debug, Clone, PartialEq, Eq)]
pub enum Piece {
    Prose(String),
    Protected { kind: PlaceholderKind, original: String },
}

pub enum SpecPiece {
    Prose(Seq<char>),
    Protected { kind: PlaceholderKind, original: Seq<char> },
}

impl View for Piece {
    type V = SpecPiece;

    open spec fn view(&self) -> SpecPiece {
        match self {
            Piece::Prose(t) => SpecPiece::Prose(t@),
            Piece::Protected { kind, original } => SpecPiece::Protected {
                kind: *kind,
                original: original@,
            },
        }
    }
}

pub open spec fn pieces_view(v: Seq<Piece>) -> Seq<SpecPiece> {
    v.map_values(|p: Piece| p@)
}

/// The source text that a piece covers.
pub open spec fn piece_text(p: SpecPiece) -> Seq<char> {
    match p {
        SpecPiece::Prose(t) => t,
        SpecPiece::Protected { original, .. } => original,
    }
}

/// The source text that a sequence of pieces covers, in order.
pub open spec fn pieces_text(ps: Seq<SpecPiece>) -> Seq<char>
    decreases ps.len(),
{
    if ps.len() == 0 {
        Seq::empty()
    } else {
        pieces_text(ps.drop_last()) + piece_text(ps.last())
    }
}

/// An editable range of a source file, as the segmenter produces it.
/// `start` and `end` are byte offsets into the UTF-8 source.
#[derive(Debug, Clone)]
pub struct ParsedSegment {
    pub original: String,
    pub placeholders: Vec<Placeholder>,
    pub start: usize,
    pub end: usize,
}

pub struct SpecParsedSegment {
    pub original: Seq<char>,
    pub placeholders: Seq<SpecPlaceholder>,
    pub start: int,
    pub end: int,
}

impl View for ParsedSegment {
    type V = SpecParsedSegment;

    open spec fn view(&self) -> SpecParsedSegment {
        SpecParsedSegment {
            original: self.original@,
            placeholders: placeholders_view(self.placeholders@),
            start: self.start as int,
            end: self.end as int,
        }
    }
}

pub open spec fn parsed_segments_view(v: Seq<ParsedSegment>) -> Seq<SpecParsedSegment> {
    v.map_values(|p: ParsedSegment| p@)
}

/// A stored segment with its translation state.
#[derive(Debug, Clone)]
pub struct Segment {
    pub id: i64,
    pub file_id: i64,
    pub ordem: i64,
    pub original: String,
    pub translated: String,
    pub status: String,
    pub placeholders: Vec<Placeholder>,
    pub start: usize,
    pub end: usize,
}

impl Segment {
    /// A segment counts as done once it is marked `traduzido` and holds a translation.
    pub open spec fn spec_is_complete(&self) -> bool {
        self.status@ == "traduzido"@ && self.translated@.len() > 0
    }

    #[verifier::when_used_as_spec(spec_is_complete)]
    pub fn is_complete(&self) -> (b: bool)
        ensures
            b == self.spec_is_complete(),
    {
        let status = crate::text::chars_of(self.status.as_str());
        crate::text::chars_eq_str(&status, "traduzido") && !self.translated.as_str().is_empty()
    }
}

/// A stored source file.
#[derive(Debug, Clone)]
pub struct FileRecord {
    pub id: i64,
    pub path: String,
    pub source: String,
    pub hash: String,
}

/// A file as it appears in the activity strip on a reader page.
#[derive(Debug, Clone)]
pub struct ReaderFile {
    pub id: i64,
    pub path: String,
    pub course: String,
    pub chapter: String,
    /// The first translated segment normally contains the activity title.
    pub title_translation: Option<String>,
    pub title_placeholders: Vec<Placeholder>,
}

// ---------------------------------------------------------------------------
// Growing vectors of pieces and placeholders while keeping their views exact
// ---------------------------------------------------------------------------

pub fn push_piece(out: &mut Vec<Piece>, p: Piece)
    ensures
        pieces_view(final(out)@) == pieces_view(old(out)@).push(p@),
{
    let ghost before = out@;
    out.push(p);
    assert(pieces_view(out@) =~= pieces_view(before).push(p@));
}

pub fn append_pieces(out: &mut Vec<Piece>, more: Vec<Piece>)
    ensures
        pieces_view(final(out)@) == pieces_view(old(out)@) + pieces_view(more@),
{
    let ghost before = out@;
    let ghost added = more@;
    let mut more = more;
    out.append(&mut more);
    assert(pieces_view(out@) =~= pieces_view(before) + pieces_view(added));
}

pub fn push_placeholder(out: &mut Vec<Placeholder>, p: Placeholder)
    ensures
        placeholders_view(final(out)@) == placeholders_view(old(out)@).push(p@),
{
    let ghost before = out@;
    out.push(p);
    assert(placeholders_view(out@) =~= placeholders_view(before).push(p@));
}

} // verus!
