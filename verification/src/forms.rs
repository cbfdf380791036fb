//! What the translation and glossary forms send, and what the store makes
//! of it.
use vstd::prelude::*;
use crate::models::{Placeholder, placeholders_view};
use crate::parser::reconstruct;
use crate::parser::segmenter::spec_reconstruct;
use crate::text::{chars_of, skip_whitespace, skip_ws, string_from};

verus! {

/// A glossary entry as the glossary form sends it.
#[derive(Debug, Clone)]
pub struct Term {
    pub original: String,
    pub translated: String,
}

impl Term {
    /// An entry is stored only when its original term holds more than whitespace.
    pub fn should_save(&self) -> (b: bool)
        ensures
            b == (skip_ws(self.original@, 0) < self.original@.len()),
    {
        let v = chars_of(self.original.as_str());
        skip_whitespace(&v, 0) < v.len()
    }
}

/// A translation as the translation form sends it.
#[derive(Debug, Clone)]
pub struct Translation {
    pub text: String,
}

/// What saving a translation stores: the text and the status.
pub open spec fn spec_translation_update(
    text: Seq<char>,
    ps: Seq<crate::models::SpecPlaceholder>,
    complete: bool,
) -> Result<(Seq<char>, Seq<char>), Seq<char>> {
    if text.len() == 0 {
        Ok((Seq::empty(), "pendente"@))
    } else {
        match spec_reconstruct(text, ps) {
            Err(e) => Err(e),
            Ok(_) => Ok(
                (
                    text,
                    if complete {
                        "traduzido"@
                    } else {
                        "em_progresso"@
                    },
                ),
            ),
        }
    }
}

/// Clearing a translation makes the segment pending again; any other text
/// must keep every token exactly once, and is stored as a draft or, when the
/// translator completes it, as translated.
pub fn translation_update(text: &str, placeholders: &[Placeholder], complete: bool) -> (r: Result<
    (String, String),
    String,
>)
    ensures
        match r {
            Ok((t, s)) => spec_translation_update(text@, placeholders_view(placeholders@), complete)
                == Ok::<(Seq<char>, Seq<char>), Seq<char>>((t@, s@)),
            Err(e) => spec_translation_update(text@, placeholders_view(placeholders@), complete)
                == Err::<(Seq<char>, Seq<char>), Seq<char>>(e@),
        },
{
    if text.is_empty() {
        let status = chars_of("pendente");
        return Ok((String::new(), string_from(&status)));
    }
    match reconstruct(text, placeholders) {
        Err(e) => Err(e),
        Ok(_) => {
            let status = if complete {
                chars_of("traduzido")
            } else {
                chars_of("em_progresso")
            };
            let t = chars_of(text);
            Ok((string_from(&t), string_from(&status)))
        },
    }
}

} // verus!
