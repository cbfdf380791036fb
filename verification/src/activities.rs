//! How the reader names and links the activities of a course.
use vstd::prelude::*;
use crate::models::{ReaderFile, placeholders_view};
use crate::text::{chars_of, is_upper, push_range, string_from, uppercase};
use crate::ximera::{metadata, part_start, spec_summary, spec_title};

verus! {

broadcast use vstd::seq_lib::group_seq_properties;

/// The uppercase mapping of a character, as `char::to_uppercase` yields it.
pub uninterp spec fn char_to_uppercase(c: char) -> Seq<char>;

/// Calls `char::to_uppercase` and collects what it yields. Trusted: the
/// result is the Unicode uppercase mapping of `c`, a function of `c` alone;
/// nothing here states that mapping.
#[verifier::external_body]
fn uppercase_of(c: char) -> (s: String)
    ensures
        s@ == char_to_uppercase(c),
{
    c.to_uppercase().collect::<String>()
}

/// `s` with every `.tex` ending taken off, one after another.
pub open spec fn without_tex(s: Seq<char>) -> Seq<char>
    decreases s.len(),
{
    if s.len() >= 4 && s.skip(s.len() - 4) == ".tex"@ {
        without_tex(s.take(s.len() - 4))
    } else {
        s
    }
}

/// A space before every uppercase ASCII letter but the first character.
pub open spec fn spaced(s: Seq<char>) -> Seq<char>
    decreases s.len(),
{
    if s.len() == 0 {
        Seq::empty()
    } else {
        spaced(s.drop_last()) + if s.len() > 1 && is_upper(s.last()) {
            seq![' ', s.last()]
        } else {
            seq![s.last()]
        }
    }
}

/// A readable name for a file: the last part of its path without `.tex`,
/// underscores as spaces, a space before each inner capital, and the first
/// character in uppercase.
pub open spec fn spec_display_name(path: Seq<char>) -> Seq<char> {
    let stem = without_tex(path.skip(part_start(path, path.len() as int)));
    let r = spaced(stem.map_values(|c: char| if c == '_' { ' ' } else { c }));
    if r.len() == 0 {
        r
    } else {
        char_to_uppercase(r[0]) + r.skip(1)
    }
}

/// A readable name for a file, from its path.
pub fn display_name(path: &str) -> (name: String)
    ensures
        name@ == spec_display_name(path@),
{
    let p = chars_of(path);
    let n = p.len();
    let mut start = n;
    while start > 0 && p[start - 1] != '/'
        invariant
            start <= n,
            n == p@.len(),
            part_start(p@, n as int) == part_start(p@, start as int),
        decreases start,
    {
        start -= 1;
    }
    proof {
        crate::ximera::lemma_part_start(p@, n as int);
    }
    let mut stem: Vec<char> = Vec::new();
    push_range(&mut stem, &p, start, n);
    assert(stem@ =~= p@.skip(start as int));
    let ghost whole = stem@;
    let mut end = stem.len();
    assert(stem@.take(end as int) =~= stem@);
    while end >= 4 && stem[end - 4] == '.' && stem[end - 3] == 't' && stem[end - 2] == 'e' && stem[end
        - 1] == 'x'
        invariant
            end <= stem@.len(),
            stem@ == whole,
            without_tex(whole) == without_tex(whole.take(end as int)),
        decreases end,
    {
        proof {
            reveal_strlit(".tex");
            assert(whole.take(end as int).skip(end - 4) =~= ".tex"@);
            assert(whole.take(end as int).take(end - 4) =~= whole.take(end - 4));
        }
        end -= 4;
    }
    proof {
        reveal_strlit(".tex");
        let t = whole.take(end as int);
        if t.len() >= 4 && t.skip(t.len() - 4) == ".tex"@ {
            assert(t.skip(t.len() - 4)[0] == t[end - 4]);
            assert(t.skip(t.len() - 4)[1] == t[end - 3]);
            assert(t.skip(t.len() - 4)[2] == t[end - 2]);
            assert(t.skip(t.len() - 4)[3] == t[end - 1]);
        }
    }
    let ghost under = whole.take(end as int).map_values(|c: char| if c == '_' { ' ' } else { c });
    let mut result: Vec<char> = Vec::new();
    let mut k: usize = 0;
    while k < end
        invariant
            k <= end <= stem@.len(),
            stem@ == whole,
            under == whole.take(end as int).map_values(|c: char| if c == '_' { ' ' } else { c }),
            result@ == spaced(under.take(k as int)),
        decreases end - k,
    {
        let c0 = stem[k];
        let c = if c0 == '_' {
            ' '
        } else {
            c0
        };
        assert(under[k as int] == c);
        if k > 0 && uppercase(c) {
            result.push(' ');
        }
        result.push(c);
        proof {
            assert(under.take(k + 1).drop_last() =~= under.take(k as int));
            assert(under.take(k + 1).last() == c);
        }
        k += 1;
    }
    assert(under.take(end as int) =~= under);
    if result.len() == 0 {
        return string_from(&result);
    }
    let first = uppercase_of(result[0]);
    let mut out: Vec<char> = chars_of(first.as_str());
    push_range(&mut out, &result, 1, result.len());
    assert(result@.subrange(1, result@.len() as int) =~= result@.skip(1));
    string_from(&out)
}

/// The title the reader shows for an activity: the one its first segment's
/// translation gives, else a name made from its path.
pub open spec fn spec_activity_title(file: ReaderFile) -> Seq<char> {
    match file.title_translation {
        Some(t) => match spec_title(t@, placeholders_view(file.title_placeholders@)) {
            Some(title) => title,
            None => spec_display_name(file.path@),
        },
        None => spec_display_name(file.path@),
    }
}

/// The summary the reader shows for an activity, empty where its first
/// segment's translation gives none.
pub open spec fn spec_activity_summary(file: ReaderFile) -> Seq<char> {
    match file.title_translation {
        Some(t) => match spec_summary(t@, placeholders_view(file.title_placeholders@)) {
            Some(summary) => summary,
            None => Seq::empty(),
        },
        None => Seq::empty(),
    }
}

/// The title the reader shows for an activity.
pub fn activity_title(file: &ReaderFile) -> (t: String)
    ensures
        t@ == spec_activity_title(*file),
{
    match &file.title_translation {
        Some(translation) => match metadata(translation.as_str(), file.title_placeholders.as_slice()).title {
            Some(title) => title,
            None => display_name(file.path.as_str()),
        },
        None => display_name(file.path.as_str()),
    }
}

/// The summary the reader shows for an activity.
pub fn activity_summary(file: &ReaderFile) -> (s: String)
    ensures
        s@ == spec_activity_summary(*file),
{
    match &file.title_translation {
        Some(translation) => match metadata(translation.as_str(), file.title_placeholders.as_slice()).summary {
            Some(summary) => summary,
            None => String::new(),
        },
        None => String::new(),
    }
}

/// An activity card in the reader's strip.
#[derive(Debug, Clone)]
pub struct ReaderActivity {
    pub id: i64,
    pub title: String,
    pub summary: String,
    pub current: bool,
}

/// A link to a neighbouring activity.
#[derive(Debug, Clone)]
pub struct ReaderLink {
    pub id: i64,
    pub title: String,
}

/// Where an activity stands among the activities of its course.
#[derive(Debug, Clone)]
pub struct ReaderNavigation {
    pub current_index: usize,
    pub activities: Vec<ReaderActivity>,
    pub previous: Option<ReaderLink>,
    pub next: Option<ReaderLink>,
}

/// The first file from `i` with the given id.
pub open spec fn index_of_id(files: Seq<ReaderFile>, id: i64, i: int) -> Option<int>
    decreases files.len() - i,
{
    if i < 0 || i >= files.len() {
        None
    } else if files[i].id == id {
        Some(i)
    } else {
        index_of_id(files, id, i + 1)
    }
}

pub open spec fn link_matches(l: Option<ReaderLink>, files: Seq<ReaderFile>, k: int) -> bool {
    if 0 <= k < files.len() {
        l matches Some(link) && link.id == files[k].id && link.title@ == spec_activity_title(
            files[k],
        )
    } else {
        l is None
    }
}

pub open spec fn card_matches(a: ReaderActivity, f: ReaderFile, id: i64) -> bool {
    &&& a.id == f.id
    &&& a.title@ == spec_activity_title(f)
    &&& a.summary@ == spec_activity_summary(f)
    &&& a.current == (f.id == id)
}

fn index_of_file(course_files: &[ReaderFile], id: i64) -> (r: Option<usize>)
    ensures
        match r {
            Some(i) => index_of_id(course_files@, id, 0) == Some(i as int) && i < course_files@.len(),
            None => index_of_id(course_files@, id, 0) is None,
        },
{
    let mut i: usize = 0;
    while i < course_files.len()
        invariant
            i <= course_files@.len(),
            index_of_id(course_files@, id, 0) == index_of_id(course_files@, id, i as int),
        decreases course_files@.len() - i,
    {
        if course_files[i].id == id {
            return Some(i);
        }
        i += 1;
    }
    None
}

fn link_to(file: &ReaderFile) -> (l: ReaderLink)
    ensures
        l.id == file.id,
        l.title@ == spec_activity_title(*file),
{
    ReaderLink { id: file.id, title: activity_title(file) }
}

/// The reader's strip of activities and the links to the activities before
/// and after the one with the given id; a file outside the list is refused.
pub fn reader_navigation(course_files: &[ReaderFile], id: i64) -> (r: Result<
    ReaderNavigation,
    String,
>)
    ensures
        match r {
            Ok(nav) => {
                &&& index_of_id(course_files@, id, 0) == Some(nav.current_index as int)
                &&& nav.activities@.len() == course_files@.len()
                &&& forall|k: int|
                    0 <= k < course_files@.len() ==> card_matches(
                        #[trigger] nav.activities@[k],
                        course_files@[k],
                        id,
                    )
                &&& link_matches(nav.previous, course_files@, nav.current_index - 1)
                &&& link_matches(nav.next, course_files@, nav.current_index + 1)
            },
            Err(e) => index_of_id(course_files@, id, 0) is None && e@
                == "arquivo não pertence a um curso"@,
        },
{
    let n = course_files.len();
    let current = index_of_file(course_files, id);
    let current_index = match current {
        None => {
            let m = chars_of("arquivo não pertence a um curso");
            return Err(string_from(&m));
        },
        Some(c) => c,
    };
    let mut activities: Vec<ReaderActivity> = Vec::new();
    let mut k: usize = 0;
    while k < n
        invariant
            k <= n,
            n == course_files@.len(),
            activities@.len() == k,
            forall|j: int| 0 <= j < k ==> card_matches(#[trigger] activities@[j], course_files@[j], id),
        decreases n - k,
    {
        let f = &course_files[k];
        activities.push(
            ReaderActivity {
                id: f.id,
                title: activity_title(f),
                summary: activity_summary(f),
                current: f.id == id,
            },
        );
        k += 1;
    }
    let previous = if current_index > 0 {
        Some(link_to(&course_files[current_index - 1]))
    } else {
        None
    };
    let next = if current_index + 1 < n {
        Some(link_to(&course_files[current_index + 1]))
    } else {
        None
    };
    Ok(ReaderNavigation { current_index, activities, previous, next })
}

} // verus!
