//! What the store's rows become before the pages show them.
use vstd::prelude::*;
use crate::text::{chars_eq, chars_of};

verus! {

/// The chapters of the courses, each with its files, each with its
/// segments as (id, order, status).
pub type ChapterTree = Vec<(String, Vec<(String, Vec<(i64, i64, String)>)>)>;

/// One row of the chapter listing: chapter, file, and the segment's id,
/// order and status where the file has segments.
pub type ChapterRow = (String, String, Option<i64>, Option<i64>, Option<String>);

pub type SpecFiles = Seq<(Seq<char>, Seq<(i64, i64, Seq<char>)>)>;

pub type SpecTree = Seq<(Seq<char>, SpecFiles)>;

pub open spec fn segments_view(v: Seq<(i64, i64, String)>) -> Seq<(i64, i64, Seq<char>)> {
    v.map_values(|s: (i64, i64, String)| (s.0, s.1, s.2@))
}

pub open spec fn files_view(v: Seq<(String, Vec<(i64, i64, String)>)>) -> SpecFiles {
    v.map_values(|f: (String, Vec<(i64, i64, String)>)| (f.0@, segments_view(f.1@)))
}

pub open spec fn tree_view(v: Seq<(String, Vec<(String, Vec<(i64, i64, String)>)>)>) -> SpecTree {
    v.map_values(|c: (String, Vec<(String, Vec<(i64, i64, String)>)>)| (c.0@, files_view(c.1@)))
}

/// The files of a chapter after one row: a new file where the row's file
/// differs from the last one, and the row's segment where it has one.
pub open spec fn files_step(files: SpecFiles, row: ChapterRow) -> SpecFiles {
    let files1 = if files.len() > 0 && files.last().0 == row.1@ {
        files
    } else {
        files.push((row.1@, Seq::empty()))
    };
    match (row.2, row.3, row.4) {
        (Some(id), Some(order), Some(status)) => files1.update(
            files1.len() - 1,
            (files1.last().0, files1.last().1.push((id, order, status@))),
        ),
        _ => files1,
    }
}

/// The tree after one row: a new chapter where the row's chapter differs
/// from the last one.
pub open spec fn tree_step(tree: SpecTree, row: ChapterRow) -> SpecTree {
    let tree1 = if tree.len() > 0 && tree.last().0 == row.0@ {
        tree
    } else {
        tree.push((row.0@, Seq::empty()))
    };
    tree1.update(tree1.len() - 1, (tree1.last().0, files_step(tree1.last().1, row)))
}

/// The tree that rows in chapter, file and segment order make.
pub open spec fn spec_group_chapters(rows: Seq<ChapterRow>) -> SpecTree
    decreases rows.len(),
{
    if rows.len() == 0 {
        Seq::empty()
    } else {
        tree_step(spec_group_chapters(rows.drop_last()), rows.last())
    }
}

fn same_text(a: &String, b: &String) -> (r: bool)
    ensures
        r == (a@ == b@),
{
    let x = chars_of(a.as_str());
    let y = chars_of(b.as_str());
    chars_eq(&x, &y)
}

fn add_to_files(files: &mut Vec<(String, Vec<(i64, i64, String)>)>, row: &ChapterRow)
    ensures
        files_view(final(files)@) == files_step(files_view(old(files)@), *row),
{
    let ghost start = files_view(files@);
    let needs_file = match files.last() {
        Some(last) => !same_text(&last.0, &row.1),
        None => true,
    };
    if needs_file {
        let ghost before = files@;
        let empty: Vec<(i64, i64, String)> = Vec::new();
        assert(segments_view(empty@) =~= Seq::<(i64, i64, Seq<char>)>::empty());
        files.push((row.1.clone(), empty));
        assert(files_view(files@) =~= files_view(before).push((row.1@, Seq::empty())));
    }
    let ghost middle = files_view(files@);
    assert(middle == if start.len() > 0 && start.last().0 == row.1@ {
        start
    } else {
        start.push((row.1@, Seq::empty()))
    });
    match (row.2, row.3, &row.4) {
        (Some(id), Some(order), Some(status)) => {
            let ghost before = files@;
            let (name, mut segments) = files.pop().unwrap();
            let ghost seg_before = segments@;
            segments.push((id, order, status.clone()));
            assert(segments_view(segments@) =~= segments_view(seg_before).push((id, order, status@)));
            files.push((name, segments));
            assert(files_view(files@) =~= middle.update(
                middle.len() - 1,
                (middle.last().0, middle.last().1.push((id, order, status@))),
            ));
        },
        _ => {},
    }
}

/// Groups the chapter listing's rows into chapters and files.
pub fn group_chapters(rows: &[ChapterRow]) -> (tree: ChapterTree)
    ensures
        tree_view(tree@) == spec_group_chapters(rows@),
{
    let mut tree: ChapterTree = Vec::new();
    let mut i: usize = 0;
    assert(rows@.take(0) =~= Seq::<ChapterRow>::empty());
    while i < rows.len()
        invariant
            i <= rows@.len(),
            tree_view(tree@) == spec_group_chapters(rows@.take(i as int)),
        decreases rows@.len() - i,
    {
        let row = &rows[i];
        let ghost start = tree_view(tree@);
        let needs_chapter = match tree.last() {
            Some(last) => !same_text(&last.0, &row.0),
            None => true,
        };
        if needs_chapter {
            let ghost before = tree@;
            let empty: Vec<(String, Vec<(i64, i64, String)>)> = Vec::new();
            assert(files_view(empty@) =~= Seq::<(Seq<char>, Seq<(i64, i64, Seq<char>)>)>::empty());
            tree.push((row.0.clone(), empty));
            assert(tree_view(tree@) =~= tree_view(before).push((row.0@, Seq::empty())));
        }
        let ghost middle = tree_view(tree@);
        let (name, mut files) = tree.pop().unwrap();
        add_to_files(&mut files, row);
        tree.push((name, files));
        proof {
            assert(rows@.take(i + 1).drop_last() =~= rows@.take(i as int));
            assert(tree_view(tree@) =~= middle.update(
                middle.len() - 1,
                (middle.last().0, files_step(middle.last().1, *row)),
            ));
        }
        i += 1;
    }
    assert(rows@.take(rows@.len() as int) =~= rows@);
    tree
}

} // verus!
