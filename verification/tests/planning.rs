use traduz::importer::{
    course_order, file_action, write_plan, ExistingFile, FileAction, PlannedFile,
};
use traduz::layout::{place_files, sort_files};
use traduz::models::ParsedSegment;
use traduz::store::{group_chapters, ChapterRow};
use traduz::ximera::is_local_reference;

fn strings(v: &[&str]) -> Vec<String> {
    v.iter().map(|s| s.to_string()).collect()
}

#[test]
fn files_follow_the_manifest_then_their_names() {
    let order = course_order("\\activity{two/b.tex}\n\\activity{one/a.tex}\n", "m").unwrap();
    let sorted = sort_files(
        &order,
        &strings(&["one/c.tex", "one/a.tex", "two/b.tex", "a.tex", "zeta/x.tex", "beta/y.tex"]),
    );
    assert_eq!(
        sorted,
        strings(&["two/b.tex", "one/a.tex", "a.tex", "beta/y.tex", "one/c.tex", "zeta/x.tex"])
    );
}

#[test]
fn sorting_keeps_every_path_given() {
    let order = course_order("\\activity{b.tex}\n", "m").unwrap();
    let sorted = sort_files(&order, &strings(&["c.tex", "b.tex", "a.tex", "c.tex"]));
    assert_eq!(sorted, strings(&["b.tex", "a.tex", "c.tex", "c.tex"]));
}

#[test]
fn new_chapters_follow_the_manifest_chapters_in_name_order() {
    let order = course_order("\\activity{two/b.tex}\n\\activity{one/a.tex}\n", "m").unwrap();
    let files = strings(&["two/b.tex", "one/a.tex", "a.tex", "beta/y.tex", "one/c.tex", "zeta/x.tex"]);
    let layout = place_files(&order, &files);
    assert_eq!(layout.new_chapters, strings(&["a.tex", "beta", "zeta"]));
    let places: Vec<(String, usize, usize)> = layout
        .placements
        .iter()
        .map(|p| (p.chapter.clone(), p.chapter_order, p.file_order))
        .collect();
    assert_eq!(
        places,
        vec![
            ("two".to_string(), 0, 0),
            ("one".to_string(), 1, 0),
            ("a.tex".to_string(), 2, 0),
            ("beta".to_string(), 3, 0),
            ("one".to_string(), 1, 1),
            ("zeta".to_string(), 4, 0),
        ]
    );
}

fn existing(course: &str, hash: &str) -> ExistingFile {
    ExistingFile {
        id: 1,
        course: course.into(),
        hash: hash.into(),
        chapter: "cap".into(),
        chapter_order: 0,
        order: 0,
    }
}

#[test]
fn file_action_depends_on_what_is_stored() {
    assert_eq!(file_action("cap/a.tex", "C", "h", None, false).unwrap(), FileAction::Parse);
    assert_eq!(
        file_action("cap/a.tex", "C", "h", Some(&existing("Outro", "h")), false).unwrap_err(),
        "cap/a.tex já foi importado no curso `Outro`; o caminho precisa ser único no banco"
    );
    let stored = existing("C", "h");
    assert_eq!(file_action("cap/a.tex", "C", "h", Some(&stored), false).unwrap(), FileAction::Keep);
    assert_eq!(file_action("cap/a.tex", "C", "g", Some(&stored), true).unwrap(), FileAction::Parse);
    assert_eq!(file_action("cap/a.tex", "C", "g", Some(&stored), false).unwrap(), FileAction::Changed);
}

fn planned(existing_file: Option<ExistingFile>, segments: Option<Vec<ParsedSegment>>) -> PlannedFile {
    PlannedFile {
        relative: "cap/a.tex".into(),
        chapter: "cap".into(),
        chapter_order: 0,
        file_order: 0,
        source: String::new(),
        hash: "h".into(),
        existing: existing_file,
        segments,
    }
}

#[test]
fn backups_and_parking_follow_the_plan() {
    assert_eq!(write_plan(&[planned(None, Some(vec![]))]), (false, true));
    assert_eq!(write_plan(&[planned(Some(existing("C", "h")), None)]), (false, false));
    assert_eq!(
        write_plan(&[planned(Some(existing("C", "h")), Some(vec![]))]),
        (true, false)
    );
    let mut moved = planned(Some(existing("C", "h")), None);
    moved.file_order = 3;
    assert_eq!(write_plan(&[moved]), (true, true));
}

#[test]
fn chapter_rows_group_into_a_tree() {
    let rows: Vec<ChapterRow> = vec![
        ("c1".into(), "a".into(), Some(1), Some(0), Some("pendente".into())),
        ("c1".into(), "a".into(), Some(2), Some(1), Some("traduzido".into())),
        ("c1".into(), "b".into(), None, None, None),
        ("c2".into(), "c".into(), Some(3), Some(0), Some("pendente".into())),
    ];
    let tree = group_chapters(&rows);
    assert_eq!(
        tree,
        vec![
            (
                "c1".to_string(),
                vec![
                    (
                        "a".to_string(),
                        vec![(1, 0, "pendente".to_string()), (2, 1, "traduzido".to_string())]
                    ),
                    ("b".to_string(), vec![]),
                ]
            ),
            (
                "c2".to_string(),
                vec![("c".to_string(), vec![(3, 0, "pendente".to_string())])]
            ),
        ]
    );
}

#[test]
fn only_references_beside_the_activity_are_inlined() {
    assert!(is_local_reference("figura.png"));
    assert!(is_local_reference("../img/figura.png"));
    assert!(!is_local_reference("https://example.test/a.png"));
    assert!(!is_local_reference("data:image/png;base64,AAAA"));
    assert!(!is_local_reference("/abs/a.png"));
}
