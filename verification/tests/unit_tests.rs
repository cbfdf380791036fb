use traduz::activities::display_name;
use traduz::export::translated_source;
use traduz::importer::rename_tokens;
use traduz::models::{Placeholder, PlaceholderKind, Segment};
use traduz::reader::completed_block;
use traduz::ximera::metadata;

#[test]
fn keeps_unfinished_prose_and_document_structure() {
    let source = "Texto \\textbf{mais texto}";
    let segment = Segment {
        id: 1,
        file_id: 1,
        ordem: 0,
        original: "Texto {{CMD_1}}mais texto{{DELIM_2}}".into(),
        translated: "Rascunho {{CMD_1}}inacabado{{DELIM_2}}".into(),
        status: "em_progresso".into(),
        placeholders: vec![
            Placeholder {
                token: "{{CMD_1}}".into(),
                original: "\\textbf{".into(),
                kind: PlaceholderKind::Command,
            },
            Placeholder {
                token: "{{DELIM_2}}".into(),
                original: "}".into(),
                kind: PlaceholderKind::Delimiter,
            },
        ],
        start: 0,
        end: source.len(),
    };
    assert_eq!(translated_source(source, &[segment]).unwrap(), source);
}

#[test]
fn renames_tokens_without_chaining_replacements() {
    let renamed = rename_tokens(
        "{{MATH_1}} e {{MATH_2}}, não {{MATH_12}}",
        &[("{{MATH_1}}", "{{MATH_2}}"), ("{{MATH_2}}", "{{MATH_3}}")],
    );
    assert_eq!(renamed, "{{MATH_2}} e {{MATH_3}}, não {{MATH_12}}");
}

#[test]
fn reader_escapes_translation_and_keeps_math_visible() {
    let segment = Segment {
        id: 1,
        file_id: 1,
        ordem: 0,
        original: "<x> {{MATH_1}}".into(),
        translated: "<traduzido> {{MATH_1}}".into(),
        status: "traduzido".into(),
        placeholders: vec![Placeholder {
            token: "{{MATH_1}}".into(),
            original: "$x^2$".into(),
            kind: PlaceholderKind::Math,
        }],
        start: 0,
        end: 0,
    };
    let html = completed_block(&segment).unwrap().unwrap().html;
    assert!(html.contains("&lt;traduzido&gt;"));
    assert!(html.contains("reader-math\">\\(x^2\\)"));
}

#[test]
fn fallback_title_humanizes_a_tex_path() {
    assert_eq!(
        display_name("ximeraTutorial/howIsMyWorkScored.tex"),
        "How Is My Work Scored"
    );
}

#[test]
fn extracts_title_and_abstract_from_ximera_source() {
    let source = r"\title{Como usar o Ximera}\begin{document}\begin{abstract}Esse curso é construído com Ximera.\end{abstract}\maketitle";
    assert_eq!(
        metadata(source, &[]).title,
        Some("Como usar o Ximera".to_owned())
    );
    assert_eq!(
        metadata(source, &[]).summary,
        Some("Esse curso é construído com Ximera.".to_owned())
    );
}

#[test]
fn extracts_metadata_when_the_title_opening_is_outside_the_segment() {
    let placeholders = vec![
        Placeholder {
            token: "{{CMD_1}}".into(),
            original: "}".into(),
            kind: PlaceholderKind::Command,
        },
        Placeholder {
            token: "{{PREAMBLE_2}}".into(),
            original: "\n\n".into(),
            kind: PlaceholderKind::Preamble,
        },
        Placeholder {
            token: "{{CMD_3}}".into(),
            original: "\\begin{document}".into(),
            kind: PlaceholderKind::Command,
        },
        Placeholder {
            token: "{{CMD_4}}".into(),
            original: "\\begin{abstract}".into(),
            kind: PlaceholderKind::Command,
        },
        Placeholder {
            token: "{{CMD_5}}".into(),
            original: "\\end{abstract}".into(),
            kind: PlaceholderKind::Command,
        },
        Placeholder {
            token: "{{CMD_6}}".into(),
            original: "\\maketitle".into(),
            kind: PlaceholderKind::Command,
        },
    ];
    let activity = metadata(
        "Como usar o Ximera{{CMD_1}}{{PREAMBLE_2}}{{CMD_3}}\n{{CMD_4}}Esse curso é construído com Ximera.{{CMD_5}}{{CMD_6}}",
        &placeholders,
    );
    assert_eq!(activity.title.as_deref(), Some("Como usar o Ximera"));
    assert_eq!(
        activity.summary.as_deref(),
        Some("Esse curso é construído com Ximera.")
    );
}
