use traduz::activities::{activity_summary, activity_title, display_name, reader_navigation};
use traduz::export::{translated_source, ExportReport};
use traduz::forms::{translation_update, Term};
use traduz::importer::{
    carry_translations, chapter_of, changed_files_message, course_order, parse_file,
    rename_tokens, source_hash, ExistingFile, ImportReport, PlannedFile,
};
use traduz::models::{FileRecord, ParsedSegment, Placeholder, PlaceholderKind, ReaderFile, Segment};
use traduz::parser::{reconstruct, scan};
use traduz::reader::completed_block;
use traduz::ximera::{
    activity_html, base64, ensure_safe_translations, metadata, mime_type, safe_relative_path,
    signature,
};

fn placeholder(token: &str, original: &str, kind: PlaceholderKind) -> Placeholder {
    Placeholder {
        token: token.into(),
        original: original.into(),
        kind,
    }
}

fn stored(id: i64, original: &str, translated: &str, status: &str, placeholders: Vec<Placeholder>, start: usize, end: usize) -> Segment {
    Segment {
        id,
        file_id: 1,
        ordem: 0,
        original: original.into(),
        translated: translated.into(),
        status: status.into(),
        placeholders,
        start,
        end,
    }
}

fn reader_file(id: i64, path: &str, translation: Option<&str>, placeholders: Vec<Placeholder>) -> ReaderFile {
    ReaderFile {
        id,
        path: path.into(),
        course: "Curso".into(),
        chapter: "cap".into(),
        title_translation: translation.map(|t| t.to_string()),
        title_placeholders: placeholders,
    }
}

// --- reader ---

#[test]
fn pending_segment_has_no_reading_block() {
    let segment = stored(1, "Texto.", "Rascunho.", "em_progresso", vec![], 0, 6);
    assert!(completed_block(&segment).unwrap().is_none());
    let empty = stored(1, "Texto.", "", "traduzido", vec![], 0, 6);
    assert!(completed_block(&empty).unwrap().is_none());
}

#[test]
fn reader_escapes_every_markup_character() {
    let segment = stored(1, "x", "a & \"b\" 'c' <d>", "traduzido", vec![], 0, 1);
    let html = completed_block(&segment).unwrap().unwrap().html;
    assert_eq!(html, "a &amp; &quot;b&quot; &#39;c&#39; &lt;d&gt;");
}

#[test]
fn reader_strips_display_math_delimiters_and_drops_commands() {
    let segment = stored(
        1,
        "x",
        "Veja {{MATH_1}} e {{CMD_2}}aqui",
        "traduzido",
        vec![
            placeholder("{{MATH_1}}", "$$a<b$$", PlaceholderKind::Math),
            placeholder("{{CMD_2}}", "\\emph{", PlaceholderKind::Command),
        ],
        0,
        1,
    );
    let html = completed_block(&segment).unwrap().unwrap().html;
    assert_eq!(
        html,
        "Veja <span class=\"reader-math\">\\(a&lt;b\\)</span> e aqui"
    );
}

#[test]
fn reader_accepts_tokens_in_any_order() {
    let segment = stored(
        1,
        "x",
        "{{CMD_2}} a {{CMD_1}}",
        "traduzido",
        vec![
            placeholder("{{CMD_1}}", "\\a", PlaceholderKind::Command),
            placeholder("{{CMD_2}}", "\\b", PlaceholderKind::Command),
        ],
        0,
        1,
    );
    assert_eq!(completed_block(&segment).unwrap().unwrap().html, " a ");
}

#[test]
fn reader_reports_a_missing_token() {
    let segment = stored(
        1,
        "x",
        "sem token",
        "traduzido",
        vec![placeholder("{{MATH_1}}", "$x$", PlaceholderKind::Math)],
        0,
        1,
    );
    assert_eq!(
        completed_block(&segment).unwrap_err(),
        "placeholder `{{MATH_1}}` aparece 0 vezes"
    );
}

// --- export ---

#[test]
fn export_replaces_finished_segment_at_its_byte_range() {
    let source = "Olá mundo.\n";
    let segment = stored(3, "Olá mundo.", "Hello world.", "traduzido", vec![], 0, 11);
    assert_eq!(translated_source(source, &[segment]).unwrap(), "Hello world.\n");
}

#[test]
fn export_restores_edge_whitespace_of_the_original() {
    let source = "A Texto B";
    let segment = stored(3, " Texto ", "Text", "traduzido", vec![], 1, 8);
    assert_eq!(translated_source(source, &[segment]).unwrap(), "A Text B");
}

#[test]
fn export_without_finished_segments_gives_the_source_back() {
    let source = "Um $x$ dois.\n\nTrês.\n";
    let pieces = scan(source).unwrap();
    let segments = traduz::parser::segment(&pieces);
    let stored_segments: Vec<Segment> = segments
        .iter()
        .enumerate()
        .map(|(i, s)| Segment {
            id: i as i64,
            file_id: 1,
            ordem: i as i64,
            original: s.original.clone(),
            translated: String::new(),
            status: "pendente".into(),
            placeholders: s.placeholders.clone(),
            start: s.start,
            end: s.end,
        })
        .collect();
    assert!(!stored_segments.is_empty());
    assert_eq!(translated_source(source, &stored_segments).unwrap(), source);
}

#[test]
fn export_refuses_a_segment_that_does_not_match_the_source() {
    let segment = stored(5, "xyz", "", "pendente", vec![], 0, 3);
    assert_eq!(
        translated_source("abc", &[segment]).unwrap_err(),
        "fonte armazenada não corresponde ao segmento 5"
    );
    let inside = stored(-2, "x", "", "pendente", vec![], 1, 2);
    assert_eq!(
        translated_source("á", &[inside]).unwrap_err(),
        "fonte armazenada não corresponde ao segmento -2"
    );
}

#[test]
fn tally_counts_finished_pending_and_drafts() {
    let segments = vec![
        stored(1, "a", "b", "traduzido", vec![], 0, 1),
        stored(2, "a", "  x", "em_progresso", vec![], 0, 1),
        stored(3, "a", " \n", "pendente", vec![], 0, 1),
    ];
    let mut report = ExportReport::default();
    report.tally("cap/a.tex", &segments, false).unwrap();
    assert_eq!(
        (report.files, report.completed, report.pending, report.drafts),
        (0, 1, 2, 1)
    );
    let mut strict = ExportReport::default();
    assert_eq!(
        strict.tally("cap/a.tex", &segments, true).unwrap_err(),
        "segmento pendente 2 em cap/a.tex"
    );
}

// --- parser ---

#[test]
fn scan_error_describes_where_it_happened() {
    let error = scan("Antes $x").unwrap_err();
    assert_eq!(
        error.describe(),
        format!(
            "{} na linha {}, coluna {}: {}",
            error.message, error.line, error.column, error.context
        )
    );
    assert_eq!(error.line, 1);
}

#[test]
fn parse_file_rebuilds_every_segment_exactly() {
    let source = "\\begin{document}\nOlá \\emph{mundo}, $x^2$.\n\nSegundo parágrafo.\n\\end{document}\n";
    let segments = parse_file("cap/a.tex", source).unwrap();
    assert!(!segments.is_empty());
    for s in &segments {
        assert_eq!(
            reconstruct(&s.original, &s.placeholders).unwrap(),
            &source[s.start..s.end]
        );
    }
}

#[test]
fn parse_file_names_the_file_in_scan_errors() {
    let error = scan("Antes $x").unwrap_err();
    assert_eq!(
        parse_file("b.tex", "Antes $x").unwrap_err(),
        format!("b.tex: {}", error.describe())
    );
}

// --- import ---

#[test]
fn renaming_replaces_repeated_tokens() {
    assert_eq!(
        rename_tokens("{{A}}{{A}} {A}", &[("{{A}}", "{{B}}")]),
        "{{B}}{{B}} {A}"
    );
}

#[test]
fn carried_translation_follows_identical_latex_with_new_tokens() {
    let previous = vec![stored(
        1,
        "First {{MATH_1}} paragraph.",
        "Primeiro {{MATH_1}} parágrafo.",
        "traduzido",
        vec![placeholder("{{MATH_1}}", "$a$", PlaceholderKind::Math)],
        0,
        0,
    )];
    let segments = vec![
        ParsedSegment {
            original: "Intro {{MATH_1}}.".into(),
            placeholders: vec![placeholder("{{MATH_1}}", "$c$", PlaceholderKind::Math)],
            start: 0,
            end: 0,
        },
        ParsedSegment {
            original: "First {{MATH_2}} paragraph.".into(),
            placeholders: vec![placeholder("{{MATH_2}}", "$a$", PlaceholderKind::Math)],
            start: 0,
            end: 0,
        },
    ];
    let carried = carry_translations(&previous, &segments);
    assert_eq!(
        carried,
        vec![
            None,
            Some((
                "Primeiro {{MATH_2}} parágrafo.".to_string(),
                "traduzido".to_string()
            ))
        ]
    );
}

#[test]
fn ambiguous_latex_is_not_carried() {
    let old = |id| {
        stored(
            id,
            "Same.",
            "Igual.",
            "traduzido",
            vec![],
            0,
            0,
        )
    };
    let previous = vec![old(1), old(2)];
    let segments = vec![ParsedSegment {
        original: "Same.".into(),
        placeholders: vec![],
        start: 0,
        end: 0,
    }];
    assert_eq!(carry_translations(&previous, &segments), vec![None]);
}

#[test]
fn manifest_gives_first_seen_order_of_files_and_chapters() {
    let manifest = "% comentário\n  \\activity{one/a.tex}\n\\activity{two/b.tex}\r\n\\activity{one/c.tex}\n\\activity{one/a.tex}\n\\activity{}\n\\activity{x\\y.tex}";
    let order = course_order(manifest, "m.tex").unwrap();
    assert_eq!(order.files, vec!["one/a.tex", "two/b.tex", "one/c.tex", "x/y.tex"]);
    assert_eq!(order.chapters, vec!["one", "two", "x"]);
    assert_eq!(
        course_order("% nada\n", "m.tex").unwrap_err(),
        "manifesto m.tex não contém atividades"
    );
}

#[test]
fn chapter_is_the_first_path_component() {
    assert_eq!(chapter_of("cap/a.tex"), "cap");
    assert_eq!(chapter_of("a.tex"), "a.tex");
    assert_eq!(chapter_of(""), "Raiz");
}

#[test]
fn changed_files_are_listed_up_to_ten() {
    let changed: Vec<String> = (0..12).map(|i| format!("f{i}")).collect();
    assert_eq!(
        changed_files_message(&changed),
        "12 arquivo(s) mudaram desde a última importação: f0, f1, f2, f3, f4, f5, f6, f7, f8, f9 e mais 2; repita com --replace após conferir (o banco não foi alterado)"
    );
    assert_eq!(
        changed_files_message(&["a.tex".to_string()]),
        "1 arquivo(s) mudaram desde a última importação: a.tex; repita com --replace após conferir (o banco não foi alterado)"
    );
}

#[test]
fn source_hash_is_the_hexadecimal_sha256() {
    assert_eq!(
        source_hash("abc"),
        "ba7816bf8f01cfea414140de5dae2223b00361a396177a9cb410ff61f20015ad"
    );
    assert_eq!(
        source_hash(""),
        "e3b0c44298fc1c149afbf4c8996fb92427ae41e4649b934ca495991b7852b855"
    );
}

#[test]
fn report_lists_translations_that_could_not_be_carried() {
    let previous = vec![
        stored(1, "a", "x", "traduzido", vec![], 0, 0),
        stored(2, "b", "y", "em_progresso", vec![], 0, 0),
        stored(3, "c", "", "pendente", vec![], 0, 0),
    ];
    let carried = vec![Some(("x".to_string(), "traduzido".to_string())), None];
    let mut report = ImportReport::default();
    report.record_replaced("cap/a.tex", &previous, &carried);
    assert_eq!(report.translations_kept, 1);
    assert_eq!(report.translations_dropped, vec![("cap/a.tex".to_string(), 1)]);
}

#[test]
fn moved_file_is_detected() {
    let existing = ExistingFile {
        id: 1,
        course: "C".into(),
        hash: "h".into(),
        chapter: "one".into(),
        chapter_order: 0,
        order: 0,
    };
    let mut file = PlannedFile {
        relative: "one/a.tex".into(),
        chapter: "one".into(),
        chapter_order: 0,
        file_order: 0,
        source: String::new(),
        hash: "h".into(),
        existing: Some(existing),
        segments: None,
    };
    assert!(!file.moves_existing());
    file.chapter_order = 1;
    assert!(file.moves_existing());
}

// --- ximera ---

#[test]
fn metadata_falls_back_to_the_prose_before_the_first_token() {
    let activity = metadata(
        "Título da   atividade{{CMD_1}}",
        &[placeholder("{{CMD_1}}", "}", PlaceholderKind::Command)],
    );
    assert_eq!(activity.title.as_deref(), Some("Título da atividade"));
    assert_eq!(activity.summary, None);
}

#[test]
fn finished_translation_with_a_backslash_is_refused() {
    let unsafe_segment = stored(9, "a", "um \\comando", "traduzido", vec![], 0, 1);
    let draft = stored(10, "a", "um \\comando", "em_progresso", vec![], 0, 1);
    assert!(ensure_safe_translations(&[draft.clone()]).is_ok());
    assert_eq!(
        ensure_safe_translations(&[draft, unsafe_segment]).unwrap_err(),
        "segmento 9 contém um comando TeX fora dos tokens protegidos"
    );
}

#[test]
fn activity_paths_stay_inside_the_course() {
    assert_eq!(safe_relative_path("cap/a.tex").unwrap(), "cap/a.tex");
    assert_eq!(safe_relative_path("a/..b").unwrap(), "a/..b");
    for refused in ["/etc/passwd", "a/../b", "..", "cap/.."] {
        assert_eq!(
            safe_relative_path(refused).unwrap_err(),
            "caminho de atividade fora da fonte do curso"
        );
    }
}

#[test]
fn activity_html_keeps_the_body_without_scripts() {
    assert_eq!(
        activity_html("<html><body class=\"x\">Hi<script>alert(1)</script>!</body></html>").unwrap(),
        "Hi!"
    );
    assert_eq!(activity_html("<body>a<script>b").unwrap(), "a");
    assert_eq!(
        activity_html("<html>sem corpo</html>").unwrap_err(),
        "HTML do Ximera não contém body"
    );
}

#[test]
fn media_type_follows_the_extension() {
    assert_eq!(mime_type("img/a.png"), "image/png");
    assert_eq!(mime_type("a.tar.svg"), "image/svg+xml");
    assert_eq!(mime_type("x.jpeg"), "image/jpeg");
    assert_eq!(mime_type("x.jpg"), "image/jpeg");
    assert_eq!(mime_type("dir/a.gif/"), "image/gif");
    assert_eq!(mime_type("b.webp"), "image/webp");
    assert_eq!(mime_type(".svg"), "application/octet-stream");
    assert_eq!(mime_type("a.JPG"), "application/octet-stream");
    assert_eq!(mime_type("a/.."), "application/octet-stream");
}

#[test]
fn base64_pads_the_last_group() {
    assert_eq!(base64(b"Man"), "TWFu");
    assert_eq!(base64(b"Ma"), "TWE=");
    assert_eq!(base64(b"M"), "TQ==");
    assert_eq!(base64(b""), "");
    assert_eq!(base64(&[0xff, 0xfe, 0xfd, 0xfc]), "//79/A==");
}

#[test]
fn render_signature_hashes_tag_id_and_source() {
    let file = FileRecord {
        id: 7,
        path: "a.tex".into(),
        source: String::new(),
        hash: String::new(),
    };
    assert_eq!(
        signature(&file, "Olá"),
        "5316653f3026c15a26c9cab5aa05be27592adb53ee2edca57d99890e1e2e9e61"
    );
    let negative = FileRecord { id: -1, ..file };
    assert_eq!(
        signature(&negative, "x"),
        "f93567e7eb94637490bc86d11195ab2056d54264d9d217f8509584c23aa98019"
    );
}

// --- reader navigation ---

#[test]
fn display_name_spaces_capitals_and_drops_every_tex_ending() {
    assert_eq!(display_name("a/my_fileName.tex.tex"), "My file Name");
    assert_eq!(display_name("dir/"), "");
    assert_eq!(display_name("édito.tex"), "Édito");
}

#[test]
fn activity_title_prefers_the_translation() {
    let translated = reader_file(
        1,
        "cap/intro.tex",
        Some("Título{{CMD_1}}"),
        vec![placeholder("{{CMD_1}}", "}", PlaceholderKind::Command)],
    );
    assert_eq!(activity_title(&translated), "Título");
    assert_eq!(activity_summary(&translated), "");
    let untranslated = reader_file(2, "cap/chainRule.tex", None, vec![]);
    assert_eq!(activity_title(&untranslated), "Chain Rule");
}

#[test]
fn navigation_links_the_neighbouring_activities() {
    let files = vec![
        reader_file(10, "c/a.tex", None, vec![]),
        reader_file(20, "c/b.tex", None, vec![]),
        reader_file(30, "c/c.tex", None, vec![]),
    ];
    let nav = reader_navigation(&files, 20).unwrap();
    assert_eq!(nav.current_index, 1);
    assert_eq!(nav.previous.unwrap().id, 10);
    assert_eq!(nav.next.unwrap().title, "C");
    assert!(nav.activities[1].current);
    assert!(!nav.activities[0].current);
    let first = reader_navigation(&files, 10).unwrap();
    assert!(first.previous.is_none());
    assert_eq!(
        reader_navigation(&files, 99).unwrap_err(),
        "arquivo não pertence a um curso"
    );
}

// --- forms ---

#[test]
fn saving_a_translation_sets_its_status() {
    let placeholders = vec![placeholder("{{MATH_1}}", "$x$", PlaceholderKind::Math)];
    assert_eq!(
        translation_update("", &placeholders, true).unwrap(),
        (String::new(), "pendente".to_string())
    );
    assert_eq!(
        translation_update("Olá {{MATH_1}}", &placeholders, true).unwrap(),
        ("Olá {{MATH_1}}".to_string(), "traduzido".to_string())
    );
    assert_eq!(
        translation_update("Olá {{MATH_1}}", &placeholders, false).unwrap().1,
        "em_progresso"
    );
    assert_eq!(
        translation_update("Olá", &placeholders, false).unwrap_err(),
        "placeholder `{{MATH_1}}` aparece 0 vezes"
    );
}

#[test]
fn glossary_term_needs_an_original() {
    let blank = Term {
        original: "  ".into(),
        translated: "x".into(),
    };
    let term = Term {
        original: " limite".into(),
        translated: "limit".into(),
    };
    assert!(!blank.should_save());
    assert!(term.should_save());
}

#[test]
fn scan_pieces_join_back_to_the_source() {
    let source = "\\documentclass{article}\n\\title{Um título}\n\\begin{document}\nOlá \\emph{mundo}, $x$ e \\link[rótulo]{https://e.test}. % nota\nFim.\n\\end{document}\n";
    let pieces = scan(source).unwrap();
    let joined: String = pieces
        .iter()
        .map(|piece| match piece {
            traduz::models::Piece::Prose(text) => text.as_str(),
            traduz::models::Piece::Protected { original, .. } => original.as_str(),
        })
        .collect();
    assert_eq!(joined, source);
}

#[test]
fn segments_always_hold_text_to_translate() {
    let source = "Texto $a$.\n\n$b$ $c$\n\n\\emph{}\n\nMais texto.";
    let segments = traduz::parser::segment(&scan(source).unwrap());
    assert!(!segments.is_empty());
    for s in &segments {
        let mut text = s.original.clone();
        for p in &s.placeholders {
            text = text.replace(&p.token, "");
        }
        assert!(text.chars().any(|c| !c.is_whitespace() && c != '{' && c != '}'));
    }
}

#[test]
fn command_error_keeps_the_last_line_of_the_error_stream() {
    assert_eq!(
        traduz::ximera::command_error("git clone", b"aviso\nfatal: sem acesso\n"),
        "git clone falhou: fatal: sem acesso"
    );
    assert_eq!(
        traduz::ximera::command_error("ximeraLatex", b"linha 1\r\nlinha 2\r\n"),
        "ximeraLatex falhou: linha 2"
    );
    assert_eq!(
        traduz::ximera::command_error("ximeraLatex", b"sem quebra final"),
        "ximeraLatex falhou: sem quebra final"
    );
    assert_eq!(
        traduz::ximera::command_error("git clone", b""),
        "git clone falhou: sem detalhes"
    );
    assert_eq!(
        traduz::ximera::command_error("git clone", b"a\n\n"),
        "git clone falhou: "
    );
    assert_eq!(
        traduz::ximera::command_error("git clone", b"erro \xff\n"),
        "git clone falhou: erro \u{fffd}"
    );
}

#[test]
fn io_error_names_the_action() {
    assert_eq!(
        traduz::ximera::io_error("gravando cache do Ximera", "permissão negada"),
        "erro ao gravando cache do Ximera: permissão negada"
    );
}

fn pending_segments(segments: &[ParsedSegment]) -> Vec<Segment> {
    segments
        .iter()
        .enumerate()
        .map(|(i, s)| Segment {
            id: i as i64 + 1,
            file_id: 1,
            ordem: i as i64,
            original: s.original.clone(),
            translated: String::new(),
            status: "pendente".into(),
            placeholders: s.placeholders.clone(),
            start: s.start,
            end: s.end,
        })
        .collect()
}

#[test]
fn imported_file_exports_unchanged_without_translations() {
    let input = "\\begin{document}\nHello $x^2$.\n\\end{document}\n";
    let segments = pending_segments(&parse_file("one.tex", input).unwrap());
    assert!(!segments.is_empty());
    assert_eq!(translated_source(input, &segments).unwrap(), input);
}

#[test]
fn saved_translation_exports_with_its_latex_put_back() {
    let input = "Hello \\emph{world} and $x^2$.";
    let mut segments = pending_segments(&parse_file("one.tex", input).unwrap());
    assert_eq!(segments.len(), 1);
    let translation = segments[0].original.replace("Hello", "Olá").replace("and", "e");
    let (text, status) = translation_update(&translation, &segments[0].placeholders, true).unwrap();
    segments[0].translated = text;
    segments[0].status = status;
    let mut report = ExportReport::default();
    report.tally("one.tex", &segments, true).unwrap();
    assert_eq!(report.completed, 1);
    assert_eq!(translated_source(input, &segments).unwrap(), "Olá \\emph{world} e $x^2$.");
}

#[test]
fn segments_come_in_source_order_without_overlap() {
    let mut source = String::from("\\begin{document}\n");
    for k in 0..40 {
        source.push_str(&format!("Frase número {k} com $x_{k}$ e mais algumas palavras. "));
        if k % 7 == 6 {
            source.push_str("\n\n");
        }
    }
    source.push_str("\n\\end{document}\n");
    let segments = traduz::parser::segment(&scan(&source).unwrap());
    assert!(segments.len() > 3);
    for pair in segments.windows(2) {
        assert!(pair[0].start <= pair[0].end);
        assert!(pair[0].end <= pair[1].start);
    }
    let last = segments.last().unwrap();
    assert!(last.start <= last.end && last.end <= source.len());
}

fn joined(pieces: &[traduz::models::Piece]) -> String {
    pieces
        .iter()
        .map(|p| match p {
            traduz::models::Piece::Prose(t) => t.as_str(),
            traduz::models::Piece::Protected { original, .. } => original.as_str(),
        })
        .collect()
}

#[test]
fn title_without_argument_keeps_the_preamble_once() {
    let source = "x\\title y\\begin{document}z\\end{document}";
    assert_eq!(joined(&scan(source).unwrap()), source);
    let source = "\\usepackage{a}\n\\titleformat\n\\begin{document}\nTexto.\n\\end{document}\n";
    assert_eq!(joined(&scan(source).unwrap()), source);
}

#[test]
fn preamble_left_open_is_kept_to_the_end() {
    let source = "\\title{a \\begin{document} b} c";
    assert_eq!(joined(&scan(source).unwrap()), source);
}

#[test]
fn reconstruct_finds_a_token_after_an_extra_brace() {
    assert_eq!(
        reconstruct("{{{CMD_9}}", &[]).unwrap_err(),
        "placeholder desconhecido ou alterado"
    );
}

#[test]
fn long_prose_is_cut_into_segments_of_at_most_1200_bytes() {
    let pieces = vec![traduz::models::Piece::Prose(("x".repeat(99) + ". ").repeat(30))];
    let segments = traduz::parser::segment(&pieces);
    assert!(segments.len() > 2);
    assert!(segments.iter().all(|s| s.original.len() <= 1200));
    let lengths: Vec<usize> = segments.iter().map(|s| s.original.len()).collect();
    assert_eq!(lengths, vec![807, 808, 808, 607]);
}

#[test]
fn reader_shows_tokens_in_the_order_the_translation_puts_them() {
    let segment = Segment {
        id: 1,
        file_id: 1,
        ordem: 0,
        original: "{{MATH_1}} e {{MATH_2}}".into(),
        translated: "{{MATH_2}} e {{MATH_1}}".into(),
        status: "traduzido".into(),
        placeholders: vec![
            placeholder("{{MATH_1}}", "$a$", PlaceholderKind::Math),
            placeholder("{{MATH_2}}", "$b$", PlaceholderKind::Math),
        ],
        start: 0,
        end: 0,
    };
    assert_eq!(
        completed_block(&segment).unwrap().unwrap().html,
        r#"<span class="reader-math">\(b\)</span> e <span class="reader-math">\(a\)</span>"#
    );
}

#[test]
fn image_references_are_found_in_order() {
    let html = "<img src='a.png'> é <img src=\"b.svg\"><img src='data:x'>";
    let first = traduz::ximera::next_image_reference(html, b'\'', 0).unwrap();
    assert_eq!(&html[first.0..first.1], "a.png");
    let second = traduz::ximera::next_image_reference(html, b'\'', first.1 + 1).unwrap();
    assert_eq!(&html[second.0..second.1], "data:x");
    assert_eq!(traduz::ximera::next_image_reference(html, b'\'', second.1 + 1), None);
    let double = traduz::ximera::next_image_reference(html, b'"', 0).unwrap();
    assert_eq!(&html[double.0..double.1], "b.svg");
    assert_eq!(traduz::ximera::next_image_reference("<img src='open", b'\'', 0), None);
}

#[test]
fn prose_pieces_are_never_empty_nor_side_by_side() {
    let source = "\\begin{document}\nUm $x$ dois \\emph{três} quatro % nota\ncinco.\n\\end{document}\n";
    let pieces = scan(source).unwrap();
    for (i, p) in pieces.iter().enumerate() {
        if let traduz::models::Piece::Prose(t) = p {
            assert!(!t.is_empty());
            if let Some(next) = pieces.get(i + 1) {
                assert!(!matches!(next, traduz::models::Piece::Prose(_)));
            }
        }
    }
}

#[test]
fn export_replaces_only_finished_spans() {
    let source = "Um $x$.\n\nDois.\n\nTrês.";
    let mut segments = pending_segments(&parse_file("a.tex", source).unwrap());
    assert_eq!(segments.len(), 3);
    segments[1].translated = "Two.\n\n".into();
    segments[1].status = "traduzido".into();
    assert_eq!(translated_source(source, &segments).unwrap(), "Um $x$.\n\nTwo.\n\nTrês.");
}

#[test]
fn carry_skips_a_stored_segment_with_an_empty_token() {
    let previous = vec![stored(
        1,
        "Olá {{MATH_1}}.",
        "Hello {{MATH_1}}.",
        "traduzido",
        vec![placeholder("", "$x$", PlaceholderKind::Math)],
        0,
        10,
    )];
    let segments = parse_file("a.tex", "Olá $x$.").unwrap();
    assert_eq!(carry_translations(&previous, &segments), vec![None]);
}

#[test]
fn rename_passes_over_an_empty_old_token() {
    assert_eq!(
        rename_tokens("a {{MATH_1}} b", &[("", "{{X_9}}"), ("{{MATH_1}}", "{{MATH_2}}")]),
        "a {{MATH_2}} b"
    );
}

#[test]
fn data_url_names_the_media_type() {
    assert_eq!(traduz::ximera::data_url("fig/a.png", b"abc"), "data:image/png;base64,YWJj");
}

#[test]
fn token_numbers_run_upwards_through_the_segments() {
    let source = "Um $a$ e $b$.\n\nDois $c$.\n\nTrês \\emph{x} $d$.";
    let segments = parse_file("a.tex", source).unwrap();
    let numbers: Vec<u64> = segments
        .iter()
        .flat_map(|s| s.placeholders.iter())
        .map(|p| {
            let digits: String = p.token.chars().filter(|c| c.is_ascii_digit()).collect();
            digits.parse().unwrap()
        })
        .collect();
    assert!(numbers.len() >= 4);
    assert!(numbers.windows(2).all(|w| w[0] < w[1]));
}
