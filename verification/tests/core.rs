use mystquarto_core::config::bibliography::{bib_defined_keys, missing_citation_warnings};
use mystquarto_core::diagnostics::{Diagnostic, Severity};
use mystquarto_core::fs::path_guard::{IncludeChain, PathGuardError, MAX_INCLUDE_DEPTH};
use mystquarto_core::ir::{
    AdmonitionKind, Attrs, Block, BlockKind, CellOptions, CommentStyle, EmbedTarget, FigureSource, IncludeOpts, TabItem,
};
use mystquarto_core::label::Label;
use mystquarto_core::mappings::{
    directive_by_myst_name, directive_by_quarto_class, DirectiveMapping, Fidelity, Mappings,
};
use mystquarto_core::preserve::{entry_id, marker};
use mystquarto_core::reader::fence::{is_close, take_myst_directive};
use mystquarto_core::reader::inline::{rewrite_line, scan_line, InlineEvent};
use mystquarto_core::reader::mask::mask_code_spans;
use mystquarto_core::registry::normalize::{normalize, RefKind};
use mystquarto_core::registry::sidecar::{content_hash, restore_labels, FileLabels, LabelSidecar};
use mystquarto_core::span::Span;
use mystquarto_core::strmap::StrMap;

fn sorted(mut v: Vec<String>) -> Vec<String> {
    v.sort();
    v
}

#[test]
fn parses_article_and_software_entry_keys() {
    let bib = "@article{matplotlib,\n  title = {X},\n}\n\n@software{pandas,\n  title = {Y},\n}\n";
    let keys = bib_defined_keys(bib);
    assert_eq!(sorted(keys), vec!["matplotlib".to_string(), "pandas".to_string()]);
}

#[test]
fn ignores_non_entry_at_signs() {
    let bib = "@article{key1,\n  author = {a@example.com},\n}\n";
    assert_eq!(sorted(bib_defined_keys(bib)), vec!["key1".to_string()]);
}

#[test]
fn missing_citation_warnings_flags_undefined_dois() {
    let used = vec!["10.1038/nmeth.1974".to_string(), "matplotlib".to_string()];
    let defined = vec!["matplotlib".to_string()];
    let warnings = missing_citation_warnings(&used, &defined);
    assert_eq!(warnings.len(), 1);
    assert!(warnings[0].message.contains("10.1038/nmeth.1974"));
}

#[test]
fn severity_ordering_promotes_error_above_warning_above_lossy_above_info() {
    assert!(Severity::Error > Severity::Warning);
    assert!(Severity::Warning > Severity::LossyExpected);
    assert!(Severity::LossyExpected > Severity::Info);
}

#[test]
fn builder_sets_every_optional_field() {
    let d = Diagnostic::new(Severity::Warning, "MQ0301", "citation missing")
        .with_file("article.md")
        .with_span(Span::new(10, 12))
        .with_reference("§8.3")
        .with_preserved("fnv1a:deadbeef");
    assert_eq!(d.file, Some("article.md".to_string()));
    assert_eq!(d.span, Span::new(10, 12));
    assert_eq!(d.reference, Some("§8.3"));
    assert_eq!(d.preserved, Some("fnv1a:deadbeef".to_string()));
}

#[test]
fn default_span_is_line_one() {
    let d = Diagnostic::new(Severity::Info, "MQ0101", "x");
    assert_eq!(d.span, Span::single(1));
    assert_eq!(d.file, None);
}

#[test]
fn include_cycle_is_rejected() {
    let mut chain = IncludeChain::new();
    chain.push("/project/a.md".to_string()).unwrap();
    chain.push("/project/b.md".to_string()).unwrap();
    let err = chain.push("/project/a.md".to_string()).expect_err("re-pushing a path already on the chain must be a cycle");
    assert!(matches!(err, PathGuardError::IncludeCycle { .. }));
}

#[test]
fn include_depth_beyond_cap_is_rejected() {
    let mut chain = IncludeChain::new();
    for i in 0..MAX_INCLUDE_DEPTH {
        chain.push(format!("/project/{i}.md")).unwrap_or_else(|e| panic!("push {i} should succeed, got {}", e.message()));
    }
    assert_eq!(chain.depth(), MAX_INCLUDE_DEPTH);
    let err = chain.push("/project/one-too-many.md".to_string()).expect_err("pushing beyond the cap must be rejected");
    assert!(matches!(err, PathGuardError::DepthExceeded { .. }));
}

fn block(kind: BlockKind) -> Block {
    Block { kind, span: Span::single(1), blank_lines_before: 0 }
}

#[test]
fn every_block_kind_variant_constructs_and_is_accessible() {
    let heading = block(BlockKind::Heading {
        level: 2,
        text: "Data analysis".to_string(),
        label: Some(Label::new("sec:data-analysis")),
    });
    let BlockKind::Heading { level, text, label } = &heading.kind else { panic!() };
    assert_eq!(*level, 2);
    assert_eq!(text, "Data analysis");
    assert_eq!(label.as_ref().unwrap().raw, "sec:data-analysis");

    let paragraph = block(BlockKind::Paragraph { lines: vec!["Some prose.".to_string()] });
    let BlockKind::Paragraph { lines } = &paragraph.kind else { panic!() };
    assert_eq!(lines.len(), 1);

    let code_cell = block(BlockKind::CodeCell {
        lang: "python".to_string(),
        options: CellOptions {
            tags: vec!["remove-input".to_string()],
            caption: Some("A cell".to_string()),
            extra: StrMap::new(),
        },
        body: vec!["print('hi')".to_string()],
        label: Some(Label::new("nb:analysis")),
    });
    let BlockKind::CodeCell { lang, options, body, label } = &code_cell.kind else { panic!() };
    assert_eq!(lang, "python");
    assert_eq!(options.tags, vec!["remove-input".to_string()]);
    assert_eq!(body.len(), 1);
    assert!(label.is_some());

    let static_code = block(BlockKind::StaticCode {
        lang: Some("mermaid".to_string()),
        body: vec!["graph TD; A-->B;".to_string()],
        attrs: Attrs::new(),
    });
    let BlockKind::StaticCode { lang, body, .. } = &static_code.kind else { panic!() };
    assert_eq!(lang.as_deref(), Some("mermaid"));
    assert_eq!(body.len(), 1);

    let figure = block(BlockKind::Figure {
        src: FigureSource::Path("img/samples.png".to_string()),
        caption: vec!["Sample distribution.".to_string()],
        label: Some(Label::new("fig:samples")),
        attrs: Attrs::new(),
    });
    let BlockKind::Figure { src, caption, .. } = &figure.kind else { panic!() };
    assert!(matches!(src, FigureSource::Path(_)));
    assert_eq!(caption.len(), 1);

    let figure_cellref = block(BlockKind::Figure {
        src: FigureSource::CellRef {
            label: Label::new("nb:analysis-cell"),
            notebook: Some("analysis.ipynb".to_string()),
        },
        caption: vec![],
        label: None,
        attrs: Attrs::new(),
    });
    let BlockKind::Figure { src: FigureSource::CellRef { notebook, .. }, .. } = &figure_cellref.kind else { panic!() };
    assert!(notebook.is_some());

    let table = block(BlockKind::Table {
        caption: vec!["Results.".to_string()],
        rows: vec!["| a | b |".to_string(), "|---|---|".to_string()],
        label: Some(Label::new("tab:results")),
    });
    let BlockKind::Table { rows, .. } = &table.kind else { panic!() };
    assert_eq!(rows.len(), 2);

    let math = block(BlockKind::Math {
        body: vec!["x^2 + y^2 = z^2".to_string()],
        label: Some(Label::new("eq:chi-squared")),
    });
    let BlockKind::Math { body, .. } = &math.kind else { panic!() };
    assert_eq!(body.len(), 1);

    let admonition = block(BlockKind::Admonition {
        kind: AdmonitionKind::Hint,
        title: Some("Custom Title".to_string()),
        body: vec![block(BlockKind::Paragraph { lines: vec!["Nested.".to_string()] })],
        collapse: Some(false),
    });
    let BlockKind::Admonition { kind, body, collapse, .. } = &admonition.kind else { panic!() };
    assert_eq!(*kind, AdmonitionKind::Hint);
    assert_eq!(body.len(), 1);
    assert_eq!(*collapse, Some(false));

    let tabset = block(BlockKind::TabSet { items: vec![TabItem { label: "Tab A".to_string(), body: vec![] }] });
    let BlockKind::TabSet { items } = &tabset.kind else { panic!() };
    assert_eq!(items.len(), 1);

    let margin = block(BlockKind::Margin { body: vec![block(BlockKind::Paragraph { lines: vec!["Aside.".to_string()] })] });
    let BlockKind::Margin { body } = &margin.kind else { panic!() };
    assert_eq!(body.len(), 1);

    let incl = block(BlockKind::Include {
        target: "_shared.qmd".to_string(),
        opts: IncludeOpts { start_line: Some(1), end_line: Some(10), ..Default::default() },
    });
    let BlockKind::Include { opts, .. } = &incl.kind else { panic!() };
    assert_eq!(opts.start_line, Some(1));

    let embed = block(BlockKind::Embed {
        target: EmbedTarget::NotebookCell { notebook: "analysis.ipynb".to_string(), cell_label: Label::new("nb:analysis") },
        label: Some(Label::new("fig-analysis")),
    });
    let BlockKind::Embed { target, .. } = &embed.kind else { panic!() };
    assert!(matches!(target, EmbedTarget::NotebookCell { .. }));

    let blockquote = block(BlockKind::Blockquote {
        body: vec![block(BlockKind::Paragraph { lines: vec!["A quote.".to_string()] })],
        attribution: Some(vec!["Jane Doe".to_string()]),
    });
    let BlockKind::Blockquote { body, attribution } = &blockquote.kind else { panic!() };
    assert_eq!(body.len(), 1);
    assert_eq!(attribution.as_ref().unwrap(), &vec!["Jane Doe".to_string()]);

    let theorem = block(BlockKind::Theorem {
        thm_type: "theorem".to_string(),
        label: Some(Label::new("thm:main")),
        body: vec![block(BlockKind::Paragraph { lines: vec!["Statement.".to_string()] })],
    });
    let BlockKind::Theorem { thm_type, body, .. } = &theorem.kind else { panic!() };
    assert_eq!(thm_type, "theorem");
    assert_eq!(body.len(), 1);

    let directive = block(BlockKind::Directive {
        name: "grid".to_string(),
        attrs: Attrs::new(),
        body: vec![block(BlockKind::Directive { name: "card".to_string(), attrs: Attrs::new(), body: vec![], label: None })],
        label: None,
    });
    let BlockKind::Directive { name, body, .. } = &directive.kind else { panic!() };
    assert_eq!(name, "grid");
    assert_eq!(body.len(), 1);

    let comment = block(BlockKind::Comment { text: "a note".to_string(), style: CommentStyle::Percent });
    let BlockKind::Comment { style, .. } = &comment.kind else { panic!() };
    assert_eq!(*style, CommentStyle::Percent);

    let target = block(BlockKind::Target { label: Label::new("my-para") });
    let BlockKind::Target { label } = &target.kind else { panic!() };
    assert_eq!(label.raw, "my-para");

    let raw = block(BlockKind::Raw { format: "html".to_string(), body: vec!["<iframe src=\"x\"></iframe>".to_string()] });
    let BlockKind::Raw { format, .. } = &raw.kind else { panic!() };
    assert_eq!(format, "html");

    let block_break = block(BlockKind::BlockBreak);
    assert!(matches!(block_break.kind, BlockKind::BlockBreak));

    let preserved = block(BlockKind::Preserved {
        original: vec!["```{glossary}".to_string(), "term: def".to_string(), "```".to_string()],
        code: "D13-nested-include",
    });
    let BlockKind::Preserved { code, original } = &preserved.kind else { panic!() };
    assert_eq!(*code, "D13-nested-include");
    assert_eq!(original.len(), 3);

    let unmappable = block(BlockKind::Unmappable {
        original: vec!["```{epigraph}".to_string(), "```".to_string()],
        reason: "no Quarto target; warn + preserve (reference §11)".to_string(),
    });
    let BlockKind::Unmappable { reason, .. } = &unmappable.kind else { panic!() };
    assert!(reason.contains("no Quarto target"));
}

#[test]
fn block_span_and_blank_lines_before_are_accessible() {
    let b = Block { kind: BlockKind::BlockBreak, span: Span::new(10, 12), blank_lines_before: 2 };
    assert_eq!(b.span.start_line, 10);
    assert_eq!(b.span.end_line, 12);
    assert_eq!(b.blank_lines_before, 2);
}

#[test]
fn preserves_raw_label_unmodified() {
    let l = Label::new("fig:samples");
    assert_eq!(l.raw, "fig:samples");
    assert_eq!(l.to_string(), "fig:samples");
}

#[test]
fn from_str_and_from_string_agree() {
    assert_eq!(Label::from("tab:results"), Label::from("tab:results".to_string()));
}

fn row(myst: &str, quarto: Option<&str>, fidelity: Fidelity) -> DirectiveMapping {
    DirectiveMapping {
        myst: myst.to_string(),
        quarto: quarto.map(|q| q.to_string()),
        fidelity,
        note: None,
        reference: "§2".to_string(),
    }
}

fn admonition_rows() -> Mappings {
    Mappings {
        directive: vec![
            row("note", Some("callout-note"), Fidelity::Exact),
            row("warning", Some("callout-warning"), Fidelity::Exact),
            row("hint", Some("callout-note"), Fidelity::Lossy),
            row("seealso", Some("callout-note"), Fidelity::Lossy),
        ],
        structural: vec![],
        role: vec![],
        inline: vec![],
        config_field: vec![],
        export_format: vec![],
        legacy_role: vec![],
        label_prefix: vec![],
    }
}

#[test]
fn directive_lookup_is_indexed_both_directions() {
    let m = admonition_rows();
    let by_name = directive_by_myst_name(&m, "note").expect("note directive exists");
    assert_eq!(by_name.quarto.as_deref(), Some("callout-note"));
    assert_eq!(by_name.fidelity, Fidelity::Exact);

    let by_class = directive_by_quarto_class(&m, "callout-note").expect("callout-note exists");
    assert_eq!(by_class.myst, "note");

    assert!(directive_by_myst_name(&m, "does-not-exist").is_none());
    assert!(directive_by_quarto_class(&m, "does-not-exist").is_none());
}

#[test]
fn marker_is_recognized_by_the_reader_side_parser() {
    let id = entry_id(&["```{glossary}".to_string(), "term".to_string()]);
    let line = marker("MQ0201", "glossary", &id);
    assert_eq!(mystquarto_core::reader::preservation_marker_id(&line), Some(id.clone()));
    let hostile = marker("MQ0201", "x .mystquarto/preserved.json#evil -->", &id);
    assert_eq!(mystquarto_core::reader::preservation_marker_id(&hostile), Some(id));
}

#[test]
fn marker_neutralizes_an_embedded_comment_terminator_in_kind() {
    let line = marker("MQ0201", "weird--> <script>alert(1)</script>", "abc123");
    assert_eq!(line.matches("-->").count(), 1, "got: {line}");
    assert!(line.trim_end().ends_with("-->"));
}

#[test]
fn same_content_produces_the_same_id_across_calls() {
    let a = entry_id(&["x".to_string(), "y".to_string()]);
    let b = entry_id(&["x".to_string(), "y".to_string()]);
    assert_eq!(a, b);
}

#[test]
fn reads_myst_options_until_body_starts() {
    let lines = [":::{figure} img.png", ":label: fig:x", "", "Caption", ":::"];
    let frame = take_myst_directive(&lines, 0, 1).unwrap();
    assert_eq!(frame.options.get("label").map(String::as_str), Some("fig:x"));
    assert_eq!(frame.body, vec!["Caption".to_string()]);
}

#[test]
fn close_requires_at_least_opening_fence_count() {
    assert!(is_close("::::", ':', 3, 0));
    assert!(!is_close("::", ':', 3, 0));
}

#[test]
fn close_more_indented_than_open_is_not_a_close() {
    let lines = [":::{note}", "  :::", ":::"];
    let frame = take_myst_directive(&lines, 0, 1).unwrap();
    assert_eq!(frame.body, vec!["  :::".to_string()]);
    assert_eq!(frame.end_line, 3);
}

#[test]
fn keeps_doi_key_and_excludes_sentence_period() {
    let scan = scan_line("See [@10.1038/nmeth.1974] and @numpy.", &[]);
    assert_eq!(
        scan.events,
        vec![InlineEvent::Citation("10.1038/nmeth.1974".to_string()), InlineEvent::Citation("numpy".to_string())]
    );
}

#[test]
fn grouped_citations_emit_every_key() {
    let scan = scan_line("See [@10.1038/nmeth.1974; @smith2020].", &[]);
    assert_eq!(
        scan.events,
        vec![InlineEvent::Citation("10.1038/nmeth.1974".to_string()), InlineEvent::Citation("smith2020".to_string())]
    );
}

#[test]
fn ignores_role_syntax_inside_code_spans() {
    let scan = scan_line("Use `{cite}`key`` as text.", &[]);
    assert!(scan.events.is_empty());
}

#[test]
fn detects_knitr_and_jupyter_inline_engines() {
    let scan = scan_line("`r x + 1` and `{python} x`", &[]);
    assert!(scan.events.contains(&InlineEvent::KnitrEval("x + 1".to_string())));
    assert!(matches!(
        scan.events.last(),
        Some(InlineEvent::JupyterEval { engine, .. }) if engine == "python"
    ));
}

#[test]
fn inline_eval_match_consumes_the_closing_backtick() {
    let out = rewrite_line("`r x + 1` and `{python} x`.", &[], |event| match event {
        InlineEvent::KnitrEval(expr) => Some(format!("{{eval}}`{expr}`")),
        InlineEvent::JupyterEval { expr, .. } => Some(format!("`{{python}} {expr}`")),
        _ => None,
    });
    assert_eq!(out, "{eval}`x + 1` and `{python} x`.");
}

#[test]
fn known_myst_reference_prefixes_are_crossrefs_even_without_definitions() {
    let scan = scan_line("See @fig:samples and @numpy.", &[]);
    assert_eq!(
        scan.events,
        vec![InlineEvent::CrossReference("fig:samples".to_string()), InlineEvent::Citation("numpy".to_string())]
    );
}

#[test]
fn rewrite_passes_through_modern_citations_and_code_spans_unchanged() {
    let line = "See [@10.1038/nmeth.1974; @smith2020] and `[@not-a-citation]`.";
    let out = rewrite_line(line, &[], |_| panic!("no event should need rendering"));
    assert_eq!(out, line);
}

#[test]
fn rewrite_replaces_only_the_matched_span() {
    let out = rewrite_line("before {cite}`k` after", &[], |event| match event {
        InlineEvent::LegacyRole { role, target } if role == "cite" => Some(format!("[@{target}]")),
        _ => None,
    });
    assert_eq!(out, "before [@k] after");
}

#[test]
fn rewrite_normalizes_cross_reference_but_leaves_citation_at_sign_alone() {
    let known = vec!["fig-samples".to_string()];
    let out = rewrite_line("See @fig-samples and @numpy.", &known, |event| match event {
        InlineEvent::CrossReference(key) => Some(format!("[[{key}]]")),
        _ => None,
    });
    assert_eq!(out, "See [[fig-samples]] and @numpy.");
}

#[test]
fn rewrite_declining_a_replacement_keeps_the_original_span() {
    let out = rewrite_line("`{python} x + 1`", &[], |_| None);
    assert_eq!(out, "`{python} x + 1`");
}

#[test]
fn masks_matching_backtick_runs_only() {
    let masked = mask_code_spans("a `x` b ``code with ` inside`` c");
    assert!(!masked.text.contains("code with"));
    assert_eq!(masked.unmask(&masked.text), "a `x` b ``code with ` inside`` c");
}

#[test]
fn multi_byte_utf8_characters_survive_outside_code_spans() {
    let input = "Café — naïve \u{201c}quotes\u{201d} 25 °C 日本語";
    let masked = mask_code_spans(input);
    assert_eq!(masked.text, input, "no code spans present, so masking must be a no-op");
}

#[test]
fn multi_byte_utf8_characters_survive_alongside_a_code_span() {
    let input = "Café `code` 日本語";
    let masked = mask_code_spans(input);
    assert!(!masked.text.contains("code"));
    assert_eq!(masked.unmask(&masked.text), input);
}

#[test]
fn fig_colon_prefix_maps_to_fig_hyphen() {
    assert_eq!(normalize("fig:samples", RefKind::Generic), "fig-samples");
}

#[test]
fn tab_colon_prefix_maps_to_tbl_hyphen_not_tab_hyphen() {
    assert_eq!(normalize("tab:phenotypic-variation", RefKind::Generic), "tbl-phenotypic-variation");
}

#[test]
fn eq_colon_prefix_maps_to_eq_hyphen() {
    assert_eq!(normalize("eq:chi-squared", RefKind::Generic), "eq-chi-squared");
}

#[test]
fn sec_colon_prefix_maps_to_sec_hyphen() {
    assert_eq!(normalize("sec:data-analysis", RefKind::Generic), "sec-data-analysis");
}

#[test]
fn nb_colon_prefix_maps_directly_to_fig_hyphen() {
    assert_eq!(normalize("nb:analysis", RefKind::CodeCell), "fig-analysis");
}

#[test]
fn unprefixed_figure_label_gets_fig_prefix_injected() {
    assert_eq!(normalize("samples", RefKind::Figure), "fig-samples");
}

#[test]
fn unprefixed_table_label_gets_tbl_prefix_injected() {
    assert_eq!(normalize("results", RefKind::Table), "tbl-results");
}

#[test]
fn unprefixed_section_label_gets_sec_prefix_injected() {
    assert_eq!(normalize("intro", RefKind::Section), "sec-intro");
}

#[test]
fn theorem_subtype_maps_to_its_abbreviation() {
    assert_eq!(normalize("main", RefKind::Theorem { subtype: "lemma".to_string() }), "lem-main");
    assert_eq!(normalize("main", RefKind::Theorem { subtype: "algorithm".to_string() }), "alg-main");
}

#[test]
fn generic_unprefixed_label_gets_no_injected_prefix() {
    assert_eq!(normalize("my-para", RefKind::Generic), "my-para");
}

#[test]
fn underscore_becomes_hyphen() {
    assert_eq!(normalize("my_label", RefKind::Generic), "my-label");
}

#[test]
fn uppercase_is_lowercased() {
    assert_eq!(normalize("Fig:Samples", RefKind::Generic), "fig-samples");
}

#[test]
fn unrecognized_colon_prefix_is_kept_as_label_text_not_overridden_by_kind() {
    assert_eq!(normalize("custom:thing", RefKind::Figure), "custom-thing");
}

#[test]
fn characters_outside_the_legal_set_are_dropped() {
    assert_eq!(normalize("fig:a b!c", RefKind::Generic), "fig-abc");
}

#[test]
fn stale_content_hash_entries_are_skipped_on_restore() {
    let mut labels = StrMap::new();
    labels.insert("fig-samples".to_string(), "fig:samples".to_string());
    let sidecar = LabelSidecar {
        version: 1,
        generated_by: "test".to_string(),
        direction: "quarto_to_myst".to_string(),
        source_root: String::new(),
        files: vec![("article.md".to_string(), FileLabels { content_hash: content_hash(b"old content"), labels })],
    };

    let mut current = StrMap::new();
    current.insert("article.md".to_string(), content_hash(b"new content"));
    let restored = restore_labels(&sidecar, &current);
    assert!(restored.is_empty(), "a changed file's entries must not be trusted");

    let mut unchanged = StrMap::new();
    unchanged.insert("article.md".to_string(), content_hash(b"old content"));
    let restored = restore_labels(&sidecar, &unchanged);
    assert_eq!(restored.len(), 1);
}

#[test]
fn single_line_span_has_equal_bounds() {
    let s = Span::single(55);
    assert_eq!(s.start_line, 55);
    assert_eq!(s.end_line, 55);
    assert_eq!(s.line_count(), 1);
}

#[test]
fn multi_line_span_counts_lines_inclusively() {
    let s = Span::new(10, 12);
    assert_eq!(s.line_count(), 3);
}
