use mystquarto_core::ir::{AdmonitionKind, Attrs, Block, BlockKind, CellOptions, Document, Engine, FigureSource, Frontmatter};
use mystquarto_core::label::Label;
use mystquarto_core::reader::myst::MystReader;
use mystquarto_core::reader::{PreservationStore, ReaderContext};
use mystquarto_core::registry::LabelRegistry;
use mystquarto_core::span::Span;
use mystquarto_core::strmap::StrMap;
use mystquarto_core::writer::myst::MystWriter;
use mystquarto_core::writer::quarto::QuartoWriter;
use mystquarto_core::yaml::YamlValue;

fn block(kind: BlockKind, blank: u8) -> Block {
    Block { kind, span: Span::single(1), blank_lines_before: blank }
}

fn document(source: &str, blocks: Vec<Block>) -> Document {
    Document { frontmatter: None, blocks, source: source.to_string(), engine: Some(Engine::Jupyter) }
}

fn quarto_out(doc: Document) -> String {
    let docs = vec![(doc.source.clone(), doc)];
    let registry = LabelRegistry::build(&docs).0;
    let writer = QuartoWriter::new(registry);
    writer.write(&docs[0].1)
}

fn myst_out(doc: &Document) -> String {
    let writer = MystWriter::new(Vec::new(), Vec::new());
    writer.write(doc).0
}

// ---------------------------------------------------------------------------
// MyST writer.
// ---------------------------------------------------------------------------

#[test]
fn same_dialect_round_trip_is_byte_identical_on_a_modern_myst_paragraph() {
    let input = "(sec:data)=\n\n## Data\n\nSome prose with [@smith2020] and @sec:data.\n";
    let reader = MystReader::new(ReaderContext::new("a.md"));
    let doc = reader.read_str(input).unwrap();
    assert_eq!(myst_out(&doc), input);
}

#[test]
fn jupyter_frontmatter_is_mapped_to_kernelspec_by_the_writer() {
    let raw = "title: Sample\njupyter: python3\n";
    let parsed = YamlValue::Mapping(vec![
        ("title".to_string(), YamlValue::String("Sample".to_string())),
        ("jupyter".to_string(), YamlValue::String("python3".to_string())),
    ]);
    let mut doc = document("a.md", vec![block(BlockKind::Paragraph { lines: vec!["Body.".to_string()] }, 0)]);
    doc.frontmatter = Some(Frontmatter { raw: raw.to_string(), parsed });
    let out = myst_out(&doc);
    assert!(out.contains("kernelspec:"));
    assert!(out.contains("name: python3"));
    assert!(!out.contains("jupyter:"));
}

#[test]
fn legacy_cite_role_is_rewritten_to_modern_bracket_syntax() {
    let doc = document("a.md", vec![block(BlockKind::Paragraph { lines: vec!["See {cite}`smith2020` here.".to_string()] }, 0)]);
    let out = myst_out(&doc);
    assert_eq!(out.trim(), "See [@smith2020] here.");
    assert!(!out.contains("{cite}"));
}

#[test]
fn no_legacy_role_syntax_survives_a_battery_of_legacy_inputs() {
    let text = "\
{cite}`a` and {cite:t}`b` and {cite:p}`c`.
{numref}`fig-x` and {ref}`label` and {eq}`eq-y`.
{doc}`other.md`
";
    let reader = MystReader::new(ReaderContext::new("a.md"));
    let doc = reader.read_str(text).unwrap();
    let out = myst_out(&doc);
    for legacy in ["{cite}", "{cite:t}", "{cite:p}", "{numref}", "{ref}", "{eq}", "{doc}"] {
        assert!(!out.contains(legacy), "found legacy role {legacy} in:\n{out}");
    }
}

#[test]
fn sidecar_restored_label_is_used_instead_of_the_quarto_id() {
    let doc = document(
        "article.md",
        vec![block(
            BlockKind::Figure {
                src: FigureSource::Path("img.png".into()),
                caption: vec![],
                label: Some(Label::new("fig-samples")),
                attrs: Attrs::new(),
            },
            0,
        )],
    );
    let restore = vec![(("article.md".to_string(), "fig-samples".to_string()), Label::new("fig:samples"))];
    let writer = MystWriter::new(restore, Vec::new());
    let (out, _, _) = writer.write(&doc);
    assert!(out.contains(":label: fig:samples"));
}

#[test]
fn preserved_block_reader_writer_round_trip() {
    let mut preserved = PreservationStore::new();
    preserved.insert("abc", vec!["% restored comment".to_string()]);
    let reader = MystReader::new(ReaderContext { preserved, ..ReaderContext::new("a.md") });
    let doc = reader.read_str("<!-- mystquarto MQ0203: x see .mystquarto/preserved.json#abc -->\n").unwrap();
    let out = myst_out(&doc);
    assert_eq!(out.trim(), "% restored comment");
}

#[test]
fn frontmatter_warnings_come_before_block_diagnostics() {
    let parsed = YamlValue::Mapping(vec![(
        "format".to_string(),
        YamlValue::Mapping(vec![("revealjs".to_string(), YamlValue::Mapping(vec![]))]),
    )]);
    let mut doc = document("a.md", vec![block(BlockKind::Paragraph { lines: vec!["Body.".to_string()] }, 0)]);
    doc.frontmatter = Some(Frontmatter { raw: "format:\n  revealjs: {}\n".to_string(), parsed });
    let writer = MystWriter::new(Vec::new(), Vec::new());
    let (out, warnings, _) = writer.write(&doc);
    assert!(out.starts_with("---\nexports:\n  - format: revealjs\n---\n"));
    assert_eq!(warnings.len(), 1);
    assert_eq!(warnings[0].code, "MQ0408");
}

// ---------------------------------------------------------------------------
// Quarto writer.
// ---------------------------------------------------------------------------

#[test]
fn heading_with_label_emits_sec_id() {
    let doc = document(
        "a.md",
        vec![block(BlockKind::Heading { level: 2, text: "Data Analysis".to_string(), label: Some(Label::new("sec:data-analysis")) }, 0)],
    );
    assert_eq!(quarto_out(doc).trim(), "## Data Analysis {#sec-data-analysis}");
}

#[test]
fn figure_with_single_line_caption_emits_fig_id() {
    let doc = document(
        "a.md",
        vec![block(
            BlockKind::Figure {
                src: FigureSource::Path("images/fruit-flies.png".into()),
                caption: vec!["Collection methodology.".to_string()],
                label: Some(Label::new("fig:samples")),
                attrs: Attrs::new(),
            },
            0,
        )],
    );
    assert_eq!(quarto_out(doc).trim(), "![Collection methodology.](images/fruit-flies.png){#fig-samples}");
}

#[test]
fn table_caption_and_label_both_survive() {
    let doc = document(
        "a.md",
        vec![block(
            BlockKind::Table {
                caption: vec!["Phenotypic variation.".to_string()],
                rows: vec!["| A | B |".to_string(), "|---|---|".to_string()],
                label: Some(Label::new("tab:phenotypic-variation")),
            },
            0,
        )],
    );
    let out = quarto_out(doc);
    assert!(out.contains("| A | B |"));
    assert!(out.contains(": Phenotypic variation. {#tbl-phenotypic-variation}"));
}

#[test]
fn cellref_figure_emits_embed_with_normalized_cell_id() {
    let doc = document(
        "a.md",
        vec![block(
            BlockKind::Figure {
                src: FigureSource::CellRef { label: Label::new("nb:analysis"), notebook: Some("analysis.ipynb".into()) },
                caption: vec![],
                label: Some(Label::new("fig:environment")),
                attrs: Attrs::new(),
            },
            0,
        )],
    );
    assert_eq!(quarto_out(doc).trim(), "{{< embed analysis.ipynb#fig-environment >}}");
}

#[test]
fn cellref_figure_with_no_document_label_falls_back_to_the_cell_name() {
    let doc = document(
        "a.md",
        vec![block(
            BlockKind::Figure {
                src: FigureSource::CellRef { label: Label::new("nb:analysis"), notebook: Some("analysis.ipynb".into()) },
                caption: vec![],
                label: None,
                attrs: Attrs::new(),
            },
            0,
        )],
    );
    assert_eq!(quarto_out(doc).trim(), "{{< embed analysis.ipynb#fig-analysis >}}");
}

#[test]
fn legacy_cite_role_never_reaches_output_as_role_syntax() {
    let doc = document("a.md", vec![block(BlockKind::Paragraph { lines: vec!["See {cite}`smith2020` for details.".to_string()] }, 0)]);
    assert_eq!(quarto_out(doc).trim(), "See [@smith2020] for details.");
}

#[test]
fn doi_citation_key_survives_myst_to_quarto_unchanged() {
    let doc = document("a.md", vec![block(BlockKind::Paragraph { lines: vec!["See [@10.1038/nmeth.1974].".to_string()] }, 0)]);
    assert_eq!(quarto_out(doc).trim(), "See [@10.1038/nmeth.1974].");
}

#[test]
fn frontmatter_passes_through_verbatim() {
    let mut doc = document("a.md", vec![block(BlockKind::Paragraph { lines: vec!["Body.".to_string()] }, 0)]);
    doc.frontmatter = Some(Frontmatter {
        raw: "title: Sample\nabstract: |\n  Line one.\n  Line two.\n".to_string(),
        parsed: YamlValue::Null,
    });
    let out = quarto_out(doc);
    assert!(out.starts_with("---\ntitle: Sample\nabstract: |\n  Line one.\n  Line two.\n---\n"));
    assert!(out.contains("Body."));
}

#[test]
fn code_cell_tags_map_to_quarto_options() {
    let doc = document(
        "a.md",
        vec![block(
            BlockKind::CodeCell {
                lang: "python".to_string(),
                options: CellOptions { tags: vec!["remove-input".to_string()], caption: None, extra: StrMap::new() },
                body: vec!["x = 1".to_string()],
                label: None,
            },
            0,
        )],
    );
    let out = quarto_out(doc);
    assert!(out.contains("```{python}"));
    assert!(out.contains("#| echo: false"));
    assert!(out.contains("x = 1"));
}

#[test]
fn admonition_title_containing_a_quote_cannot_inject_extra_attributes() {
    let doc = document(
        "a.md",
        vec![block(
            BlockKind::Admonition {
                kind: AdmonitionKind::Note,
                title: Some(r#"x" .callout-important collapse="true"#.to_string()),
                body: vec![],
                collapse: None,
            },
            0,
        )],
    );
    let out = quarto_out(doc);
    assert!(
        !out.contains(".callout-important collapse=\"true\"}"),
        "an unescaped title must not be able to inject a second class/attribute, got:\n{out}"
    );
    assert!(out.contains("title=\"x\\\""));
}

#[test]
fn figure_caption_containing_a_quote_does_not_break_the_attribute_block() {
    let mut attrs = StrMap::new();
    attrs.insert("alt".to_string(), r#"a "quoted" alt"#.to_string());
    let doc = document(
        "a.md",
        vec![block(
            BlockKind::Figure {
                src: FigureSource::Path("img.png".into()),
                caption: vec![],
                label: Some(Label::new("fig:samples")),
                attrs,
            },
            0,
        )],
    );
    let out = quarto_out(doc);
    assert!(out.contains("alt=\"a \\\"quoted\\\" alt\""));
}

#[test]
fn empty_document_is_a_single_newline() {
    assert_eq!(quarto_out(document("a.md", vec![])), "\n");
    assert_eq!(myst_out(&document("a.md", vec![])), "\n");
}

#[test]
fn quarto_static_code_keeps_attributes_unescaped_in_key_order() {
    let mut attrs = StrMap::new();
    attrs.insert("filename".to_string(), "a.py".to_string());
    attrs.insert("code-line-numbers".to_string(), "true".to_string());
    let doc = document(
        "a.md",
        vec![block(BlockKind::StaticCode { lang: Some("python".to_string()), body: vec!["x".to_string()], attrs }, 0)],
    );
    assert_eq!(quarto_out(doc), "```{.python code-line-numbers=\"true\" filename=\"a.py\"}\nx\n```\n");
}

#[test]
fn quarto_code_cell_lists_label_tags_caption_then_other_options() {
    let mut extra = StrMap::new();
    extra.insert("warning".to_string(), "false".to_string());
    let doc = document(
        "a.md",
        vec![block(
            BlockKind::CodeCell {
                lang: "ipython3".to_string(),
                options: CellOptions {
                    tags: vec!["hide-input".to_string(), "unknown-tag".to_string()],
                    caption: Some("A \"plot\"".to_string()),
                    extra,
                },
                body: vec!["plot()".to_string()],
                label: None,
            },
            0,
        )],
    );
    assert_eq!(
        quarto_out(doc),
        "```{python}\n#| code-fold: true\n#| fig-cap: \"A \\\"plot\\\"\"\n#| warning: false\nplot()\n```\n"
    );
}

#[test]
fn myst_code_cell_joins_tags_with_commas_and_separates_the_options() {
    let doc = document(
        "a.qmd",
        vec![block(
            BlockKind::CodeCell {
                lang: "python".to_string(),
                options: CellOptions {
                    tags: vec!["remove-input".to_string(), "hide-output".to_string()],
                    caption: None,
                    extra: StrMap::new(),
                },
                body: vec!["x = 1".to_string()],
                label: None,
            },
            0,
        )],
    );
    assert_eq!(myst_out(&doc), "```{code-cell} python\n:tags: [remove-input, hide-output]\n\nx = 1\n```\n");
}

#[test]
fn myst_figure_drops_the_id_and_an_alt_equal_to_the_caption() {
    let mut attrs = StrMap::new();
    attrs.insert("id".to_string(), "fig-a".to_string());
    attrs.insert("alt".to_string(), " A plot ".to_string());
    attrs.insert("width".to_string(), "50%".to_string());
    let doc = document(
        "a.qmd",
        vec![block(
            BlockKind::Figure {
                src: FigureSource::Path("a.png".into()),
                caption: vec!["A plot".to_string()],
                label: None,
                attrs,
            },
            0,
        )],
    );
    assert_eq!(myst_out(&doc), ":::{figure} a.png\n:width: 50%\n\nA plot\n:::\n");
}
