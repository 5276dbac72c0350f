use mystquarto_core::fs::path_guard::{IncludeChain, MAX_INCLUDE_DEPTH};
use mystquarto_core::ir::{BlockKind, CommentStyle, EmbedTarget, Engine, FigureSource};
use mystquarto_core::reader::myst::MystReader;
use mystquarto_core::reader::quarto::QuartoReader;
use mystquarto_core::reader::{NotebookCellIndex, PreservationStore, ReaderContext};

#[test]
fn parses_targets_comments_labels_and_captions() {
    let reader = MystReader::new(ReaderContext::new("article.md"));
    let doc = reader.read_str(
        "(sec:data)=\n\n## Data\n\n% comment\n\n50% of users\n\n:::{figure} img.png\n:name: fig:old\n:label: fig:new\nCaption\n:::\n",
    ).unwrap();
    assert!(matches!(&doc.blocks[0].kind, BlockKind::Heading { label: Some(l), .. } if l.raw == "sec:data"));
    assert!(matches!(&doc.blocks[1].kind, BlockKind::Comment { style: CommentStyle::Percent, .. }));
    assert!(matches!(&doc.blocks[2].kind, BlockKind::Paragraph { lines } if lines[0] == "50% of users"));
    assert!(
        matches!(&doc.blocks[3].kind, BlockKind::Figure { label: Some(l), caption, .. } if l.raw == "fig:new" && caption == &vec!["Caption".to_string()])
    );
}

#[test]
fn resolves_notebook_cell_refs_through_index() {
    let mut index = NotebookCellIndex::new();
    index.insert("nb:analysis", "analysis.ipynb", 0);
    let reader = MystReader::new(ReaderContext { notebook_index: index, ..ReaderContext::new("article.md") });
    let doc = reader.read_str(":::{figure} #nb:analysis\n:::\n").unwrap();
    assert!(
        matches!(&doc.blocks[0].kind, BlockKind::Figure { src: FigureSource::CellRef { notebook: Some(p), .. }, .. } if p == "analysis.ipynb")
    );
}

#[test]
fn preserved_marker_reparses_original_block() {
    let mut preserved = PreservationStore::new();
    preserved.insert("b7f3", vec!["% restored".to_string()]);
    let reader = MystReader::new(ReaderContext { preserved, ..ReaderContext::new("article.md") });
    let doc = reader.read_str("<!-- mystquarto MQ0203: preserved see .mystquarto/preserved.json#b7f3 -->\n").unwrap();
    assert!(matches!(&doc.blocks[0].kind, BlockKind::Comment { text, .. } if text == "restored"));
}

#[test]
fn parses_code_options_shortcodes_and_engine() {
    let reader = QuartoReader::new(ReaderContext::new("article.qmd"));
    let doc = reader.read_str(
        "```{r}\n#| label: fig-analysis\n#| echo: false\nplot(x)\n```\n\n{{< include _part.qmd >}}\n\n`r x + 1`\n",
    ).unwrap();
    assert_eq!(doc.engine, Some(Engine::Knitr));
    assert!(
        matches!(&doc.blocks[0].kind, BlockKind::CodeCell { label: Some(l), options, .. } if l.raw == "fig-analysis" && options.tags == vec!["remove-input"])
    );
    assert!(matches!(&doc.blocks[1].kind, BlockKind::Include { target, .. } if target == "_part.qmd"));
}

#[test]
fn parses_figures_tables_math_and_embed() {
    let reader = QuartoReader::new(ReaderContext::new("article.qmd"));
    let doc = reader.read_str(
        "![Caption](img.png){#fig-x width=50%}\n\n| a |\n|---|\n: Table cap {#tbl-x}\n\n$$\nx\n$$ {#eq-x}\n\n{{< embed analysis.ipynb#fig-analysis >}}\n",
    ).unwrap();
    assert!(matches!(&doc.blocks[0].kind, BlockKind::Figure { label: Some(l), .. } if l.raw == "fig-x"));
    assert!(
        matches!(&doc.blocks[1].kind, BlockKind::Table { label: Some(l), caption, .. } if l.raw == "tbl-x" && caption[0] == "Table cap")
    );
    assert!(matches!(&doc.blocks[2].kind, BlockKind::Math { label: Some(l), .. } if l.raw == "eq-x"));
    assert!(
        matches!(&doc.blocks[3].kind, BlockKind::Embed { target: EmbedTarget::NotebookCell { notebook, .. }, .. } if notebook == "analysis.ipynb")
    );
}

#[test]
fn unresolved_notebook_cell_ref_becomes_unmappable() {
    let reader = MystReader::new(ReaderContext::new("article.md"));
    let doc = reader.read_str(":::{figure} #nb:missing\n:::\n").unwrap();
    assert!(
        matches!(&doc.blocks[0].kind, BlockKind::Unmappable { reason, .. } if reason.contains("does not resolve")),
        "unresolved notebook cell refs must not become partial figures"
    );
}

#[test]
fn include_cycle_and_depth_are_checked_by_reader_context() {
    let mut chain = IncludeChain::new();
    chain.push("shared.md".to_string()).unwrap();
    let reader = MystReader::new(ReaderContext { include_chain: chain, ..ReaderContext::new("article.md") });
    let doc = reader.read_str("```{include} shared.md\n```\n").unwrap();
    assert!(matches!(&doc.blocks[0].kind, BlockKind::Unmappable { reason, .. } if reason.contains("cycle")));

    let mut deep = IncludeChain::new();
    for i in 0..MAX_INCLUDE_DEPTH {
        deep.push(format!("{i}.md")).unwrap();
    }
    let reader = MystReader::new(ReaderContext { include_chain: deep, ..ReaderContext::new("article.md") });
    let doc = reader.read_str("```{include} too-deep.md\n```\n").unwrap();
    assert!(matches!(&doc.blocks[0].kind, BlockKind::Unmappable { reason, .. } if reason.contains("depth")));
}

#[test]
fn loose_preservation_sidecar_mentions_remain_paragraphs() {
    let reader = MystReader::new(ReaderContext::new("article.md"));
    let doc = reader.read_str("See .mystquarto/preserved.json#b7f3 for details.\n").unwrap();
    assert!(matches!(&doc.blocks[0].kind, BlockKind::Paragraph { .. }));
}

#[test]
fn final_multiline_paragraph_span_reaches_last_line() {
    let reader = MystReader::new(ReaderContext::new("article.md"));
    let doc = reader.read_str("first\nsecond\n").unwrap();
    assert_eq!(doc.blocks[0].span.start_line, 1);
    assert_eq!(doc.blocks[0].span.end_line, 2);
}

#[test]
fn myst_static_fences_and_tab_sets_parse_to_typed_blocks() {
    let reader = MystReader::new(ReaderContext::new("article.md"));
    let doc = reader.read_str("```python\nprint(1)\n```\n\n::::{tab-set}\n:::{tab-item} A\nAlpha\n:::\n::::\n").unwrap();
    assert!(matches!(&doc.blocks[0].kind, BlockKind::StaticCode { lang: Some(lang), .. } if lang == "python"));
    assert!(matches!(&doc.blocks[1].kind, BlockKind::TabSet { items } if items.len() == 1 && items[0].label == "A"));
}

#[test]
fn myst_pending_targets_are_not_silently_dropped() {
    let reader = MystReader::new(ReaderContext::new("article.md"));
    let doc = reader.read_str("(a)=\n(b)=\n## Heading\n\n(c)=\n:::{figure} img.png\n:label: fig:x\n:::\n").unwrap();
    assert!(matches!(&doc.blocks[0].kind, BlockKind::Target { label } if label.raw == "a"));
    assert!(matches!(&doc.blocks[1].kind, BlockKind::Heading { label: Some(label), .. } if label.raw == "b"));
    assert!(matches!(&doc.blocks[2].kind, BlockKind::Target { label } if label.raw == "c"));
    assert!(matches!(&doc.blocks[3].kind, BlockKind::Figure { label: Some(label), .. } if label.raw == "fig:x"));
}

#[test]
fn quarto_nested_divs_respect_outer_fence_count() {
    let reader = QuartoReader::new(ReaderContext::new("article.qmd"));
    let doc = reader.read_str(":::: {.callout-note}\nText\n::: {.column-margin}\nNested\n:::\n::::\n").unwrap();
    assert_eq!(doc.blocks.len(), 1);
    assert!(matches!(&doc.blocks[0].kind, BlockKind::Admonition { body, .. } if body.len() == 2));
}

#[test]
fn quarto_inline_or_unknown_shortcodes_are_unmappable() {
    let reader = QuartoReader::new(ReaderContext::new("article.qmd"));
    let doc = reader.read_str("- {{< include _part.qmd >}}\n\n{{< doesnotexist x >}}\n").unwrap();
    assert!(matches!(&doc.blocks[0].kind, BlockKind::Unmappable { .. }));
    assert!(matches!(&doc.blocks[1].kind, BlockKind::Unmappable { .. }));
}

#[test]
fn myst_dollar_math_parses_to_math_block() {
    let reader = MystReader::new(ReaderContext::new("article.md"));
    let doc = reader.read_str("$$\nx + y\n$$\n").unwrap();
    assert!(matches!(&doc.blocks[0].kind, BlockKind::Math { body, label: None } if body == &vec!["x + y".to_string()]));
}

#[test]
fn quarto_raw_fence_is_not_executable_code_cell() {
    let reader = QuartoReader::new(ReaderContext::new("article.qmd"));
    let doc = reader.read_str("```{=latex}\n\\newpage\n```\n").unwrap();
    assert_eq!(doc.engine, None);
    assert!(
        matches!(&doc.blocks[0].kind, BlockKind::Raw { format, body } if format == "latex" && body == &vec!["\\newpage".to_string()])
    );
}

#[test]
fn frontmatter_text_is_split_off_and_body_lines_are_numbered_after_it() {
    let reader = MystReader::new(ReaderContext::new("article.md"));
    let doc = reader.read_str("---\ntitle: X\nauthor: Y\n---\n\nBody\n").unwrap();
    assert_eq!(doc.frontmatter.unwrap().raw, "title: X\nauthor: Y\n");
    assert!(matches!(&doc.blocks[0].kind, BlockKind::Paragraph { lines } if lines == &vec!["Body".to_string()]));
    assert_eq!(doc.blocks[0].span.start_line, 6);
    assert_eq!(doc.blocks[0].blank_lines_before, 1);
}

#[test]
fn qmd_cells_are_indexed_by_their_label_option() {
    let mut index = NotebookCellIndex::new();
    index.add_qmd_cells("doc.qmd", "```{python}\n#| label: fig-a\nx\n```\n\n```{python}\n#| label: \"fig-b\"\n```\n");
    assert_eq!(index.resolve("fig-a").unwrap().cell_index, 0);
    assert_eq!(index.resolve("fig-b").unwrap().cell_index, 1);
    assert_eq!(index.resolve("fig-b").unwrap().notebook, "doc.qmd");
    assert!(index.resolve("fig-c").is_none());
}

#[test]
fn foreign_dialect_entries_are_restored_opaquely_by_the_quarto_reader() {
    let mut preserved = PreservationStore::new();
    preserved.insert_dialect("abc", mystquarto_core::preserve::Dialect::Myst, vec!["```{glossary}".to_string(), "```".to_string()]);
    let reader = QuartoReader::new(ReaderContext { preserved, ..ReaderContext::new("a.qmd") });
    let doc = reader.read_str("<!-- mystquarto MQ0201: glossary preserved see .mystquarto/preserved.json#abc -->\n").unwrap();
    assert!(
        matches!(&doc.blocks[0].kind, BlockKind::Preserved { code, original } if *code == "preserved-foreign-dialect" && original.len() == 2)
    );
    let doc = reader.read_str("<!-- mystquarto MQ0201: x preserved see .mystquarto/preserved.json#zzz -->\n").unwrap();
    assert!(matches!(&doc.blocks[0].kind, BlockKind::Preserved { code, .. } if *code == "missing-sidecar-entry"));
}

#[test]
fn myst_block_openers_are_tried_in_order() {
    let reader = MystReader::new(ReaderContext::new("a.md"));
    let doc = reader.read_str("% a note\n+++\n## Title\nplain text\n```python\nx = 1\n```\n").unwrap();
    assert_eq!(doc.blocks.len(), 5);
    assert!(matches!(&doc.blocks[0].kind, BlockKind::Comment { style: CommentStyle::Percent, .. }));
    assert!(matches!(&doc.blocks[1].kind, BlockKind::BlockBreak));
    assert!(matches!(&doc.blocks[2].kind, BlockKind::Heading { level: 2, text, .. } if text == "Title"));
    assert!(matches!(&doc.blocks[3].kind, BlockKind::Paragraph { .. }));
    assert!(matches!(&doc.blocks[4].kind, BlockKind::StaticCode { lang: Some(l), .. } if l == "python"));
}

#[test]
fn quarto_block_openers_are_tried_in_order() {
    let reader = QuartoReader::new(ReaderContext::new("a.qmd"));
    let doc = reader.read_str("<!-- a note -->\n## Title {#sec-t}\n| a |\n|---|\n| 1 |\n\nplain text\n").unwrap();
    assert!(matches!(&doc.blocks[0].kind, BlockKind::Comment { style: CommentStyle::Html, .. }));
    assert!(matches!(&doc.blocks[1].kind, BlockKind::Heading { level: 2, label: Some(l), .. } if l.raw == "sec-t"));
    assert!(matches!(&doc.blocks[2].kind, BlockKind::Table { .. }));
    assert!(matches!(doc.blocks.last().map(|b| &b.kind), Some(BlockKind::Paragraph { .. })));
}
