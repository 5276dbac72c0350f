use mystquarto_core::config::exports::{exports_to_format, manuscript_article};
use mystquarto_core::config::myst_to_quarto;
use mystquarto_core::config::project_type::{infer, ProjectType};
use mystquarto_core::config::quarto_to_myst;
use mystquarto_core::frontmatter;
use mystquarto_core::ir::Frontmatter;
use mystquarto_core::yaml::emit::{emit, render_field, EmitField, YamlDoc};
use mystquarto_core::yaml::surgery::{apply_edits, FrontmatterEdit, SurgeryError};
use mystquarto_core::yaml::YamlValue;

// ---------------------------------------------------------------------------
// Reading YAML text into the library's value type.

fn parse_mapping(text: &str) -> Vec<(String, YamlValue)> {
    mystquarto_core::yaml::parse_mapping(text).expect("a YAML mapping")
}

fn has_key(fields: &[(String, YamlValue)], key: &str) -> bool {
    fields.iter().any(|(k, _)| k == key)
}

fn lookup<'a>(fields: &'a [(String, YamlValue)], key: &str) -> Option<&'a YamlValue> {
    fields.iter().find(|(k, _)| k == key).map(|(_, v)| v)
}

fn s(text: &str) -> YamlValue {
    YamlValue::String(text.to_string())
}

// ---------------------------------------------------------------------------
// emit

#[test]
fn plain_string_field_emits_unquoted() {
    let doc = YamlDoc(vec![EmitField::new("title", s("Sample Article"))]);
    assert_eq!(emit(&doc), "title: Sample Article\n");
}

#[test]
fn block_literal_field_emits_pipe_style() {
    let doc = YamlDoc(vec![EmitField::new(
        "abstract",
        YamlValue::BlockLiteral(
            "This is a multi-line abstract\nwith a hard line break preserved\nby the block literal style.\n".into(),
        ),
    )]);
    let expected = "abstract: |\n  This is a multi-line abstract\n  with a hard line break preserved\n  by the block literal style.\n";
    assert_eq!(emit(&doc), expected);
}

#[test]
fn nested_mapping_field_emits_indented_block() {
    let doc = YamlDoc(vec![EmitField::new(
        "project",
        YamlValue::Mapping(vec![
            ("type".to_string(), s("manuscript")),
            ("output-dir".to_string(), s("_output")),
        ]),
    )]);
    assert_eq!(emit(&doc), "project:\n  type: manuscript\n  output-dir: _output\n");
}

#[test]
fn list_of_strings_emits_dash_items() {
    let doc = YamlDoc(vec![EmitField::new(
        "keywords",
        YamlValue::Sequence(vec![s("genomics"), s("phenotype")]),
    )]);
    assert_eq!(emit(&doc), "keywords:\n  - genomics\n  - phenotype\n");
}

#[test]
fn list_of_small_objects_emits_authors_style() {
    let doc = YamlDoc(vec![EmitField::new(
        "author",
        YamlValue::Sequence(vec![
            YamlValue::Mapping(vec![
                ("name".to_string(), s("Ada Lovelace")),
                ("orcid".to_string(), s("0000-0000")),
            ]),
            YamlValue::Mapping(vec![("name".to_string(), s("Bob"))]),
        ]),
    )]);
    let expected = "author:\n  - name: Ada Lovelace\n    orcid: 0000-0000\n  - name: Bob\n";
    assert_eq!(emit(&doc), expected);
}

#[test]
fn comment_emits_above_key() {
    let doc = YamlDoc(vec![
        EmitField::new("title", s("Sample")),
        EmitField::new("open_access", s("no"))
            .with_comment("preserved from myst.yml; no Quarto equivalent (reference \u{00a7}8.2)"),
    ]);
    let expected = "title: Sample\n# preserved from myst.yml; no Quarto equivalent (reference \u{00a7}8.2)\nopen_access: \"no\"\n";
    assert_eq!(emit(&doc), expected);
}

#[test]
fn key_order_matches_vec_order_not_alphabetical() {
    let doc = YamlDoc(vec![
        EmitField::new("zeta", YamlValue::Int(1)),
        EmitField::new("alpha", YamlValue::Int(2)),
    ]);
    let out = emit(&doc);
    assert!(out.find("zeta").unwrap() < out.find("alpha").unwrap());
}

#[test]
fn open_access_no_string_round_trips_quoted() {
    let doc = YamlDoc(vec![EmitField::new("open_access", s("no"))]);
    let text = emit(&doc);
    assert_eq!(parse_mapping(&text), vec![("open_access".to_string(), s("no"))]);
}

#[test]
fn emit_is_deterministic() {
    let make = || {
        YamlDoc(vec![
            EmitField::new("title", s("Sample")),
            EmitField::new(
                "author",
                YamlValue::Sequence(vec![YamlValue::Mapping(vec![("name".to_string(), s("Ada"))])]),
            ),
            EmitField::new("abstract", YamlValue::BlockLiteral("line one\nline two\n".into())),
        ])
    };
    let doc = make();
    assert_eq!(emit(&doc), emit(&doc));
    assert_eq!(emit(&doc), emit(&make()));
}

#[test]
fn demo_config_exercises_all_four_required_shapes() {
    let doc = YamlDoc(vec![
        EmitField::new("title", s("Sample Article")),
        EmitField::new("keywords", YamlValue::Sequence(vec![s("genomics"), s("phenotype")])),
        EmitField::new("project", YamlValue::Mapping(vec![("type".to_string(), s("manuscript"))])),
        EmitField::new("abstract", YamlValue::BlockLiteral("line one\nline two\n".to_string())),
    ]);
    assert_eq!(
        emit(&doc),
        "title: Sample Article\n\
         keywords:\n  - genomics\n  - phenotype\n\
         project:\n  type: manuscript\n\
         abstract: |\n  line one\n  line two\n"
    );
}

#[test]
fn scalars_that_would_read_back_differently_are_quoted() {
    let doc = YamlDoc(vec![
        EmitField::new("a", s("true")),
        EmitField::new("b", s("42")),
        EmitField::new("c", s("1.5e3")),
        EmitField::new("d", s("")),
        EmitField::new("e", s("key: value")),
        EmitField::new("f", s(" padded")),
        EmitField::new("g", s("\"hi\"\\")),
        EmitField::new("h", s("say \"hi\"")),
    ]);
    let text = emit(&doc);
    assert_eq!(
        text,
        "a: \"true\"\nb: \"42\"\nc: \"1.5e3\"\nd: \"\"\ne: \"key: value\"\nf: \" padded\"\ng: \"\\\"hi\\\"\\\\\"\nh: say \"hi\"\n"
    );
    let back = parse_mapping(&text);
    assert_eq!(lookup(&back, "a"), Some(&s("true")));
    assert_eq!(lookup(&back, "b"), Some(&s("42")));
    assert_eq!(lookup(&back, "g"), Some(&s("\"hi\"\\")));
    assert_eq!(lookup(&back, "h"), Some(&s("say \"hi\"")));
}

#[test]
fn numbers_bools_and_null_emit_bare() {
    let doc = YamlDoc(vec![
        EmitField::new("n", YamlValue::Int(-7)),
        EmitField::new("x", YamlValue::Float("2.5".to_string())),
        EmitField::new("t", YamlValue::Bool(true)),
        EmitField::new("z", YamlValue::Null),
        EmitField::new("e", YamlValue::Mapping(vec![])),
        EmitField::new("l", YamlValue::Sequence(vec![])),
    ]);
    assert_eq!(emit(&doc), "n: -7\nx: 2.5\nt: true\nz: null\ne: {}\nl: []\n");
}

#[test]
fn render_field_is_a_one_field_document_without_its_newline() {
    let value = YamlValue::Mapping(vec![("pdf".to_string(), YamlValue::Mapping(vec![]))]);
    let doc = YamlDoc(vec![EmitField::new("format", YamlValue::Mapping(vec![("pdf".to_string(), YamlValue::Mapping(vec![]))]))]);
    assert_eq!(render_field("format", &value) + "\n", emit(&doc));
    assert_eq!(render_field("format", &value), "format:\n  pdf: {}");
}

// ---------------------------------------------------------------------------
// surgery

fn set(key: &str, value: YamlValue) -> FrontmatterEdit {
    FrontmatterEdit::SetKey { key: key.to_string(), value }
}

#[test]
fn d09_abstract_block_literal_survives_unrelated_edit_byte_identical() {
    let fm = "title: Sample Article\nauthors:\n  - name: Ada Lovelace\nabstract: |\n  This is a multi-line abstract\n  with a hard line break preserved\n  by the block literal style.\nkeywords:\n  - genomics\n";
    let out = apply_edits(fm, &vec![set("title", s("Renamed"))]).expect("edit applies");
    let expected_abstract_block = "abstract: |\n  This is a multi-line abstract\n  with a hard line break preserved\n  by the block literal style.\n";
    assert!(out.contains(expected_abstract_block));
    assert!(out.contains("title: Renamed"));
    assert!(!out.contains("Sample Article"));
}

#[test]
fn set_on_unrelated_key_preserves_block_style_and_key_order() {
    let original = "title: Foo\nabstract: |\n  line one\n  line two\ndescription: Bar\n";
    let out = apply_edits(original, &vec![set("description", s("Baz"))]).expect("edit applies");
    assert_eq!(out, "title: Foo\nabstract: |\n  line one\n  line two\ndescription: Baz\n");
}

#[test]
fn comments_and_key_order_preserved() {
    let original = "# leading comment\ntitle: Foo\n# comment about abstract\nabstract: |\n  line one\n  line two\ndescription: Bar\n";
    let out = apply_edits(original, &vec![set("description", s("Baz"))]).expect("edit applies");
    assert_eq!(
        out,
        "# leading comment\ntitle: Foo\n# comment about abstract\nabstract: |\n  line one\n  line two\ndescription: Baz\n"
    );
}

#[test]
fn block_chomp_strip_style_preserved() {
    let original = "title: Foo\nnotes: |-\n  no trailing blank line\ndescription: Bar\n";
    let out = apply_edits(original, &vec![set("title", s("New"))]).expect("edit applies");
    assert!(out.contains("notes: |-\n  no trailing blank line\n"));
}

#[test]
fn folded_block_style_preserved() {
    let original = "title: Foo\nsummary: >\n  folded\n  text\ndescription: Bar\n";
    let out = apply_edits(original, &vec![set("title", s("New"))]).expect("edit applies");
    assert!(out.contains("summary: >\n  folded\n  text\n"));
}

#[test]
fn set_new_key_appends_at_end() {
    let out = apply_edits("title: Foo\n", &vec![set("doi", s("10.1/x"))]).expect("edit applies");
    assert_eq!(out, "title: Foo\ndoi: 10.1/x\n");
}

#[test]
fn set_block_literal_value_emits_pipe_style() {
    let edits = vec![set("abstract", YamlValue::BlockLiteral("line one\nline two\n".to_string()))];
    let out = apply_edits("title: Foo\n", &edits).expect("edit applies");
    assert_eq!(out, "title: Foo\nabstract: |\n  line one\n  line two\n");
}

#[test]
fn remove_deletes_key_and_value_lines() {
    let original = "title: Foo\nabstract: |\n  line one\n  line two\ndescription: Bar\n";
    let edits = vec![FrontmatterEdit::Remove { key: "abstract".to_string() }];
    let out = apply_edits(original, &edits).expect("edit applies");
    assert_eq!(out, "title: Foo\ndescription: Bar\n");
}

#[test]
fn remove_missing_key_errors() {
    let edits = vec![FrontmatterEdit::Remove { key: "nope".to_string() }];
    assert_eq!(apply_edits("title: Foo\n", &edits), Err(SurgeryError::KeyNotFound("nope".to_string())));
}

#[test]
fn rename_keeps_value_lines_byte_identical() {
    let original = "subject: Biology\nabstract: |\n  line one\n  line two\n";
    let edits = vec![FrontmatterEdit::Rename { from: "subject".to_string(), to: "categories".to_string() }];
    let out = apply_edits(original, &edits).expect("edit applies");
    assert_eq!(out, "categories: Biology\nabstract: |\n  line one\n  line two\n");
}

#[test]
fn rename_missing_key_errors() {
    let edits = vec![FrontmatterEdit::Rename { from: "nope".to_string(), to: "x".to_string() }];
    assert_eq!(apply_edits("title: Foo\n", &edits), Err(SurgeryError::KeyNotFound("nope".to_string())));
}

#[test]
fn blank_line_inside_block_scalar_survives_an_unrelated_key_removal() {
    let original = "title: Foo\nabstract: |\n  First paragraph.\n\n  Second paragraph.\nkernelspec:\n  name: python3\n";
    let edits = vec![FrontmatterEdit::Remove { key: "kernelspec".to_string() }];
    let out = apply_edits(original, &edits).expect("edit applies");
    assert_eq!(out, "title: Foo\nabstract: |\n  First paragraph.\n\n  Second paragraph.\n");
}

#[test]
fn blank_line_inside_folded_block_scalar_survives_an_unrelated_key_removal() {
    let original = "title: Foo\nsummary: >\n  First.\n\n  Second.\nkernelspec:\n  name: python3\n";
    let edits = vec![FrontmatterEdit::Remove { key: "kernelspec".to_string() }];
    let out = apply_edits(original, &edits).expect("edit applies");
    assert_eq!(out, "title: Foo\nsummary: >\n  First.\n\n  Second.\n");
}

#[test]
fn no_edits_returns_input_byte_identical() {
    let original = "title: Foo\nabstract: |\n  line one\n  line two\n# trailing comment\n";
    let out = apply_edits(original, &vec![]).expect("no edits always applies");
    assert_eq!(out, original);
}

#[test]
fn no_edits_keeps_text_without_a_final_newline() {
    let original = "# only a comment\ntitle: Foo";
    assert_eq!(apply_edits(original, &vec![]), Ok(original.to_string()));
}

#[test]
fn remove_takes_the_comment_lines_above_the_key_with_it() {
    let original = "title: Foo\n# about the doi\ndoi: 10.1/x\nlicense: MIT\n";
    let edits = vec![FrontmatterEdit::Remove { key: "doi".to_string() }];
    assert_eq!(apply_edits(original, &edits), Ok("title: Foo\nlicense: MIT\n".to_string()));
}

#[test]
fn edits_apply_in_order_and_a_later_one_sees_an_earlier_rename() {
    let original = "subject: Biology\ntitle: Foo\n";
    let edits = vec![
        FrontmatterEdit::Rename { from: "subject".to_string(), to: "categories".to_string() },
        set("categories", YamlValue::Sequence(vec![s("Biology")])),
    ];
    assert_eq!(apply_edits(original, &edits), Ok("categories:\n  - Biology\ntitle: Foo\n".to_string()));
}

#[test]
fn surgery_error_message_names_the_key() {
    let e = SurgeryError::KeyNotFound("nope".to_string());
    assert!(e.message().contains("nope"));
}

// ---------------------------------------------------------------------------
// exports

fn exports_from(text: &str) -> Vec<YamlValue> {
    let parsed = parse_mapping(text);
    match &parsed[0].1 {
        YamlValue::Sequence(items) => items.iter().map(|v| v.copy()).collect(),
        _ => panic!("expected a sequence"),
    }
}

#[test]
fn explicit_format_maps_directly() {
    let exports = exports_from("exports:\n  - format: pdf\n");
    let (field, warnings) = exports_to_format(&exports);
    assert!(warnings.is_empty());
    let YamlValue::Mapping(m) = field.unwrap().value else { panic!() };
    assert_eq!(m, vec![("pdf".to_string(), YamlValue::Mapping(vec![]))]);
}

#[test]
fn tex_maps_to_latex() {
    let exports = exports_from("exports:\n  - format: tex\n");
    let (field, _) = exports_to_format(&exports);
    let YamlValue::Mapping(m) = field.unwrap().value else { panic!() };
    assert_eq!(m[0].0, "latex");
}

#[test]
fn meca_is_dropped_with_a_warning_never_format_empty() {
    let exports = exports_from("exports:\n  - format: meca\n");
    let (field, warnings) = exports_to_format(&exports);
    assert!(field.is_none());
    assert_eq!(warnings.len(), 1);
}

#[test]
fn template_only_export_infers_typst_and_preserves_template_as_comment() {
    let exports = exports_from("exports:\n  - template: lapreprint-typst\n    article: article.md\n");
    let (field, warnings) = exports_to_format(&exports);
    assert!(warnings.is_empty());
    let field = field.expect("template-only export must still produce a format");
    let YamlValue::Mapping(m) = &field.value else { panic!() };
    assert_eq!(m, &vec![("typst".to_string(), YamlValue::Mapping(vec![]))]);
    assert!(field.comment.unwrap().contains("lapreprint-typst"));
}

#[test]
fn unrecognized_template_suffix_guesses_pdf_and_warns() {
    let exports = exports_from("exports:\n  - template: my-custom-house-style\n");
    let (field, warnings) = exports_to_format(&exports);
    let YamlValue::Mapping(m) = &field.unwrap().value else { panic!() };
    assert_eq!(m[0].0, "pdf");
    assert_eq!(warnings.len(), 1);
}

#[test]
fn empty_exports_produces_no_format_field() {
    let (field, warnings) = exports_to_format(&vec![]);
    assert!(field.is_none());
    assert!(warnings.is_empty());
}

#[test]
fn manuscript_article_reads_the_first_article_field() {
    let exports = exports_from("exports:\n  - template: lapreprint-typst\n    article: article.md\n");
    assert_eq!(manuscript_article(&exports), Some("article.md".to_string()));
}

#[test]
fn each_export_entry_gives_one_format_key_in_order() {
    let exports = exports_from("exports:\n  - format: pdf\n  - format: docx\n  - format: pdf\n");
    let (field, warnings) = exports_to_format(&exports);
    assert!(warnings.is_empty());
    let YamlValue::Mapping(m) = field.unwrap().value else { panic!() };
    let keys: Vec<&str> = m.iter().map(|(k, _)| k.as_str()).collect();
    assert_eq!(keys, vec!["pdf", "docx", "pdf"]);
}

// ---------------------------------------------------------------------------
// project type

fn infer_text(text: &str) -> ProjectType {
    infer(&parse_mapping(text))
}

#[test]
fn book_theme_site_template_wins_outright() {
    assert_eq!(infer_text("project:\n  toc: []\nsite:\n  template: book-theme\n"), ProjectType::Book);
}

#[test]
fn export_template_makes_a_manuscript() {
    assert_eq!(
        infer_text("project:\n  exports:\n    - template: lapreprint-typst\n"),
        ProjectType::Manuscript
    );
}

#[test]
fn article_theme_site_template_makes_a_manuscript() {
    assert_eq!(
        infer_text("project:\n  toc: []\nsite:\n  template: article-theme\n"),
        ProjectType::Manuscript
    );
}

#[test]
fn toc_with_two_or_more_entries_and_no_article_template_is_a_book() {
    assert_eq!(infer_text("project:\n  toc:\n    - file: a\n    - file: b\n"), ProjectType::Book);
}

#[test]
fn toc_with_one_entry_is_default() {
    assert_eq!(infer_text("project:\n  toc:\n    - file: a\n"), ProjectType::Default);
}

#[test]
fn no_signals_at_all_is_default() {
    assert_eq!(infer_text("project:\n  title: Solo page\n"), ProjectType::Default);
}

#[test]
fn export_template_outranks_a_long_toc() {
    let text = "project:\n  exports:\n    - template: lapreprint-typst\n      article: article.md\n  toc:\n    - file: article.md\n    - file: analysis.ipynb\nsite:\n  template: article-theme\n";
    assert_eq!(infer_text(text), ProjectType::Manuscript);
}

// ---------------------------------------------------------------------------
// myst.yml -> _quarto.yml

fn m2q(text: &str, bib: Option<&str>) -> myst_to_quarto::ConversionResult {
    myst_to_quarto::convert_checked(text, bib).expect("emittable").expect("a YAML mapping")
}

#[test]
fn book_theme_project_places_title_and_chapters_under_book() {
    let myst = "project:\n  title: Test Project\n  authors:\n    - name: Test Author\n  toc:\n    - file: intro\n    - file: methods\nsite:\n  template: book-theme\n";
    let result = m2q(myst, None);
    assert_eq!(result.project_type, ProjectType::Book);
    assert!(result.text.contains("project:\n  type: book\n"));
    assert!(result.text.contains("book:\n  title: Test Project\n"));
    assert!(result.text.contains("author:\n    - name: Test Author\n"));
    assert!(result.text.contains("chapters:\n    - intro.qmd\n    - methods.qmd\n"));
}

#[test]
fn bare_string_affiliation_widens_to_a_list_of_objects() {
    let myst = "project:\n  authors:\n    - name: A\n      affiliation: Curvenote Inc.\n";
    let result = m2q(myst, None);
    assert!(result.text.contains("affiliations:\n"));
    assert!(result.text.contains("name: Curvenote Inc."));
    assert!(!result.text.contains("affiliation:"));
}

#[test]
fn subject_maps_to_categories_not_description() {
    let myst = "project:\n  subject: Original Research\n  description: A real description.\n";
    let result = m2q(myst, None);
    assert!(result.text.contains("description: A real description."));
    assert!(result.text.contains("categories:\n  - Original Research\n"));
}

#[test]
fn template_only_export_never_emits_format_empty() {
    let myst = "project:\n  exports:\n    - template: lapreprint-typst\n      article: article.md\n";
    let result = m2q(myst, None);
    assert!(!result.text.contains("format: {}"));
    assert!(result.text.contains("format:\n  typst: {}\n"));
    assert!(result.text.contains("lapreprint-typst"));
}

#[test]
fn unmappable_fields_appear_as_a_comment_block_and_in_preserved_fields() {
    let myst = "project:\n  open_access: true\n  venue: The Morganton Scientific\n  id: proj-1\n  abbreviations:\n    CRISPR: gene editing\n";
    let result = m2q(myst, None);
    assert!(result.text.contains("# mystquarto: no Quarto equivalent for these myst.yml fields"));
    assert!(result.text.contains("# open_access: true"));
    assert!(result.text.contains("# venue: The Morganton Scientific"));
    assert!(result.text.contains("# id: proj-1"));
    assert!(result.text.contains("#   CRISPR: gene editing"));
    assert_eq!(result.preserved_fields.len(), 4);
    assert!(has_key(&result.preserved_fields, "abbreviations"));
}

#[test]
fn bibliography_is_synthesized_when_a_bib_exists_and_myst_yml_omits_it() {
    let result = m2q("project:\n  title: Test\n", Some("references.bib"));
    assert!(result.text.contains("bibliography: references.bib"));
    assert_eq!(result.warnings.len(), 1);
    assert!(result.warnings[0].message.contains("synthesized"));
}

#[test]
fn explicit_bibliography_is_not_overridden_by_synthesis() {
    let result = m2q("project:\n  bibliography: my-refs.bib\n", Some("references.bib"));
    assert!(result.text.contains("bibliography: my-refs.bib"));
    assert!(!result.text.contains("references.bib"));
    assert!(result.warnings.is_empty());
}

#[test]
fn unknown_project_key_is_preserved_not_dropped() {
    let result = m2q("project:\n  title: T\n  math:\n    R: \\mathbb{R}\n", None);
    assert!(has_key(&result.preserved_fields, "math"));
    assert!(result.text.contains("# math:"));
}

#[test]
fn unrecognized_site_template_is_preserved() {
    let result = m2q("project:\n  title: T\nsite:\n  template: my-custom-theme\n", None);
    assert_eq!(lookup(&result.preserved_fields, "site.template"), Some(&s("my-custom-theme")));
}

#[test]
fn recognized_site_template_is_not_redundantly_preserved() {
    let myst = "project:\n  toc:\n    - file: a\n    - file: b\nsite:\n  template: book-theme\n";
    let result = m2q(myst, None);
    assert!(!has_key(&result.preserved_fields, "site.template"));
}

#[test]
fn other_site_key_is_preserved() {
    let result = m2q("project:\n  title: T\nsite:\n  nav:\n    - title: Home\n", None);
    assert!(has_key(&result.preserved_fields, "site.nav"));
}

#[test]
fn bare_string_author_is_widened_not_dropped() {
    let result = m2q("project:\n  authors:\n    - Rowan Cockett\n    - name: Thomas Morgan\n", None);
    assert!(result.text.contains("Rowan Cockett"), "got:\n{}", result.text);
    assert!(result.text.contains("Thomas Morgan"));
}

#[test]
fn manuscript_toc_entry_beyond_article_and_notebooks_is_preserved() {
    let myst = "project:\n  exports:\n    - template: lapreprint-typst\n      article: article.md\n  toc:\n    - file: article.md\n    - file: appendix.md\n    - file: analysis.ipynb\n";
    let result = m2q(myst, None);
    assert_eq!(result.project_type, ProjectType::Manuscript);
    assert!(result.text.contains("notebook: analysis.ipynb"));
    let Some(YamlValue::Sequence(leftover)) = lookup(&result.preserved_fields, "toc") else {
        panic!("appendix.md must be preserved, not dropped");
    };
    assert_eq!(leftover.len(), 1);
    assert!(result.warnings.iter().any(|w| w.message.contains("beyond the manuscript's article")));
}

#[test]
fn preserved_fields_come_out_in_key_order() {
    let myst = "project:\n  venue: V\n  abbreviations:\n    A: a\n  id: x\nsite:\n  nav: []\n";
    let result = m2q(myst, None);
    let keys: Vec<&str> = result.preserved_fields.iter().map(|(k, _)| k.as_str()).collect();
    assert_eq!(keys, vec!["abbreviations", "id", "site.nav", "venue"]);
}

#[test]
fn every_project_and_site_key_is_handled_or_preserved() {
    let myst = "project:\n  title: T\n  license: MIT\n  open_access: true\n  venue: V\n  github: https://example.org/r\nsite:\n  template: article-theme\n  options:\n    logo: x.png\n";
    let result = m2q(myst, None);
    assert!(result.text.contains("license: MIT"));
    assert!(result.text.contains("repo-url: https://example.org/r"));
    assert!(has_key(&result.preserved_fields, "open_access"));
    assert!(has_key(&result.preserved_fields, "venue"));
    assert!(has_key(&result.preserved_fields, "site.options"));
    assert!(!has_key(&result.preserved_fields, "site.template"));
    assert_eq!(result.project_type, ProjectType::Manuscript);
}

// ---------------------------------------------------------------------------
// _quarto.yml -> myst.yml

fn q2m(text: &str, preserved: Option<&Vec<(String, YamlValue)>>) -> quarto_to_myst::ConversionResult {
    quarto_to_myst::convert_checked(text, preserved).expect("emittable").expect("a YAML mapping")
}

#[test]
fn book_type_project_maps_book_title_authors_and_chapters_back() {
    let quarto = "project:\n  type: book\nbook:\n  title: Test Project\n  author:\n    - name: Test Author\n  chapters:\n    - intro.qmd\n    - methods.qmd\n";
    let result = q2m(quarto, None);
    assert!(result.is_book);
    assert!(result.text.contains("project:"));
    assert!(result.text.contains("title: Test Project"));
    assert!(result.text.contains("name: Test Author"));
    assert!(result.text.contains("file: intro"));
    assert!(result.text.contains("file: methods"));
    assert!(result.text.contains("site:\n  template: book-theme\n"));
}

#[test]
fn non_book_project_maps_top_level_title_and_author() {
    let result = q2m("title: Solo Page\nauthor:\n  - name: A\n", None);
    assert!(!result.is_book);
    assert!(result.text.contains("title: Solo Page"));
    assert!(!result.text.contains("site:"));
}

#[test]
fn preserved_fields_are_restored_under_their_original_keys() {
    let preserved = vec![
        ("open_access".to_string(), YamlValue::Bool(true)),
        ("venue".to_string(), s("The Morganton Scientific")),
    ];
    let result = q2m("title: X\n", Some(&preserved));
    assert!(result.text.contains("open_access: true"));
    assert!(result.text.contains("venue: The Morganton Scientific"));
}

#[test]
fn format_pdf_and_docx_map_back_to_exports() {
    let result = q2m("title: X\nformat:\n  pdf: {}\n", None);
    assert!(result.text.contains("format: pdf"));
    assert!(result.warnings.is_empty());
}

#[test]
fn unrecognized_format_key_passes_through_with_a_warning() {
    let result = q2m("title: X\nformat:\n  typst: {}\n", None);
    assert!(result.text.contains("format: typst"));
    assert_eq!(result.warnings.len(), 1);
}

#[test]
fn site_prefixed_preserved_field_is_restored_under_site_not_project() {
    let preserved = vec![("site.template".to_string(), s("my-custom-theme"))];
    let result = q2m("title: X\n", Some(&preserved));
    assert!(result.text.contains("site:\n  template: my-custom-theme\n"));
    assert!(!result.text.contains("project:\n  site.template"));
}

#[test]
fn book_appendices_are_flattened_into_toc_with_a_warning() {
    let quarto = "project:\n  type: book\nbook:\n  chapters:\n    - intro.qmd\n  appendices:\n    - appendix.qmd\n";
    let result = q2m(quarto, None);
    assert!(result.text.contains("file: intro"));
    assert!(result.text.contains("file: appendix"));
    assert!(result.warnings.iter().any(|w| w.message.contains("appendices")));
}

#[test]
fn book_part_grouping_is_flattened_with_a_warning() {
    let quarto = "project:\n  type: book\nbook:\n  chapters:\n    - index.qmd\n    - part: \"Part One\"\n      chapters:\n        - a.qmd\n        - b.qmd\n";
    let result = q2m(quarto, None);
    assert!(result.text.contains("file: index"));
    assert!(result.text.contains("file: a"));
    assert!(result.text.contains("file: b"));
    assert!(result.warnings.iter().any(|w| w.message.contains("part")));
}

#[test]
fn unrecognized_top_level_key_warns_instead_of_silently_dropping() {
    let result = q2m("title: X\nexecute:\n  echo: false\n", None);
    assert!(result.warnings.iter().any(|w| w.message.contains("execute")));
}

#[test]
fn preserved_fields_round_trip_back_to_their_keys() {
    let myst = "project:\n  title: T\n  venue: The Morganton Scientific\nsite:\n  template: my-custom-theme\n";
    let forward = m2q(myst, None);
    let back = q2m(&forward.text, Some(&forward.preserved_fields));
    assert!(back.text.contains("venue: The Morganton Scientific"));
    assert!(back.text.contains("site:\n  template: my-custom-theme\n"));
}

// ---------------------------------------------------------------------------
// page frontmatter

fn fm(raw: &str) -> Frontmatter {
    Frontmatter { raw: raw.to_string(), parsed: YamlValue::Mapping(parse_mapping(raw)) }
}

#[test]
fn kernelspec_python3_maps_to_jupyter() {
    let (text, warnings) = frontmatter::myst_to_quarto(&fm("title: My Doc\nkernelspec:\n  name: python3\n"));
    assert!(text.contains("jupyter: python3"));
    assert!(!text.contains("kernelspec"));
    assert!(warnings.is_empty());
    assert!(text.contains("title: My Doc"));
}

#[test]
fn kernelspec_ir_maps_to_knitr_engine() {
    let (text, _) = frontmatter::myst_to_quarto(&fm("kernelspec:\n  name: ir\n  display_name: R\n"));
    assert!(text.contains("engine: knitr"));
    assert!(!text.contains("kernelspec"));
    assert!(!text.contains("jupyter"));
}

#[test]
fn abstract_block_literal_survives_untouched() {
    let raw = "title: Foo\nabstract: |\n  line one\n  line two\nkernelspec:\n  name: python3\n";
    let (text, _) = frontmatter::myst_to_quarto(&fm(raw));
    assert!(text.contains("abstract: |\n  line one\n  line two\n"));
}

#[test]
fn jupytext_and_math_are_dropped() {
    let raw = "title: Foo\njupytext:\n  formats: md:myst\nmath:\n  R: \\mathbb{R}\n";
    let (text, warnings) = frontmatter::myst_to_quarto(&fm(raw));
    assert!(!text.contains("jupytext"));
    assert!(!text.contains("math"));
    assert_eq!(warnings.len(), 1);
}

#[test]
fn label_is_dropped_not_mismapped_to_id() {
    let (text, warnings) = frontmatter::myst_to_quarto(&fm("title: Foo\nlabel: nb:analysis\n"));
    assert!(!text.contains("label"));
    assert!(!text.contains("id:"));
    assert_eq!(warnings.len(), 1);
}

#[test]
fn jupyter_python3_maps_back_to_kernelspec_with_display_name() {
    let (text, _) = frontmatter::quarto_to_myst(&fm("title: Foo\njupyter: python3\n"));
    assert!(text.contains("kernelspec:"));
    assert!(text.contains("name: python3"));
    assert!(text.contains("display_name: Python 3"));
    assert!(!text.contains("jupyter:"));
}

#[test]
fn engine_knitr_maps_back_to_kernelspec_ir() {
    let (text, _) = frontmatter::quarto_to_myst(&fm("title: Foo\nengine: knitr\n"));
    assert!(text.contains("name: ir"));
    assert!(text.contains("display_name: R"));
    assert!(!text.contains("engine:"));
}

#[test]
fn round_trip_kernelspec_python3() {
    let original = fm("title: Foo\nkernelspec:\n  name: python3\n  display_name: Python 3\n");
    let (forward, _) = frontmatter::myst_to_quarto(&original);
    let (back, _) = frontmatter::quarto_to_myst(&fm(&forward));
    assert!(back.contains("name: python3"));
    assert!(back.contains("display_name: Python 3"));
}

#[test]
fn frontmatter_that_is_not_a_mapping_passes_through() {
    let f = Frontmatter { raw: "just text\n".to_string(), parsed: YamlValue::Null };
    assert_eq!(frontmatter::myst_to_quarto(&f), ("just text\n".to_string(), vec![]));
    assert_eq!(frontmatter::quarto_to_myst(&f), ("just text\n".to_string(), vec![]));
}

#[test]
fn frontmatter_without_mapped_keys_is_byte_identical() {
    let raw = "title: Foo\n# note\nauthors:\n  - name: A\n";
    let (text, warnings) = frontmatter::myst_to_quarto(&fm(raw));
    assert_eq!(text, raw);
    assert!(warnings.is_empty());
}

#[test]
fn text_that_is_not_a_mapping_is_a_yaml_error() {
    assert!(mystquarto_core::yaml::parse_mapping("- a\n- b\n").is_err());
    assert!(mystquarto_core::yaml::parse_mapping("a: [1, 2\n").is_err());
    assert!(matches!(myst_to_quarto::convert_checked("- a\n", None), Some(Err(_))));
}

#[test]
fn parsed_mapping_keeps_key_order_and_core_schema_values() {
    let m = mystquarto_core::yaml::parse_mapping("zeta: 1\nalpha: no\nflag: true\nnothing: ~\n").unwrap();
    assert_eq!(
        m,
        vec![
            ("zeta".to_string(), YamlValue::Int(1)),
            ("alpha".to_string(), YamlValue::String("no".to_string())),
            ("flag".to_string(), YamlValue::Bool(true)),
            ("nothing".to_string(), YamlValue::Null),
        ]
    );
}
