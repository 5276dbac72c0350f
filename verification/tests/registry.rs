use mystquarto_core::ir::{AdmonitionKind, Attrs, Block, BlockKind, Document, Engine, FigureSource, TabItem};
use mystquarto_core::label::Label;
use mystquarto_core::registry::LabelRegistry;
use mystquarto_core::span::Span;

fn doc(source: &str, blocks: Vec<Block>) -> (String, Document) {
    (
        source.to_string(),
        Document { frontmatter: None, blocks, source: source.to_string(), engine: Some(Engine::Jupyter) },
    )
}

fn block(kind: BlockKind) -> Block {
    Block { kind, span: Span::single(1), blank_lines_before: 0 }
}

fn figure(label: &str) -> Block {
    block(BlockKind::Figure {
        src: FigureSource::Path("img.png".to_string()),
        caption: vec![],
        label: Some(Label::new(label)),
        attrs: Attrs::new(),
    })
}

#[test]
fn tab_colon_label_normalizes_through_the_registry_to_tbl_hyphen() {
    let docs = vec![doc(
        "a.md",
        vec![block(BlockKind::Table { caption: vec![], rows: vec![], label: Some(Label::new("tab:results")) })],
    )];
    let (registry, warnings) = LabelRegistry::build(&docs);
    assert!(warnings.is_empty());
    assert_eq!(registry.quarto_id("a.md", &Label::new("tab:results")), Some("tbl-results"));
}

#[test]
fn unprefixed_figure_label_infers_fig_prefix_from_owning_block_type() {
    let docs = vec![doc("a.md", vec![figure("samples")])];
    let (registry, _) = LabelRegistry::build(&docs);
    assert_eq!(registry.quarto_id("a.md", &Label::new("samples")), Some("fig-samples"));
}

#[test]
fn same_label_in_two_files_collides_and_is_disambiguated_deterministically() {
    let docs = vec![doc("b.md", vec![figure("fig:samples")]), doc("a.md", vec![figure("fig:samples")])];
    let (registry, warnings) = LabelRegistry::build(&docs);
    assert_eq!(warnings.len(), 1);
    assert_eq!(registry.quarto_id("a.md", &Label::new("fig:samples")), Some("fig-samples"));
    assert_eq!(registry.quarto_id("b.md", &Label::new("fig:samples")), Some("fig-samples-2"));
}

#[test]
fn a_suffixed_id_that_collides_with_another_label_is_re_suffixed_not_duplicated() {
    let docs = vec![
        doc("a.md", vec![figure("fig:samples-2")]),
        doc("b.md", vec![figure("fig:samples")]),
        doc("c.md", vec![figure("fig:samples")]),
    ];
    let (registry, _warnings) = LabelRegistry::build(&docs);
    let a = registry.quarto_id("a.md", &Label::new("fig:samples-2")).unwrap().to_string();
    let b = registry.quarto_id("b.md", &Label::new("fig:samples")).unwrap().to_string();
    let c = registry.quarto_id("c.md", &Label::new("fig:samples")).unwrap().to_string();
    let ids = [a, b, c];
    let unique: std::collections::BTreeSet<_> = ids.iter().collect();
    assert_eq!(unique.len(), 3, "all three ids must be distinct, got {ids:?}");
}

#[test]
fn adding_an_unrelated_file_does_not_renumber_a_file_it_does_not_collide_with() {
    let one_file = vec![doc("a.md", vec![figure("fig:samples")])];
    let (registry_before, _) = LabelRegistry::build(&one_file);
    let id_before = registry_before.quarto_id("a.md", &Label::new("fig:samples")).unwrap().to_string();

    let mut two_files = vec![doc("a.md", vec![figure("fig:samples")])];
    two_files.push(doc(
        "z-unrelated.md",
        vec![block(BlockKind::Heading { level: 1, text: "Unrelated".to_string(), label: Some(Label::new("sec:unrelated")) })],
    ));
    let (registry_after, _) = LabelRegistry::build(&two_files);
    let id_after = registry_after.quarto_id("a.md", &Label::new("fig:samples")).unwrap();
    assert_eq!(id_before, id_after);
}

#[test]
fn cross_file_reference_resolves_via_colon_prefix_without_needing_the_defining_file() {
    let docs = vec![doc("other.md", vec![figure("fig:samples")])];
    let (registry, _) = LabelRegistry::build(&docs);
    assert_eq!(registry.resolve_reference("referencing.md", "fig:samples"), "fig-samples");
}

#[test]
fn unprefixed_reference_resolves_through_by_raw_label_when_a_definition_exists() {
    let docs = vec![doc("other.md", vec![figure("samples")])];
    let (registry, _) = LabelRegistry::build(&docs);
    assert_eq!(registry.resolve_reference("referencing.md", "samples"), "fig-samples");
}

#[test]
fn same_file_reference_resolves_to_the_suffixed_id_the_registry_actually_assigned() {
    let docs = vec![doc("a.md", vec![figure("fig:samples")]), doc("b.md", vec![figure("fig:samples")])];
    let (registry, _) = LabelRegistry::build(&docs);
    assert_eq!(
        registry.resolve_reference("b.md", "fig:samples"),
        "fig-samples-2",
        "a reference inside b.md must resolve to b.md's own (suffixed) id"
    );
    assert_eq!(registry.resolve_reference("a.md", "fig:samples"), "fig-samples");
}

#[test]
fn labels_nested_inside_admonitions_and_tabsets_are_collected() {
    let docs = vec![doc(
        "a.md",
        vec![
            block(BlockKind::Admonition {
                kind: AdmonitionKind::Note,
                title: None,
                body: vec![block(BlockKind::Figure {
                    src: FigureSource::Path("x.png".to_string()),
                    caption: vec![],
                    label: Some(Label::new("fig:nested")),
                    attrs: Attrs::new(),
                })],
                collapse: None,
            }),
            block(BlockKind::TabSet {
                items: vec![TabItem {
                    label: "Tab A".to_string(),
                    body: vec![block(BlockKind::Table { caption: vec![], rows: vec![], label: Some(Label::new("tab:in-tab")) })],
                }],
            }),
        ],
    )];
    let (registry, _) = LabelRegistry::build(&docs);
    assert_eq!(registry.quarto_id("a.md", &Label::new("fig:nested")), Some("fig-nested"));
    assert_eq!(registry.quarto_id("a.md", &Label::new("tab:in-tab")), Some("tbl-in-tab"));
}

#[test]
fn theorem_label_uses_its_subtype_abbreviation() {
    let docs = vec![doc(
        "a.md",
        vec![block(BlockKind::Theorem { thm_type: "lemma".to_string(), label: Some(Label::new("main")), body: vec![] })],
    )];
    let (registry, _) = LabelRegistry::build(&docs);
    assert_eq!(registry.quarto_id("a.md", &Label::new("main")), Some("lem-main"));
}

#[test]
fn colliding_labels_in_many_files_all_get_distinct_ids() {
    let docs: Vec<(String, Document)> =
        (0..5).map(|i| doc(&format!("f{i}.md"), vec![figure("fig:x"), figure("fig:x-2")])).collect();
    let (registry, warnings) = LabelRegistry::build(&docs);
    let ids: Vec<String> = registry.entries().iter().map(|(_, _, id)| id.clone()).collect();
    let unique: std::collections::BTreeSet<_> = ids.iter().collect();
    assert_eq!(ids.len(), 10);
    assert_eq!(unique.len(), 10);
    assert!(!warnings.is_empty());
}

#[test]
fn unknown_reference_normalizes_generically() {
    let (registry, _) = LabelRegistry::build(&vec![]);
    assert_eq!(registry.resolve_reference("a.md", "Some_Label"), "some-label");
}

#[test]
fn swapping_documents_of_different_files_gives_the_same_ids() {
    let ab = vec![
        doc("a.md", vec![figure("fig:samples"), figure("fig:other")]),
        doc("b.md", vec![figure("fig:samples")]),
    ];
    let ba = vec![
        doc("b.md", vec![figure("fig:samples")]),
        doc("a.md", vec![figure("fig:samples"), figure("fig:other")]),
    ];
    let (r1, w1) = LabelRegistry::build(&ab);
    let (r2, w2) = LabelRegistry::build(&ba);
    assert_eq!(w1.len(), w2.len());
    for (file, label) in [("a.md", "fig:samples"), ("a.md", "fig:other"), ("b.md", "fig:samples")] {
        assert_eq!(r1.quarto_id(file, &Label::new(label)), r2.quarto_id(file, &Label::new(label)));
    }
    assert_eq!(r2.quarto_id("b.md", &Label::new("fig:samples")), Some("fig-samples-2"));
}
