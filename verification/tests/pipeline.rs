use mystquarto_core::config::bibliography::citation_keys_in_document;
use mystquarto_core::fs::assets::{classify_entry, is_asset_skip_dir, refresh_step, AssetCopyError, AssetStep, EntryKind, RefreshStep};
use mystquarto_core::fs::atomic::{temp_file_name, AtomicWriteError};
use mystquarto_core::ir::{Block, BlockKind, Document, Engine};
use mystquarto_core::pipeline::{
    collect_notebook_renames, convert_myst_to_quarto_batch, convert_quarto_to_myst_batch, myst_key_for,
    restore_for_quarto_paths, BatchFileError, BatchWarning,
};
use mystquarto_core::reader::myst::MystReader;
use mystquarto_core::reader::quarto::QuartoReader;
use mystquarto_core::reader::{NotebookCellIndex, ReaderContext};
use mystquarto_core::registry::defined_labels;
use mystquarto_core::registry::sidecar::{build, content_hash, LabelSidecar};
use mystquarto_core::registry::LabelRegistry;
use mystquarto_core::span::Span;
use mystquarto_core::strmap::StrMap;

fn read_myst(path: &str, text: &str, index: &NotebookCellIndex) -> (String, Document) {
    let context = ReaderContext { notebook_index: index.clone(), ..ReaderContext::new(path).with_input_root("/proj") };
    (path.to_string(), MystReader::new(context).read_str(text).unwrap())
}

fn read_quarto(path: &str, text: &str) -> (String, Document) {
    let context = ReaderContext::new(path).with_input_root("/proj");
    (path.to_string(), QuartoReader::new(context).read_str(text).unwrap())
}

fn notebook_index() -> NotebookCellIndex {
    let mut index = NotebookCellIndex::new();
    index.add_notebook_cells("analysis.ipynb", &vec![vec!["#| label: nb:analysis\n".to_string()]]);
    index
}

fn rendered<'a>(batch: &'a [(String, String)], path: &str) -> &'a str {
    &batch.iter().find(|(p, _)| p == path).expect("rendered").1
}

fn cells<'a>(renames: &'a [(String, StrMap)], notebook: &str) -> &'a StrMap {
    &renames.iter().find(|(n, _)| n == notebook).expect("notebook renamed").1
}

#[test]
fn cross_file_label_collision_is_disambiguated_across_the_whole_batch() {
    let index = NotebookCellIndex::new();
    let docs = vec![
        read_myst("/proj/a.md", ":::{figure} x.png\n:label: fig:samples\n:::\n", &index),
        read_myst("/proj/b.md", ":::{figure} y.png\n:label: fig:samples\n:::\n", &index),
    ];
    let batch = convert_myst_to_quarto_batch(&docs, vec![], vec![], "/proj");
    assert!(batch.errors.is_empty());
    assert!(rendered(&batch.rendered, "/proj/a.md").contains("{#fig-samples}"));
    assert!(rendered(&batch.rendered, "/proj/b.md").contains("{#fig-samples-2}"));
    assert_eq!(batch.warnings.len(), 1);
    assert_eq!(batch.warnings[0].file.as_deref(), Some("/proj/b.md"));
}

#[test]
fn notebook_rename_map_matches_what_the_writer_emitted() {
    let index = notebook_index();
    let docs = vec![read_myst("/proj/article.md", ":::{figure} #nb:analysis\n:label: fig:environment\n:::\n", &index)];
    let batch = convert_myst_to_quarto_batch(&docs, vec![], vec![], "/proj");
    assert!(batch.errors.is_empty());
    assert!(rendered(&batch.rendered, "/proj/article.md").contains("{{< embed analysis.ipynb#fig-environment >}}"));
    let renames = cells(&batch.notebook_renames, "analysis.ipynb");
    assert_eq!(renames.get("nb:analysis"), Some(&"fig-environment".to_string()));
}

#[test]
fn two_documents_claiming_the_same_notebook_cell_with_different_ids_keeps_the_first_and_warns() {
    let index = notebook_index();
    let docs = vec![
        read_myst("/proj/a.md", ":::{figure} #nb:analysis\n:label: fig:environment\n:::\n", &index),
        read_myst("/proj/b.md", ":::{figure} #nb:analysis\n:label: fig:setup\n:::\n", &index),
    ];
    let batch = convert_myst_to_quarto_batch(&docs, vec![], vec![], "/proj");
    assert!(batch.errors.is_empty());
    let renames = cells(&batch.notebook_renames, "analysis.ipynb");
    assert_eq!(renames.get("nb:analysis"), Some(&"fig-environment".to_string()));
    assert!(batch
        .warnings
        .iter()
        .any(|w| w.message.contains("fig-setup") && w.message.contains("will not resolve")));
}

#[test]
fn a_file_that_fails_to_read_is_an_error_not_a_panic_and_does_not_block_others() {
    let index = NotebookCellIndex::new();
    let docs = vec![read_myst("/proj/ok.md", "# Fine\n", &index)];
    let errors = vec![BatchFileError { file: "/proj/missing.md".to_string(), message: "could not read".to_string() }];
    let batch = convert_myst_to_quarto_batch(&docs, errors, vec![], "/proj");
    assert!(batch.rendered.iter().any(|(p, _)| p == "/proj/ok.md"));
    assert_eq!(batch.errors.len(), 1);
    assert_eq!(batch.errors[0].file, "/proj/missing.md");
}

#[test]
fn quarto_to_myst_restores_original_label_from_a_written_sidecar() {
    let index = NotebookCellIndex::new();
    let docs = vec![read_myst("/proj/a.md", ":::{figure} x.png\n:label: fig:samples\n:::\n\nSee @fig:samples.\n", &index)];
    let forward = convert_myst_to_quarto_batch(&docs, vec![], vec![], "/proj");
    let qmd_text = rendered(&forward.rendered, "/proj/a.md").to_string();

    let key = myst_key_for("/proj", "/proj/a.qmd");
    assert_eq!(key, "a.md");
    let mut hashes = StrMap::new();
    hashes.insert(key.clone(), content_hash(qmd_text.as_bytes()));
    let mut paths = StrMap::new();
    paths.insert(key, "/proj/a.qmd".to_string());
    let restore = restore_for_quarto_paths(&forward.sidecar, &hashes, &paths);

    let qdocs = vec![read_quarto("/proj/a.qmd", &qmd_text)];
    let reverse = convert_quarto_to_myst_batch(&qdocs, vec![], vec![], restore);
    assert!(reverse.errors.is_empty());
    let out = rendered(&reverse.rendered, "/proj/a.qmd");
    assert!(out.contains(":label: fig:samples"), "got:\n{out}");
    assert!(out.contains("See @fig:samples."), "got:\n{out}");
    assert!(!out.contains("@fig-samples"));
}

#[test]
fn two_identical_runs_produce_identical_bytes() {
    let index = NotebookCellIndex::new();
    let run = || {
        let docs = vec![read_myst("/proj/a.md", ":::{figure} x.png\n:label: fig:samples\n:::\n\nSee @fig:samples.\n", &index)];
        convert_myst_to_quarto_batch(&docs, vec![], vec![], "/proj")
    };
    let run1 = run();
    let run2 = run();
    assert_eq!(run1.rendered, run2.rendered);
    assert_eq!(run1.sidecar, run2.sidecar);
}

#[test]
fn sidecar_records_each_label_under_its_relative_file_with_the_rendered_hash() {
    let index = NotebookCellIndex::new();
    let docs = vec![
        read_myst("/proj/sub/b.md", "(sec:intro)=\n# Intro\n", &index),
        read_myst("/proj/a.md", ":::{figure} x.png\n:label: fig:samples\n:::\n", &index),
    ];
    let batch = convert_myst_to_quarto_batch(&docs, vec![], vec![], "/proj");
    let sidecar = &batch.sidecar;
    assert_eq!(sidecar.version, 1);
    assert_eq!(sidecar.direction, "myst_to_quarto");
    assert_eq!(sidecar.source_root, "/proj");
    let keys: Vec<&str> = sidecar.files.iter().map(|(k, _)| k.as_str()).collect();
    assert_eq!(keys, vec!["a.md", "sub/b.md"]);
    let a = &sidecar.files[0].1;
    assert_eq!(a.labels.get("fig-samples"), Some(&"fig:samples".to_string()));
    assert_eq!(a.content_hash, content_hash(rendered(&batch.rendered, "/proj/a.md").as_bytes()));
    assert_eq!(sidecar.files[1].1.labels.get("sec-intro"), Some(&"sec:intro".to_string()));
}

#[test]
fn used_citation_keys_skip_cross_references_and_come_out_sorted_once() {
    let index = NotebookCellIndex::new();
    let docs = vec![
        read_myst("/proj/a.md", "(sec:intro)=\n# Intro\n\nSee @sec:intro and [@zeta; @alpha].\n", &index),
        read_myst("/proj/b.md", "Again [@alpha].\n", &index),
    ];
    let batch = convert_myst_to_quarto_batch(&docs, vec![], vec![], "/proj");
    assert_eq!(batch.used_citation_keys, vec!["alpha".to_string(), "zeta".to_string()]);
}

#[test]
fn notebook_and_read_warnings_come_first() {
    let index = NotebookCellIndex::new();
    let docs = vec![read_myst("/proj/a.md", "Text.\n", &index)];
    let first = BatchWarning { file: Some("/proj/nb.ipynb".to_string()), message: "could not index".to_string() };
    let batch = convert_myst_to_quarto_batch(&docs, vec![], vec![first.clone()], "/proj");
    assert_eq!(batch.warnings, vec![first]);
}

#[test]
fn the_same_cell_embedded_twice_with_the_same_id_does_not_warn() {
    let index = notebook_index();
    let docs = vec![read_myst(
        "/proj/a.md",
        ":::{figure} #nb:analysis\n:::\n\n:::{figure} #nb:analysis\n:::\n",
        &index,
    )];
    let (registry, _) = LabelRegistry::build(&docs);
    let (renames, warnings) = collect_notebook_renames(&registry, &docs);
    assert_eq!(renames.len(), 1);
    assert_eq!(renames[0].0, "analysis.ipynb");
    assert_eq!(renames[0].1.len(), 1);
    assert!(warnings.is_empty());
}

#[test]
fn defined_labels_are_every_label_once_in_key_order() {
    let index = NotebookCellIndex::new();
    let docs = vec![
        read_myst("/proj/a.md", "(sec:b)=\n# B\n\n:::{figure} x.png\n:label: fig:a\n:::\n", &index),
        read_myst("/proj/b.md", "(sec:b)=\n# B again\n", &index),
    ];
    assert_eq!(defined_labels(&docs), vec!["fig:a".to_string(), "sec:b".to_string()]);
}

#[test]
fn citation_keys_are_collected_from_paragraphs_and_captions() {
    let doc = Document {
        frontmatter: None,
        blocks: vec![Block {
            kind: BlockKind::Paragraph { lines: vec!["See [@10.1038/nmeth.1974] and @sec:intro.".to_string()] },
            span: Span::single(1),
            blank_lines_before: 0,
        }],
        source: "article.md".to_string(),
        engine: Some(Engine::Jupyter),
    };
    let keys = citation_keys_in_document(&doc, &["sec:intro".to_string()]);
    assert_eq!(keys, vec!["10.1038/nmeth.1974".to_string()]);
}

#[test]
fn sidecar_build_keys_a_file_outside_the_root_by_its_own_path() {
    let index = NotebookCellIndex::new();
    let docs = vec![read_myst("other/a.md", "(sec:x)=\n# X\n", &index)];
    let (registry, _) = LabelRegistry::build(&docs);
    let sidecar: LabelSidecar = build(&registry, "myst_to_quarto", "/proj", &StrMap::new());
    assert_eq!(sidecar.files[0].0, "other/a.md");
    assert_eq!(sidecar.files[0].1.content_hash, "");
}

// ---------------------------------------------------------------------------
// assets and atomic writes

fn names(list: &[&str]) -> Vec<String> {
    list.iter().map(|s| s.to_string()).collect()
}

#[test]
fn markdown_and_config_files_are_never_copied_as_assets() {
    let exts = names(&["md", "qmd", "ipynb"]);
    let configs = names(&["myst.yml", "_quarto.yml"]);
    let c = |kind, path: &str, name: &str, ext: &str| classify_entry(kind, path, name, ext, "/out", &exts, &configs);
    assert_eq!(c(EntryKind::File, "/in/a.md", "a.md", "md"), AssetStep::SkipFile);
    assert_eq!(c(EntryKind::File, "/in/myst.yml", "myst.yml", "yml"), AssetStep::SkipFile);
    assert_eq!(c(EntryKind::File, "/in/img/x.png", "x.png", "png"), AssetStep::CopyFile);
    assert_eq!(c(EntryKind::File, "/in/other.yml", "other.yml", "yml"), AssetStep::CopyFile);
}

#[test]
fn symlinks_are_recorded_and_never_followed() {
    let c = classify_entry(EntryKind::Symlink, "/in/secret", "secret", "", "/out", &vec![], &vec![]);
    assert_eq!(c, AssetStep::RecordSymlink);
}

#[test]
fn output_directory_nested_inside_input_is_excluded_from_the_walk() {
    let c = classify_entry(EntryKind::Dir, "/in/_out", "_out", "", "/in/_out", &vec![], &vec![]);
    assert_eq!(c, AssetStep::SkipDir);
    let d = classify_entry(EntryKind::Dir, "/in/figures", "figures", "", "/in/_out", &vec![], &vec![]);
    assert_eq!(d, AssetStep::Descend);
    assert!(is_asset_skip_dir(".git"));
    assert!(is_asset_skip_dir("node_modules"));
    assert!(!is_asset_skip_dir("figures"));
    let e = classify_entry(EntryKind::Dir, "/in/.quarto", ".quarto", "", "/out", &vec![], &vec![]);
    assert_eq!(e, AssetStep::SkipDir);
}

#[test]
fn refresh_copies_missing_keeps_same_time_and_compares_otherwise() {
    assert_eq!(refresh_step(false, false), RefreshStep::Copy);
    assert_eq!(refresh_step(false, true), RefreshStep::Copy);
    assert_eq!(refresh_step(true, true), RefreshStep::Keep);
    assert_eq!(refresh_step(true, false), RefreshStep::CompareContent);
}

#[test]
fn asset_errors_read_as_sentences() {
    let e = AssetCopyError::Copy { src: "a".to_string(), dst: "b".to_string(), source: "denied".to_string() };
    assert_eq!(e.message(), "failed to copy a to b: denied");
}

#[test]
fn only_a_failed_rename_leaves_an_orphan_temp_file() {
    let write = AtomicWriteError::WriteTemp {
        target: "out.qmd".to_string(),
        temp_path: ".out.qmd.1.2.mqtmp".to_string(),
        source: "denied".to_string(),
    };
    assert!(write.orphan_temp_path().is_none());
    let rename = AtomicWriteError::Rename {
        target: "out.qmd".to_string(),
        temp_path: ".out.qmd.1.2.mqtmp".to_string(),
        source: "busy".to_string(),
    };
    assert_eq!(rename.orphan_temp_path(), Some(".out.qmd.1.2.mqtmp"));
    assert_eq!(
        rename.message(),
        "wrote temp file .out.qmd.1.2.mqtmp but failed to rename it to out.qmd: busy"
    );
}

#[test]
fn temp_file_name_is_hidden_and_unique_per_process_and_moment() {
    assert_eq!(temp_file_name("out.qmd", 42, 1700000000), ".out.qmd.42.1700000000.mqtmp");
}

#[test]
fn merging_keeps_other_files_and_replaces_the_files_of_this_run() {
    let index = NotebookCellIndex::new();
    let first = {
        let docs = vec![
            read_myst("/proj/a.md", "(sec:a)=\n# A\n", &index),
            read_myst("/proj/b.md", "(sec:b)=\n# B\n", &index),
        ];
        convert_myst_to_quarto_batch(&docs, vec![], vec![], "/proj").sidecar
    };
    let second = {
        let docs = vec![read_myst("/proj/b.md", "(sec:c)=\n# C\n", &index)];
        let mut s = convert_myst_to_quarto_batch(&docs, vec![], vec![], "/proj").sidecar;
        s.source_root = "/elsewhere".to_string();
        s
    };
    let merged = mystquarto_core::registry::sidecar::merge_sidecars(Some(first), &second);
    let keys: Vec<&str> = merged.files.iter().map(|(k, _)| k.as_str()).collect();
    assert_eq!(keys, vec!["a.md", "b.md"]);
    assert!(merged.files[1].1.labels.get("sec-c").is_some());
    assert!(merged.files[1].1.labels.get("sec-b").is_none());
    assert_eq!(merged.source_root, "/elsewhere");
    let fresh = mystquarto_core::registry::sidecar::merge_sidecars(None, &second);
    assert_eq!(fresh.files.len(), 1);
}

#[test]
fn sidecar_labels_come_back_on_the_reverse_run() {
    let index = NotebookCellIndex::new();
    let docs = vec![
        read_myst("/proj/a.md", ":::{figure} x.png\n:label: fig:samples\n:::\n\n(sec:intro)=\n# Intro\n", &index),
        read_myst("/proj/b.md", ":::{figure} y.png\n:label: fig:samples\n:::\n", &index),
    ];
    let batch = convert_myst_to_quarto_batch(&docs, vec![], vec![], "/proj");
    let restored = mystquarto_core::registry::sidecar::restore_labels(&batch.sidecar, &StrMap::new());
    let find = |file: &str, id: &str| {
        restored.iter().find(|((f, i), _)| f == file && i == id).map(|(_, l)| l.raw.clone())
    };
    assert_eq!(find("a.md", "fig-samples"), Some("fig:samples".to_string()));
    assert_eq!(find("b.md", "fig-samples-2"), Some("fig:samples".to_string()));
    assert_eq!(find("a.md", "sec-intro"), Some("sec:intro".to_string()));
}
