use mystquarto_core::notebook::relabel;
use mystquarto_core::reader::NotebookCellIndex;
use mystquarto_core::strmap::StrMap;

fn renames(pairs: &[(&str, &str)]) -> StrMap {
    let mut m = StrMap::new();
    for (k, v) in pairs {
        m.insert(k.to_string(), v.to_string());
    }
    m
}

#[test]
fn relabels_array_source_line_matching_a_rename() {
    let text = r##"{
  "cells": [
   {
    "cell_type": "code",
    "source": [
     "#| label: nb:analysis\n",
     "import matplotlib.pyplot as plt\n"
    ]
   }
  ]
}"##;
    let out = relabel(text, &renames(&[("nb:analysis", "fig-analysis")])).unwrap();
    assert!(out.contains("\"#| label: fig-analysis\\n\""));
    assert!(out.contains("\"import matplotlib.pyplot as plt\\n\""));
}

#[test]
fn leaves_unrelated_cells_and_all_other_content_byte_identical() {
    let text = r##"{
 "cells": [
  {"cell_type": "code", "source": ["#| label: nb:analysis\n", "x = 1\n"]},
  {"cell_type": "markdown", "source": ["# A heading\n"]}
 ],
 "metadata": {"kernelspec": {"name": "python3"}}
}"##;
    let out = relabel(text, &renames(&[("nb:analysis", "fig-analysis")])).unwrap();
    assert!(out.contains("\"# A heading\\n\""));
    assert!(out.contains("\"kernelspec\": {\"name\": \"python3\"}"));
    assert!(out.contains("\"x = 1\\n\""));
    assert_eq!(out, text.replace("nb:analysis", "fig-analysis"));
}

#[test]
fn unmatched_rename_is_a_no_op_not_an_error() {
    let text = r##"{"cells": [{"cell_type": "code", "source": ["#| label: nb:other\n"]}]}"##;
    let out = relabel(text, &renames(&[("nb:analysis", "fig-analysis")])).unwrap();
    assert_eq!(out, text);
}

#[test]
fn empty_renames_returns_text_unchanged() {
    let text = r##"{"cells": []}"##;
    let out = relabel(text, &StrMap::new()).unwrap();
    assert_eq!(out, text);
    assert!(relabel("{ not json", &StrMap::new()).is_err());
}

#[test]
fn malformed_json_is_a_typed_error_not_a_panic() {
    let err = relabel("{ not json", &renames(&[("nb:analysis", "fig-analysis")])).unwrap_err();
    assert!(!err.message.is_empty());
}

#[test]
fn single_string_source_is_handled() {
    let text = r##"{"cells": [{"cell_type": "code", "source": "#| label: nb:analysis\nx = 1"}]}"##;
    let out = relabel(text, &renames(&[("nb:analysis", "fig-analysis")])).unwrap();
    assert!(out.contains("fig-analysis"));
    assert!(out.contains("x = 1"));
    assert_eq!(out, text.replace("nb:analysis", "fig-analysis"));
}

#[test]
fn an_echoed_label_literal_in_outputs_preceding_source_is_not_matched_instead_of_the_real_line() {
    let text = "{\"cells\": [{\"cell_type\": \"code\", \
         \"outputs\": [{\"text\": [\"#| label: nb:analysis\\n\"]}], \
         \"source\": [\"#| label: nb:analysis\\n\", \"x = 1\\n\"]}]}";
    let out = relabel(text, &renames(&[("nb:analysis", "fig-analysis")])).unwrap();
    assert!(out.contains("\"source\": [\"#| label: fig-analysis\\n\", \"x = 1\\n\"]"), "got:\n{out}");
    assert!(out.contains("\"outputs\": [{\"text\": [\"#| label: nb:analysis\\n\"]}]"), "got:\n{out}");
}

#[test]
fn markdown_cells_and_text_without_cells_are_left_alone() {
    let text = r##"{"cells": [{"cell_type": "markdown", "source": ["#| label: nb:analysis\n"]}]}"##;
    assert_eq!(relabel(text, &renames(&[("nb:analysis", "x")])).unwrap(), text);
    let no_cells = r##"{"metadata": {}}"##;
    assert_eq!(relabel(no_cells, &renames(&[("nb:analysis", "x")])).unwrap(), no_cells);
}

#[test]
fn two_cells_are_relabeled_each_in_its_own_source() {
    let text = r##"{"cells": [{"cell_type": "code", "source": ["#| label: nb:one\n"]}, {"cell_type": "code", "source": ["#| label: nb:two\n"]}]}"##;
    let out = relabel(text, &renames(&[("nb:one", "fig-one"), ("nb:two", "fig-two")])).unwrap();
    assert_eq!(out, text.replace("nb:one", "fig-one").replace("nb:two", "fig-two"));
}

#[test]
fn the_first_occurrence_of_the_old_label_in_the_line_is_the_one_replaced() {
    let text = r##"{"cells": [{"cell_type": "code", "source": ["#| label: a\n"]}]}"##;
    let out = relabel(text, &renames(&[("a", "fig-a")])).unwrap();
    assert_eq!(out, text.replace("label: a", "lfig-abel: a"));
}

#[test]
fn notebook_json_cells_are_indexed_by_position() {
    let mut index = NotebookCellIndex::new();
    let text = r##"{"cells": [{"cell_type": "markdown", "source": "text"}, {"cell_type": "code", "source": ["#| label: nb:analysis\n", "x = 1\n"]}]}"##;
    index.add_notebook_json("analysis.ipynb", text).unwrap();
    let hit = index.resolve("nb:analysis").expect("indexed");
    assert_eq!(hit.notebook, "analysis.ipynb");
    assert_eq!(hit.cell_index, 1);
    assert!(index.add_notebook_json("bad.ipynb", "{ nope").is_err());
}
