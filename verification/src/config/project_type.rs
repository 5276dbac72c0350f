//! Quarto project-type inference from a `myst.yml`. MyST has no `type`
//! field, so four ordered rules decide, the first match winning: a
//! `book-theme` site is a book; an export with a `template` or an
//! `article-theme` site is a manuscript; a toc of two or more entries is a
//! book; anything else is a default project.
use vstd::prelude::*;
use super::{as_mapping, dict_field, get, list_field, mapping_field, sequence_field, str_field, string_field};
use crate::text::str_eq;
use crate::yaml::{dict_get, fields_view, items_view, lemma_items_view, DictView, YamlValue, YamlView};

verus! {

/// The Quarto project type.
#[derive(Debug, Clone, Copy, PartialEq, Eq, Structural)]
pub enum ProjectType {
    Book,
    Manuscript,
    Default,
}

/// Some export entry is a mapping with a `template` key.
pub open spec fn has_export_template(exports: Seq<YamlView>) -> bool {
    exists|i: int| 0 <= i < exports.len() && (#[trigger] exports[i] matches YamlView::Dict(m) && dict_get(m, "template"@) is Some)
}

/// The type the four rules give for a parsed `myst.yml`.
pub open spec fn spec_infer(root: DictView) -> ProjectType {
    let project = dict_field(root, "project"@);
    let site = dict_field(root, "site"@);
    if str_field(site, "template"@) == Some("book-theme"@) {
        ProjectType::Book
    } else if has_export_template(list_field(project, "exports"@)) || str_field(site, "template"@) == Some("article-theme"@) {
        ProjectType::Manuscript
    } else if list_field(project, "toc"@).len() >= 2 {
        ProjectType::Book
    } else {
        ProjectType::Default
    }
}

fn any_export_template(exports: &Vec<YamlValue>) -> (r: bool)
    ensures
        r == has_export_template(items_view(exports@)),
{
    let ghost iv = items_view(exports@);
    proof { lemma_items_view(exports@); }
    let mut i: usize = 0;
    while i < exports.len()
        invariant
            i <= exports@.len(),
            iv == items_view(exports@),
            iv.len() == exports@.len(),
            forall|k: int| 0 <= k < exports@.len() ==> #[trigger] iv[k] == exports@[k]@,
            forall|k: int| 0 <= k < i ==> !(#[trigger] iv[k] matches YamlView::Dict(m) && dict_get(m, "template"@) is Some),
        decreases exports.len() - i,
    {
        if let Some(m) = as_mapping(&exports[i]) {
            if get(m, "template").is_some() {
                assert(iv[i as int] matches YamlView::Dict(mm) && dict_get(mm, "template"@) is Some);
                return true;
            }
        }
        i = i + 1;
    }
    false
}

/// Infers the Quarto project type from a parsed `myst.yml`'s top level.
pub fn infer(myst_root: &Vec<(String, YamlValue)>) -> (r: ProjectType)
    ensures
        r == spec_infer(fields_view(myst_root@)),
{
    let empty_map: Vec<(String, YamlValue)> = Vec::new();
    let empty_seq: Vec<YamlValue> = Vec::new();
    proof {
        assert(fields_view(empty_map@) =~= Seq::<(Seq<char>, YamlView)>::empty());
        assert(items_view(empty_seq@) =~= Seq::<YamlView>::empty());
    }
    let project = match mapping_field(myst_root, "project") {
        Some(p) => p,
        None => &empty_map,
    };
    let site = match mapping_field(myst_root, "site") {
        Some(s) => s,
        None => &empty_map,
    };
    let template = string_field(site, "template");
    let is_book_theme = match &template {
        Some(t) => str_eq(t.as_str(), "book-theme"),
        None => false,
    };
    if is_book_theme {
        return ProjectType::Book;
    }
    let exports = match sequence_field(project, "exports") {
        Some(e) => e,
        None => &empty_seq,
    };
    let is_article_theme = match &template {
        Some(t) => str_eq(t.as_str(), "article-theme"),
        None => false,
    };
    if any_export_template(exports) || is_article_theme {
        return ProjectType::Manuscript;
    }
    let toc = match sequence_field(project, "toc") {
        Some(t) => t,
        None => &empty_seq,
    };
    proof { lemma_items_view(toc@); }
    if toc.len() >= 2 {
        return ProjectType::Book;
    }
    ProjectType::Default
}

} // verus!
