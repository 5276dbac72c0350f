//! Batch conversion: a whole file set converted as one run. The label
//! registry must see every document before any id is decided, so a label
//! defined in two files is caught and suffixed the same way whatever order
//! the files come in; the notebook cells that documents embed are relabeled
//! to the ids the writer emitted for them; and the label sidecar records
//! what a later reverse run needs. Reading the files (and notebooks) is the
//! application's: it hands over the documents it could read and the errors
//! and warnings of those it could not, and writes out what comes back.
use vstd::prelude::*;
use crate::config::bibliography::{add_blocks_citations, blocks_citations, lemma_add_keys_append};
use crate::diagnostics::Diagnostic;
use crate::ir::{Block, BlockKind, Document, EmbedTarget, FigureSource, TabItem};
use crate::label::Label;
use crate::reader::fence::strs;
use crate::fs::path_guard::path_has_prefix;
use crate::registry::sidecar::{
    path_rest, strip_path_prefix, build, build_files, content_hash, file_view, restore_labels, restored_view, spec_content_hash, spec_restore,
    FileLabels, LabelSidecar, GENERATOR,
};
use crate::registry::{
    all_labels, assign_ids, collision_warnings, defined_labels, defined_raws, forward_get, forward_table,
    sorted_labels, ForwardView, LabelRegistry,
};
use crate::strmap::{
    add_keys, insert_pos, key_index, keys_of, lemma_insert_pos, lemma_key_index, map_get, map_insert, seq_lt,
    str_lt, EntriesView, StrMap,
};
use crate::text::{chars_of, push_all, str_eq, string_of};
use crate::writer::{known_reference_labels, label_keys};
use crate::writer::myst::MystWriter;
use crate::writer::quarto::{quarto_known, resolve_embed_id, spec_embed_id, QuartoWriter};
use crate::writer::RestoreMap;

verus! {

/// A non-fatal notice from a batch, with the file it concerns when there is
/// one.
#[derive(Debug, Clone, PartialEq, Eq)]
pub struct BatchWarning {
    pub file: Option<String>,
    pub message: String,
}

/// A file the batch could not read or parse: it has no rendered output.
#[derive(Debug, Clone, PartialEq, Eq)]
pub struct BatchFileError {
    pub file: String,
    pub message: String,
}

/// `(file, message)` of a warning.
pub type WarningView = (Option<Seq<char>>, Seq<char>);

pub open spec fn opt_str(o: Option<String>) -> Option<Seq<char>> {
    match o {
        Some(s) => Some(s@),
        None => None,
    }
}

pub open spec fn warning_view(w: BatchWarning) -> WarningView {
    (opt_str(w.file), w.message@)
}

pub open spec fn warnings_view(ws: Seq<BatchWarning>) -> Seq<WarningView> {
    ws.map_values(|w: BatchWarning| warning_view(w))
}

/// Notebook -> `(cell label -> new id)`, notebooks in key order.
pub type RenamesView = Seq<(Seq<char>, EntriesView)>;

pub open spec fn renames_view(out: Seq<(String, StrMap)>) -> RenamesView {
    out.map_values(|e: (String, StrMap)| (e.0@, e.1@))
}

/// The notebook keys of a rename table, for finding one.
pub open spec fn nb_keys(out: RenamesView) -> EntriesView {
    out.map_values(|e: (Seq<char>, EntriesView)| (e.0, Seq::<char>::empty()))
}

/// The cell renames recorded for `nb` so far.
pub open spec fn cells_of(out: RenamesView, nb: Seq<char>) -> EntriesView {
    let i = key_index(nb_keys(out), nb);
    if i < out.len() {
        out[i].1
    } else {
        Seq::empty()
    }
}

/// `out` with `nb`'s cell renames set to `cells` (a new notebook goes to its
/// place in key order).
pub open spec fn put_cells(out: RenamesView, nb: Seq<char>, cells: EntriesView) -> RenamesView {
    let i = key_index(nb_keys(out), nb);
    if i < out.len() {
        out.update(i, (nb, cells))
    } else {
        out.insert(insert_pos(nb_keys(out), nb), (nb, cells))
    }
}

/// The warning for a document whose embed of a cell asks for another id
/// than an earlier document already gave that cell.
pub open spec fn conflict_message(nb: Seq<char>, cell: Seq<char>, existing: Seq<char>, id: Seq<char>) -> Seq<char> {
    nb + ": another document already claimed notebook cell `"@ + cell + "` as `"@ + existing
        + "`; this document's embed of it as `"@ + id
        + "` will not resolve \u{2014} a single notebook cell can only have one label"@
}

/// A rename request: `(document, notebook, cell label, id)`.
pub type RequestView = (Seq<char>, Seq<char>, Seq<char>, Seq<char>);

/// Records one request: the first id asked for a cell wins; a later request
/// for another id keeps it and warns; the same id again changes nothing.
/// The notebook is listed from its first request on.
pub open spec fn record_rename(st: (RenamesView, Seq<WarningView>), q: RequestView) -> (RenamesView, Seq<WarningView>) {
    let cells = cells_of(st.0, q.1);
    match map_get(cells, q.2) {
        Some(existing) => (
            put_cells(st.0, q.1, cells),
            if existing != q.3 {
                st.1.push((Some(q.0), conflict_message(q.1, q.2, existing, q.3)))
            } else {
                st.1
            },
        ),
        None => (put_cells(st.0, q.1, map_insert(cells, q.2, q.3)), st.1),
    }
}

/// Records every request in turn.
pub open spec fn record_all(st: (RenamesView, Seq<WarningView>), qs: Seq<RequestView>) -> (RenamesView, Seq<WarningView>)
    decreases qs.len(),
{
    if qs.len() == 0 {
        st
    } else {
        record_rename(record_all(st, qs.drop_last()), qs.last())
    }
}

pub proof fn lemma_record_all_append(st: (RenamesView, Seq<WarningView>), a: Seq<RequestView>, b: Seq<RequestView>)
    ensures
        record_all(record_all(st, a), b) == record_all(st, a + b),
    decreases b.len(),
{
    if b.len() == 0 {
        assert(a + b =~= a);
    } else {
        lemma_record_all_append(st, a, b.drop_last());
        assert((a + b).drop_last() =~= a + b.drop_last());
        assert((a + b).last() == b.last());
    }
}

/// The id the registry gave a document's own label for an embed, if any.
pub open spec fn own_id(reg: ForwardView, source: Seq<char>, label: Option<Label>) -> Option<Seq<char>> {
    match label {
        Some(l) => forward_get(reg, source, l.raw@),
        None => None,
    }
}

/// The rename requests of a block: a figure or embed of a notebook cell asks
/// for the id the writer emitted for it; containers ask for their bodies'.
pub open spec fn block_requests(b: Block, source: Seq<char>, reg: ForwardView) -> Seq<RequestView>
    decreases b,
{
    match b.kind {
        BlockKind::Figure { src, label, .. } => match src {
            FigureSource::CellRef { label: cell, notebook } => match notebook {
                Some(nb) => seq![(source, nb@, cell.raw@, spec_embed_id(cell.raw@, own_id(reg, source, label)))],
                None => Seq::empty(),
            },
            _ => Seq::empty(),
        },
        BlockKind::Embed { target, label } => match target {
            EmbedTarget::NotebookCell { notebook, cell_label } => seq![
                (source, notebook@, cell_label.raw@, spec_embed_id(cell_label.raw@, own_id(reg, source, label))),
            ],
            _ => Seq::empty(),
        },
        BlockKind::Admonition { body, .. } => blocks_requests(body@, source, reg),
        BlockKind::Margin { body } => blocks_requests(body@, source, reg),
        BlockKind::Blockquote { body, .. } => blocks_requests(body@, source, reg),
        BlockKind::Theorem { body, .. } => blocks_requests(body@, source, reg),
        BlockKind::Directive { body, .. } => blocks_requests(body@, source, reg),
        BlockKind::TabSet { items } => items_requests(items@, source, reg),
        _ => Seq::empty(),
    }
}

pub open spec fn blocks_requests(bs: Seq<Block>, source: Seq<char>, reg: ForwardView) -> Seq<RequestView>
    decreases bs,
{
    if bs.len() == 0 {
        Seq::empty()
    } else {
        blocks_requests(bs.drop_last(), source, reg) + block_requests(bs.last(), source, reg)
    }
}

pub open spec fn items_requests(items: Seq<TabItem>, source: Seq<char>, reg: ForwardView) -> Seq<RequestView>
    decreases items,
{
    if items.len() == 0 {
        Seq::empty()
    } else {
        items_requests(items.drop_last(), source, reg) + blocks_requests(items.last().body@, source, reg)
    }
}

/// Every rename request of a conversion set, document by document.
pub open spec fn docs_requests(docs: Seq<(String, Document)>, reg: ForwardView) -> Seq<RequestView>
    decreases docs.len(),
{
    if docs.len() == 0 {
        Seq::empty()
    } else {
        docs_requests(docs.drop_last(), reg) + blocks_requests(docs.last().1.blocks@, docs.last().0@, reg)
    }
}

fn find_notebook(out: &Vec<(String, StrMap)>, nb: &String) -> (r: usize)
    ensures
        r == key_index(nb_keys(renames_view(out@)), nb@),
{
    let ghost keys = nb_keys(renames_view(out@));
    proof { lemma_key_index(keys, nb@); }
    let mut i: usize = 0;
    while i < out.len()
        invariant
            i <= out@.len(),
            keys == nb_keys(renames_view(out@)),
            keys.len() == out@.len(),
            forall|m: int| 0 <= m < i ==> #[trigger] keys[m].0 != nb@,
        decreases out.len() - i,
    {
        proof { lemma_key_index(keys, nb@); }
        assert(keys[i as int].0 == out@[i as int].0@);
        if out[i].0 == *nb {
            return i;
        }
        i = i + 1;
    }
    proof { lemma_key_index(keys, nb@); }
    i
}

fn notebook_position(out: &Vec<(String, StrMap)>, nb: &String) -> (r: usize)
    ensures
        r == insert_pos(nb_keys(renames_view(out@)), nb@),
{
    let ghost keys = nb_keys(renames_view(out@));
    proof { lemma_insert_pos(keys, nb@); }
    let mut i: usize = 0;
    while i < out.len()
        invariant
            i <= out@.len(),
            keys == nb_keys(renames_view(out@)),
            keys.len() == out@.len(),
            forall|m: int| 0 <= m < i ==> seq_lt(#[trigger] keys[m].0, nb@),
        decreases out.len() - i,
    {
        proof { lemma_insert_pos(keys, nb@); }
        assert(keys[i as int].0 == out@[i as int].0@);
        if !str_lt(&out[i].0, nb) {
            proof {
                if insert_pos(keys, nb@) > i {
                    assert(seq_lt(keys[i as int].0, nb@));
                }
                if insert_pos(keys, nb@) < i {
                    assert(seq_lt(keys[insert_pos(keys, nb@)].0, nb@));
                }
            }
            return i;
        }
        i = i + 1;
    }
    proof {
        lemma_insert_pos(keys, nb@);
        if insert_pos(keys, nb@) < i {
            assert(seq_lt(keys[insert_pos(keys, nb@)].0, nb@));
        }
    }
    i
}

fn conflict_text(nb: &str, cell: &str, existing: &str, id: &str) -> (r: String)
    ensures
        r@ == conflict_message(nb@, cell@, existing@, id@),
{
    let mut v = chars_of(nb);
    push_all(&mut v, &chars_of(": another document already claimed notebook cell `"));
    push_all(&mut v, &chars_of(cell));
    push_all(&mut v, &chars_of("` as `"));
    push_all(&mut v, &chars_of(existing));
    push_all(&mut v, &chars_of("`; this document's embed of it as `"));
    push_all(&mut v, &chars_of(id));
    push_all(&mut v, &chars_of("` will not resolve \u{2014} a single notebook cell can only have one label"));
    string_of(&v)
}

fn record(
    out: &mut Vec<(String, StrMap)>,
    warnings: &mut Vec<BatchWarning>,
    source: &String,
    nb: &String,
    cell: &String,
    id: String,
)
    ensures
        (renames_view(final(out)@), warnings_view(final(warnings)@)) == record_rename(
            (renames_view(old(out)@), warnings_view(old(warnings)@)),
            (source@, nb@, cell@, id@),
        ),
{
    let ghost st = (renames_view(out@), warnings_view(warnings@));
    let i = find_notebook(out, nb);
    proof { lemma_key_index(nb_keys(st.0), nb@); }
    let mut cells = if i < out.len() { out[i].1.copy() } else { StrMap::new() };
    assert(cells@ == cells_of(st.0, nb@));
    match cells.get(cell.as_str()) {
        Some(existing) => {
            if !str_eq(existing.as_str(), id.as_str()) {
                let message = conflict_text(nb.as_str(), cell.as_str(), existing.as_str(), id.as_str());
                warnings.push(BatchWarning { file: Some(String::from_str(source.as_str())), message });
                assert(warnings_view(warnings@) =~= st.1.push((Some(source@), conflict_message(nb@, cell@, existing@, id@))));
            } else {
                assert(warnings_view(warnings@) =~= st.1);
            }
        },
        None => {
            cells.insert(String::from_str(cell.as_str()), id);
        },
    }
    let ghost new_cells = cells@;
    if i < out.len() {
        out.set(i, (String::from_str(nb.as_str()), cells));
        assert(renames_view(out@) =~= put_cells(st.0, nb@, new_cells));
    } else {
        let p = notebook_position(out, nb);
        proof { lemma_insert_pos(nb_keys(st.0), nb@); }
        out.insert(p, (String::from_str(nb.as_str()), cells));
        assert(renames_view(out@) =~= put_cells(st.0, nb@, new_cells));
    }
}

fn embed_id(registry: &LabelRegistry, source: &String, cell: &Label, label: &Option<Label>) -> (r: String)
    ensures
        r@ == spec_embed_id(cell.raw@, own_id(registry.forward_view(), source@, *label)),
{
    let own = match label {
        Some(l) => registry.quarto_id(source.as_str(), l),
        None => None,
    };
    resolve_embed_id(cell, own)
}

fn walk_block(
    registry: &LabelRegistry,
    source: &String,
    block: &Block,
    out: &mut Vec<(String, StrMap)>,
    warnings: &mut Vec<BatchWarning>,
)
    ensures
        (renames_view(final(out)@), warnings_view(final(warnings)@)) == record_all(
            (renames_view(old(out)@), warnings_view(old(warnings)@)),
            block_requests(*block, source@, registry.forward_view()),
        ),
    decreases *block,
{
    let ghost st = (renames_view(out@), warnings_view(warnings@));
    let ghost reg = registry.forward_view();
    match &block.kind {
        BlockKind::Figure { src, label, .. } => {
            match src {
                FigureSource::CellRef { label: cell, notebook } => {
                    match notebook {
                        Some(nb) => {
                            let id = embed_id(registry, source, cell, label);
                            let ghost q: RequestView = (source@, nb@, cell.raw@, id@);
                            record(out, warnings, source, nb, &cell.raw, id);
                            proof {
                                let qs: Seq<RequestView> = seq![q];
                                assert(qs.drop_last() =~= Seq::<RequestView>::empty());
                                assert(block_requests(*block, source@, reg) == qs);
                                assert(record_all(st, qs.drop_last()) == st);
                                assert(record_all(st, qs) == record_rename(st, q));
                            }
                        },
                        None => {
                            assert(block_requests(*block, source@, reg) =~= Seq::<RequestView>::empty());
                        },
                    }
                },
                _ => {
                    assert(block_requests(*block, source@, reg) =~= Seq::<RequestView>::empty());
                },
            }
        },
        BlockKind::Embed { target, label } => {
            match target {
                EmbedTarget::NotebookCell { notebook, cell_label } => {
                    let id = embed_id(registry, source, cell_label, label);
                    let ghost q: RequestView = (source@, notebook@, cell_label.raw@, id@);
                    record(out, warnings, source, notebook, &cell_label.raw, id);
                    proof {
                        let qs: Seq<RequestView> = seq![q];
                        assert(qs.drop_last() =~= Seq::<RequestView>::empty());
                        assert(block_requests(*block, source@, reg) == qs);
                        assert(record_all(st, qs.drop_last()) == st);
                        assert(record_all(st, qs) == record_rename(st, q));
                    }
                },
                _ => {
                    assert(block_requests(*block, source@, reg) =~= Seq::<RequestView>::empty());
                },
            }
        },
        BlockKind::Admonition { body, .. } => walk_blocks(registry, source, body, out, warnings),
        BlockKind::Margin { body } => walk_blocks(registry, source, body, out, warnings),
        BlockKind::Blockquote { body, .. } => walk_blocks(registry, source, body, out, warnings),
        BlockKind::Theorem { body, .. } => walk_blocks(registry, source, body, out, warnings),
        BlockKind::Directive { body, .. } => walk_blocks(registry, source, body, out, warnings),
        BlockKind::TabSet { items } => walk_items(registry, source, items, out, warnings),
        _ => {
            assert(block_requests(*block, source@, reg) =~= Seq::<RequestView>::empty());
        },
    }
}

fn walk_blocks(
    registry: &LabelRegistry,
    source: &String,
    blocks: &Vec<Block>,
    out: &mut Vec<(String, StrMap)>,
    warnings: &mut Vec<BatchWarning>,
)
    ensures
        (renames_view(final(out)@), warnings_view(final(warnings)@)) == record_all(
            (renames_view(old(out)@), warnings_view(old(warnings)@)),
            blocks_requests(blocks@, source@, registry.forward_view()),
        ),
    decreases blocks@,
{
    let ghost st = (renames_view(out@), warnings_view(warnings@));
    let ghost reg = registry.forward_view();
    let mut i: usize = 0;
    while i < blocks.len()
        invariant
            i <= blocks@.len(),
            reg == registry.forward_view(),
            (renames_view(out@), warnings_view(warnings@)) == record_all(
                st,
                blocks_requests(blocks@.subrange(0, i as int), source@, reg),
            ),
        decreases blocks.len() - i,
    {
        let ghost prev = blocks_requests(blocks@.subrange(0, i as int), source@, reg);
        assert(blocks@.subrange(0, i + 1).drop_last() =~= blocks@.subrange(0, i as int));
        assert(blocks@.subrange(0, i + 1).last() == blocks@[i as int]);
        walk_block(registry, source, &blocks[i], out, warnings);
        proof { lemma_record_all_append(st, prev, block_requests(blocks@[i as int], source@, reg)); }
        i = i + 1;
    }
    assert(blocks@.subrange(0, i as int) =~= blocks@);
}

fn walk_items(
    registry: &LabelRegistry,
    source: &String,
    items: &Vec<TabItem>,
    out: &mut Vec<(String, StrMap)>,
    warnings: &mut Vec<BatchWarning>,
)
    ensures
        (renames_view(final(out)@), warnings_view(final(warnings)@)) == record_all(
            (renames_view(old(out)@), warnings_view(old(warnings)@)),
            items_requests(items@, source@, registry.forward_view()),
        ),
    decreases items@,
{
    let ghost st = (renames_view(out@), warnings_view(warnings@));
    let ghost reg = registry.forward_view();
    let mut i: usize = 0;
    while i < items.len()
        invariant
            i <= items@.len(),
            reg == registry.forward_view(),
            (renames_view(out@), warnings_view(warnings@)) == record_all(
                st,
                items_requests(items@.subrange(0, i as int), source@, reg),
            ),
        decreases items.len() - i,
    {
        let ghost prev = items_requests(items@.subrange(0, i as int), source@, reg);
        assert(items@.subrange(0, i + 1).drop_last() =~= items@.subrange(0, i as int));
        assert(items@.subrange(0, i + 1).last() == items@[i as int]);
        walk_blocks(registry, source, &items[i].body, out, warnings);
        proof { lemma_record_all_append(st, prev, blocks_requests(items@[i as int].body@, source@, reg)); }
        i = i + 1;
    }
    assert(items@.subrange(0, i as int) =~= items@);
}

/// The notebook-cell relabeling a batch implies: for each notebook cell a
/// document embeds, the id the writer emitted for that embed, by notebook
/// and cell label. A cell embedded by two documents under different ids
/// keeps the first (in document order) and the later document gets a
/// warning: a cell can carry only one label.
pub fn collect_notebook_renames(registry: &LabelRegistry, documents: &Vec<(String, Document)>) -> (r: (
    Vec<(String, StrMap)>,
    Vec<BatchWarning>,
))
    ensures
        (renames_view(r.0@), warnings_view(r.1@)) == record_all(
            (Seq::empty(), Seq::empty()),
            docs_requests(documents@, registry.forward_view()),
        ),
{
    let ghost reg = registry.forward_view();
    let ghost st: (RenamesView, Seq<WarningView>) = (Seq::empty(), Seq::empty());
    let mut out: Vec<(String, StrMap)> = Vec::new();
    let mut warnings: Vec<BatchWarning> = Vec::new();
    let mut d: usize = 0;
    assert(renames_view(out@) =~= st.0);
    assert(warnings_view(warnings@) =~= st.1);
    while d < documents.len()
        invariant
            d <= documents@.len(),
            reg == registry.forward_view(),
            st == (Seq::<(Seq<char>, EntriesView)>::empty(), Seq::<WarningView>::empty()),
            (renames_view(out@), warnings_view(warnings@)) == record_all(
                st,
                docs_requests(documents@.subrange(0, d as int), reg),
            ),
        decreases documents.len() - d,
    {
        let ghost prev = docs_requests(documents@.subrange(0, d as int), reg);
        assert(documents@.subrange(0, d + 1).drop_last() =~= documents@.subrange(0, d as int));
        assert(documents@.subrange(0, d + 1).last() == documents@[d as int]);
        walk_blocks(registry, &documents[d].0, &documents[d].1.blocks, &mut out, &mut warnings);
        proof {
            lemma_record_all_append(st, prev, blocks_requests(documents@[d as int].1.blocks@, documents@[d as int].0@, reg));
        }
        d = d + 1;
    }
    assert(documents@.subrange(0, d as int) =~= documents@);
    (out, warnings)
}


/// What a MyST -> Quarto batch gives.
pub struct MystToQuartoBatch {
    /// `(input path, rendered .qmd text)` for every document, in input order.
    pub rendered: Vec<(String, String)>,
    /// The files that could not be read or parsed.
    pub errors: Vec<BatchFileError>,
    /// Notebook -> `(cell label -> new id)`, to apply to each notebook's
    /// copy in the output tree.
    pub notebook_renames: Vec<(String, StrMap)>,
    /// The label sidecar to write at the output root.
    pub sidecar: LabelSidecar,
    /// Every citation key cited anywhere in the batch, each once, in key
    /// order (a cross-reference is never taken for one).
    pub used_citation_keys: Vec<String>,
    pub warnings: Vec<BatchWarning>,
}

/// What a Quarto -> MyST batch gives.
pub struct QuartoToMystBatch {
    /// `(input path, rendered .md text)` for every document, in input order.
    pub rendered: Vec<(String, String)>,
    pub errors: Vec<BatchFileError>,
    pub warnings: Vec<BatchWarning>,
}

/// The registry table a batch builds over `docs`.
pub open spec fn batch_forward(docs: Seq<(String, Document)>) -> ForwardView {
    let s = sorted_labels(all_labels(docs));
    forward_table(s, assign_ids(s, Set::empty()))
}

/// The registry's collision warnings over `docs`, as batch warnings.
pub open spec fn batch_collisions(docs: Seq<(String, Document)>) -> Seq<WarningView> {
    let s = sorted_labels(all_labels(docs));
    collision_warnings(s, assign_ids(s, Set::empty())).map_values(
        |w: (Seq<char>, Seq<char>)| (Some(w.0), w.1),
    )
}

pub open spec fn pairs_view(rs: Seq<(String, String)>) -> Seq<(Seq<char>, Seq<char>)> {
    rs.map_values(|r: (String, String)| (r.0@, r.1@))
}

/// Path -> content hash of its rendered text (UTF-8), for each rendered file.
pub open spec fn rendered_hashes(rs: Seq<(Seq<char>, Seq<char>)>) -> EntriesView
    decreases rs.len(),
{
    if rs.len() == 0 {
        Seq::empty()
    } else {
        map_insert(
            rendered_hashes(rs.drop_last()),
            rs.last().0,
            spec_content_hash(vstd::utf8::encode_utf8(rs.last().1)),
        )
    }
}

/// The citation keys of every document, document by document.
pub open spec fn docs_citations(docs: Seq<(String, Document)>, known: Seq<Seq<char>>) -> Seq<Seq<char>>
    decreases docs.len(),
{
    if docs.len() == 0 {
        Seq::empty()
    } else {
        docs_citations(docs.drop_last(), known) + blocks_citations(docs.last().1.blocks@, known)
    }
}

/// What the writers promise of a rendered text: it ends in a newline and
/// starts with the frontmatter block `head` gives, if any.
pub open spec fn rendered_shape(text: Seq<char>, head: Option<Seq<char>>) -> bool {
    &&& text.len() > 0
    &&& text.last() == '\n'
    &&& match head {
        Some(h) => text.len() >= h.len() && text.subrange(0, h.len() as int) == h,
        None => true,
    }
}

fn text_hash(text: &str) -> (r: String)
    ensures
        r@ == spec_content_hash(vstd::utf8::encode_utf8(text@)),
{
    content_hash(text.as_bytes())
}

fn copy_opt(o: &Option<String>) -> (r: Option<String>)
    ensures
        opt_str(r) == opt_str(*o),
{
    match o {
        Some(s) => Some(String::from_str(s.as_str())),
        None => None,
    }
}

fn push_warnings(warnings: &mut Vec<BatchWarning>, more: Vec<BatchWarning>)
    ensures
        warnings_view(final(warnings)@) == warnings_view(old(warnings)@) + warnings_view(more@),
{
    let ghost w0 = warnings_view(warnings@);
    let ghost m0 = warnings_view(more@);
    let mut more = more;
    warnings.append(&mut more);
    assert(warnings_view(warnings@) =~= w0 + m0);
}

/// Converts a set of MyST documents to Quarto as one run. `documents` are
/// the files that were read, as `(path, document)`; `read_errors` and
/// `notebook_warnings` are what reading the other files and indexing the
/// notebooks gave, passed through. Ids come from one registry over every
/// document; each notebook cell embedded is relabeled to the id its embed
/// was written with; the sidecar records every label under its file's path
/// relative to `input_root`, with the hash of the rendered text.
pub fn convert_myst_to_quarto_batch(
    documents: &Vec<(String, Document)>,
    read_errors: Vec<BatchFileError>,
    notebook_warnings: Vec<BatchWarning>,
    input_root: &str,
) -> (r: MystToQuartoBatch)
    requires
        all_labels(documents@).len() + 3 <= usize::MAX,
    ensures
        r.errors@ == read_errors@,
        r.rendered@.len() == documents@.len(),
        forall|i: int| 0 <= i < documents@.len() ==> {
            &&& (#[trigger] r.rendered@[i]).0@ == documents@[i].0@
            &&& rendered_shape(r.rendered@[i].1@, match documents@[i].1.frontmatter {
                Some(fm) => Some("---\n"@ + fm.raw@ + "---\n"@),
                None => None,
            })
        },
        ({
            let reg = batch_forward(documents@);
            let renames = record_all((Seq::empty(), Seq::empty()), docs_requests(documents@, reg));
            &&& renames_view(r.notebook_renames@) == renames.0
            &&& strs(r.used_citation_keys@) == keys_of(add_keys(
                Seq::empty(),
                docs_citations(documents@, keys_of(label_keys(reg, reg.len() as int))),
            ))
            &&& r.sidecar.version == 1
            &&& r.sidecar.generated_by@ == GENERATOR@
            &&& r.sidecar.direction@ == "myst_to_quarto"@
            &&& r.sidecar.source_root@ == input_root@
            &&& r.sidecar.files@.map_values(|f: (String, FileLabels)| file_view(f)) == build_files(
                reg,
                input_root@,
                rendered_hashes(pairs_view(r.rendered@)),
            )
            &&& warnings_view(r.warnings@) == warnings_view(notebook_warnings@) + batch_collisions(documents@) + renames.1
        }),
        exists|w: QuartoWriter|
            {
                let s = sorted_labels(all_labels(documents@));
                let ids = assign_ids(s, Set::empty());
                &&& #[trigger] w.registry_view().forward_view() == forward_table(s, ids)
                &&& w.registry_view().by_label_view() == crate::registry::by_label_table(s, ids)
                &&& w.known_view() == quarto_known(w.registry_view())
                &&& forall|i: int| 0 <= i < documents@.len() ==> #[trigger] w.writes(documents@[i].1, r.rendered@[i].1@)
            },
{
    let (registry, collisions) = LabelRegistry::build(documents);
    let ghost reg = registry.forward_view();
    let ghost cw = batch_collisions(documents@);
    proof {
        let ss = sorted_labels(all_labels(documents@));
        let cws = collision_warnings(ss, assign_ids(ss, Set::empty()));
        assert forall|j: int| 0 <= j < collisions@.len() implies opt_str((#[trigger] collisions@[j]).file) == cw[j].0
            && collisions@[j].message@ == cw[j].1 by {
            assert(crate::registry::is_collision_warning(collisions@[j], cws[j]));
        }
    }
    let mut warnings = notebook_warnings;
    let ghost w0 = warnings_view(warnings@);
    let mut k: usize = 0;
    while k < collisions.len()
        invariant
            k <= collisions@.len(),
            collisions@.len() == cw.len(),
            cw == batch_collisions(documents@),
            forall|j: int| 0 <= j < collisions@.len() ==> opt_str((#[trigger] collisions@[j]).file) == cw[j].0 && collisions@[j].message@ == cw[j].1,
            warnings_view(warnings@) == w0 + cw.subrange(0, k as int),
        decreases collisions.len() - k,
    {
        let d = &collisions[k];
        let ghost before = warnings_view(warnings@);
        let w = BatchWarning { file: copy_opt(&d.file), message: String::from_str(d.message.as_str()) };
        assert(warning_view(w) == cw[k as int]);
        warnings.push(w);
        assert(warnings_view(warnings@) =~= before.push(cw[k as int]));
        assert(cw.subrange(0, k + 1) =~= cw.subrange(0, k as int).push(cw[k as int]));
        assert(warnings_view(warnings@) =~= w0 + cw.subrange(0, k + 1));
        k = k + 1;
    }
    assert(cw.subrange(0, k as int) =~= cw);
    let writer = QuartoWriter::new(registry);
    let registry = writer.registry();
    let mut rendered: Vec<(String, String)> = Vec::new();
    let mut hashes = StrMap::new();
    let mut i: usize = 0;
    while i < documents.len()
        invariant
            i <= documents@.len(),
            rendered@.len() == i,
            forall|j: int| 0 <= j < i ==> {
                &&& (#[trigger] rendered@[j]).0@ == documents@[j].0@
                &&& rendered_shape(rendered@[j].1@, match documents@[j].1.frontmatter {
                    Some(fm) => Some("---\n"@ + fm.raw@ + "---\n"@),
                    None => None,
                })
            },
            hashes@ == rendered_hashes(pairs_view(rendered@)),
            forall|j: int| 0 <= j < i ==> #[trigger] writer.writes(documents@[j].1, rendered@[j].1@),
        decreases documents.len() - i,
    {
        let text = writer.write(&documents[i].1);
        let h = text_hash(text.as_str());
        hashes.insert(String::from_str(documents[i].0.as_str()), h);
        let ghost before = pairs_view(rendered@);
        rendered.push((String::from_str(documents[i].0.as_str()), text));
        assert(pairs_view(rendered@).drop_last() =~= before);
        i = i + 1;
    }
    let (renames, rename_warnings) = collect_notebook_renames(registry, documents);
    push_warnings(&mut warnings, rename_warnings);
    let known = known_reference_labels(registry);
    let ghost kn = strs(known@);
    let mut cites = StrMap::new();
    let mut d: usize = 0;
    while d < documents.len()
        invariant
            d <= documents@.len(),
            kn == strs(known@),
            cites@ == add_keys(Seq::empty(), docs_citations(documents@.subrange(0, d as int), kn)),
        decreases documents.len() - d,
    {
        let ghost prev = docs_citations(documents@.subrange(0, d as int), kn);
        assert(documents@.subrange(0, d + 1).drop_last() =~= documents@.subrange(0, d as int));
        assert(documents@.subrange(0, d + 1).last() == documents@[d as int]);
        add_blocks_citations(&documents[d].1.blocks, known.as_slice(), &mut cites);
        proof { lemma_add_keys_append(Seq::empty(), prev, blocks_citations(documents@[d as int].1.blocks@, kn)); }
        d = d + 1;
    }
    assert(documents@.subrange(0, d as int) =~= documents@);
    let used = cites.keys();
    assert(strs(used@) =~= used@.map_values(|k: String| k@));
    let sidecar = build(registry, "myst_to_quarto", input_root, &hashes);
    proof { reveal_strlit("myst_to_quarto"); }
    MystToQuartoBatch {
        rendered,
        errors: read_errors,
        notebook_renames: renames,
        sidecar,
        used_citation_keys: used,
        warnings,
    }
}

/// The restored `(file, id, label)` entries whose file has a Quarto path in
/// `paths`, re-keyed by that path.
pub open spec fn remap_restored(rs: Seq<(Seq<char>, Seq<char>, Seq<char>)>, paths: EntriesView) -> Seq<
    (Seq<char>, Seq<char>, Seq<char>),
>
    decreases rs.len(),
{
    if rs.len() == 0 {
        Seq::empty()
    } else {
        let e = rs.last();
        remap_restored(rs.drop_last(), paths) + match map_get(paths, e.0) {
            Some(p) => seq![(p, e.1, e.2)],
            None => Seq::empty(),
        }
    }
}

/// The restore map a reverse run hands the MyST writer: the labels the
/// sidecar can still vouch for (files unchanged since, by `current_hashes`,
/// keyed by MyST-side path), re-keyed from each MyST-side path to the Quarto
/// file now read, by `quarto_paths`; entries of files not in this run are
/// dropped.
pub fn restore_for_quarto_paths(sidecar: &LabelSidecar, current_hashes: &StrMap, quarto_paths: &StrMap) -> (r: RestoreMap)
    ensures
        r@.map_values(|e: ((String, String), Label)| restored_view(e)) == remap_restored(
            spec_restore(sidecar.files@.map_values(|f: (String, FileLabels)| file_view(f)), current_hashes@),
            quarto_paths@,
        ),
{
    let restored = restore_labels(sidecar, current_hashes);
    let ghost rv = restored@.map_values(|e: ((String, String), Label)| restored_view(e));
    let mut out: RestoreMap = Vec::new();
    let mut i: usize = 0;
    while i < restored.len()
        invariant
            i <= restored@.len(),
            rv == restored@.map_values(|e: ((String, String), Label)| restored_view(e)),
            out@.map_values(|e: ((String, String), Label)| restored_view(e)) == remap_restored(rv.subrange(0, i as int), quarto_paths@),
        decreases restored.len() - i,
    {
        let ghost before = out@.map_values(|e: ((String, String), Label)| restored_view(e));
        assert(rv.subrange(0, i + 1).drop_last() =~= rv.subrange(0, i as int));
        assert(rv.subrange(0, i + 1).last() == rv[i as int]);
        let e = &restored[i];
        match quarto_paths.get(e.0.0.as_str()) {
            Some(p) => {
                out.push(((String::from_str(p.as_str()), String::from_str(e.0.1.as_str())), Label { raw: String::from_str(e.1.raw.as_str()) }));
                assert(out@.map_values(|e: ((String, String), Label)| restored_view(e)) =~= before.push((p@, rv[i as int].1, rv[i as int].2)));
            },
            None => {
                assert(out@.map_values(|e: ((String, String), Label)| restored_view(e)) =~= before);
            },
        }
        i = i + 1;
    }
    assert(rv.subrange(0, i as int) =~= rv);
    out
}

/// Converts a set of Quarto documents to MyST as one run. `documents`,
/// `read_errors` and `warnings` are as in the forward batch (`warnings` also
/// carries whatever reading the sidecar gave); `restore` is the restore map
/// (empty without a usable sidecar). Every label defined in the batch is
/// read as a cross-reference, not a citation.
pub fn convert_quarto_to_myst_batch(
    documents: &Vec<(String, Document)>,
    read_errors: Vec<BatchFileError>,
    warnings: Vec<BatchWarning>,
    restore: RestoreMap,
) -> (r: QuartoToMystBatch)
    ensures
        r.errors@ == read_errors@,
        r.rendered@.len() == documents@.len(),
        forall|i: int| 0 <= i < documents@.len() ==> {
            &&& (#[trigger] r.rendered@[i]).0@ == documents@[i].0@
            &&& rendered_shape(r.rendered@[i].1@, match documents@[i].1.frontmatter {
                Some(fm) => Some("---\n"@ + crate::writer::myst::myst_frontmatter_text(fm) + "---\n"@),
                None => None,
            })
        },
        exists|w: MystWriter, ws: Seq<Seq<Diagnostic>>|
            {
                &&& #[trigger] w.restore_view() == restore@
                &&& w.known_view() == crate::strmap::keys_of(crate::strmap::add_keys(Seq::empty(), defined_raws(documents@)))
                &&& ws.len() == documents@.len()
                &&& forall|i: int| 0 <= i < documents@.len() ==> #[trigger] myst_written(w, documents@[i].1, r.rendered@[i].1@, ws[i])
                &&& warnings_view(r.warnings@) == warnings_view(warnings@) + #[trigger] file_warnings(documents@, ws)
            },
{
    let known = defined_labels(documents);
    let writer = MystWriter::new(restore, known);
    let mut warnings = warnings;
    let ghost w0 = warnings_view(warnings@);
    let ghost mut ws: Seq<Seq<Diagnostic>> = Seq::empty();
    let mut rendered: Vec<(String, String)> = Vec::new();
    let mut i: usize = 0;
    while i < documents.len()
        invariant
            i <= documents@.len(),
            rendered@.len() == i,
            ws.len() == i,
            forall|j: int| 0 <= j < i ==> #[trigger] myst_written(writer, documents@[j].1, rendered@[j].1@, ws[j]),
            warnings_view(warnings@) == w0 + file_warnings(documents@.subrange(0, i as int), ws),
            forall|j: int| 0 <= j < i ==> {
                &&& (#[trigger] rendered@[j]).0@ == documents@[j].0@
                &&& rendered_shape(rendered@[j].1@, match documents@[j].1.frontmatter {
                    Some(fm) => Some("---\n"@ + crate::writer::myst::myst_frontmatter_text(fm) + "---\n"@),
                    None => None,
                })
            },
            warnings_view(warnings@).len() >= w0.len(),
            warnings_view(warnings@).subrange(0, w0.len() as int) == w0,
        decreases documents.len() - i,
    {
        let (text, diags, _) = writer.write(&documents[i].1);
        let ghost start = warnings_view(warnings@);
        let ghost fname = documents@[i as int].0@;
        let ghost dv = diags@.map_values(|d: Diagnostic| (Some(fname), d.message@));
        let mut k: usize = 0;
        while k < diags.len()
            invariant
                k <= diags@.len(),
                i < documents@.len(),
                fname == documents@[i as int].0@,
                dv == diags@.map_values(|d: Diagnostic| (Some(fname), d.message@)),
                warnings_view(warnings@) == start + dv.subrange(0, k as int),
            decreases diags.len() - k,
        {
            let ghost before = warnings_view(warnings@);
            warnings.push(BatchWarning {
                file: Some(String::from_str(documents[i].0.as_str())),
                message: String::from_str(diags[k].message.as_str()),
            });
            assert(warnings_view(warnings@) =~= before.push(dv[k as int]));
            assert(dv.subrange(0, k + 1) =~= dv.subrange(0, k as int).push(dv[k as int]));
            k = k + 1;
        }
        assert(dv.subrange(0, k as int) =~= dv);
        let ghost old_ws = ws;
        let ghost old_rendered = rendered@;
        rendered.push((String::from_str(documents[i].0.as_str()), text));
        proof {
            ws = ws.push(diags@);
            let dd = documents@.subrange(0, i + 1);
            assert(dd.drop_last() =~= documents@.subrange(0, i as int));
            assert(ws.drop_last() =~= old_ws);
            assert(dd.last() == documents@[i as int]);
            assert(warnings_view(warnings@) =~= w0 + file_warnings(dd, ws));
            assert forall|j: int| 0 <= j < i + 1 implies #[trigger] myst_written(writer, documents@[j].1, rendered@[j].1@, ws[j]) by {
                if j < i {
                    assert(rendered@[j] == old_rendered[j]);
                    assert(ws[j] == old_ws[j]);
                }
            }
        }
        i = i + 1;
    }
    assert(documents@.subrange(0, i as int) =~= documents@);
    QuartoToMystBatch { rendered, errors: read_errors, warnings }
}


/// `text` and `diags` are what `w` writes for `doc` (some rendering of its
/// blocks, preserved entries and diagnostics that the writer's contract
/// allows).
pub open spec fn myst_written(w: MystWriter, doc: Document, text: Seq<char>, diags: Seq<Diagnostic>) -> bool {
    exists|pv: Seq<(String, crate::preserve::PreservedEntry)>, outs: Seq<Seq<String>>, ps: Seq<Seq<(String, crate::preserve::PreservedEntry)>>, ds: Seq<Seq<Diagnostic>>|
        #[trigger] w.written_as(doc, text, diags, pv, outs, ps, ds)
}

/// Each document's diagnostics as batch warnings naming its file, in order.
pub open spec fn file_warnings(docs: Seq<(String, Document)>, ws: Seq<Seq<Diagnostic>>) -> Seq<WarningView>
    decreases docs.len(),
{
    if docs.len() == 0 || ws.len() != docs.len() {
        Seq::empty()
    } else {
        file_warnings(docs.drop_last(), ws.drop_last()) + ws.last().map_values(
            |d: Diagnostic| (Some(docs.last().0@), d.message@),
        )
    }
}

/// The name for what `std::path::Path::with_extension` makes of `path` with
/// extension `ext`.
pub uninterp spec fn path_with_extension(path: Seq<char>, ext: Seq<char>) -> Seq<char>;

/// Calls `std::path::Path::with_extension`, which panics on an extension
/// holding a path separator; the contract claims only that the result is the
/// named one.
#[verifier::external_body]
fn with_extension(path: &str, ext: &str) -> (r: String)
    requires
        !ext@.contains('/'),
        !ext@.contains('\\'),
    ensures
        r@ == path_with_extension(path@, ext@),
{
    std::path::Path::new(path).with_extension(ext).to_string_lossy().into_owned()
}

/// The key the forward run recorded a Quarto file's labels under: its path
/// relative to `input_root` (the path itself when it is not under it), with
/// the extension swapped back to `md`.
pub fn myst_key_for(input_root: &str, quarto_path: &str) -> (r: String)
    ensures
        r@ == path_with_extension(
            if path_has_prefix(quarto_path@, input_root@) { path_rest(quarto_path@, input_root@) } else { quarto_path@ },
            "md"@,
        ),
{
    let rel = match strip_path_prefix(quarto_path, input_root) {
        Some(rest) => rest,
        None => String::from_str(quarto_path),
    };
    proof {
        reveal_strlit("md");
        assert(!"md"@.contains('/'));
        assert(!"md"@.contains('\\'));
    }
    with_extension(rel.as_str(), "md")
}

} // verus!
