//! Which files of an input tree are copied into the output tree as assets
//! (images, data, notebooks), and when a copy is refreshed. Symlinks are
//! never followed, tool and cache directories and the output directory are
//! never walked, content and config files are never copied, and a copy whose
//! destination already matches its source is left alone. The walk and the
//! copying are the application's; every decision is made here.
use vstd::prelude::*;
use crate::fs::path_guard::{effective_output_excluded_from_walk, path_has_prefix};
use crate::reader::fence::strs;
use crate::text::{chars_of, push_all, str_eq, string_of};

verus! {

/// Directory names the asset walk never enters: build output, version
/// control, virtual environments and tool caches.
pub open spec fn spec_asset_skip_dir(name: Seq<char>) -> bool {
    ||| name == "_build"@
    ||| name == ".git"@
    ||| name == ".hg"@
    ||| name == "__pycache__"@
    ||| name == "node_modules"@
    ||| name == ".venv"@
    ||| name == "venv"@
    ||| name == ".tox"@
    ||| name == ".mypy_cache"@
    ||| name == ".pytest_cache"@
    ||| name == "_site"@
    ||| name == ".quarto"@
}

/// `true` when a directory called `name` is never walked for assets.
pub fn is_asset_skip_dir(name: &str) -> (r: bool)
    ensures
        r == spec_asset_skip_dir(name@),
{
    str_eq(name, "_build") || str_eq(name, ".git") || str_eq(name, ".hg") || str_eq(name, "__pycache__")
        || str_eq(name, "node_modules") || str_eq(name, ".venv") || str_eq(name, "venv") || str_eq(name, ".tox")
        || str_eq(name, ".mypy_cache") || str_eq(name, ".pytest_cache") || str_eq(name, "_site")
        || str_eq(name, ".quarto")
}

/// What a walked directory entry is, by its own metadata (a symlink is not
/// followed to find out what it points at).
#[derive(Debug, Clone, Copy, PartialEq, Eq, Structural)]
pub enum EntryKind {
    Symlink,
    Dir,
    File,
}

/// What the walk does with one entry.
#[derive(Debug, Clone, Copy, PartialEq, Eq, Structural)]
pub enum AssetStep {
    /// Not followed; listed in the report's `skipped_symlinks`.
    RecordSymlink,
    /// A directory that is not entered.
    SkipDir,
    /// A directory that is walked in turn.
    Descend,
    /// A content or config file, which the converters write themselves.
    SkipFile,
    /// A file copied to the same relative path under the output root.
    CopyFile,
}

/// `x` is one of `xs`.
pub open spec fn listed(xs: Seq<Seq<char>>, x: Seq<char>) -> bool {
    exists|i: int| 0 <= i < xs.len() && xs[i] == x
}

/// The decision for an entry at `path`, called `name`, with extension `ext`.
pub open spec fn spec_classify(
    kind: EntryKind,
    path: Seq<char>,
    name: Seq<char>,
    ext: Seq<char>,
    output_root: Seq<char>,
    content_extensions: Seq<Seq<char>>,
    config_names: Seq<Seq<char>>,
) -> AssetStep {
    match kind {
        EntryKind::Symlink => AssetStep::RecordSymlink,
        EntryKind::Dir => if spec_asset_skip_dir(name) || path_has_prefix(path, output_root) {
            AssetStep::SkipDir
        } else {
            AssetStep::Descend
        },
        EntryKind::File => if listed(content_extensions, ext) || listed(config_names, name) {
            AssetStep::SkipFile
        } else {
            AssetStep::CopyFile
        },
    }
}

/// `true` when `x` is one of `xs`.
pub fn is_listed(xs: &Vec<String>, x: &str) -> (r: bool)
    ensures
        r == listed(strs(xs@), x@),
{
    let mut i: usize = 0;
    while i < xs.len()
        invariant
            i <= xs.len(),
            forall|j: int| 0 <= j < i ==> strs(xs@)[j] != x@,
        decreases xs.len() - i,
    {
        if str_eq(xs[i].as_str(), x) {
            assert(strs(xs@)[i as int] == x@);
            return true;
        }
        i = i + 1;
    }
    false
}

/// Decides what the asset walk does with one entry: symlinks are recorded
/// and never followed; skipped tool directories and anything inside the
/// output root are not entered; content files (by extension) and config
/// files (by name) are left to the converters; everything else is copied.
pub fn classify_entry(
    kind: EntryKind,
    path: &str,
    name: &str,
    ext: &str,
    output_root: &str,
    content_extensions: &Vec<String>,
    config_names: &Vec<String>,
) -> (r: AssetStep)
    ensures
        r == spec_classify(kind, path@, name@, ext@, output_root@, strs(content_extensions@), strs(config_names@)),
{
    match kind {
        EntryKind::Symlink => AssetStep::RecordSymlink,
        EntryKind::Dir => {
            if is_asset_skip_dir(name) || effective_output_excluded_from_walk(output_root, path) {
                AssetStep::SkipDir
            } else {
                AssetStep::Descend
            }
        },
        EntryKind::File => {
            if is_listed(content_extensions, ext) || is_listed(config_names, name) {
                AssetStep::SkipFile
            } else {
                AssetStep::CopyFile
            }
        },
    }
}

/// Whether a copy must be (re)made, as far as it can be told without
/// reading either file.
#[derive(Debug, Clone, Copy, PartialEq, Eq, Structural)]
pub enum RefreshStep {
    /// The destination is missing: copy.
    Copy,
    /// Both files carry the same modification time: leave the destination.
    Keep,
    /// Compare the two files' content; copy when it differs.
    CompareContent,
}

/// The refresh decision: a missing destination is always copied, a matching
/// modification time means the destination is current, and otherwise the
/// content decides.
pub fn refresh_step(destination_exists: bool, same_modified_time: bool) -> (r: RefreshStep)
    ensures
        !destination_exists ==> r == RefreshStep::Copy,
        destination_exists && same_modified_time ==> r == RefreshStep::Keep,
        destination_exists && !same_modified_time ==> r == RefreshStep::CompareContent,
{
    if !destination_exists {
        RefreshStep::Copy
    } else if same_modified_time {
        RefreshStep::Keep
    } else {
        RefreshStep::CompareContent
    }
}

/// What one asset walk did: the destinations copied, those already current,
/// and the symlinks seen but not followed, each in walk order.
#[derive(Debug, Clone, PartialEq, Eq)]
pub struct AssetCopyReport {
    pub copied: Vec<String>,
    pub unchanged: Vec<String>,
    pub skipped_symlinks: Vec<String>,
}

impl AssetCopyReport {
    /// A report of a walk that has not done anything yet.
    pub fn new() -> (r: AssetCopyReport)
        ensures
            r.copied@.len() == 0,
            r.unchanged@.len() == 0,
            r.skipped_symlinks@.len() == 0,
    {
        AssetCopyReport { copied: Vec::new(), unchanged: Vec::new(), skipped_symlinks: Vec::new() }
    }
}

/// Why an asset walk stopped. `source` is the I/O error's text.
#[derive(Debug, Clone, PartialEq, Eq)]
pub enum AssetCopyError {
    ReadDir { path: String, source: String },
    Stat { path: String, source: String },
    CreateDir { path: String, source: String },
    Copy { src: String, dst: String, source: String },
}

/// The text of each failure.
pub open spec fn spec_asset_message(e: AssetCopyError) -> Seq<char> {
    match e {
        AssetCopyError::ReadDir { path, source } => "failed to read directory "@ + path@ + ": "@ + source@,
        AssetCopyError::Stat { path, source } => "failed to stat "@ + path@ + ": "@ + source@,
        AssetCopyError::CreateDir { path, source } => "failed to create directory "@ + path@ + ": "@ + source@,
        AssetCopyError::Copy { src, dst, source } => "failed to copy "@ + src@ + " to "@ + dst@ + ": "@ + source@,
    }
}

impl AssetCopyError {
    /// The failure as a human-readable sentence.
    pub fn message(&self) -> (m: String)
        ensures
            m@ == spec_asset_message(*self),
    {
        let mut v: Vec<char>;
        match self {
            AssetCopyError::ReadDir { path, source } => {
                v = chars_of("failed to read directory ");
                push_all(&mut v, &chars_of(path.as_str()));
                push_all(&mut v, &chars_of(": "));
                push_all(&mut v, &chars_of(source.as_str()));
            },
            AssetCopyError::Stat { path, source } => {
                v = chars_of("failed to stat ");
                push_all(&mut v, &chars_of(path.as_str()));
                push_all(&mut v, &chars_of(": "));
                push_all(&mut v, &chars_of(source.as_str()));
            },
            AssetCopyError::CreateDir { path, source } => {
                v = chars_of("failed to create directory ");
                push_all(&mut v, &chars_of(path.as_str()));
                push_all(&mut v, &chars_of(": "));
                push_all(&mut v, &chars_of(source.as_str()));
            },
            AssetCopyError::Copy { src, dst, source } => {
                v = chars_of("failed to copy ");
                push_all(&mut v, &chars_of(src.as_str()));
                push_all(&mut v, &chars_of(" to "));
                push_all(&mut v, &chars_of(dst.as_str()));
                push_all(&mut v, &chars_of(": "));
                push_all(&mut v, &chars_of(source.as_str()));
            },
        }
        string_of(&v)
    }
}

} // verus!
