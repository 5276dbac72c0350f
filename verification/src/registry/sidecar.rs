//! The label sidecar: which MyST label each Quarto id came from, per file,
//! so a reverse conversion can restore the original labels.
use vstd::prelude::*;
use crate::label::Label;
use crate::fs::path_guard::path_has_prefix;
use crate::reader::fence::strs;
use crate::registry::{triple_view, ForwardView, LabelRegistry};
use crate::strmap::{
    insert_pos, key_index, lemma_insert_pos, lemma_key_index, lemma_map_insert_get, map_get, map_insert, seq_lt, str_lt,
    EntriesView, StrMap,
};
use crate::text::{chars_of, is_ascii_alnum, is_ascii_alphanumeric, push_all, string_of};

verus! {

/// Largest accepted number of label entries in one sidecar.
pub const MAX_SIDECAR_ENTRIES: usize = 200_000;

/// The largest label sidecar file read, in bytes.
pub const MAX_SIDECAR_BYTES: u64 = 10485760;

/// The FNV-1a 64-bit offset basis.
pub const FNV_OFFSET_BASIS: u64 = 0xcbf2_9ce4_8422_2325;

/// The FNV-1a 64-bit prime.
pub const FNV_PRIME: u64 = 0x0000_0100_0000_01b3;

/// FNV-1a over `bytes`, starting from `h`.
pub open spec fn fnv1a_from(h: u64, bytes: Seq<u8>) -> u64
    decreases bytes.len(),
{
    if bytes.len() == 0 {
        h
    } else {
        fnv1a_from((h ^ (bytes[0] as u64)).wrapping_mul(FNV_PRIME), bytes.drop_first())
    }
}

/// The lowercase hexadecimal digit for `d < 16`.
pub open spec fn hex_digit(d: u64) -> char {
    if d < 10 {
        crate::text::digit(d as nat)
    } else if d == 10 { 'a' }
    else if d == 11 { 'b' }
    else if d == 12 { 'c' }
    else if d == 13 { 'd' }
    else if d == 14 { 'e' }
    else { 'f' }
}

/// `h` as sixteen lowercase hexadecimal digits, most significant first.
pub open spec fn hex16(h: u64) -> Seq<char> {
    Seq::new(16, |i: int| hex_digit((h >> ((60 - 4 * i) as u64)) & 0xf))
}

/// `fnv1a:` followed by the zero-padded hexadecimal FNV-1a hash of `bytes`.
pub open spec fn spec_content_hash(bytes: Seq<u8>) -> Seq<char> {
    "fnv1a:"@ + hex16(fnv1a_from(FNV_OFFSET_BASIS, bytes))
}

fn hex_digit_exec(d: u64) -> (c: char)
    requires
        d < 16,
    ensures
        c == hex_digit(d),
{
    if d == 0 { '0' }
    else if d == 1 { '1' }
    else if d == 2 { '2' }
    else if d == 3 { '3' }
    else if d == 4 { '4' }
    else if d == 5 { '5' }
    else if d == 6 { '6' }
    else if d == 7 { '7' }
    else if d == 8 { '8' }
    else if d == 9 { '9' }
    else if d == 10 { 'a' }
    else if d == 11 { 'b' }
    else if d == 12 { 'c' }
    else if d == 13 { 'd' }
    else if d == 14 { 'e' }
    else { 'f' }
}

/// A stable content fingerprint: 64-bit FNV-1a, rendered as `fnv1a:` and 16
/// lowercase hex digits.
pub fn content_hash(bytes: &[u8]) -> (r: String)
    ensures
        r@ == spec_content_hash(bytes@),
{
    let mut hash: u64 = FNV_OFFSET_BASIS;
    let mut k: usize = 0;
    assert(bytes@.subrange(0, bytes@.len() as int) =~= bytes@);
    while k < bytes.len()
        invariant
            k <= bytes@.len(),
            fnv1a_from(FNV_OFFSET_BASIS, bytes@) == fnv1a_from(hash, bytes@.subrange(k as int, bytes@.len() as int)),
        decreases bytes.len() - k,
    {
        assert(bytes@.subrange(k as int, bytes@.len() as int).drop_first() =~= bytes@.subrange(k + 1, bytes@.len() as int));
        hash = (hash ^ (bytes[k] as u64)).wrapping_mul(FNV_PRIME);
        k = k + 1;
    }
    assert(bytes@.subrange(k as int, bytes@.len() as int) =~= Seq::<u8>::empty());
    let mut out = chars_of("fnv1a:");
    let ghost start = out@;
    let mut i: u64 = 0;
    while i < 16
        invariant
            i <= 16,
            out@ == start + hex16(hash).subrange(0, i as int),
        decreases 16 - i,
    {
        let sh: u64 = 60 - 4 * i;
        let nib = (hash >> sh) & 0xf;
        assert(nib < 16) by (bit_vector)
            requires
                nib == (hash >> sh) & 0xf,
        ;
        out.push(hex_digit_exec(nib));
        assert(out@ =~= start + hex16(hash).subrange(0, i + 1));
        i = i + 1;
    }
    assert(hex16(hash).subrange(0, 16) =~= hex16(hash));
    string_of(&out)
}

/// A character allowed in a trusted sidecar label.
pub open spec fn sidecar_label_char(c: char) -> bool {
    is_ascii_alnum(c) || c == ':' || c == '-' || c == '_' || c == '.' || c == '/'
}

/// A non-empty label made only of allowed characters.
pub open spec fn spec_label_well_formed(s: Seq<char>) -> bool {
    s.len() > 0 && forall|k: int| 0 <= k < s.len() ==> sidecar_label_char(#[trigger] s[k])
}

#[verifier::loop_isolation(false)]
fn label_is_well_formed(s: &String) -> (r: bool)
    ensures
        r == spec_label_well_formed(s@),
{
    let v = chars_of(s.as_str());
    if v.len() == 0 {
        return false;
    }
    let mut k: usize = 0;
    while k < v.len()
        invariant
            k <= v@.len(),
            forall|m: int| 0 <= m < k ==> sidecar_label_char(#[trigger] v@[m]),
        decreases v.len() - k,
    {
        let c = v[k];
        if !(is_ascii_alphanumeric(c) || c == ':' || c == '-' || c == '_' || c == '.' || c == '/') {
            assert(!sidecar_label_char(v@[k as int]));
            return false;
        }
        k = k + 1;
    }
    true
}

/// The labels recorded for one source file, with the hash of its content at
/// the time they were recorded.
#[derive(Debug, Clone, PartialEq, Eq)]
pub struct FileLabels {
    pub content_hash: String,
    /// Quarto id -> original MyST label.
    pub labels: StrMap,
}

/// The whole sidecar: per-file label records for one conversion direction.
#[derive(Debug, Clone, PartialEq, Eq)]
pub struct LabelSidecar {
    pub version: u32,
    pub generated_by: String,
    pub direction: String,
    pub source_root: String,
    /// Relative source path -> its labels.
    pub files: Vec<(String, FileLabels)>,
}

impl LabelSidecar {
    /// The file records are keyed by path: in strictly increasing path
    /// order, no path twice.
    pub open spec fn wf(&self) -> bool {
        files_sorted(self.files@.map_values(|f: (String, FileLabels)| file_view(f)))
    }
}

/// A sidecar problem worth reporting; the sidecar (or an entry) was ignored.
#[derive(Debug, Clone, PartialEq, Eq)]
pub struct SidecarWarning {
    pub message: String,
}

/// The view of one file record: `(relative path, content hash, labels)`.
pub open spec fn file_view(f: (String, FileLabels)) -> (Seq<char>, Seq<char>, EntriesView) {
    (f.0@, f.1.content_hash@, f.1.labels@)
}

/// The view of a restored entry: `(path, quarto id, label)`.
pub open spec fn restored_view(e: ((String, String), Label)) -> (Seq<char>, Seq<char>, Seq<char>) {
    (e.0.0@, e.0.1@, e.1.raw@)
}

/// The entries of one labels map, tagged with their file.
pub open spec fn tag_labels(rel: Seq<char>, labels: EntriesView) -> Seq<(Seq<char>, Seq<char>, Seq<char>)> {
    labels.map_values(|e: (Seq<char>, Seq<char>)| (rel, e.0, e.1))
}

/// A file record is stale when the file's current hash is known and differs.
pub open spec fn is_stale(f: (Seq<char>, Seq<char>, EntriesView), hashes: EntriesView) -> bool {
    match crate::strmap::map_get(hashes, f.0) {
        Some(h) => h != f.1,
        None => false,
    }
}

/// The labels a reverse conversion may trust: every entry of every file that
/// is not stale, in file order.
pub open spec fn spec_restore(files: Seq<(Seq<char>, Seq<char>, EntriesView)>, hashes: EntriesView) -> Seq<
    (Seq<char>, Seq<char>, Seq<char>),
>
    decreases files.len(),
{
    if files.len() == 0 {
        Seq::empty()
    } else {
        let last = files.last();
        spec_restore(files.drop_last(), hashes) + if is_stale(last, hashes) {
            Seq::empty()
        } else {
            tag_labels(last.0, last.2)
        }
    }
}

/// Turns a trusted sidecar back into a label-restore map, skipping every file
/// whose content changed since the sidecar was written.
pub fn restore_labels(sidecar: &LabelSidecar, current_hashes: &StrMap) -> (r: Vec<((String, String), Label)>)
    ensures
        r@.map_values(|e: ((String, String), Label)| restored_view(e)) == spec_restore(
            sidecar.files@.map_values(|f: (String, FileLabels)| file_view(f)),
            current_hashes@,
        ),
{
    let ghost files = sidecar.files@.map_values(|f: (String, FileLabels)| file_view(f));
    let mut out: Vec<((String, String), Label)> = Vec::new();
    let mut i: usize = 0;
    while i < sidecar.files.len()
        invariant
            i <= sidecar.files@.len(),
            files == sidecar.files@.map_values(|f: (String, FileLabels)| file_view(f)),
            out@.map_values(|e: ((String, String), Label)| restored_view(e)) == spec_restore(
                files.subrange(0, i as int),
                current_hashes@,
            ),
        decreases sidecar.files.len() - i,
    {
        let rel = &sidecar.files[i].0;
        let entry = &sidecar.files[i].1;
        assert(files.subrange(0, i + 1).drop_last() =~= files.subrange(0, i as int));
        assert(files[i as int] == file_view(sidecar.files@[i as int]));
        let stale = match current_hashes.get(rel.as_str()) {
            Some(h) => *h != entry.content_hash,
            None => false,
        };
        if !stale {
            let labels = entry.labels.entries();
            let ghost base = out@.map_values(|e: ((String, String), Label)| restored_view(e));
            let mut k: usize = 0;
            while k < labels.len()
                invariant
                    k <= labels@.len(),
                    out@.map_values(|e: ((String, String), Label)| restored_view(e)) == base
                        + tag_labels(rel@, labels@.map_values(|e: (String, String)| (e.0@, e.1@)).subrange(0, k as int)),
                decreases labels.len() - k,
            {
                let ghost before = out@.map_values(|e: ((String, String), Label)| restored_view(e));
                out.push(((rel.clone(), labels[k].0.clone()), Label { raw: labels[k].1.clone() }));
                assert(out@.map_values(|e: ((String, String), Label)| restored_view(e)) =~= before.push((rel@, labels@[k as int].0@, labels@[k as int].1@)));
                assert(out@.map_values(|e: ((String, String), Label)| restored_view(e)) =~= base
                        + tag_labels(rel@, labels@.map_values(|e: (String, String)| (e.0@, e.1@)).subrange(0, k + 1)));
                k = k + 1;
            }
            assert(labels@.map_values(|e: (String, String)| (e.0@, e.1@)).subrange(0, labels@.len() as int) =~= entry.labels@);
        } else {
            assert(spec_restore(files.subrange(0, i + 1), current_hashes@) =~= spec_restore(files.subrange(0, i as int), current_hashes@));
        }
        i = i + 1;
    }
    assert(files.subrange(0, i as int) =~= files);
    out
}

} // verus!

verus! {

/// Total number of label entries in a list of file records.
pub open spec fn total_entries(files: Seq<(Seq<char>, Seq<char>, EntriesView)>) -> int
    decreases files.len(),
{
    if files.len() == 0 {
        0
    } else {
        total_entries(files.drop_last()) + files.last().2.len()
    }
}

/// Which entries of a labels map survive: both sides well formed.
pub open spec fn keep_flags(labels: EntriesView) -> Seq<bool> {
    labels.map_values(|e: (Seq<char>, Seq<char>)| spec_label_well_formed(e.0) && spec_label_well_formed(e.1))
}

fn warn(message: String) -> (w: SidecarWarning)
    ensures
        w.message == message,
{
    SidecarWarning { message }
}

/// Counts the sidecar's label entries, saturating at `u64::MAX`.
fn count_entries(files: &Vec<(String, FileLabels)>) -> (n: u64)
    ensures
        n as int == (if total_entries(files@.map_values(|f: (String, FileLabels)| file_view(f))) > u64::MAX {
            u64::MAX as int
        } else {
            total_entries(files@.map_values(|f: (String, FileLabels)| file_view(f)))
        }),
{
    let ghost fv = files@.map_values(|f: (String, FileLabels)| file_view(f));
    let mut n: u64 = 0;
    let mut i: usize = 0;
    while i < files.len()
        invariant
            i <= files@.len(),
            fv == files@.map_values(|f: (String, FileLabels)| file_view(f)),
            n as int == (if total_entries(fv.subrange(0, i as int)) > u64::MAX {
                u64::MAX as int
            } else {
                total_entries(fv.subrange(0, i as int))
            }),
        decreases files.len() - i,
    {
        assert(fv.subrange(0, i + 1).drop_last() =~= fv.subrange(0, i as int));
        assert(fv[i as int] == file_view(files@[i as int]));
        proof { lemma_total_nonneg(fv.subrange(0, i as int)); }
        let len = files[i].1.labels.len() as u64;
        n = n.saturating_add(len);
        i = i + 1;
    }
    assert(fv.subrange(0, i as int) =~= fv);
    n
}

pub proof fn lemma_total_nonneg(files: Seq<(Seq<char>, Seq<char>, EntriesView)>)
    ensures
        total_entries(files) >= 0,
    decreases files.len(),
{
    if files.len() > 0 {
        lemma_total_nonneg(files.drop_last());
    }
}

fn keep_of(labels: &StrMap) -> (keep: Vec<bool>)
    ensures
        keep@ == keep_flags(labels@),
{
    let es = labels.entries();
    let mut keep: Vec<bool> = Vec::new();
    let mut k: usize = 0;
    while k < es.len()
        invariant
            k <= es@.len(),
            es@.map_values(|e: (String, String)| (e.0@, e.1@)) == labels@,
            keep@ == keep_flags(labels@).subrange(0, k as int),
        decreases es.len() - k,
    {
        let ok = label_is_well_formed(&es[k].0) && label_is_well_formed(&es[k].1);
        keep.push(ok);
        assert(labels@[k as int] == (es@[k as int].0@, es@[k as int].1@));
        assert(keep@ =~= keep_flags(labels@).subrange(0, k + 1));
        k = k + 1;
    }
    assert(keep_flags(labels@).subrange(0, k as int) =~= keep_flags(labels@));
    keep
}

/// The warning for a sidecar of another version.
pub open spec fn version_warning(path: Seq<char>, version: u32) -> Seq<char> {
    path + " has sidecar version "@ + crate::text::dec(version as nat) + ", expected 1; ignoring it"@
}

/// The warning for a sidecar with too many label entries (`total` of them).
pub open spec fn count_warning(path: Seq<char>, total: nat) -> Seq<char> {
    path + " has "@ + crate::text::dec(total) + " label entries, over the "@ + crate::text::dec(MAX_SIDECAR_ENTRIES as nat)
        + " limit; ignoring it"@
}

/// The warning for a sidecar written for another direction.
pub open spec fn direction_warning(path: Seq<char>, direction: Seq<char>, expected: Seq<char>) -> Seq<char> {
    path + " was generated for direction `"@ + direction + "`, but this run is `"@ + expected
        + "`; ignoring it (probably a stale sidecar from a prior run)"@
}

/// The warning for a dropped malformed entry of `file`.
pub open spec fn dropped_warning(file: Seq<char>, id: Seq<char>, label: Seq<char>) -> Seq<char> {
    file + ": dropping malformed sidecar entry `"@ + id + "` -> `"@ + label + "`"@
}

/// One warning for each malformed entry of a file's labels, in order.
pub open spec fn dropped_warnings(file: Seq<char>, labels: EntriesView) -> Seq<Seq<char>>
    decreases labels.len(),
{
    if labels.len() == 0 {
        Seq::empty()
    } else {
        dropped_warnings(file, labels.drop_last()) + if spec_label_well_formed(labels.last().0)
            && spec_label_well_formed(labels.last().1) {
            Seq::empty()
        } else {
            seq![dropped_warning(file, labels.last().0, labels.last().1)]
        }
    }
}

/// The warnings for every malformed entry of every file, in order.
pub open spec fn all_dropped_warnings(files: Seq<(Seq<char>, Seq<char>, EntriesView)>) -> Seq<Seq<char>>
    decreases files.len(),
{
    if files.len() == 0 {
        Seq::empty()
    } else {
        all_dropped_warnings(files.drop_last()) + dropped_warnings(files.last().0, files.last().2)
    }
}

/// The warnings' texts.
pub open spec fn warning_texts(w: Seq<SidecarWarning>) -> Seq<Seq<char>> {
    w.map_values(|x: SidecarWarning| x.message@)
}

/// The total label entries, as counted (saturating at `u64::MAX`).
pub open spec fn counted(total: int) -> nat {
    if total > u64::MAX { u64::MAX as nat } else { total as nat }
}

/// The trust checks a parsed sidecar must pass before any label is reused:
/// version 1, at most [`MAX_SIDECAR_ENTRIES`] entries, and the expected
/// direction, each refusal with its one warning; then every entry whose id
/// or label is malformed is dropped, with one warning each. `path` only
/// labels the warnings.
pub fn check_untrusted(sidecar: LabelSidecar, path: &str, expected_direction: &str) -> (r: (
    Option<LabelSidecar>,
    Vec<SidecarWarning>,
))
    ensures
        ({
            let fv = sidecar.files@.map_values(|f: (String, FileLabels)| file_view(f));
            if sidecar.version != 1 {
                r.0 is None && warning_texts(r.1@) == seq![version_warning(path@, sidecar.version)]
            } else if total_entries(fv) > MAX_SIDECAR_ENTRIES {
                r.0 is None && warning_texts(r.1@) == seq![count_warning(path@, counted(total_entries(fv)))]
            } else if sidecar.direction@ != expected_direction@ {
                r.0 is None && warning_texts(r.1@) == seq![
                    direction_warning(path@, sidecar.direction@, expected_direction@),
                ]
            } else {
                &&& warning_texts(r.1@) == all_dropped_warnings(fv)
                &&& r.0 matches Some(s) && {
                    &&& s.version == sidecar.version
                    &&& s.generated_by == sidecar.generated_by
                    &&& s.direction == sidecar.direction
                    &&& s.source_root == sidecar.source_root
                    &&& s.files@.len() == sidecar.files@.len()
                    &&& sidecar.wf() ==> s.wf()
                    &&& forall|i: int| 0 <= i < s.files@.len() ==> {
                        &&& (#[trigger] s.files@[i]).0 == sidecar.files@[i].0
                        &&& s.files@[i].1.content_hash == sidecar.files@[i].1.content_hash
                        &&& s.files@[i].1.labels@ == crate::strmap::select(
                            sidecar.files@[i].1.labels@,
                            keep_flags(sidecar.files@[i].1.labels@),
                        )
                    }
                }
            }
        }),
{
    let ghost fv = sidecar.files@.map_values(|f: (String, FileLabels)| file_view(f));
    if sidecar.version != 1 {
        let mut m = chars_of(path);
        push_all(&mut m, &chars_of(" has sidecar version "));
        crate::text::push_decimal_u64(&mut m, sidecar.version as u64);
        push_all(&mut m, &chars_of(", expected 1; ignoring it"));
        let mut w: Vec<SidecarWarning> = Vec::new();
        w.push(warn(string_of(&m)));
        assert(warning_texts(w@) =~= seq![version_warning(path@, sidecar.version)]);
        return (None, w);
    }
    let total = count_entries(&sidecar.files);
    if total > MAX_SIDECAR_ENTRIES as u64 {
        let mut m = chars_of(path);
        push_all(&mut m, &chars_of(" has "));
        crate::text::push_decimal_u64(&mut m, total);
        push_all(&mut m, &chars_of(" label entries, over the "));
        crate::text::push_decimal(&mut m, MAX_SIDECAR_ENTRIES);
        push_all(&mut m, &chars_of(" limit; ignoring it"));
        let mut w: Vec<SidecarWarning> = Vec::new();
        w.push(warn(string_of(&m)));
        assert(warning_texts(w@) =~= seq![count_warning(path@, counted(total_entries(fv)))]);
        return (None, w);
    }
    if !crate::text::str_eq(sidecar.direction.as_str(), expected_direction) {
        let mut m = chars_of(path);
        push_all(&mut m, &chars_of(" was generated for direction `"));
        push_all(&mut m, &chars_of(sidecar.direction.as_str()));
        push_all(&mut m, &chars_of("`, but this run is `"));
        push_all(&mut m, &chars_of(expected_direction));
        push_all(&mut m, &chars_of("`; ignoring it (probably a stale sidecar from a prior run)"));
        let mut w: Vec<SidecarWarning> = Vec::new();
        w.push(warn(string_of(&m)));
        assert(warning_texts(w@) =~= seq![direction_warning(path@, sidecar.direction@, expected_direction@)]);
        return (None, w);
    }
    let mut warnings: Vec<SidecarWarning> = Vec::new();
    let mut files: Vec<(String, FileLabels)> = Vec::new();
    let mut i: usize = 0;
    while i < sidecar.files.len()
        invariant
            i <= sidecar.files@.len(),
            fv == sidecar.files@.map_values(|f: (String, FileLabels)| file_view(f)),
            files@.len() == i,
            warning_texts(warnings@) == all_dropped_warnings(fv.subrange(0, i as int)),
            forall|m: int| 0 <= m < i ==> {
                &&& (#[trigger] files@[m]).0 == sidecar.files@[m].0
                &&& files@[m].1.content_hash == sidecar.files@[m].1.content_hash
                &&& files@[m].1.labels@ == crate::strmap::select(
                    sidecar.files@[m].1.labels@,
                    keep_flags(sidecar.files@[m].1.labels@),
                )
            },
        decreases sidecar.files.len() - i,
    {
        assert(fv.subrange(0, i + 1).drop_last() =~= fv.subrange(0, i as int));
        assert(fv[i as int] == file_view(sidecar.files@[i as int]));
        let rel = sidecar.files[i].0.clone();
        let entry = &sidecar.files[i].1;
        let keep = keep_of(&entry.labels);
        let es = entry.labels.entries();
        let ghost lv = entry.labels@;
        let ghost before = warning_texts(warnings@);
        let mut k: usize = 0;
        while k < keep.len()
            invariant
                k <= keep@.len(),
                keep@ == keep_flags(lv),
                lv == entry.labels@,
                es@.map_values(|e: (String, String)| (e.0@, e.1@)) == lv,
                rel@ == sidecar.files@[i as int].0@,
                warning_texts(warnings@) == before + dropped_warnings(rel@, lv.subrange(0, k as int)),
            decreases keep.len() - k,
        {
            assert(lv.subrange(0, k + 1).drop_last() =~= lv.subrange(0, k as int));
            assert(lv[k as int] == (es@[k as int].0@, es@[k as int].1@));
            let ghost prev = warning_texts(warnings@);
            if !keep[k] {
                let mut msg = chars_of(rel.as_str());
                push_all(&mut msg, &chars_of(": dropping malformed sidecar entry `"));
                push_all(&mut msg, &chars_of(es[k].0.as_str()));
                push_all(&mut msg, &chars_of("` -> `"));
                push_all(&mut msg, &chars_of(es[k].1.as_str()));
                push_all(&mut msg, &chars_of("`"));
                warnings.push(warn(string_of(&msg)));
                assert(warning_texts(warnings@) =~= prev.push(dropped_warning(rel@, lv[k as int].0, lv[k as int].1)));
            }
            assert(warning_texts(warnings@) =~= before + dropped_warnings(rel@, lv.subrange(0, k + 1)));
            k = k + 1;
        }
        assert(lv.subrange(0, k as int) =~= lv);
        assert(warning_texts(warnings@) =~= all_dropped_warnings(fv.subrange(0, i + 1)));
        let labels = entry.labels.selected(&keep);
        files.push((rel, FileLabels { content_hash: entry.content_hash.clone(), labels }));
        i = i + 1;
    }
    assert(fv.subrange(0, i as int) =~= fv);
    proof {
        let nv = files@.map_values(|f: (String, FileLabels)| file_view(f));
        assert(file_keys(nv) =~= file_keys(fv));
    }
    (
        Some(
            LabelSidecar {
                version: sidecar.version,
                generated_by: sidecar.generated_by,
                direction: sidecar.direction,
                source_root: sidecar.source_root,
                files,
            },
        ),
        warnings,
    )
}


/// The program that writes sidecars, as recorded in them.
pub const GENERATOR: &'static str = "mystquarto 0.1.0";

/// The name for what `std::path::Path::strip_prefix` leaves of `path` once
/// `root` is taken off its front.
pub uninterp spec fn path_rest(path: Seq<char>, root: Seq<char>) -> Seq<char>;

/// The name for the texts of the components `std::path::Path::components`
/// splits `path` into.
pub uninterp spec fn path_component_texts(path: Seq<char>) -> Seq<Seq<char>>;

/// Calls `std::path::Path::strip_prefix`. Its documentation: the result is an
/// error exactly when `root` is not a prefix of `path` as `starts_with`
/// answers (whole components); otherwise the rest of `path`.
#[verifier::external_body]
pub(crate) fn strip_path_prefix(path: &str, root: &str) -> (r: Option<String>)
    ensures
        r is Some == path_has_prefix(path@, root@),
        r matches Some(rest) ==> rest@ == path_rest(path@, root@),
{
    std::path::Path::new(path).strip_prefix(root).ok().map(|rest| rest.to_string_lossy().into_owned())
}

/// Calls `std::path::Path::components`, each component taken as its text.
#[verifier::external_body]
fn path_components(path: &str) -> (r: Vec<String>)
    ensures
        strs(r@) == path_component_texts(path@),
{
    std::path::Path::new(path).components().map(|c| c.as_os_str().to_string_lossy().into_owned()).collect()
}

/// `parts` joined with `/` between them.
pub open spec fn join_slash(parts: Seq<Seq<char>>) -> Seq<char>
    decreases parts.len(),
{
    if parts.len() == 0 {
        Seq::empty()
    } else if parts.len() == 1 {
        parts[0]
    } else {
        join_slash(parts.drop_last()) + "/"@ + parts.last()
    }
}

/// The key a file is recorded under: its path relative to `root` (the path
/// itself when it is not under `root`), components joined with `/`.
pub open spec fn spec_relative_key(root: Seq<char>, path: Seq<char>) -> Seq<char> {
    join_slash(path_component_texts(if path_has_prefix(path, root) { path_rest(path, root) } else { path }))
}

fn relative_key(root: &str, path: &str) -> (r: String)
    ensures
        r@ == spec_relative_key(root@, path@),
{
    let rel = match strip_path_prefix(path, root) {
        Some(rest) => rest,
        None => String::from_str(path),
    };
    let parts = path_components(rel.as_str());
    let ghost ps = strs(parts@);
    let mut out: Vec<char> = Vec::new();
    let mut i: usize = 0;
    while i < parts.len()
        invariant
            i <= parts@.len(),
            ps == strs(parts@),
            out@ == join_slash(ps.subrange(0, i as int)),
        decreases parts.len() - i,
    {
        assert(ps.subrange(0, i + 1).drop_last() =~= ps.subrange(0, i as int));
        if i > 0 {
            out.push('/');
        }
        push_all(&mut out, &chars_of(parts[i].as_str()));
        proof {
            reveal_strlit("/");
            if i == 0 {
                assert(out@ =~= ps.subrange(0, 1)[0]);
            } else {
                assert(out@ =~= join_slash(ps.subrange(0, i as int)) + "/"@ + ps[i as int]);
            }
        }
        i = i + 1;
    }
    assert(ps.subrange(0, i as int) =~= ps);
    string_of(&out)
}

/// The `(file key, content hash)` pairs of a file list, for finding a key.
pub open spec fn file_keys(files: Seq<(Seq<char>, Seq<char>, EntriesView)>) -> EntriesView {
    files.map_values(|f: (Seq<char>, Seq<char>, EntriesView)| (f.0, f.1))
}

/// Records `id -> raw` under file `rel`: into that file's labels when it is
/// already listed, else as a new file (with `hash`) at its place in key order.
pub open spec fn put_label(
    files: Seq<(Seq<char>, Seq<char>, EntriesView)>,
    rel: Seq<char>,
    hash: Seq<char>,
    id: Seq<char>,
    raw: Seq<char>,
) -> Seq<(Seq<char>, Seq<char>, EntriesView)> {
    let i = key_index(file_keys(files), rel);
    if i < files.len() {
        files.update(i, (rel, files[i].1, map_insert(files[i].2, id, raw)))
    } else {
        files.insert(insert_pos(file_keys(files), rel), (rel, hash, map_insert(Seq::empty(), id, raw)))
    }
}

/// The hash recorded for `source`, or the empty text when there is none.
pub open spec fn hash_for(hashes: EntriesView, source: Seq<char>) -> Seq<char> {
    match map_get(hashes, source) {
        Some(h) => h,
        None => Seq::empty(),
    }
}

/// The sidecar's files after recording every `(file, label, id)` entry.
pub open spec fn build_files(entries: ForwardView, root: Seq<char>, hashes: EntriesView) -> Seq<
    (Seq<char>, Seq<char>, EntriesView),
>
    decreases entries.len(),
{
    if entries.len() == 0 {
        Seq::empty()
    } else {
        let e = entries.last();
        put_label(build_files(entries.drop_last(), root, hashes), spec_relative_key(root, e.0), hash_for(hashes, e.0), e.2, e.1)
    }
}

fn find_file(files: &Vec<(String, FileLabels)>, rel: &String) -> (r: usize)
    ensures
        r == key_index(file_keys(files@.map_values(|f: (String, FileLabels)| file_view(f))), rel@),
{
    let ghost keys = file_keys(files@.map_values(|f: (String, FileLabels)| file_view(f)));
    proof { lemma_key_index(keys, rel@); }
    let mut i: usize = 0;
    while i < files.len()
        invariant
            i <= files@.len(),
            keys == file_keys(files@.map_values(|f: (String, FileLabels)| file_view(f))),
            keys.len() == files@.len(),
            forall|m: int| 0 <= m < i ==> #[trigger] keys[m].0 != rel@,
        decreases files.len() - i,
    {
        proof { lemma_key_index(keys, rel@); }
        assert(keys[i as int].0 == files@[i as int].0@);
        if files[i].0 == *rel {
            return i;
        }
        i = i + 1;
    }
    proof { lemma_key_index(keys, rel@); }
    i
}

fn file_position(files: &Vec<(String, FileLabels)>, rel: &String) -> (r: usize)
    ensures
        r == insert_pos(file_keys(files@.map_values(|f: (String, FileLabels)| file_view(f))), rel@),
{
    let ghost keys = file_keys(files@.map_values(|f: (String, FileLabels)| file_view(f)));
    proof { lemma_insert_pos(keys, rel@); }
    let mut i: usize = 0;
    while i < files.len()
        invariant
            i <= files@.len(),
            keys == file_keys(files@.map_values(|f: (String, FileLabels)| file_view(f))),
            keys.len() == files@.len(),
            forall|m: int| 0 <= m < i ==> seq_lt(#[trigger] keys[m].0, rel@),
        decreases files.len() - i,
    {
        proof { lemma_insert_pos(keys, rel@); }
        assert(keys[i as int].0 == files@[i as int].0@);
        if !str_lt(&files[i].0, rel) {
            proof {
                if insert_pos(keys, rel@) > i {
                    assert(seq_lt(keys[i as int].0, rel@));
                }
                if insert_pos(keys, rel@) < i {
                    assert(seq_lt(keys[insert_pos(keys, rel@)].0, rel@));
                }
            }
            return i;
        }
        i = i + 1;
    }
    proof {
        lemma_insert_pos(keys, rel@);
        if insert_pos(keys, rel@) < i {
            assert(seq_lt(keys[insert_pos(keys, rel@)].0, rel@));
        }
    }
    i
}

/// Builds the sidecar of one forward conversion: for every label the
/// registry assigned an id, `id -> original label` under the defining file's
/// path relative to `source_root`; each file carries the content hash given
/// for it in `content_hashes` (empty when none is given). Files are in key
/// order.
pub fn build(registry: &LabelRegistry, direction: &str, source_root: &str, content_hashes: &StrMap) -> (r: LabelSidecar)
    ensures
        r.version == 1,
        r.generated_by@ == GENERATOR@,
        r.direction@ == direction@,
        r.source_root@ == source_root@,
        r.files@.map_values(|f: (String, FileLabels)| file_view(f)) == build_files(
            registry.forward_view(),
            source_root@,
            content_hashes@,
        ),
        r.wf(),
{
    let entries = registry.entries();
    let ghost ev = entries@.map_values(|e: (String, String, String)| triple_view(e));
    let mut files: Vec<(String, FileLabels)> = Vec::new();
    let mut i: usize = 0;
    assert(files@.map_values(|f: (String, FileLabels)| file_view(f)) =~= build_files(ev.subrange(0, 0), source_root@, content_hashes@));
    while i < entries.len()
        invariant
            i <= entries@.len(),
            ev == entries@.map_values(|e: (String, String, String)| triple_view(e)),
            files@.map_values(|f: (String, FileLabels)| file_view(f)) == build_files(
                ev.subrange(0, i as int),
                source_root@,
                content_hashes@,
            ),
        decreases entries.len() - i,
    {
        let ghost before = files@.map_values(|f: (String, FileLabels)| file_view(f));
        assert(ev.subrange(0, i + 1).drop_last() =~= ev.subrange(0, i as int));
        assert(ev.subrange(0, i + 1).last() == ev[i as int]);
        let (source, label, id) = (&entries[i].0, &entries[i].1, &entries[i].2);
        let rel = relative_key(source_root, source.as_str());
        let hash = match content_hashes.get(source.as_str()) {
            Some(h) => String::from_str(h.as_str()),
            None => String::new(),
        };
        let k = find_file(&files, &rel);
        proof { lemma_key_index(file_keys(before), rel@); }
        if k < files.len() {
            let mut labels = files[k].1.labels.copy();
            labels.insert(String::from_str(id.as_str()), String::from_str(label.as_str()));
            let entry = (rel, FileLabels { content_hash: String::from_str(files[k].1.content_hash.as_str()), labels });
            files.set(k, entry);
            assert(files@.map_values(|f: (String, FileLabels)| file_view(f)) =~= put_label(before, spec_relative_key(source_root@, ev[i as int].0), hash_for(content_hashes@, ev[i as int].0), ev[i as int].2, ev[i as int].1));
        } else {
            let p = file_position(&files, &rel);
            proof { lemma_insert_pos(file_keys(before), rel@); }
            let mut labels = StrMap::new();
            labels.insert(String::from_str(id.as_str()), String::from_str(label.as_str()));
            files.insert(p, (rel, FileLabels { content_hash: hash, labels }));
            assert(files@.map_values(|f: (String, FileLabels)| file_view(f)) =~= put_label(before, spec_relative_key(source_root@, ev[i as int].0), hash_for(content_hashes@, ev[i as int].0), ev[i as int].2, ev[i as int].1));
        }
        i = i + 1;
    }
    assert(ev.subrange(0, i as int) =~= ev);
    proof {
        lemma_build_files_sorted(registry.forward_view(), source_root@, content_hashes@);
    }
    LabelSidecar {
        version: 1,
        generated_by: String::from_str(GENERATOR),
        direction: String::from_str(direction),
        source_root: String::from_str(source_root),
        files,
    }
}


/// `files` with the record of `f.0` set to `f` (replacing one already there,
/// else inserted at its place in key order).
pub open spec fn put_file(
    files: Seq<(Seq<char>, Seq<char>, EntriesView)>,
    f: (Seq<char>, Seq<char>, EntriesView),
) -> Seq<(Seq<char>, Seq<char>, EntriesView)> {
    let i = key_index(file_keys(files), f.0);
    if i < files.len() {
        files.update(i, f)
    } else {
        files.insert(insert_pos(file_keys(files), f.0), f)
    }
}

/// Every record of `more` put into `files`, in turn.
pub open spec fn put_files(
    files: Seq<(Seq<char>, Seq<char>, EntriesView)>,
    more: Seq<(Seq<char>, Seq<char>, EntriesView)>,
) -> Seq<(Seq<char>, Seq<char>, EntriesView)>
    decreases more.len(),
{
    if more.len() == 0 {
        files
    } else {
        put_file(put_files(files, more.drop_last()), more.last())
    }
}

/// The file records are in strictly increasing path order, as in a map
/// keyed by path: no path twice.
pub open spec fn files_sorted(files: Seq<(Seq<char>, Seq<char>, EntriesView)>) -> bool {
    crate::strmap::keys_sorted(file_keys(files))
}

/// Putting one record keeps the records in path order.
pub proof fn lemma_put_file_sorted(files: Seq<(Seq<char>, Seq<char>, EntriesView)>, f: (Seq<char>, Seq<char>, EntriesView))
    requires
        files_sorted(files),
    ensures
        files_sorted(put_file(files, f)),
{
    let ks = file_keys(files);
    crate::strmap::lemma_insert_keeps_sorted(ks, f.0, f.1);
    crate::strmap::lemma_key_index(ks, f.0);
    crate::strmap::lemma_insert_pos(ks, f.0);
    assert(file_keys(put_file(files, f)) =~= crate::strmap::map_insert(ks, f.0, f.1));
}

/// Putting one label keeps the records in path order.
pub proof fn lemma_put_label_sorted(
    files: Seq<(Seq<char>, Seq<char>, EntriesView)>,
    rel: Seq<char>,
    hash: Seq<char>,
    id: Seq<char>,
    raw: Seq<char>,
)
    requires
        files_sorted(files),
    ensures
        files_sorted(put_label(files, rel, hash, id, raw)),
{
    let ks = file_keys(files);
    crate::strmap::lemma_key_index(ks, rel);
    crate::strmap::lemma_insert_pos(ks, rel);
    let i = key_index(ks, rel);
    let v = if i < files.len() { files[i].1 } else { hash };
    crate::strmap::lemma_insert_keeps_sorted(ks, rel, v);
    assert(file_keys(put_label(files, rel, hash, id, raw)) =~= crate::strmap::map_insert(ks, rel, v));
}

/// Records put in turn into records in path order stay in path order.
pub proof fn lemma_put_files_sorted(files: Seq<(Seq<char>, Seq<char>, EntriesView)>, more: Seq<(Seq<char>, Seq<char>, EntriesView)>)
    requires
        files_sorted(files),
    ensures
        files_sorted(put_files(files, more)),
    decreases more.len(),
{
    if more.len() > 0 {
        lemma_put_files_sorted(files, more.drop_last());
        lemma_put_file_sorted(put_files(files, more.drop_last()), more.last());
    }
}

/// The records built from a registry's entries are in path order.
pub proof fn lemma_build_files_sorted(entries: ForwardView, root: Seq<char>, hashes: EntriesView)
    ensures
        files_sorted(build_files(entries, root, hashes)),
    decreases entries.len(),
{
    if entries.len() == 0 {
        assert(file_keys(build_files(entries, root, hashes)) =~= Seq::<(Seq<char>, Seq<char>)>::empty());
    } else {
        let e = entries.last();
        lemma_build_files_sorted(entries.drop_last(), root, hashes);
        lemma_put_label_sorted(build_files(entries.drop_last(), root, hashes), spec_relative_key(root, e.0), hash_for(hashes, e.0), e.2, e.1);
    }
}

fn copy_file_labels(f: &FileLabels) -> (r: FileLabels)
    ensures
        r.content_hash@ == f.content_hash@,
        r.labels@ == f.labels@,
{
    FileLabels { content_hash: String::from_str(f.content_hash.as_str()), labels: f.labels.copy() }
}

/// The sidecar a write leaves on disk: the records of files this run did not
/// see are kept from the sidecar already there (when it was usable), each
/// file this run saw gets its new record, and the header (generator, source
/// root, direction, version) is this run's.
pub fn merge_sidecars(existing: Option<LabelSidecar>, sidecar: &LabelSidecar) -> (r: LabelSidecar)
    requires
        existing matches Some(e) ==> e.wf(),
    ensures
        r.wf(),
        r.version == sidecar.version,
        r.generated_by@ == sidecar.generated_by@,
        r.direction@ == sidecar.direction@,
        r.source_root@ == sidecar.source_root@,
        r.files@.map_values(|f: (String, FileLabels)| file_view(f)) == put_files(
            match existing {
                Some(e) => e.files@.map_values(|f: (String, FileLabels)| file_view(f)),
                None => Seq::empty(),
            },
            sidecar.files@.map_values(|f: (String, FileLabels)| file_view(f)),
        ),
{
    let ghost start = match &existing {
        Some(e) => e.files@.map_values(|f: (String, FileLabels)| file_view(f)),
        None => Seq::empty(),
    };
    let mut files: Vec<(String, FileLabels)> = match existing {
        Some(e) => e.files,
        None => Vec::new(),
    };
    assert(files@.map_values(|f: (String, FileLabels)| file_view(f)) =~= start);
    let ghost more = sidecar.files@.map_values(|f: (String, FileLabels)| file_view(f));
    let mut i: usize = 0;
    assert(start =~= put_files(start, more.subrange(0, 0)));
    while i < sidecar.files.len()
        invariant
            i <= sidecar.files@.len(),
            more == sidecar.files@.map_values(|f: (String, FileLabels)| file_view(f)),
            files@.map_values(|f: (String, FileLabels)| file_view(f)) == put_files(start, more.subrange(0, i as int)),
        decreases sidecar.files.len() - i,
    {
        let ghost before = files@.map_values(|f: (String, FileLabels)| file_view(f));
        assert(more.subrange(0, i + 1).drop_last() =~= more.subrange(0, i as int));
        assert(more.subrange(0, i + 1).last() == more[i as int]);
        let rel = String::from_str(sidecar.files[i].0.as_str());
        let entry = copy_file_labels(&sidecar.files[i].1);
        let k = find_file(&files, &rel);
        proof { lemma_key_index(file_keys(before), rel@); }
        if k < files.len() {
            files.set(k, (rel, entry));
        } else {
            let p = file_position(&files, &rel);
            proof { lemma_insert_pos(file_keys(before), rel@); }
            files.insert(p, (rel, entry));
        }
        assert(files@.map_values(|f: (String, FileLabels)| file_view(f)) =~= put_file(before, more[i as int]));
        i = i + 1;
    }
    assert(more.subrange(0, i as int) =~= more);
    proof {
        if start.len() == 0 {
            assert(file_keys(start) =~= Seq::<(Seq<char>, Seq<char>)>::empty());
        }
        lemma_put_files_sorted(start, more);
    }
    LabelSidecar {
        version: sidecar.version,
        generated_by: String::from_str(sidecar.generated_by.as_str()),
        direction: String::from_str(sidecar.direction.as_str()),
        source_root: String::from_str(sidecar.source_root.as_str()),
        files,
    }
}


/// `files` has a record for `rel` that maps `id` to `raw`.
pub open spec fn records_label(
    files: Seq<(Seq<char>, Seq<char>, EntriesView)>,
    rel: Seq<char>,
    id: Seq<char>,
    raw: Seq<char>,
) -> bool {
    exists|r: int| 0 <= r < files.len() && #[trigger] files[r].0 == rel && map_get(files[r].2, id) == Some(raw)
}

/// Recording a label keeps every label already recorded under another id.
proof fn lemma_put_label_keeps(
    files: Seq<(Seq<char>, Seq<char>, EntriesView)>,
    rel: Seq<char>,
    hash: Seq<char>,
    id: Seq<char>,
    raw: Seq<char>,
    rel2: Seq<char>,
    id2: Seq<char>,
    raw2: Seq<char>,
)
    requires
        records_label(files, rel2, id2, raw2),
        id2 != id,
    ensures
        records_label(put_label(files, rel, hash, id, raw), rel2, id2, raw2),
{
    let r = choose|r: int| 0 <= r < files.len() && #[trigger] files[r].0 == rel2 && map_get(files[r].2, id2) == Some(raw2);
    let t = put_label(files, rel, hash, id, raw);
    let i = key_index(file_keys(files), rel);
    lemma_key_index(file_keys(files), rel);
    if i < files.len() {
        if r == i {
            lemma_map_insert_get(files[i].2, id, raw, id2);
            assert(file_keys(files)[i].0 == files[i].0);
            assert(t[r].0 == rel2);
        } else {
            assert(t[r] == files[r]);
        }
        assert(t[r].0 == rel2 && map_get(t[r].2, id2) == Some(raw2));
    } else {
        let p = insert_pos(file_keys(files), rel);
        lemma_insert_pos(file_keys(files), rel);
        if r < p {
            assert(t[r] == files[r]);
            assert(t[r].0 == rel2 && map_get(t[r].2, id2) == Some(raw2));
        } else {
            assert(t[r + 1] == files[r]);
            assert(t[r + 1].0 == rel2 && map_get(t[r + 1].2, id2) == Some(raw2));
        }
    }
}

/// Recording a label records it.
proof fn lemma_put_label_records(
    files: Seq<(Seq<char>, Seq<char>, EntriesView)>,
    rel: Seq<char>,
    hash: Seq<char>,
    id: Seq<char>,
    raw: Seq<char>,
)
    ensures
        records_label(put_label(files, rel, hash, id, raw), rel, id, raw),
{
    let t = put_label(files, rel, hash, id, raw);
    let i = key_index(file_keys(files), rel);
    lemma_key_index(file_keys(files), rel);
    if i < files.len() {
        lemma_map_insert_get(files[i].2, id, raw, id);
        assert(t[i].0 == rel && map_get(t[i].2, id) == Some(raw));
    } else {
        let p = insert_pos(file_keys(files), rel);
        lemma_insert_pos(file_keys(files), rel);
        lemma_map_insert_get(Seq::empty(), id, raw, id);
        assert(t[p].0 == rel && map_get(t[p].2, id) == Some(raw));
    }
}

/// With pairwise distinct ids, every entry ends up recorded.
proof fn lemma_build_records_all(entries: ForwardView, root: Seq<char>, hashes: EntriesView)
    requires
        forall|a: int, b: int| 0 <= a < b < entries.len() ==> entries[a].2 != entries[b].2,
    ensures
        forall|k: int| 0 <= k < entries.len() ==> records_label(
            build_files(entries, root, hashes),
            spec_relative_key(root, #[trigger] entries[k].0),
            entries[k].2,
            entries[k].1,
        ),
    decreases entries.len(),
{
    if entries.len() > 0 {
        let prev = entries.drop_last();
        assert forall|a: int, b: int| 0 <= a < b < prev.len() implies prev[a].2 != prev[b].2 by {
            assert(prev[a] == entries[a] && prev[b] == entries[b]);
        }
        lemma_build_records_all(prev, root, hashes);
        let files = build_files(prev, root, hashes);
        let e = entries.last();
        let n = entries.len() - 1;
        assert forall|k: int| 0 <= k < entries.len() implies records_label(
            build_files(entries, root, hashes),
            spec_relative_key(root, #[trigger] entries[k].0),
            entries[k].2,
            entries[k].1,
        ) by {
            if k == n {
                lemma_put_label_records(files, spec_relative_key(root, e.0), hash_for(hashes, e.0), e.2, e.1);
            } else {
                assert(prev[k] == entries[k]);
                assert(entries[k].2 != entries[n].2);
                lemma_put_label_keeps(
                    files,
                    spec_relative_key(root, e.0),
                    hash_for(hashes, e.0),
                    e.2,
                    e.1,
                    spec_relative_key(root, prev[k].0),
                    prev[k].2,
                    prev[k].1,
                );
            }
        }
    }
}

/// Every label of every record that is not stale is restored.
proof fn lemma_restore_has(
    files: Seq<(Seq<char>, Seq<char>, EntriesView)>,
    current: EntriesView,
    r: int,
    j: int,
)
    requires
        0 <= r < files.len(),
        0 <= j < files[r].2.len(),
        !is_stale(files[r], current),
    ensures
        spec_restore(files, current).contains((files[r].0, files[r].2[j].0, files[r].2[j].1)),
    decreases files.len(),
{
    let last = files.last();
    let head = spec_restore(files.drop_last(), current);
    if r == files.len() - 1 {
        let tl = tag_labels(last.0, last.2);
        assert(spec_restore(files, current) == head + tl);
        assert(tl[j] == (last.0, last.2[j].0, last.2[j].1));
        assert((head + tl)[head.len() + j] == tl[j]);
    } else {
        assert(files.drop_last()[r] == files[r]);
        lemma_restore_has(files.drop_last(), current, r, j);
        let x = (files[r].0, files[r].2[j].0, files[r].2[j].1);
        let w = choose|w: int| 0 <= w < head.len() && head[w] == x;
        let rest = if is_stale(last, current) { Seq::empty() } else { tag_labels(last.0, last.2) };
        assert((head + rest)[w] == x);
    }
}

/// Law: what a forward run records in the label sidecar, a reverse run gets
/// back. For every `(file, label) -> id` entry of the registry built over
/// `documents`, restoring from the sidecar built from it gives the original
/// label for that id under the file's relative path, provided no recorded
/// file has changed since (by `current` hashes).
pub proof fn lemma_sidecar_round_trip(
    documents: Seq<(String, crate::ir::Document)>,
    root: Seq<char>,
    hashes: EntriesView,
    current: EntriesView,
)
    requires
        ({
            let s = crate::registry::sorted_labels(crate::registry::all_labels(documents));
            let f = crate::registry::forward_table(s, crate::registry::assign_ids(s, Set::empty()));
            let files = build_files(f, root, hashes);
            forall|r: int| 0 <= r < files.len() ==> !is_stale(#[trigger] files[r], current)
        }),
    ensures
        ({
            let s = crate::registry::sorted_labels(crate::registry::all_labels(documents));
            let f = crate::registry::forward_table(s, crate::registry::assign_ids(s, Set::empty()));
            let files = build_files(f, root, hashes);
            forall|k: int| 0 <= k < f.len() ==> spec_restore(files, current).contains(
                (spec_relative_key(root, #[trigger] f[k].0), f[k].2, f[k].1),
            )
        }),
{
    let s = crate::registry::sorted_labels(crate::registry::all_labels(documents));
    let f = crate::registry::forward_table(s, crate::registry::assign_ids(s, Set::empty()));
    let files = build_files(f, root, hashes);
    crate::registry::lemma_build_ids_distinct(documents);
    lemma_build_records_all(f, root, hashes);
    assert forall|k: int| 0 <= k < f.len() implies spec_restore(files, current).contains(
        (spec_relative_key(root, #[trigger] f[k].0), f[k].2, f[k].1),
    ) by {
        let rel = spec_relative_key(root, f[k].0);
        assert(records_label(files, rel, f[k].2, f[k].1));
        let r = choose|r: int| 0 <= r < files.len() && #[trigger] files[r].0 == rel && map_get(files[r].2, f[k].2) == Some(f[k].1);
        lemma_key_index(files[r].2, f[k].2);
        let j = key_index(files[r].2, f[k].2);
        lemma_restore_has(files, current, r, j);
    }
}

} // verus!
