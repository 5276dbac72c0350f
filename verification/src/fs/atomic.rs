//! Crash-safe writes: the content goes to a temporary sibling file first and
//! is renamed over the target only once it is complete, so the target is
//! either its old content or the new one, never a truncated mix. The file
//! system calls themselves belong to the application; this module holds the
//! failure type and the temporary file's name.
use vstd::prelude::*;
use crate::text::{chars_of, dec, push_all, push_decimal, string_of};

verus! {

/// Why an atomic write failed. `source` is the I/O error's text.
#[derive(Debug, Clone, PartialEq, Eq)]
pub enum AtomicWriteError {
    /// The temporary file could not be written; it has been removed and the
    /// target is untouched.
    WriteTemp { target: String, temp_path: String, source: String },
    /// The temporary file was written but could not be renamed over the
    /// target; it is still on disk.
    Rename { target: String, temp_path: String, source: String },
}

/// The text of each failure.
pub open spec fn spec_atomic_message(e: AtomicWriteError) -> Seq<char> {
    match e {
        AtomicWriteError::WriteTemp { target, temp_path, source } => "failed to write temp file "@ + temp_path@
            + " for "@ + target@ + ": "@ + source@,
        AtomicWriteError::Rename { target, temp_path, source } => "wrote temp file "@ + temp_path@
            + " but failed to rename it to "@ + target@ + ": "@ + source@,
    }
}

impl AtomicWriteError {
    /// The temporary file a failed write left behind, if any: only a failed
    /// rename leaves one (a failed temp write removes its own file).
    pub fn orphan_temp_path(&self) -> (r: Option<&str>)
        ensures
            match *self {
                AtomicWriteError::Rename { temp_path, .. } => r is Some && r->0@ == temp_path@,
                AtomicWriteError::WriteTemp { .. } => r is None,
            },
    {
        match self {
            AtomicWriteError::Rename { temp_path, .. } => Some(temp_path.as_str()),
            AtomicWriteError::WriteTemp { .. } => None,
        }
    }

    /// The failure as a human-readable sentence.
    pub fn message(&self) -> (m: String)
        ensures
            m@ == spec_atomic_message(*self),
    {
        let mut v: Vec<char>;
        match self {
            AtomicWriteError::WriteTemp { target, temp_path, source } => {
                v = chars_of("failed to write temp file ");
                push_all(&mut v, &chars_of(temp_path.as_str()));
                push_all(&mut v, &chars_of(" for "));
                push_all(&mut v, &chars_of(target.as_str()));
                push_all(&mut v, &chars_of(": "));
                push_all(&mut v, &chars_of(source.as_str()));
            },
            AtomicWriteError::Rename { target, temp_path, source } => {
                v = chars_of("wrote temp file ");
                push_all(&mut v, &chars_of(temp_path.as_str()));
                push_all(&mut v, &chars_of(" but failed to rename it to "));
                push_all(&mut v, &chars_of(target.as_str()));
                push_all(&mut v, &chars_of(": "));
                push_all(&mut v, &chars_of(source.as_str()));
            },
        }
        string_of(&v)
    }
}

/// The temporary file's name for a target called `file_name`: hidden, and
/// made unique per process (`pid`) and moment (`nanos`).
pub open spec fn spec_temp_file_name(file_name: Seq<char>, pid: nat, nanos: nat) -> Seq<char> {
    "."@ + file_name + "."@ + dec(pid) + "."@ + dec(nanos) + ".mqtmp"@
}

/// Names the temporary sibling a write of `file_name` goes through.
pub fn temp_file_name(file_name: &str, pid: usize, nanos: usize) -> (r: String)
    ensures
        r@ == spec_temp_file_name(file_name@, pid as nat, nanos as nat),
{
    let mut v = chars_of(".");
    push_all(&mut v, &chars_of(file_name));
    push_all(&mut v, &chars_of("."));
    push_decimal(&mut v, pid);
    push_all(&mut v, &chars_of("."));
    push_decimal(&mut v, nanos);
    push_all(&mut v, &chars_of(".mqtmp"));
    string_of(&v)
}

} // verus!
