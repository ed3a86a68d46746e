//! Files under a directory, as a storage tier names them.

use crate::text::{chars_of, text_of};
use crate::types::{Fault, GarudaError};
use vstd::prelude::*;
use vstd::string::*;

verus! {

/// A tier that keeps its files under one directory.
#[derive(Debug)]
pub struct LocalStorageBackend {
    base_path: String,
}

/// `path` below `base`. An absolute path stands for itself.
pub open spec fn joined(base: Seq<char>, path: Seq<char>) -> Seq<char> {
    if path.len() > 0 && path[0] == '/' {
        path
    } else if base.len() == 0 || base.last() == '/' {
        base + path
    } else {
        base + "/"@ + path
    }
}

/// What was being done to a file when it failed.
#[derive(Debug, Clone, Copy, PartialEq, Eq)]
pub enum FileStep {
    Open,
    Read,
    Mmap,
    Create,
    Write,
}

impl FileStep {
    pub open spec fn label(self) -> Seq<char> {
        match self {
            FileStep::Open => "Failed to open file "@,
            FileStep::Read => "Failed to read file "@,
            FileStep::Mmap => "Failed to mmap file "@,
            FileStep::Create => "Failed to create file "@,
            FileStep::Write => "Failed to write to file "@,
        }
    }
}

impl View for LocalStorageBackend {
    type V = Seq<char>;

    closed spec fn view(&self) -> Seq<char> {
        self.base_path@
    }
}

impl LocalStorageBackend {
    pub fn new(base_path: String) -> (b: Self)
        ensures
            b@ == base_path@,
    {
        LocalStorageBackend { base_path }
    }

    /// Where `path` of this tier is on disk.
    pub fn full_path(&self, path: &str) -> (full: String)
        ensures
            full@ == joined(self@, path@),
            path@.len() > 0 && path@[0] == '/' ==> full@ == path@,
            !(path@.len() > 0 && path@[0] == '/') && self@.len() > 0 && self@.last() != '/'
                ==> full@ == self@ + "/"@ + path@,
            !(path@.len() > 0 && path@[0] == '/') && (self@.len() == 0 || self@.last() == '/')
                ==> full@ == self@ + path@,
    {
        let p = chars_of(path);
        if p.len() > 0 && p[0] == '/' {
            return path.to_owned();
        }
        let b = chars_of(self.base_path.as_str());
        let mut full = text_of(b.as_slice());
        if b.len() > 0 && b[b.len() - 1] != '/' {
            full.append("/");
        }
        full.append(path);
        full
    }

    /// The error for a step on `path` that failed because of `cause`.
    pub fn failure(&self, step: FileStep, path: &str, cause: &str) -> (e: GarudaError)
        ensures
            Fault::Storage(step.label() + joined(self@, path@) + ": "@ + cause@).is(e),
    {
        let mut m = match step {
            FileStep::Open => "Failed to open file ".to_owned(),
            FileStep::Read => "Failed to read file ".to_owned(),
            FileStep::Mmap => "Failed to mmap file ".to_owned(),
            FileStep::Create => "Failed to create file ".to_owned(),
            FileStep::Write => "Failed to write to file ".to_owned(),
        };
        m.append(self.full_path(path).as_str());
        m.append(": ");
        m.append(cause);
        GarudaError::Storage(m)
    }

    /// The error for directories that could not be made.
    pub fn no_directory(cause: &str) -> (e: GarudaError)
        ensures
            Fault::Storage("Failed to create directories: "@ + cause@).is(e),
    {
        let mut m = "Failed to create directories: ".to_owned();
        m.append(cause);
        GarudaError::Storage(m)
    }
}

/// Two relative paths of one tier share a file only where they are the same path.
pub proof fn paths_of_a_tier_are_distinct(base: Seq<char>, a: Seq<char>, b: Seq<char>)
    requires
        a.len() > 0 ==> a[0] != '/',
        b.len() > 0 ==> b[0] != '/',
        joined(base, a) == joined(base, b),
    ensures
        a == b,
{
    let head = if base.len() == 0 || base.last() == '/' {
        base
    } else {
        base + "/"@
    };
    assert(joined(base, a).skip(head.len() as int) =~= a);
    assert(joined(base, b).skip(head.len() as int) =~= b);
}

} // verus!
