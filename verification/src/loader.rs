//! Where the modules of a build script are looked for.
//!
//! Reading files and evaluating scripts is left to the caller. What is decided
//! here is which path is tried for an import, and what follows from whether a
//! file is there.

use vstd::prelude::*;
use crate::segments::{appended, append_path, normal_form, normal_path};

verus! {

/// Finds the files that hold the modules a script imports.
#[derive(Debug, PartialEq, Eq)]
pub struct MortarModuleResolver {}

/// What is to be done for an import, once it is known whether its file is
/// there.
#[derive(Debug, PartialEq, Eq)]
pub enum Lookup {
    /// Load the module from the file at this path.
    Load(String),
    /// Report that no module is found at this path.
    NotFound(String),
}

/// The path at which the module `path` is looked for when a script at `source`
/// imports it: `path` itself where a file is there or the importing script is
/// not known, and else the normal form of `path` reached from the normal form
/// of `source`.
pub open spec fn import_path(source: Option<Seq<char>>, path: Seq<char>, found: bool) -> Seq<
    char,
> {
    match source {
        Some(source) if !found => normal_form(appended(normal_form(source), path)),
        _ => path,
    }
}

impl MortarModuleResolver {
    /// A resolver.
    pub fn new() -> (resolver: Self)
        ensures
            resolver == (MortarModuleResolver {  }),
    {
        Self {  }
    }

    /// The path at which the module `path` is looked for when the script at
    /// `source` imports it. `found` tells whether a file is at `path` as it is
    /// written.
    pub fn get_path(source: Option<&str>, path: &str, found: bool) -> (chosen: String)
        ensures
            chosen@ == import_path(
                match source {
                    Some(source) => Some(source@),
                    None => None,
                },
                path@,
                found,
            ),
    {
        match source {
            Some(source) => {
                if found {
                    path.to_owned()
                } else {
                    let base = normal_path(source);
                    let whole = append_path(base.as_str(), path);
                    normal_path(whole.as_str())
                }
            },
            None => path.to_owned(),
        }
    }

    /// What is to be done for the module looked for at `path`: it is loaded
    /// where a file is there, and reported as not found where none is.
    pub fn lookup(path: String, found: bool) -> (step: Lookup)
        ensures
            step == if found {
                Lookup::Load(path)
            } else {
                Lookup::NotFound(path)
            },
    {
        if found {
            Lookup::Load(path)
        } else {
            Lookup::NotFound(path)
        }
    }
}

} // verus!
