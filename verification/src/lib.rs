//! Boot-entry resolution and access library.
//!
//! The library models the two catalogs of bootable entries on a dual-boot
//! machine: the boot loader's own menu (read from its configuration and
//! environment text) and the firmware boot manager's record list (read from
//! the inspection tool's textual dump).  Every parser, selector and rewrite
//! rule lives here as verified code over plain text; the thin shell around
//! it performs the actual file, process and volume operations.

pub mod catalog;
pub mod firmware;
pub mod grub_cfg;
pub mod grub_env;
pub mod mount;
pub mod resolver;
pub mod text;

use vstd::prelude::*;

verus! {

/// The error kinds any operation of the library can surface.
#[derive(Clone, Copy, Debug, PartialEq, Eq, Structural)]
pub enum BootError {
    /// Elevation was required and could not be obtained.
    PermissionDenied,
    /// An entry, device or volume could not be located.
    NotFound,
    /// The external enumeration or mutation tool failed.
    ToolError,
    /// Malformed configuration or firmware text.
    ParseError,
    /// A filesystem or mount operation failed.
    IoError,
}

impl BootError {
    /// A short human-readable description of the error.
    pub fn describe(&self) -> (r: &'static str)
        ensures
            r@ == describe_spec(*self),
    {
        match self {
            BootError::PermissionDenied => "permission denied",
            BootError::NotFound => "not found",
            BootError::ToolError => "external tool failed",
            BootError::ParseError => "malformed text",
            BootError::IoError => "i/o failure",
        }
    }
}

/// What `BootError::describe` returns for each error kind.
pub open spec fn describe_spec(e: BootError) -> Seq<char> {
    match e {
        BootError::PermissionDenied => "permission denied"@,
        BootError::NotFound => "not found"@,
        BootError::ToolError => "external tool failed"@,
        BootError::ParseError => "malformed text"@,
        BootError::IoError => "i/o failure"@,
    }
}

} // verus!
