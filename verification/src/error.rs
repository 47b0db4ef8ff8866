//! The closed set of failure kinds used by every component of the crate.
//! Each variant carries enough structured context (field name, raw value,
//! address range, OS error code) to format a precise diagnostic.

use crate::text::int_digits;
use crate::text::uint_digits;
use crate::text::append_int;
use crate::text::append_uint;
use vstd::prelude::*;
use vstd::string::StringExecFns;

verus! {

/// A field, or permission sub-field, of a memory-map record.
#[derive(Debug, Clone, Copy, PartialEq, Eq, Structural)]
pub enum FieldName {
    StartEnd,
    Permissions,
    PermissionsRead,
    PermissionsWrite,
    PermissionsExec,
    PermissionsPrivateShared,
    Offset,
    Device,
    Inode,
}

/// The rendering of each field name, as it appears in diagnostics.
pub open spec fn field_name_chars(f: FieldName) -> Seq<char> {
    match f {
        FieldName::StartEnd => "start-end"@,
        FieldName::Permissions => "permissions"@,
        FieldName::PermissionsRead => "permissions-read"@,
        FieldName::PermissionsWrite => "permissions-write"@,
        FieldName::PermissionsExec => "permissions-exec"@,
        FieldName::PermissionsPrivateShared => "permissions-private/shared"@,
        FieldName::Offset => "offset"@,
        FieldName::Device => "device"@,
        FieldName::Inode => "inode"@,
    }
}

impl FieldName {
    /// The field name as a string.
    pub fn name(&self) -> (r: String)
        ensures
            r@ == field_name_chars(*self),
    {
        match self {
            FieldName::StartEnd => String::from_str("start-end"),
            FieldName::Permissions => String::from_str("permissions"),
            FieldName::PermissionsRead => String::from_str("permissions-read"),
            FieldName::PermissionsWrite => String::from_str("permissions-write"),
            FieldName::PermissionsExec => String::from_str("permissions-exec"),
            FieldName::PermissionsPrivateShared => String::from_str("permissions-private/shared"),
            FieldName::Offset => String::from_str("offset"),
            FieldName::Device => String::from_str("device"),
            FieldName::Inode => String::from_str("inode"),
        }
    }
}

/// Errors for this crate.
#[derive(Debug, PartialEq, Eq)]
pub enum Error {
    /// Underlying I/O error, with the OS error code when one exists.
    IO(Option<i32>),
    /// A numeric field did not parse; carries the offending text.
    ParseIntError(String),
    /// A required record field was absent.
    MissingRegionField(FieldName),
    /// A field was present but failed its grammar.
    MalformedRegionField { field: FieldName, value: String },
    /// No region with the given address range exists.
    RegionNotFound { start: u64, end: u64 },
    /// A ptrace control call failed, with the OS error code.
    Ptrace(i32),
}

/// The mathematical model of an [`Error`]: raw values as character
/// sequences, everything else as plain values.
pub enum ErrorV {
    IO(Option<i32>),
    ParseIntError(Seq<char>),
    MissingRegionField(FieldName),
    MalformedRegionField { field: FieldName, value: Seq<char> },
    RegionNotFound { start: u64, end: u64 },
    Ptrace(i32),
}

impl View for Error {
    type V = ErrorV;

    open spec fn view(&self) -> ErrorV {
        match self {
            Error::IO(code) => ErrorV::IO(*code),
            Error::ParseIntError(v) => ErrorV::ParseIntError(v@),
            Error::MissingRegionField(f) => ErrorV::MissingRegionField(*f),
            Error::MalformedRegionField { field, value } => ErrorV::MalformedRegionField {
                field: *field,
                value: value@,
            },
            Error::RegionNotFound { start, end } => ErrorV::RegionNotFound {
                start: *start,
                end: *end,
            },
            Error::Ptrace(code) => ErrorV::Ptrace(*code),
        }
    }
}

/// The diagnostic line for each error value.
pub open spec fn message_chars(e: ErrorV) -> Seq<char> {
    match e {
        ErrorV::IO(None) => "I/O error"@,
        ErrorV::IO(Some(code)) => "I/O error: os error "@ + int_digits(code as int, 10),
        ErrorV::ParseIntError(v) => "invalid integer "@ + v,
        ErrorV::MissingRegionField(f) => "Missing "@ + field_name_chars(f) + " field in region"@,
        ErrorV::MalformedRegionField { field, value } => "Malformed field "@ + field_name_chars(
            field,
        ) + " in region: \""@ + value + "\""@,
        ErrorV::RegionNotFound { start, end } => "Region mapped with 0x"@ + uint_digits(
            start as nat,
            16,
        ) + "..0x"@ + uint_digits(end as nat, 16) + " not found"@,
        ErrorV::Ptrace(code) => "ptrace error: os error "@ + int_digits(code as int, 10),
    }
}

impl Error {
    /// The diagnostic line for this error.
    pub fn message(&self) -> (r: String)
        ensures
            r@ == message_chars(self@),
    {
        match self {
            Error::IO(None) => String::from_str("I/O error"),
            Error::IO(Some(code)) => {
                let mut s = String::from_str("I/O error: os error ");
                append_int(&mut s, *code);
                s
            },
            Error::ParseIntError(v) => {
                let mut s = String::from_str("invalid integer ");
                s.append(v.as_str());
                s
            },
            Error::MissingRegionField(f) => {
                let mut s = String::from_str("Missing ");
                let n = f.name();
                s.append(n.as_str());
                s.append(" field in region");
                s
            },
            Error::MalformedRegionField { field, value } => {
                let mut s = String::from_str("Malformed field ");
                let n = field.name();
                s.append(n.as_str());
                s.append(" in region: \"");
                s.append(value.as_str());
                s.append("\"");
                s
            },
            Error::RegionNotFound { start, end } => {
                let mut s = String::from_str("Region mapped with 0x");
                append_uint(&mut s, *start, 16);
                s.append("..0x");
                append_uint(&mut s, *end, 16);
                s.append(" not found");
                s
            },
            Error::Ptrace(code) => {
                let mut s = String::from_str("ptrace error: os error ");
                append_int(&mut s, *code);
                s
            },
        }
    }
}

} // verus!
