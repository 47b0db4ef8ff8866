//! The memory-map record model: permissions, devices, regions, and the
//! parser for the line-oriented memory-map text format, together with the
//! canonical rendering used to name persisted region dumps.

use crate::error::Error;
use crate::error::ErrorV;
use crate::error::FieldName;
use crate::text::all_digits;
use crate::text::append_uint;
use crate::text::after_tok;
use crate::text::chars_of;
use crate::text::digits_value;
use crate::text::find_first;
use crate::text::find_last;
use crate::text::parse_uint;
use crate::text::parse_uint_spec;
use crate::text::push_digit;
use crate::text::scan_tok;
use crate::text::scan_ws;
use crate::text::skip_ws;
use crate::text::take_tok;
use crate::text::uint_digits;
use vstd::prelude::*;
use vstd::seq_lib::*;
use vstd::string::StrSliceExecFns;
use vstd::string::StringExecFns;

verus! {

/// Standard permissions for a region.
#[derive(Debug, PartialEq, Eq, Clone, Copy, Structural)]
pub enum PermissionBits {
    Read,
    Write,
    Exec,
    Private,
    Shared,
}

/// The canonical single-character rendering of each permission flag.
pub open spec fn bit_char(b: PermissionBits) -> char {
    match b {
        PermissionBits::Read => 'r',
        PermissionBits::Write => 'w',
        PermissionBits::Exec => 'e',
        PermissionBits::Private => 'p',
        PermissionBits::Shared => 's',
    }
}

impl PermissionBits {
    /// The canonical character for this flag.
    pub fn symbol(&self) -> (c: char)
        ensures
            c == bit_char(*self),
    {
        match self {
            PermissionBits::Read => 'r',
            PermissionBits::Write => 'w',
            PermissionBits::Exec => 'e',
            PermissionBits::Private => 'p',
            PermissionBits::Shared => 's',
        }
    }
}

/// A set of permission flags for a region.
#[derive(Debug, Clone, Copy, Eq, PartialEq, Structural)]
pub struct Permissions {
    pub read: bool,
    pub write: bool,
    pub execute: bool,
    pub private: bool,
    pub shared: bool,
}

/// `p` with the flag `b` added.
pub open spec fn perm_with(p: Permissions, b: PermissionBits) -> Permissions {
    match b {
        PermissionBits::Read => Permissions { read: true, ..p },
        PermissionBits::Write => Permissions { write: true, ..p },
        PermissionBits::Exec => Permissions { execute: true, ..p },
        PermissionBits::Private => Permissions { private: true, ..p },
        PermissionBits::Shared => Permissions { shared: true, ..p },
    }
}

/// Whether `p` holds the flag `b`.
pub open spec fn perm_holds(p: Permissions, b: PermissionBits) -> bool {
    match b {
        PermissionBits::Read => p.read,
        PermissionBits::Write => p.write,
        PermissionBits::Exec => p.execute,
        PermissionBits::Private => p.private,
        PermissionBits::Shared => p.shared,
    }
}

impl Permissions {
    /// Whether this set holds the given flag.
    pub fn has_perm(&self, pbit: PermissionBits) -> (r: bool)
        ensures
            r == perm_holds(*self, pbit),
    {
        match pbit {
            PermissionBits::Read => self.read,
            PermissionBits::Write => self.write,
            PermissionBits::Exec => self.execute,
            PermissionBits::Private => self.private,
            PermissionBits::Shared => self.shared,
        }
    }

    /// The empty permission set.
    pub fn new() -> (r: Self)
        ensures
            r == (Permissions {
                read: false,
                write: false,
                execute: false,
                private: false,
                shared: false,
            }),
    {
        Permissions { read: false, write: false, execute: false, private: false, shared: false }
    }

    /// Adds the given flag to this set.
    pub fn add(&mut self, pbit: PermissionBits)
        ensures
            *final(self) == perm_with(*old(self), pbit),
    {
        match pbit {
            PermissionBits::Read => {
                self.read = true;
            },
            PermissionBits::Write => {
                self.write = true;
            },
            PermissionBits::Exec => {
                self.execute = true;
            },
            PermissionBits::Private => {
                self.private = true;
            },
            PermissionBits::Shared => {
                self.shared = true;
            },
        }
    }
}

/// The five-character display form of a permission set, one character per
/// flag in the fixed order Read, Write, Exec, Private, Shared, `-` for an
/// absent flag.
pub open spec fn perms_chars(p: Permissions) -> Seq<char> {
    seq![
        if p.read {
            'r'
        } else {
            '-'
        },
        if p.write {
            'w'
        } else {
            '-'
        },
        if p.execute {
            'e'
        } else {
            '-'
        },
        if p.private {
            'p'
        } else {
            '-'
        },
        if p.shared {
            's'
        } else {
            '-'
        },
    ]
}

/// What parsing a permissions token yields: the token is read one character
/// at a time at fixed positions (read, write, exec, private/shared); the
/// first character outside its position's allowed set names that sub-field,
/// and a token shorter than four characters names the whole field, carrying
/// the whole token.  Characters past the fourth are ignored.
pub open spec fn parse_perms_spec(t: Seq<char>) -> Result<Permissions, ErrorV> {
    if t.len() < 1 {
        Err(ErrorV::MalformedRegionField { field: FieldName::Permissions, value: t })
    } else if t[0] != 'r' && t[0] != '-' {
        Err(
            ErrorV::MalformedRegionField {
                field: FieldName::PermissionsRead,
                value: seq![t[0]],
            },
        )
    } else if t.len() < 2 {
        Err(ErrorV::MalformedRegionField { field: FieldName::Permissions, value: t })
    } else if t[1] != 'w' && t[1] != '-' {
        Err(
            ErrorV::MalformedRegionField {
                field: FieldName::PermissionsWrite,
                value: seq![t[1]],
            },
        )
    } else if t.len() < 3 {
        Err(ErrorV::MalformedRegionField { field: FieldName::Permissions, value: t })
    } else if t[2] != 'x' && t[2] != '-' {
        Err(
            ErrorV::MalformedRegionField {
                field: FieldName::PermissionsExec,
                value: seq![t[2]],
            },
        )
    } else if t.len() < 4 {
        Err(ErrorV::MalformedRegionField { field: FieldName::Permissions, value: t })
    } else if t[3] != 'p' && t[3] != 's' {
        Err(
            ErrorV::MalformedRegionField {
                field: FieldName::PermissionsPrivateShared,
                value: seq![t[3]],
            },
        )
    } else {
        Ok(
            Permissions {
                read: t[0] == 'r',
                write: t[1] == 'w',
                execute: t[2] == 'x',
                private: t[3] == 'p',
                shared: t[3] == 's',
            },
        )
    }
}

/// Maps a `Result` over a `Permissions` to its model.
pub open spec fn view_perms_result(r: Result<Permissions, Error>) -> Result<Permissions, ErrorV> {
    match r {
        Ok(p) => Ok(p),
        Err(e) => Err(e@),
    }
}

impl Permissions {
    /// Parses the four-character permissions field of a record.
    pub fn parse(s: &str) -> (r: Result<Permissions, Error>)
        ensures
            view_perms_result(r) == parse_perms_spec(s@),
    {
        let v = chars_of(s);
        let n = v.len();
        proof {
            assert(v@.subrange(0, n as int) =~= s@);
        }
        Self::parse_range(s, &v, 0, n)
    }

    /// Parses `v[a..b]` (the characters of `s` in that range) as the
    /// permissions field.
    pub(crate) fn parse_range(s: &str, v: &Vec<char>, a: usize, b: usize) -> (r: Result<
        Permissions,
        Error,
    >)
        requires
            v@ == s@,
            a <= b <= v@.len(),
        ensures
            view_perms_result(r) == parse_perms_spec(v@.subrange(a as int, b as int)),
    {
        let ghost t = v@.subrange(a as int, b as int);
        let len = b - a;
        if len < 1 {
            proof {
                assert(t =~= s@.subrange(a as int, b as int));
            }
            return Err(
                Error::MalformedRegionField {
                    field: FieldName::Permissions,
                    value: s.substring_char(a, b).to_owned(),
                },
            );
        }
        let c0 = v[a];
        if c0 != 'r' && c0 != '-' {
            proof {
                assert(seq![t[0]] =~= s@.subrange(a as int, a + 1));
            }
            return Err(
                Error::MalformedRegionField {
                    field: FieldName::PermissionsRead,
                    value: s.substring_char(a, a + 1).to_owned(),
                },
            );
        }
        if len < 2 {
            proof {
                assert(t =~= s@.subrange(a as int, b as int));
            }
            return Err(
                Error::MalformedRegionField {
                    field: FieldName::Permissions,
                    value: s.substring_char(a, b).to_owned(),
                },
            );
        }
        let c1 = v[a + 1];
        if c1 != 'w' && c1 != '-' {
            proof {
                assert(seq![t[1]] =~= s@.subrange(a + 1, a + 2));
            }
            return Err(
                Error::MalformedRegionField {
                    field: FieldName::PermissionsWrite,
                    value: s.substring_char(a + 1, a + 2).to_owned(),
                },
            );
        }
        if len < 3 {
            proof {
                assert(t =~= s@.subrange(a as int, b as int));
            }
            return Err(
                Error::MalformedRegionField {
                    field: FieldName::Permissions,
                    value: s.substring_char(a, b).to_owned(),
                },
            );
        }
        let c2 = v[a + 2];
        if c2 != 'x' && c2 != '-' {
            proof {
                assert(seq![t[2]] =~= s@.subrange(a + 2, a + 3));
            }
            return Err(
                Error::MalformedRegionField {
                    field: FieldName::PermissionsExec,
                    value: s.substring_char(a + 2, a + 3).to_owned(),
                },
            );
        }
        if len < 4 {
            proof {
                assert(t =~= s@.subrange(a as int, b as int));
            }
            return Err(
                Error::MalformedRegionField {
                    field: FieldName::Permissions,
                    value: s.substring_char(a, b).to_owned(),
                },
            );
        }
        let c3 = v[a + 3];
        if c3 != 'p' && c3 != 's' {
            proof {
                assert(seq![t[3]] =~= s@.subrange(a + 3, a + 4));
            }
            return Err(
                Error::MalformedRegionField {
                    field: FieldName::PermissionsPrivateShared,
                    value: s.substring_char(a + 3, a + 4).to_owned(),
                },
            );
        }
        Ok(
            Permissions {
                read: c0 == 'r',
                write: c1 == 'w',
                execute: c2 == 'x',
                private: c3 == 'p',
                shared: c3 == 's',
            },
        )
    }

    /// The five-character display form of this permission set.
    pub fn render(&self) -> (r: String)
        ensures
            r@ == perms_chars(*self),
    {
        let mut s = String::new();
        s.append(if self.read { "r" } else { "-" });
        s.append(if self.write { "w" } else { "-" });
        s.append(if self.execute { "e" } else { "-" });
        s.append(if self.private { "p" } else { "-" });
        s.append(if self.shared { "s" } else { "-" });
        proof {
            reveal_strlit("r");
            reveal_strlit("w");
            reveal_strlit("e");
            reveal_strlit("p");
            reveal_strlit("s");
            reveal_strlit("-");
            assert(s@ =~= perms_chars(*self));
        }
        s
    }
}

/// Represents a Linux device.
#[derive(Debug, PartialEq, Eq, Clone, Copy, Structural)]
pub struct Device {
    pub major: u8,
    pub minor: u8,
}

} // verus!

verus! {

/// The mathematical model of a [`Region`]: the backing file as a character
/// sequence, everything else as plain values.
pub struct RegionV {
    pub start: u64,
    pub end: u64,
    pub perms: Permissions,
    pub offset: u64,
    pub dev: Device,
    pub inode: u64,
    pub file: Option<Seq<char>>,
}

/// A memory region: one contiguous mapped interval of a process's address
/// space.  A parsed region always satisfies `start < end`.
#[derive(Debug, PartialEq, Eq)]
pub struct Region {
    /// Start address
    pub start: u64,
    /// End address
    pub end: u64,
    /// Permissions of the region
    pub perms: Permissions,
    /// Offset in the backing file
    pub offset: u64,
    /// Device associated if any
    pub dev: Device,
    /// Inode on the device
    pub inode: u64,
    /// Backing file if any
    pub file: Option<String>,
}

impl View for Region {
    type V = RegionV;

    open spec fn view(&self) -> RegionV {
        RegionV {
            start: self.start,
            end: self.end,
            perms: self.perms,
            offset: self.offset,
            dev: self.dev,
            inode: self.inode,
            file: match self.file {
                Some(ref f) => Some(f@),
                None => None,
            },
        }
    }
}

/// What parsing the `start-end` field yields: the token splits at its first
/// `-`; both halves must parse as hexadecimal numbers, and the start must
/// lie below the end.  A record with start not below end would make the
/// region's size meaningless (the source format always has start < end), so
/// such a token is rejected as malformed rather than wrapped around.
pub open spec fn parse_start_end_spec(t: Seq<char>) -> Result<(u64, u64), ErrorV> {
    match t.index_of_first('-') {
        None => Err(ErrorV::MalformedRegionField { field: FieldName::StartEnd, value: t }),
        Some(k) => match parse_uint_spec(t.take(k), 16) {
            None => Err(ErrorV::ParseIntError(t.take(k))),
            Some(start) => match parse_uint_spec(t.skip(k + 1), 16) {
                None => Err(ErrorV::ParseIntError(t.skip(k + 1))),
                Some(end) => if start < end {
                    Ok((start, end))
                } else {
                    Err(ErrorV::MalformedRegionField { field: FieldName::StartEnd, value: t })
                },
            },
        },
    }
}

/// What `u8::from_str_radix(s, 16)` accepts: a hexadecimal number no larger
/// than 255.
pub open spec fn parse_u8_hex(s: Seq<char>) -> Option<u8> {
    match parse_uint_spec(s, 16) {
        Some(x) => if x <= 255 {
            Some(x as u8)
        } else {
            None
        },
        None => None,
    }
}

/// What parsing the `device` field yields: the token splits at its last
/// `:` (so device paths with extra colons are tolerated); both halves must
/// parse as hexadecimal bytes.
pub open spec fn parse_device_spec(t: Seq<char>) -> Result<Device, ErrorV> {
    match t.index_of_last(':') {
        None => Err(ErrorV::MalformedRegionField { field: FieldName::Device, value: t }),
        Some(k) => match parse_u8_hex(t.take(k)) {
            None => Err(ErrorV::ParseIntError(t.take(k))),
            Some(major) => match parse_u8_hex(t.skip(k + 1)) {
                None => Err(ErrorV::ParseIntError(t.skip(k + 1))),
                Some(minor) => Ok(Device { major, minor }),
            },
        },
    }
}

/// What parsing one record line yields.  The line splits on ASCII
/// whitespace into five required fields — `start-end`, `permissions`,
/// `offset`, `device`, `inode` — followed by the optional backing file,
/// taken verbatim as the remainder of the line after the fifth field (with
/// leading whitespace dropped; absent if that remainder is empty).  The
/// first absent field is reported as missing, in field order, before any
/// field is parsed; then each field is validated in the same order.
pub open spec fn parse_region_spec(line: Seq<char>) -> Result<RegionV, ErrorV> {
    let r1 = skip_ws(line);
    let t1 = take_tok(r1);
    let r2 = skip_ws(after_tok(r1));
    let t2 = take_tok(r2);
    let r3 = skip_ws(after_tok(r2));
    let t3 = take_tok(r3);
    let r4 = skip_ws(after_tok(r3));
    let t4 = take_tok(r4);
    let r5 = skip_ws(after_tok(r4));
    let t5 = take_tok(r5);
    let rest = skip_ws(after_tok(r5));
    if t1.len() == 0 {
        Err(ErrorV::MissingRegionField(FieldName::StartEnd))
    } else if t2.len() == 0 {
        Err(ErrorV::MissingRegionField(FieldName::Permissions))
    } else if t3.len() == 0 {
        Err(ErrorV::MissingRegionField(FieldName::Offset))
    } else if t4.len() == 0 {
        Err(ErrorV::MissingRegionField(FieldName::Device))
    } else if t5.len() == 0 {
        Err(ErrorV::MissingRegionField(FieldName::Inode))
    } else {
        match parse_start_end_spec(t1) {
            Err(e) => Err(e),
            Ok((start, end)) => match parse_perms_spec(t2) {
                Err(e) => Err(e),
                Ok(perms) => match parse_uint_spec(t3, 16) {
                    None => Err(ErrorV::ParseIntError(t3)),
                    Some(offset) => match parse_device_spec(t4) {
                        Err(e) => Err(e),
                        Ok(dev) => match parse_uint_spec(t5, 10) {
                            None => Err(ErrorV::ParseIntError(t5)),
                            Some(inode) => Ok(
                                RegionV {
                                    start,
                                    end,
                                    perms,
                                    offset,
                                    dev,
                                    inode,
                                    file: if rest.len() == 0 {
                                        None
                                    } else {
                                        Some(rest)
                                    },
                                },
                            ),
                        },
                    },
                },
            },
        }
    }
}

/// Maps a `Result` over a `Region` to its model.
pub open spec fn view_region_result(r: Result<Region, Error>) -> Result<RegionV, ErrorV> {
    match r {
        Ok(reg) => Ok(reg@),
        Err(e) => Err(e@),
    }
}

/// Parses one line of the memory-map text format into a [`Region`],
/// attributing any failure to the exact field that caused it.
#[verifier::rlimit(100)]
#[verifier::spinoff_prover]
pub fn parse_region(line: &str) -> (r: Result<Region, Error>)
    ensures
        view_region_result(r) == parse_region_spec(line@),
{
    let v = chars_of(line);
    let n = v.len();
    proof {
        assert(v@.skip(0) =~= v@);
    }
    let a1 = scan_ws(&v, 0);
    let b1 = scan_tok(&v, a1);
    let a2 = scan_ws(&v, b1);
    let b2 = scan_tok(&v, a2);
    let a3 = scan_ws(&v, b2);
    let b3 = scan_tok(&v, a3);
    let a4 = scan_ws(&v, b3);
    let b4 = scan_tok(&v, a4);
    let a5 = scan_ws(&v, b4);
    let b5 = scan_tok(&v, a5);
    let af = scan_ws(&v, b5);
    let ghost t1 = v@.subrange(a1 as int, b1 as int);
    let ghost t2 = v@.subrange(a2 as int, b2 as int);
    let ghost t3 = v@.subrange(a3 as int, b3 as int);
    let ghost t4 = v@.subrange(a4 as int, b4 as int);
    let ghost t5 = v@.subrange(a5 as int, b5 as int);
    let ghost rest = v@.skip(af as int);
    if b1 == a1 {
        return Err(Error::MissingRegionField(FieldName::StartEnd));
    }
    if b2 == a2 {
        return Err(Error::MissingRegionField(FieldName::Permissions));
    }
    if b3 == a3 {
        return Err(Error::MissingRegionField(FieldName::Offset));
    }
    if b4 == a4 {
        return Err(Error::MissingRegionField(FieldName::Device));
    }
    if b5 == a5 {
        return Err(Error::MissingRegionField(FieldName::Inode));
    }
    let k1 = match find_first(&v, a1, b1, '-') {
        None => {
            proof {
                assert(t1 =~= line@.subrange(a1 as int, b1 as int));
            }
            return Err(
                Error::MalformedRegionField {
                    field: FieldName::StartEnd,
                    value: line.substring_char(a1, b1).to_owned(),
                },
            );
        },
        Some(k) => k,
    };
    proof {
        assert(t1.take(k1 - a1) =~= v@.subrange(a1 as int, k1 as int));
        assert(t1.take(k1 - a1) =~= line@.subrange(a1 as int, k1 as int));
        assert(t1.skip(k1 - a1 + 1) =~= v@.subrange(k1 + 1, b1 as int));
        assert(t1.skip(k1 - a1 + 1) =~= line@.subrange(k1 + 1, b1 as int));
    }
    let start = match parse_uint(&v, a1, k1, 16) {
        None => {
            return Err(Error::ParseIntError(line.substring_char(a1, k1).to_owned()));
        },
        Some(x) => x,
    };
    let end = match parse_uint(&v, k1 + 1, b1, 16) {
        None => {
            return Err(Error::ParseIntError(line.substring_char(k1 + 1, b1).to_owned()));
        },
        Some(x) => x,
    };
    if !(start < end) {
        proof {
            assert(t1 =~= line@.subrange(a1 as int, b1 as int));
        }
        return Err(
            Error::MalformedRegionField {
                field: FieldName::StartEnd,
                value: line.substring_char(a1, b1).to_owned(),
            },
        );
    }
    let perms = match Permissions::parse_range(line, &v, a2, b2) {
        Err(e) => {
            return Err(e);
        },
        Ok(p) => p,
    };
    let offset = match parse_uint(&v, a3, b3, 16) {
        None => {
            proof {
                assert(t3 =~= line@.subrange(a3 as int, b3 as int));
            }
            return Err(Error::ParseIntError(line.substring_char(a3, b3).to_owned()));
        },
        Some(x) => x,
    };
    let k4 = match find_last(&v, a4, b4, ':') {
        None => {
            proof {
                assert(t4 =~= line@.subrange(a4 as int, b4 as int));
            }
            return Err(
                Error::MalformedRegionField {
                    field: FieldName::Device,
                    value: line.substring_char(a4, b4).to_owned(),
                },
            );
        },
        Some(k) => k,
    };
    proof {
        assert(t4.take(k4 - a4) =~= v@.subrange(a4 as int, k4 as int));
        assert(t4.take(k4 - a4) =~= line@.subrange(a4 as int, k4 as int));
        assert(t4.skip(k4 - a4 + 1) =~= v@.subrange(k4 + 1, b4 as int));
        assert(t4.skip(k4 - a4 + 1) =~= line@.subrange(k4 + 1, b4 as int));
    }
    let major = match parse_uint(&v, a4, k4, 16) {
        None => {
            return Err(Error::ParseIntError(line.substring_char(a4, k4).to_owned()));
        },
        Some(x) => {
            if x > 255 {
                return Err(Error::ParseIntError(line.substring_char(a4, k4).to_owned()));
            }
            x as u8
        },
    };
    let minor = match parse_uint(&v, k4 + 1, b4, 16) {
        None => {
            return Err(Error::ParseIntError(line.substring_char(k4 + 1, b4).to_owned()));
        },
        Some(x) => {
            if x > 255 {
                return Err(Error::ParseIntError(line.substring_char(k4 + 1, b4).to_owned()));
            }
            x as u8
        },
    };
    let inode = match parse_uint(&v, a5, b5, 10) {
        None => {
            proof {
                assert(t5 =~= line@.subrange(a5 as int, b5 as int));
            }
            return Err(Error::ParseIntError(line.substring_char(a5, b5).to_owned()));
        },
        Some(x) => x,
    };
    let file: Option<String> = if af == n {
        proof {
            assert(rest.len() == 0);
        }
        None
    } else {
        proof {
            assert(rest =~= line@.subrange(af as int, n as int));
        }
        Some(line.substring_char(af, n).to_owned())
    };
    Ok(Region { start, end, perms: perms, offset, dev: Device { major, minor }, inode, file })
}

} // verus!

verus! {

/// `s` with every trailing `/` removed.
pub open spec fn strip_trailing_slashes(s: Seq<char>) -> Seq<char>
    decreases s.len(),
{
    if s.len() > 0 && s.last() == '/' {
        strip_trailing_slashes(s.drop_last())
    } else {
        s
    }
}

/// The suffix of `s` after its last `/` (empty if `s` ends with `/` or is
/// empty).
pub open spec fn last_component(s: Seq<char>) -> Seq<char>
    decreases s.len(),
{
    if s.len() == 0 {
        Seq::empty()
    } else if s.last() == '/' {
        Seq::empty()
    } else {
        last_component(s.drop_last()).push(s.last())
    }
}

/// The last path component of a backing-file path: trailing slashes are
/// ignored, and a path with no non-slash final component has none.
pub open spec fn filename_chars(s: Seq<char>) -> Option<Seq<char>> {
    let t = strip_trailing_slashes(s);
    if t.len() == 0 {
        None
    } else {
        Some(last_component(t))
    }
}

/// The last path component of a region's backing file, if any.
pub open spec fn region_filename(rv: RegionV) -> Option<Seq<char>> {
    match rv.file {
        None => None,
        Some(f) => filename_chars(f),
    }
}

proof fn lemma_last_component_is_suffix(s: Seq<char>, j: int)
    requires
        0 <= j <= s.len(),
        forall|m: int| j <= m < s.len() ==> s[m] != '/',
        j > 0 ==> s[j - 1] == '/',
    ensures
        last_component(s) == s.skip(j),
    decreases s.len(),
{
    if s.len() == 0 {
        assert(s.skip(j) =~= Seq::<char>::empty());
    } else if j == s.len() {
        assert(s.last() == '/');
        assert(s.skip(j) =~= Seq::<char>::empty());
    } else {
        assert(s.last() == s[s.len() - 1]);
        assert(s.last() != '/');
        lemma_last_component_is_suffix(s.drop_last(), j);
        assert(s.drop_last().skip(j).push(s.last()) =~= s.skip(j));
    }
}

impl Region {
    /// The size in bytes of the region.
    pub fn size(&self) -> (r: u64)
        requires
            self.start <= self.end,
        ensures
            r == self.end - self.start,
    {
        self.end - self.start
    }

    /// The backing file path, if any.
    pub fn file(&self) -> (r: Option<&str>)
        ensures
            match r {
                Some(f) => self@.file == Some(f@),
                None => self@.file is None,
            },
    {
        match &self.file {
            Some(f) => Some(f.as_str()),
            None => None,
        }
    }

    /// The last path component of the backing file, if any.
    pub fn filename(&self) -> (r: Option<&str>)
        ensures
            match r {
                Some(f) => region_filename(self@) == Some(f@),
                None => region_filename(self@) is None,
            },
    {
        let f: &String = match &self.file {
            Some(f) => f,
            None => {
                return None;
            },
        };
        let v = chars_of(f.as_str());
        let n = v.len();
        let mut e = n;
        proof {
            assert(f@.take(n as int) =~= f@);
        }
        while e > 0 && v[e - 1] == '/'
            invariant
                0 <= e <= n,
                n == v@.len(),
                v@ == f@,
                strip_trailing_slashes(f@) == strip_trailing_slashes(f@.take(e as int)),
            decreases e,
        {
            proof {
                assert(f@.take(e as int).last() == '/');
                assert(f@.take(e as int).drop_last() =~= f@.take(e - 1));
            }
            e = e - 1;
        }
        let ghost t = f@.take(e as int);
        proof {
            assert(strip_trailing_slashes(t) == t);
        }
        if e == 0 {
            proof {
                assert(t.len() == 0);
            }
            return None;
        }
        let mut j = e;
        while j > 0 && v[j - 1] != '/'
            invariant
                0 <= j <= e <= n,
                n == v@.len(),
                v@ == f@,
                forall|m: int| j <= m < e ==> f@[m] != '/',
            decreases j,
        {
            j = j - 1;
        }
        proof {
            assert(forall|m: int| j <= m < e ==> t[m] != '/');
            lemma_last_component_is_suffix(t, j as int);
            assert(t.skip(j as int) =~= f@.subrange(j as int, e as int));
        }
        Some(f.as_str().substring_char(j, e))
    }
}

/// The two-digit lowercase hexadecimal rendering of a device byte.
pub open spec fn dev_byte_chars(n: u8) -> Seq<char> {
    seq![
        crate::text::digit_char((n / 16) as nat),
        crate::text::digit_char((n % 16) as nat),
    ]
}

/// The canonical render string of a region, used to name persisted dumps:
/// `start-end_permstring_+offset_major:minor_inode`, every numeric field in
/// lowercase hexadecimal, the device bytes padded to two digits, with
/// `_filename` appended when a backing file exists.
pub open spec fn render_chars(rv: RegionV) -> Seq<char> {
    uint_digits(rv.start as nat, 16) + seq!['-'] + uint_digits(rv.end as nat, 16) + seq!['_']
        + perms_chars(rv.perms) + seq!['_', '+'] + uint_digits(rv.offset as nat, 16) + seq!['_']
        + dev_byte_chars(rv.dev.major) + seq![':'] + dev_byte_chars(rv.dev.minor) + seq!['_']
        + uint_digits(rv.inode as nat, 16) + (match region_filename(rv) {
        Some(f) => seq!['_'] + f,
        None => Seq::<char>::empty(),
    })
}

/// Appends the two-digit hexadecimal rendering of a device byte.
fn append_dev_byte(s: &mut String, n: u8)
    ensures
        final(s)@ == old(s)@ + dev_byte_chars(n),
{
    push_digit(s, (n / 16) as u64);
    push_digit(s, (n % 16) as u64);
    proof {
        assert(final(s)@ =~= old(s)@ + dev_byte_chars(n));
    }
}

impl Region {
    /// The canonical render string of this region.
    #[verifier::rlimit(50)]
    pub fn render(&self) -> (r: String)
        ensures
            r@ == render_chars(self@),
    {
        proof {
            reveal_strlit("-");
            reveal_strlit("_");
            reveal_strlit("_+");
            reveal_strlit(":");
        }
        let mut s = String::new();
        append_uint(&mut s, self.start, 16);
        s.append("-");
        append_uint(&mut s, self.end, 16);
        s.append("_");
        let p = self.perms.render();
        s.append(p.as_str());
        s.append("_+");
        append_uint(&mut s, self.offset, 16);
        s.append("_");
        append_dev_byte(&mut s, self.dev.major);
        s.append(":");
        append_dev_byte(&mut s, self.dev.minor);
        s.append("_");
        append_uint(&mut s, self.inode, 16);
        match self.filename() {
            Some(f) => {
                s.append("_");
                s.append(f);
            },
            None => {},
        }
        proof {
            assert(s@ =~= render_chars(self@));
        }
        s
    }
}

} // verus!

verus! {

/// `l` with a single trailing carriage return removed, as `str::lines`
/// treats a line.
pub open spec fn strip_cr(l: Seq<char>) -> Seq<char> {
    if l.len() > 0 && l.last() == '\r' {
        l.drop_last()
    } else {
        l
    }
}

/// The lines of `s`, split on `\n` with any trailing `\r` removed from
/// each line and no final empty line, as `str::lines` yields them.
pub open spec fn split_lines(s: Seq<char>) -> Seq<Seq<char>>
    decreases s.len(),
    via split_lines_decreases
{
    if s.len() == 0 {
        Seq::empty()
    } else {
        match s.index_of_first('\n') {
            None => seq![strip_cr(s)],
            Some(k) => seq![strip_cr(s.take(k))] + split_lines(s.skip(k + 1)),
        }
    }
}

#[via_fn]
proof fn split_lines_decreases(s: Seq<char>) {
    s.index_of_first_ensures('\n');
}

/// What parsing a sequence of record lines yields: the regions of every
/// line in order, or the error of the first line that fails.
pub open spec fn parse_lines_spec(ls: Seq<Seq<char>>) -> Result<Seq<RegionV>, ErrorV>
    decreases ls.len(),
{
    if ls.len() == 0 {
        Ok(Seq::empty())
    } else {
        match parse_region_spec(ls[0]) {
            Err(e) => Err(e),
            Ok(r) => match parse_lines_spec(ls.drop_first()) {
                Err(e) => Err(e),
                Ok(rest) => Ok(seq![r] + rest),
            },
        }
    }
}

proof fn lemma_parse_lines_concat(x: Seq<Seq<char>>, y: Seq<Seq<char>>)
    ensures
        parse_lines_spec(x + y) == (match parse_lines_spec(x) {
            Err(e) => Err(e),
            Ok(rs) => match parse_lines_spec(y) {
                Err(e) => Err(e),
                Ok(rs2) => Ok(rs + rs2),
            },
        }),
    decreases x.len(),
{
    if x.len() == 0 {
        assert(x + y =~= y);
        match parse_lines_spec(y) {
            Err(e) => {},
            Ok(rs2) => {
                assert(Seq::<RegionV>::empty() + rs2 =~= rs2);
            },
        }
    } else {
        assert((x + y).len() > 0);
        assert((x + y)[0] == x[0]);
        assert((x + y).drop_first() =~= x.drop_first() + y);
        lemma_parse_lines_concat(x.drop_first(), y);
        match parse_region_spec(x[0]) {
            Err(e) => {},
            Ok(r) => {
                match parse_lines_spec(x.drop_first()) {
                    Err(e) => {},
                    Ok(rs) => {
                        match parse_lines_spec(y) {
                            Err(e) => {},
                            Ok(rs2) => {
                                assert(seq![r] + (rs + rs2) =~= (seq![r] + rs) + rs2);
                            },
                        }
                    },
                }
            },
        }
    }
}

/// The mathematical model of a [`Memory`].
pub struct MemoryV {
    pub pid: u32,
    pub regions: Seq<RegionV>,
}

/// The region collection of a process: the process id and the regions of
/// its memory map, in the order the map text lists them.
#[derive(Debug, PartialEq, Eq)]
pub struct Memory {
    pid: u32,
    regions: Vec<Region>,
}

impl View for Memory {
    type V = MemoryV;

    closed spec fn view(&self) -> MemoryV {
        MemoryV { pid: self.pid, regions: self.regions@.map_values(|r: Region| r@) }
    }
}

/// What parsing a whole memory-map snapshot yields: every line parsed in
/// order, failing on the first malformed line.
pub open spec fn from_maps_spec(pid: u32, text: Seq<char>) -> Result<MemoryV, ErrorV> {
    match parse_lines_spec(split_lines(text)) {
        Err(e) => Err(e),
        Ok(rs) => Ok(MemoryV { pid, regions: rs }),
    }
}

/// Maps a `Result` over a `Memory` to its model.
pub open spec fn view_memory_result(r: Result<Memory, Error>) -> Result<MemoryV, ErrorV> {
    match r {
        Ok(m) => Ok(m@),
        Err(e) => Err(e@),
    }
}

impl Memory {
    /// Parses the full memory-map snapshot of process `pid`: one region
    /// per line, failing on the first malformed line.
    #[verifier::rlimit(100)]
    #[verifier::spinoff_prover]
    pub fn from_maps(pid: u32, maps: &str) -> (r: Result<Memory, Error>)
        ensures
            view_memory_result(r) == from_maps_spec(pid, maps@),
    {
        let v = chars_of(maps);
        let n = v.len();
        let mut regions: Vec<Region> = Vec::new();
        let mut pos: usize = 0;
        let ghost mut done: Seq<Seq<char>> = Seq::empty();
        proof {
            assert(v@.skip(0) =~= v@);
            assert(Seq::<Seq<char>>::empty() + split_lines(maps@) =~= split_lines(maps@));
            assert(regions@.map_values(|r: Region| r@) =~= Seq::<RegionV>::empty());
        }
        while pos < n
            invariant
                pos <= n,
                n == v@.len(),
                v@ == maps@,
                split_lines(maps@) == done + split_lines(v@.skip(pos as int)),
                parse_lines_spec(done) == Ok::<Seq<RegionV>, ErrorV>(
                    regions@.map_values(|r: Region| r@),
                ),
            decreases n - pos,
        {
            let ghost s_here = v@.skip(pos as int);
            let line_break = find_first(&v, pos, n, '\n');
            let raw_end = match line_break {
                Some(k) => k,
                None => n,
            };
            proof {
                assert(s_here.len() > 0);
                match line_break {
                    Some(k) => {
                        assert(s_here =~= v@.subrange(pos as int, n as int));
                        assert(s_here.index_of_first('\n') == Some(raw_end - pos));
                        assert(s_here.take(raw_end - pos) =~= v@.subrange(
                            pos as int,
                            raw_end as int,
                        ));
                    },
                    None => {
                        assert(s_here =~= v@.subrange(pos as int, n as int));
                        assert(s_here.index_of_first('\n') is None);
                    },
                }
            }
            let line_end = if raw_end > pos && v[raw_end - 1] == '\r' {
                raw_end - 1
            } else {
                raw_end
            };
            let ghost raw_line = if line_break is Some {
                s_here.take(raw_end - pos)
            } else {
                s_here
            };
            let ghost line = strip_cr(raw_line);
            proof {
                if raw_end > pos && v@[raw_end - 1] == '\r' {
                    assert(raw_line.last() == '\r');
                    assert(raw_line.drop_last() =~= v@.subrange(pos as int, line_end as int));
                } else {
                    if raw_line.len() > 0 {
                        assert(raw_line.last() == v@[raw_end - 1]);
                    }
                    assert(raw_line =~= v@.subrange(pos as int, line_end as int));
                }
                assert(line == v@.subrange(pos as int, line_end as int));
                assert(line =~= maps@.subrange(pos as int, line_end as int));
            }
            let parsed = parse_region(maps.substring_char(pos, line_end));
            let ghost rest_lines = match line_break {
                Some(k) => split_lines(v@.skip(raw_end + 1)),
                None => Seq::<Seq<char>>::empty(),
            };
            proof {
                match line_break {
                    Some(k) => {
                        assert(s_here.skip(raw_end - pos + 1) =~= v@.skip(raw_end + 1));
                        assert(split_lines(s_here) == seq![line] + rest_lines);
                    },
                    None => {
                        assert(split_lines(s_here) == seq![line]);
                        assert(seq![line] =~= seq![line] + rest_lines);
                    },
                }
                assert(split_lines(maps@) == done + (seq![line] + rest_lines));
                lemma_parse_lines_concat(done, seq![line] + rest_lines);
                assert((seq![line] + rest_lines)[0] == line);
                assert((seq![line] + rest_lines).drop_first() =~= rest_lines);
            }
            let region = match parsed {
                Err(e) => {
                    return Err(e);
                },
                Ok(reg) => reg,
            };
            let ghost rs_before = regions@.map_values(|r: Region| r@);
            regions.push(region);
            proof {
                lemma_parse_lines_concat(done, seq![line]);
                assert(seq![line].drop_first() =~= Seq::<Seq<char>>::empty());
                assert(seq![line][0] == line);
                assert(seq![region@] + Seq::<RegionV>::empty() =~= seq![region@]);
                assert(parse_lines_spec(Seq::<Seq<char>>::empty()) == Ok::<
                    Seq<RegionV>,
                    ErrorV,
                >(Seq::empty()));
                assert(parse_region_spec(line) == Ok::<RegionV, ErrorV>(region@));
                assert(parse_lines_spec(seq![line]) == Ok::<Seq<RegionV>, ErrorV>(
                    seq![region@],
                ));
                done = done + seq![line];
                assert(parse_lines_spec(done) == Ok::<Seq<RegionV>, ErrorV>(
                    rs_before + seq![region@],
                ));
                assert(regions@.map_values(|r: Region| r@) =~= rs_before + seq![region@]);
            }
            let next_pos = match line_break {
                Some(_) => raw_end + 1,
                None => n,
            };
            proof {
                assert(done + rest_lines =~= split_lines(maps@));
                match line_break {
                    Some(_) => {
                        assert(split_lines(v@.skip(next_pos as int)) == rest_lines);
                    },
                    None => {
                        assert(v@.skip(n as int).len() == 0);
                        assert(split_lines(v@.skip(next_pos as int)) =~= rest_lines);
                    },
                }
            }
            pos = next_pos;
        }
        proof {
            assert(v@.skip(n as int).len() == 0);
            assert(split_lines(v@.skip(pos as int)) =~= Seq::<Seq<char>>::empty());
            assert(done + Seq::<Seq<char>>::empty() =~= done);
        }
        Ok(Memory { pid, regions })
    }

    /// The process id this collection was loaded for.
    pub fn pid(&self) -> (r: u32)
        ensures
            r == self@.pid,
    {
        self.pid
    }

    /// The parsed regions, in map order.
    pub fn regions(&self) -> (r: &Vec<Region>)
        ensures
            r@.map_values(|reg: Region| reg@) == self@.regions,
    {
        &self.regions
    }

    /// The first region mapped exactly at `[start, end)`, or
    /// `RegionNotFound` if no region has that address range.
    pub fn find_region(&self, start: u64, end: u64) -> (r: Result<&Region, Error>)
        ensures
            match r {
                Ok(reg) => exists|i: int|
                    0 <= i < self@.regions.len() && self@.regions[i].start == start
                        && self@.regions[i].end == end && reg@ == self@.regions[i] && (forall|
                        j: int,
                    |
                        0 <= j < i ==> !(self@.regions[j].start == start && self@.regions[j].end
                            == end)),
                Err(e) => e@ == (ErrorV::RegionNotFound { start, end }) && forall|i: int|
                    0 <= i < self@.regions.len() ==> !(self@.regions[i].start == start
                        && self@.regions[i].end == end),
            },
    {
        let m = self.regions.len();
        let mut i: usize = 0;
        while i < m
            invariant
                i <= m,
                m == self.regions@.len(),
                self@.regions.len() == m,
                forall|j: int|
                    0 <= j < i ==> !(self@.regions[j].start == start && self@.regions[j].end
                        == end),
            decreases m - i,
        {
            let reg = &self.regions[i];
            if reg.start == start && reg.end == end {
                proof {
                    assert(self@.regions[i as int] == reg@);
                }
                return Ok(reg);
            }
            proof {
                assert(self@.regions[i as int] == self.regions@[i as int]@);
            }
            i = i + 1;
        }
        Err(Error::RegionNotFound { start, end })
    }
}

} // verus!

verus! {

/// The set of characters the permissions field allows at each of its four
/// positions.
pub open spec fn perm_char_allowed(i: int, c: char) -> bool {
    if i == 0 {
        c == 'r' || c == '-'
    } else if i == 1 {
        c == 'w' || c == '-'
    } else if i == 2 {
        c == 'x' || c == '-'
    } else {
        c == 'p' || c == 's'
    }
}

/// The sub-field name of each permission position.
pub open spec fn perm_subfield(i: int) -> FieldName {
    if i == 0 {
        FieldName::PermissionsRead
    } else if i == 1 {
        FieldName::PermissionsWrite
    } else if i == 2 {
        FieldName::PermissionsExec
    } else {
        FieldName::PermissionsPrivateShared
    }
}

/// At every one of the four permission positions, every character outside
/// that position's allowed set is rejected naming exactly that sub-field
/// and carrying exactly that character.
pub proof fn lemma_perms_position_rejected(t: Seq<char>, i: int)
    requires
        0 <= i < 4,
        i < t.len(),
        forall|j: int| 0 <= j < i ==> perm_char_allowed(j, t[j]),
        !perm_char_allowed(i, t[i]),
    ensures
        parse_perms_spec(t) == Err::<Permissions, ErrorV>(
            ErrorV::MalformedRegionField { field: perm_subfield(i), value: seq![t[i]] },
        ),
{
}

/// A permissions token shorter than four characters, whose present
/// positions are all allowed, is rejected naming the whole field and
/// carrying the whole token.
pub proof fn lemma_perms_short_rejected(t: Seq<char>)
    requires
        t.len() < 4,
        forall|j: int| 0 <= j < t.len() ==> perm_char_allowed(j, t[j]),
    ensures
        parse_perms_spec(t) == Err::<Permissions, ErrorV>(
            ErrorV::MalformedRegionField { field: FieldName::Permissions, value: t },
        ),
{
}

/// The device field splits at its rightmost colon: with the colon at `k`
/// and none after it, the major half is everything before `k` and the
/// minor half everything after it.
pub proof fn lemma_device_rightmost_colon(t: Seq<char>, k: int, major: u8, minor: u8)
    requires
        0 <= k < t.len(),
        t[k] == ':',
        forall|j: int| k < j < t.len() ==> t[j] != ':',
        parse_u8_hex(t.take(k)) == Some(major),
        parse_u8_hex(t.skip(k + 1)) == Some(minor),
    ensures
        parse_device_spec(t) == Ok::<Device, ErrorV>(Device { major, minor }),
{
    crate::text::lemma_index_of_last_at(t, ':', k);
}

/// A device field with no colon at all is rejected as malformed, naming
/// the device field and carrying the whole token.
pub proof fn lemma_device_no_colon(t: Seq<char>)
    requires
        forall|j: int| 0 <= j < t.len() ==> t[j] != ':',
    ensures
        parse_device_spec(t) == Err::<Device, ErrorV>(
            ErrorV::MalformedRegionField { field: FieldName::Device, value: t },
        ),
{
    crate::text::lemma_index_of_last_none(t, ':');
}

/// The number of whitespace-separated fields of a record line.
pub open spec fn token_count(s: Seq<char>) -> nat
    decreases s.len(),
    via token_count_decreases
{
    if take_tok(skip_ws(s)).len() == 0 {
        0
    } else {
        (1 + token_count(after_tok(skip_ws(s)))) as nat
    }
}

#[via_fn]
proof fn token_count_decreases(s: Seq<char>) {
    crate::text::lemma_skip_ws_len(s);
    crate::text::lemma_tok_split(skip_ws(s));
}

/// The name of each required field, in field order.
pub open spec fn nth_field(k: nat) -> FieldName {
    if k == 0 {
        FieldName::StartEnd
    } else if k == 1 {
        FieldName::Permissions
    } else if k == 2 {
        FieldName::Offset
    } else if k == 3 {
        FieldName::Device
    } else {
        FieldName::Inode
    }
}

/// A record line with fewer than five whitespace-separated fields is
/// rejected as missing the first absent field, in field order: start-end,
/// permissions, offset, device, inode.
pub proof fn lemma_missing_field(line: Seq<char>)
    requires
        token_count(line) < 5,
    ensures
        parse_region_spec(line) == Err::<RegionV, ErrorV>(
            ErrorV::MissingRegionField(nth_field(token_count(line))),
        ),
{
    let r1 = skip_ws(line);
    let t1 = take_tok(r1);
    let s1 = after_tok(r1);
    let r2 = skip_ws(s1);
    let t2 = take_tok(r2);
    let s2 = after_tok(r2);
    let r3 = skip_ws(s2);
    let t3 = take_tok(r3);
    let s3 = after_tok(r3);
    let r4 = skip_ws(s3);
    let t4 = take_tok(r4);
    let s4 = after_tok(r4);
    let r5 = skip_ws(s4);
    let t5 = take_tok(r5);
    if t1.len() == 0 {
        assert(token_count(line) == 0);
    } else if t2.len() == 0 {
        assert(token_count(line) == 1 + token_count(s1));
        assert(token_count(s1) == 0);
    } else if t3.len() == 0 {
        assert(token_count(line) == 1 + token_count(s1));
        assert(token_count(s1) == 1 + token_count(s2));
        assert(token_count(s2) == 0);
    } else if t4.len() == 0 {
        assert(token_count(line) == 1 + token_count(s1));
        assert(token_count(s1) == 1 + token_count(s2));
        assert(token_count(s2) == 1 + token_count(s3));
        assert(token_count(s3) == 0);
    } else if t5.len() == 0 {
        assert(token_count(line) == 1 + token_count(s1));
        assert(token_count(s1) == 1 + token_count(s2));
        assert(token_count(s2) == 1 + token_count(s3));
        assert(token_count(s3) == 1 + token_count(s4));
        assert(token_count(s4) == 0);
    } else {
        assert(token_count(line) == 1 + token_count(s1));
        assert(token_count(s1) == 1 + token_count(s2));
        assert(token_count(s2) == 1 + token_count(s3));
        assert(token_count(s3) == 1 + token_count(s4));
        assert(token_count(s4) >= 1);
    }
}

} // verus!

verus! {

/// The four-character permissions field of a canonical record: `r`, `w`,
/// `x` or `-` at the first three positions, `p` or `s` at the fourth.
pub open spec fn perm_token(p: Permissions) -> Seq<char> {
    seq![
        if p.read {
            'r'
        } else {
            '-'
        },
        if p.write {
            'w'
        } else {
            '-'
        },
        if p.execute {
            'x'
        } else {
            '-'
        },
        if p.private {
            'p'
        } else {
            's'
        },
    ]
}

/// The canonical record line for a region value: the five fields in order,
/// separated by single spaces, with the backing file appended after the
/// inode when one exists.
pub open spec fn record_chars(rv: RegionV) -> Seq<char> {
    uint_digits(rv.start as nat, 16) + seq!['-'] + uint_digits(rv.end as nat, 16) + seq![' ']
        + perm_token(rv.perms) + seq![' '] + uint_digits(rv.offset as nat, 16) + seq![' ']
        + dev_byte_chars(rv.dev.major) + seq![':'] + dev_byte_chars(rv.dev.minor) + seq![' ']
        + uint_digits(rv.inode as nat, 10) + (match rv.file {
        None => Seq::<char>::empty(),
        Some(f) => seq![' '] + f,
    })
}

/// A region value that a successful parse can produce: the start lies
/// below the end, exactly one of the private and shared flags is set, and
/// the backing file, when present, is non-empty and does not begin with
/// whitespace.
pub open spec fn region_canonical(rv: RegionV) -> bool {
    &&& rv.start < rv.end
    &&& rv.perms.private != rv.perms.shared
    &&& match rv.file {
        None => true,
        Some(f) => f.len() > 0 && !crate::text::is_ws(f[0]),
    }
}

proof fn lemma_dev_byte_parses(n: u8)
    ensures
        parse_u8_hex(dev_byte_chars(n)) == Some(n),
        all_digits(dev_byte_chars(n), 16),
{
    let hi = (n / 16) as nat;
    let lo = (n % 16) as nat;
    crate::text::lemma_digit_char_val(hi, 16);
    crate::text::lemma_digit_char_val(lo, 16);
    let s = dev_byte_chars(n);
    assert(all_digits(s, 16));
    assert(s.drop_last() =~= seq![crate::text::digit_char(hi)]);
    assert(seq![crate::text::digit_char(hi)].drop_last() =~= Seq::<char>::empty());
    assert(digits_value(Seq::<char>::empty(), 16) == 0);
    assert(digits_value(seq![crate::text::digit_char(hi)], 16) == hi);
    assert(digits_value(s, 16) == hi * 16 + lo);
    assert(s[0] != '+');
}

proof fn lemma_perm_token_parses(p: Permissions)
    requires
        p.private != p.shared,
    ensures
        parse_perms_spec(perm_token(p)) == Ok::<Permissions, ErrorV>(p),
        crate::text::no_ws(perm_token(p)),
{
    let t = perm_token(p);
    assert(t[0] == (if p.read {
        'r'
    } else {
        '-'
    }));
    assert(t[1] == (if p.write {
        'w'
    } else {
        '-'
    }));
    assert(t[2] == (if p.execute {
        'x'
    } else {
        '-'
    }));
    assert(t[3] == (if p.private {
        'p'
    } else {
        's'
    }));
}

/// Parsing inverts the canonical record: for every region value a
/// successful parse can produce, parsing its canonical record line yields
/// exactly that value, every field preserved.  Together with the render
/// contract this pins the round trip: parse, then render, reproduces the
/// parsed fields byte-exactly in the canonical form.
#[verifier::rlimit(100)]
#[verifier::spinoff_prover]
pub proof fn lemma_parse_inverts_record(rv: RegionV)
    requires
        region_canonical(rv),
    ensures
        parse_region_spec(record_chars(rv)) == Ok::<RegionV, ErrorV>(rv),
{
    let hs = uint_digits(rv.start as nat, 16);
    let he = uint_digits(rv.end as nat, 16);
    let ho = uint_digits(rv.offset as nat, 16);
    let hi = uint_digits(rv.inode as nat, 10);
    let dmaj = dev_byte_chars(rv.dev.major);
    let dmin = dev_byte_chars(rv.dev.minor);
    let t1 = hs + seq!['-'] + he;
    let t2 = perm_token(rv.perms);
    let t3 = ho;
    let t4 = dmaj + seq![':'] + dmin;
    let t5 = hi;
    let fp: Seq<char> = match rv.file {
        None => Seq::<char>::empty(),
        Some(f) => seq![' '] + f,
    };
    let line = record_chars(rv);

    crate::text::lemma_uint_digits_wf(rv.start as nat, 16);
    crate::text::lemma_uint_digits_wf(rv.end as nat, 16);
    crate::text::lemma_uint_digits_wf(rv.offset as nat, 16);
    crate::text::lemma_uint_digits_wf(rv.inode as nat, 10);
    crate::text::lemma_digits_no_ws(hs, 16);
    crate::text::lemma_digits_no_ws(he, 16);
    crate::text::lemma_digits_no_ws(ho, 16);
    crate::text::lemma_digits_no_ws(hi, 10);
    lemma_dev_byte_parses(rv.dev.major);
    lemma_dev_byte_parses(rv.dev.minor);
    crate::text::lemma_digits_no_ws(dmaj, 16);
    crate::text::lemma_digits_no_ws(dmin, 16);
    lemma_perm_token_parses(rv.perms);

    assert(crate::text::no_ws(seq!['-'])) by {
        assert(seq!['-'][0] == '-');
    }
    assert(crate::text::no_ws(seq![':'])) by {
        assert(seq![':'][0] == ':');
    }
    crate::text::lemma_no_ws_concat(hs, seq!['-']);
    crate::text::lemma_no_ws_concat(hs + seq!['-'], he);
    crate::text::lemma_no_ws_concat(dmaj, seq![':']);
    crate::text::lemma_no_ws_concat(dmaj + seq![':'], dmin);

    let rest5 = fp;
    let rest4 = seq![' '] + (t5 + rest5);
    let rest3 = seq![' '] + (t4 + rest4);
    let rest2 = seq![' '] + (t3 + rest3);
    let rest1 = seq![' '] + (t2 + rest2);
    assert(line =~= t1 + rest1);

    assert((t1 + rest1)[0] == t1[0]);
    crate::text::lemma_skip_ws_noop(line);
    crate::text::lemma_token_prefix(t1, rest1);
    assert(take_tok(skip_ws(line)) == t1);
    assert(after_tok(skip_ws(line)) == rest1);

    crate::text::lemma_skip_ws_space(t2 + rest2);
    assert((t2 + rest2)[0] == t2[0]);
    crate::text::lemma_skip_ws_noop(t2 + rest2);
    crate::text::lemma_token_prefix(t2, rest2);

    crate::text::lemma_skip_ws_space(t3 + rest3);
    assert((t3 + rest3)[0] == t3[0]);
    crate::text::lemma_skip_ws_noop(t3 + rest3);
    crate::text::lemma_token_prefix(t3, rest3);

    crate::text::lemma_skip_ws_space(t4 + rest4);
    assert((t4 + rest4)[0] == t4[0]);
    crate::text::lemma_skip_ws_noop(t4 + rest4);
    crate::text::lemma_token_prefix(t4, rest4);

    crate::text::lemma_skip_ws_space(t5 + rest5);
    assert((t5 + rest5)[0] == t5[0]);
    crate::text::lemma_skip_ws_noop(t5 + rest5);
    assert(rest5.len() == 0 || crate::text::is_ws(rest5[0]));
    crate::text::lemma_token_prefix(t5, rest5);

    let rest = skip_ws(after_tok(skip_ws(t5 + rest5)));
    assert(after_tok(skip_ws(t5 + rest5)) == rest5);
    match rv.file {
        None => {
            assert(rest.len() == 0);
        },
        Some(f) => {
            crate::text::lemma_skip_ws_space(f);
            crate::text::lemma_skip_ws_noop(f);
            assert(rest == f);
        },
    }

    assert(t1[hs.len() as int] == '-');
    assert forall|j: int| 0 <= j < hs.len() implies t1[j] != '-' by {
        assert(t1[j] == hs[j]);
    }
    crate::text::lemma_index_of_first_at(t1, '-', hs.len() as int);
    assert(t1.take(hs.len() as int) =~= hs);
    assert(t1.skip(hs.len() as int + 1) =~= he);
    crate::text::lemma_parse_uint_digits(rv.start, 16);
    crate::text::lemma_parse_uint_digits(rv.end, 16);
    assert(parse_start_end_spec(t1) == Ok::<(u64, u64), ErrorV>((rv.start, rv.end)));

    crate::text::lemma_parse_uint_digits(rv.offset, 16);
    crate::text::lemma_parse_uint_digits(rv.inode, 10);

    assert(t4[dmaj.len() as int] == ':');
    assert forall|j: int| dmaj.len() < j < t4.len() implies t4[j] != ':' by {
        assert(t4[j] == dmin[j - dmaj.len() - 1]);
    }
    crate::text::lemma_index_of_last_at(t4, ':', dmaj.len() as int);
    assert(t4.take(dmaj.len() as int) =~= dmaj);
    assert(t4.skip(dmaj.len() as int + 1) =~= dmin);
    assert(parse_device_spec(t4) == Ok::<Device, ErrorV>(
        Device { major: rv.dev.major, minor: rv.dev.minor },
    ));

    assert(rv.dev == (Device { major: rv.dev.major, minor: rv.dev.minor }));
    let parsed = parse_region_spec(line);
    assert(parsed is Ok);
    let out = parsed->Ok_0;
    assert(out.file == rv.file);
    assert(out =~= rv) by {
        assert(out.start == rv.start && out.end == rv.end && out.perms == rv.perms && out.offset
            == rv.offset && out.dev == rv.dev && out.inode == rv.inode && out.file == rv.file);
    }
}

} // verus!

verus! {

/// Every region a successful parse produces is canonical: its start lies
/// below its end, exactly one of the private and shared flags is set, and
/// its backing file, when present, is non-empty and does not begin with
/// whitespace.  So the round trip through the canonical record applies to
/// every parsed region.
pub proof fn lemma_parsed_region_canonical(line: Seq<char>, rv: RegionV)
    requires
        parse_region_spec(line) == Ok::<RegionV, ErrorV>(rv),
    ensures
        region_canonical(rv),
{
    let r5 = skip_ws(after_tok(skip_ws(after_tok(skip_ws(after_tok(skip_ws(after_tok(skip_ws(
        line,
    )))))))));
    let rest = skip_ws(after_tok(r5));
    crate::text::lemma_skip_ws_head(after_tok(r5));
}

} // verus!
