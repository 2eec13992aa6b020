//! The layout of directory listings.
//!
//! `getattrlistbulk(2)` fills a buffer with hundreds of entries of a directory in
//! one call. Each entry is laid out like this:
//!
//! ```text
//!   0  u32          entry length, itself included
//!   4  [u32; 5]     returned attributes
//!  24  u32          ATTR_CMN_ERROR
//!  28  i32, u32     ATTR_CMN_NAME: where the name lies, counted from here, and its
//!                   length with the closing NUL
//!  36  u32          ATTR_CMN_OBJTYPE
//!  40  u64          ATTR_CMN_FILEID
//! ```
//!
//! The error field stands directly behind the returned attributes, not where its
//! bit would put it, and no field is padded to its alignment.

use vstd::prelude::*;

use crate::bytes::{get_u32, get_u64, to_signed32, to_signed64};
#[allow(unused_imports)]
use crate::bytes::{signed32, signed64, u32_at, u64_at};

verus! {

/// Which attributes are asked for (`struct attrlist`).
#[derive(Clone, Copy, PartialEq, Eq, Debug, Structural)]
pub struct Attrlist {
    pub bitmapcount: u16,
    pub reserved: u16,
    pub commonattr: u32,
    pub volattr: u32,
    pub dirattr: u32,
    pub fileattr: u32,
    pub forkattr: u32,
}

impl Default for Attrlist {
    fn default() -> (r: Attrlist)
        ensures
            r == (Attrlist {
                bitmapcount: 0,
                reserved: 0,
                commonattr: 0,
                volattr: 0,
                dirattr: 0,
                fileattr: 0,
                forkattr: 0,
            }),
    {
        Attrlist {
            bitmapcount: 0,
            reserved: 0,
            commonattr: 0,
            volattr: 0,
            dirattr: 0,
            fileattr: 0,
            forkattr: 0,
        }
    }
}

/// Number of bitmaps in an attribute list.
pub const ATTR_BIT_MAP_COUNT: u16 = 5;

pub const ATTR_CMN_NAME: u32 = 0x0000_0001;

pub const ATTR_CMN_OBJTYPE: u32 = 0x0000_0008;

pub const ATTR_CMN_MODTIME: u32 = 0x0000_0400;

pub const ATTR_CMN_FILEID: u32 = 0x0200_0000;

pub const ATTR_CMN_ERROR: u32 = 0x2000_0000;

/// Has to be asked for; comes first in every entry.
pub const ATTR_CMN_RETURNED_ATTRS: u32 = 0x8000_0000;

pub const ATTR_FILE_DATALENGTH: u32 = 0x0000_0200;

pub const FSOPT_NOFOLLOW: u64 = 0x0000_0001;

/// Attributes that cannot be had still take up their place, so that the fields of
/// an entry lie at fixed offsets.
pub const FSOPT_PACK_INVAL_ATTRS: u64 = 0x0000_0008;

/// A regular file.
pub const VREG: u32 = 1;

/// A directory.
pub const VDIR: u32 = 2;

/// A symbolic link.
pub const VLNK: u32 = 5;

/// Offset of the name reference in an entry.
pub const OFF_NAME_REF: usize = 28;

/// Offset of the object type in an entry.
pub const OFF_OBJTYPE: usize = 36;

/// An attribute list together with the shortest entry that it gives.
pub struct Layout {
    pub attrlist: Attrlist,
    /// No whole entry is shorter.
    pub min_len: usize,
}

/// What is asked for of every entry: five bits, in the first bitmap.
pub open spec fn wanted_attributes() -> Attrlist {
    Attrlist {
        bitmapcount: 5,
        reserved: 0,
        commonattr: 0xa200_0009,
        volattr: 0,
        dirattr: 0,
        fileattr: 0,
        forkattr: 0,
    }
}

/// Asks for what a directory entry itself holds: name, type and file number. Size
/// and time would cost a look-up per file.
pub fn build_attrlist_fast() -> (r: Layout)
    ensures
        r.min_len == 48,
        r.attrlist == (Attrlist {
            bitmapcount: ATTR_BIT_MAP_COUNT,
            reserved: 0,
            commonattr: ATTR_CMN_RETURNED_ATTRS | ATTR_CMN_NAME | ATTR_CMN_OBJTYPE | ATTR_CMN_FILEID
                | ATTR_CMN_ERROR,
            volattr: 0,
            dirattr: 0,
            fileattr: 0,
            forkattr: 0,
        }),
        r.attrlist == wanted_attributes(),
{
    proof {
        assert(0x8000_0000u32 | 1 | 8 | 0x200_0000 | 0x2000_0000 == 0xa200_0009u32) by (bit_vector);
    }
    Layout {
        attrlist: Attrlist {
            bitmapcount: ATTR_BIT_MAP_COUNT,
            reserved: 0,
            commonattr: ATTR_CMN_RETURNED_ATTRS | ATTR_CMN_NAME | ATTR_CMN_OBJTYPE | ATTR_CMN_FILEID
                | ATTR_CMN_ERROR,
            volattr: 0,
            dirattr: 0,
            fileattr: 0,
            forkattr: 0,
        },
        min_len: 48,
    }
}

/// Reads a `u32`, aligned or not.
pub fn rd_u32(buf: &[u8], off: usize) -> (r: u32)
    requires
        off + 4 <= buf.len(),
    ensures
        r == u32_at(buf@, off as int),
{
    get_u32(buf, off)
}

/// Reads an `i32`, aligned or not.
pub fn rd_i32(buf: &[u8], off: usize) -> (r: i32)
    requires
        off + 4 <= buf.len(),
    ensures
        r == signed32(u32_at(buf@, off as int)),
{
    to_signed32(get_u32(buf, off))
}

/// Reads an `i64`, aligned or not.
pub fn rd_i64(buf: &[u8], off: usize) -> (r: i64)
    requires
        off + 8 <= buf.len(),
    ensures
        r == signed64(u64_at(buf@, off as int)),
{
    to_signed64(get_u64(buf, off))
}

/// What is asked for and what is read, as the system numbers it.
pub proof fn law_listings_are_numbered_so()
    ensures
        ATTR_BIT_MAP_COUNT == 5,
        ATTR_CMN_NAME == 1,
        ATTR_CMN_OBJTYPE == 8,
        ATTR_CMN_MODTIME == 0x400,
        ATTR_CMN_FILEID == 0x200_0000,
        ATTR_CMN_ERROR == 0x2000_0000,
        ATTR_CMN_RETURNED_ATTRS == 0x8000_0000u32,
        ATTR_FILE_DATALENGTH == 0x200,
        FSOPT_NOFOLLOW == 1,
        FSOPT_PACK_INVAL_ATTRS == 8,
        VREG == 1,
        VDIR == 2,
        VLNK == 5,
        OFF_NAME_REF == 28,
        OFF_OBJTYPE == 36,
{
}

} // verus!
