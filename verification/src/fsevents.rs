//! What a file system event carries.
//!
//! FSEvents is the change journal of the file system. Two of its properties matter
//! to an index: events since a stored id are replayed, so changes made while nobody
//! watched are not lost; and each volume's event database has a UUID, which changes
//! when the database is thrown away and the stored id with it loses its meaning.

use vstd::prelude::*;

verus! {

// --- flags for a stream ---

/// Report events per file rather than per directory.
pub const FLAG_FILE_EVENTS: u32 = 0x0000_0010;

/// Do not hold back the first batch.
pub const FLAG_NO_DEFER: u32 = 0x0000_0002;

/// Report when the watched root itself is moved.
pub const FLAG_WATCH_ROOT: u32 = 0x0000_0004;

// --- flags of an event ---

/// Events were dropped: what is known of this subtree cannot be trusted.
pub const EV_MUST_SCAN_SUBDIRS: u32 = 0x0000_0001;

pub const EV_USER_DROPPED: u32 = 0x0000_0002;

pub const EV_KERNEL_DROPPED: u32 = 0x0000_0004;

/// Event ids have wrapped around and no longer compare.
pub const EV_IDS_WRAPPED: u32 = 0x0000_0008;

/// The replay of past events is over.
pub const EV_HISTORY_DONE: u32 = 0x0000_0010;

pub const EV_ROOT_CHANGED: u32 = 0x0000_0020;

pub const EV_MOUNT: u32 = 0x0000_0040;

pub const EV_UNMOUNT: u32 = 0x0000_0080;

pub const EV_ITEM_CREATED: u32 = 0x0000_0100;

pub const EV_ITEM_REMOVED: u32 = 0x0000_0200;

pub const EV_ITEM_RENAMED: u32 = 0x0000_0800;

pub const EV_ITEM_MODIFIED: u32 = 0x0000_1000;

pub const EV_ITEM_IS_FILE: u32 = 0x0001_0000;

pub const EV_ITEM_IS_DIR: u32 = 0x0002_0000;

pub const EV_ITEM_IS_SYMLINK: u32 = 0x0004_0000;

/// In place of an event id: only events from now on.
pub const SINCE_NOW: u64 = 0xFFFF_FFFF_FFFF_FFFF;

/// One event.
#[derive(Clone)]
pub struct Event {
    pub path: Vec<u8>,
    pub flags: u32,
    pub id: u64,
}

/// What is asked of the stream of events, as the system numbers it.
pub proof fn law_streams_are_numbered_so()
    ensures
        FLAG_FILE_EVENTS == 0x10,
        FLAG_NO_DEFER == 2,
        FLAG_WATCH_ROOT == 4,
        SINCE_NOW == u64::MAX,
{
}

} // verus!
