//! The staged-file index entry that the cache persists: one record per
//! staged path, carrying the blob id, the size and the raw filesystem
//! identity fields used for fast change detection.

use vstd::prelude::*;

verus! {

/// One staged path of the repository index at cache-build time.
///
/// `path` is the repository-relative name as raw bytes (filesystems
/// permit non-UTF8 names, so it is kept byte-exact), `content_id` the
/// content-derived id of the staged blob. The remaining fields are the
/// stat-derived identity and the bit-packed staging metadata, carried
/// through the cache unchanged.
pub struct IndexEntry {
    pub path: Vec<u8>,
    pub content_id: Vec<u8>,
    pub file_size: u32,
    pub ctime_secs: i32,
    pub ctime_nanos: u32,
    pub mtime_secs: i32,
    pub mtime_nanos: u32,
    pub dev: u32,
    pub ino: u32,
    pub mode: u32,
    pub uid: u32,
    pub gid: u32,
    pub flags: u16,
    pub flags_extended: u16,
}

/// The mathematical value of an entry: byte sequences for the two
/// variable-length fields, machine integers for the rest.
#[verifier::ext_equal]
pub ghost struct IndexEntryView {
    pub path: Seq<u8>,
    pub content_id: Seq<u8>,
    pub file_size: u32,
    pub ctime_secs: i32,
    pub ctime_nanos: u32,
    pub mtime_secs: i32,
    pub mtime_nanos: u32,
    pub dev: u32,
    pub ino: u32,
    pub mode: u32,
    pub uid: u32,
    pub gid: u32,
    pub flags: u16,
    pub flags_extended: u16,
}

impl View for IndexEntry {
    type V = IndexEntryView;

    open spec fn view(&self) -> IndexEntryView {
        IndexEntryView {
            path: self.path@,
            content_id: self.content_id@,
            file_size: self.file_size,
            ctime_secs: self.ctime_secs,
            ctime_nanos: self.ctime_nanos,
            mtime_secs: self.mtime_secs,
            mtime_nanos: self.mtime_nanos,
            dev: self.dev,
            ino: self.ino,
            mode: self.mode,
            uid: self.uid,
            gid: self.gid,
            flags: self.flags,
            flags_extended: self.flags_extended,
        }
    }
}

/// An entry the binary format can hold: both variable-length fields
/// short enough for their 32-bit length prefixes.
pub open spec fn wf_entry(e: IndexEntryView) -> bool {
    &&& e.path.len() <= u32::MAX
    &&& e.content_id.len() <= u32::MAX
}

impl IndexEntry {
    pub fn clone_entry(&self) -> (r: IndexEntry)
        ensures
            r@ == self@,
    {
        let r = IndexEntry {
            path: crate::clone_bytes(&self.path),
            content_id: crate::clone_bytes(&self.content_id),
            file_size: self.file_size,
            ctime_secs: self.ctime_secs,
            ctime_nanos: self.ctime_nanos,
            mtime_secs: self.mtime_secs,
            mtime_nanos: self.mtime_nanos,
            dev: self.dev,
            ino: self.ino,
            mode: self.mode,
            uid: self.uid,
            gid: self.gid,
            flags: self.flags,
            flags_extended: self.flags_extended,
        };
        proof {
            assert(r@ =~= self@);
        }
        r
    }
}

} // verus!
