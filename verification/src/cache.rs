//! The index cache: a versioned, transactional, binary-encoded cache
//! of the repository's staged-entry index, keyed by a fingerprint of
//! repository state and backed by an embedded key-value store.
//!
//! The read path computes the fingerprint, fetches the record under
//! it and decides: an absent record is a miss, an undecodable one is
//! corrupt, a wrong schema version is a version mismatch. All three
//! collapse into one rebuild path that enumerates the live index,
//! encodes it at the current schema version and writes through. Only
//! a store that cannot be reached at all is surfaced to the caller.

use vstd::prelude::*;

use crate::CACHE_VERSION;
use crate::codec::{CachedIndexSet, decode_index_set, enc_set, encode_index_set, entry_views,
    wf_entries};
use crate::fingerprint::{IndexStat, cache_key};
use crate::index_entry::{IndexEntry, wf_entry};
use crate::repo::live_index_entries;

use redb::ReadableDatabase;

verus! {

/// Failures of the index cache. The first three are recoverable and
/// resolved internally by a live rebuild; only `StorageUnavailable`
/// reaches the caller.
#[derive(Clone, Copy, PartialEq, Eq, Structural, Debug)]
pub enum CacheError {
    CacheMiss,
    VersionMismatch,
    Corrupt,
    StorageUnavailable,
}

/// What a stored record means for the read path: serve the decoded
/// entries, or rebuild from the live index for the given reason.
pub enum LookupOutcome {
    Hit(Vec<IndexEntry>),
    Rebuild(CacheError),
}

/// Decides the read path from what the store returned under the
/// fingerprint key. A hit is served exactly when the record is byte
/// for byte the encoding of an entry set at the expected version;
/// an absent record is a miss, an undecodable one is corrupt, and a
/// well-formed record at any other version is a version mismatch.
pub fn evaluate_lookup(stored: Option<Vec<u8>>, expected_version: u32) -> (r: LookupOutcome)
    ensures
        match stored {
            None => r matches LookupOutcome::Rebuild(e) && e == CacheError::CacheMiss,
            Some(bytes) => match r {
                LookupOutcome::Hit(entries) => {
                    &&& wf_entries(entry_views(entries@))
                    &&& enc_set(expected_version, entry_views(entries@)) == bytes@
                },
                LookupOutcome::Rebuild(e) => {
                    ||| (e == CacheError::Corrupt && forall|v: u32, es: Seq<
                        crate::index_entry::IndexEntryView,
                    >| wf_entries(es) ==> enc_set(v, es) != bytes@)
                    ||| (e == CacheError::VersionMismatch && exists|v: u32, es: Seq<
                        crate::index_entry::IndexEntryView,
                    >| v != expected_version && wf_entries(es) && enc_set(v, es) == bytes@)
                },
            },
        },
{
    match stored {
        None => LookupOutcome::Rebuild(CacheError::CacheMiss),
        Some(bytes) => match decode_index_set(&bytes) {
            None => LookupOutcome::Rebuild(CacheError::Corrupt),
            Some(set) => {
                if set.version == expected_version {
                    LookupOutcome::Hit(set.entries)
                } else {
                    proof {
                        let v = set.version;
                        let es = entry_views(set.entries@);
                        assert(v != expected_version && wf_entries(es) && enc_set(v, es)
                            == bytes@);
                    }
                    LookupOutcome::Rebuild(CacheError::VersionMismatch)
                }
            },
        },
    }
}

/// True when every entry fits the binary format's length prefixes.
pub fn entries_encodable(entries: &Vec<IndexEntry>) -> (r: bool)
    ensures
        r == wf_entries(entry_views(entries@)),
{
    let n = entries.len();
    let mut i: usize = 0;
    while i < n
        invariant
            i <= n == entries@.len(),
            forall|k: int| 0 <= k < i ==> wf_entry(#[trigger] entry_views(entries@)[k]),
        decreases n - i,
    {
        if (entries[i].path.len() as u64) > 0xFFFF_FFFFu64 || (entries[i].content_id.len()
            as u64) > 0xFFFF_FFFFu64 {
            proof {
                assert(!wf_entry(entry_views(entries@)[i as int]));
            }
            return false;
        }
        proof {
            assert(wf_entry(entry_views(entries@)[i as int]));
        }
        i = i + 1;
    }
    true
}

/// The per-repository cache: an embedded store beside the repository's
/// metadata, holding one table from fingerprint keys to encoded
/// payloads.
pub struct GitIndexCache {
    db: redb::Database,
    repo_path: Vec<u8>,
}

#[verifier::external_type_specification]
#[verifier::external_body]
pub struct ExDatabase(redb::Database);

/// Relies on redb::Database::create (creates or opens the store file;
/// a reader never observes a partially written value, writers
/// serialize), redb::Database::begin_write, WriteTransaction::
/// open_table (creates the table if absent) and WriteTransaction::
/// commit.
#[verifier::external_body]
fn store_open(location: &String) -> (r: Result<redb::Database, CacheError>)
    ensures
        r matches Err(e) ==> e == CacheError::StorageUnavailable,
{
    let table: redb::TableDefinition<&str, &[u8]> = redb::TableDefinition::new("git_index");
    let db = match redb::Database::create(location.as_str()) {
        Ok(db) => db,
        Err(_) => return Err(CacheError::StorageUnavailable),
    };
    let txn = db.begin_write().map_err(|_| CacheError::StorageUnavailable)?;
    txn.open_table(table).map_err(|_| CacheError::StorageUnavailable)?;
    txn.commit().map_err(|_| CacheError::StorageUnavailable)?;
    Ok(db)
}

/// Relies on redb::Database::begin_read, ReadTransaction::open_table,
/// ReadOnlyTable::get and AccessGuard::value: returns the bytes stored
/// under `key`, if any, in one read transaction (a snapshot).
#[verifier::external_body]
fn store_get(db: &redb::Database, key: &String) -> (r: Result<Option<Vec<u8>>, CacheError>)
    ensures
        r matches Err(e) ==> e == CacheError::StorageUnavailable,
{
    let table: redb::TableDefinition<&str, &[u8]> = redb::TableDefinition::new("git_index");
    let txn = db.begin_read().map_err(|_| CacheError::StorageUnavailable)?;
    let t = txn.open_table(table).map_err(|_| CacheError::StorageUnavailable)?;
    match t.get(key.as_str()) {
        Ok(Some(guard)) => Ok(Some(guard.value().to_vec())),
        Ok(None) => Ok(None),
        Err(_) => Err(CacheError::StorageUnavailable),
    }
}

/// Relies on redb::Database::begin_write, WriteTransaction::open_table,
/// Table::insert (replaces any previous value under the key) and
/// WriteTransaction::commit, which makes the upsert atomic.
#[verifier::external_body]
fn store_put(db: &redb::Database, key: &String, value: &Vec<u8>) -> (r: Result<(), CacheError>)
    ensures
        r matches Err(e) ==> e == CacheError::StorageUnavailable,
{
    let table: redb::TableDefinition<&str, &[u8]> = redb::TableDefinition::new("git_index");
    let txn = db.begin_write().map_err(|_| CacheError::StorageUnavailable)?;
    {
        let mut t = txn.open_table(table).map_err(|_| CacheError::StorageUnavailable)?;
        t.insert(key.as_str(), value.as_slice()).map_err(|_| CacheError::StorageUnavailable)?;
    }
    txn.commit().map_err(|_| CacheError::StorageUnavailable)?;
    Ok(())
}

/// Relies on redb::Database::begin_write, WriteTransaction::open_table,
/// Table::remove and WriteTransaction::commit: drops the record under
/// `key`, so the next lookup under it misses.
#[verifier::external_body]
fn store_remove(db: &redb::Database, key: &String) -> (r: Result<(), CacheError>)
    ensures
        r matches Err(e) ==> e == CacheError::StorageUnavailable,
{
    let table: redb::TableDefinition<&str, &[u8]> = redb::TableDefinition::new("git_index");
    let txn = db.begin_write().map_err(|_| CacheError::StorageUnavailable)?;
    {
        let mut t = txn.open_table(table).map_err(|_| CacheError::StorageUnavailable)?;
        t.remove(key.as_str()).map_err(|_| CacheError::StorageUnavailable)?;
    }
    txn.commit().map_err(|_| CacheError::StorageUnavailable)?;
    Ok(())
}

impl GitIndexCache {
    /// The raw bytes of the repository path this cache serves, as the
    /// fingerprint sees them.
    pub closed spec fn path_bytes(&self) -> Seq<u8> {
        self.repo_path@
    }

    /// The raw bytes of the repository path this cache serves.
    pub fn repo_path_bytes(&self) -> (r: &Vec<u8>)
        ensures
            r@ == self.path_bytes(),
    {
        &self.repo_path
    }

    /// Opens (or creates) the cache database for the repository at
    /// `repo_path`, in the repository's private metadata area.
    pub fn open(repo_path: &String) -> (r: Result<GitIndexCache, CacheError>)
        ensures
            r matches Ok(c) ==> c.path_bytes() == vstd::utf8::encode_utf8(repo_path@),
            r matches Err(e) ==> e == CacheError::StorageUnavailable,
    {
        let mut location = repo_path.clone();
        location.append("/.git/gitultra_index.redb");
        let db = match store_open(&location) {
            Ok(db) => db,
            Err(e) => {
                return Err(e);
            },
        };
        let path_bytes = repo_path.as_str().as_bytes_vec();
        Ok(GitIndexCache { db, repo_path: path_bytes })
    }

    /// Returns the current index entries, serving the stored record
    /// when it is the encoding of an entry set at the running schema
    /// version under the current fingerprint, and falling back to
    /// live enumeration (with write-through) on a miss, a corrupt
    /// record or a version mismatch. Entries returned on the cached
    /// path re-encode exactly to what the store held.
    pub fn get_index_entries(&self, repo: &git2::Repository, stat: &IndexStat) -> (r: Result<
        Vec<IndexEntry>,
        CacheError,
    >)
        ensures
            r matches Err(e) ==> e == CacheError::StorageUnavailable,
    {
        let key = cache_key(&self.repo_path, stat);
        let stored = match store_get(&self.db, &key) {
            Ok(s) => s,
            Err(e) => {
                return Err(e);
            },
        };
        match evaluate_lookup(stored, CACHE_VERSION) {
            LookupOutcome::Hit(entries) => Ok(entries),
            LookupOutcome::Rebuild(_reason) => {
                let live = match live_index_entries(repo) {
                    Ok(l) => l,
                    Err(e) => {
                        return Err(e);
                    },
                };
                if !entries_encodable(&live) {
                    // an entry exceeds the format's length prefixes:
                    // serve the live enumeration uncached
                    return Ok(live);
                }
                let set = CachedIndexSet { version: CACHE_VERSION, entries: live };
                let bytes = encode_index_set(&set);
                match store_put(&self.db, &key, &bytes) {
                    Ok(()) => Ok(set.entries),
                    Err(e) => Err(e),
                }
            },
        }
    }

    /// Writes the given entries through to the store under the
    /// current fingerprint, at the running schema version.
    pub fn update_index(&self, entries: &Vec<IndexEntry>, stat: &IndexStat) -> (r: Result<
        (),
        CacheError,
    >)
        requires
            wf_entries(entry_views(entries@)),
        ensures
            r matches Err(e) ==> e == CacheError::StorageUnavailable,
    {
        let key = cache_key(&self.repo_path, stat);
        let mut copies: Vec<IndexEntry> = Vec::new();
        let n = entries.len();
        let mut i: usize = 0;
        while i < n
            invariant
                i <= n == entries@.len(),
                copies@.len() == i,
                forall|k: int| 0 <= k < i ==> entry_views(copies@)[k] == entry_views(
                    entries@)[k],
            decreases n - i,
        {
            copies.push(entries[i].clone_entry());
            i = i + 1;
        }
        proof {
            assert(entry_views(copies@) =~= entry_views(entries@));
        }
        let set = CachedIndexSet { version: CACHE_VERSION, entries: copies };
        let bytes = encode_index_set(&set);
        store_put(&self.db, &key, &bytes)
    }

    /// Forces the next `get_index_entries` under the same repository
    /// state to rebuild from the live index.
    pub fn invalidate(&self, stat: &IndexStat) -> (r: Result<(), CacheError>)
        ensures
            r matches Err(e) ==> e == CacheError::StorageUnavailable,
    {
        let key = cache_key(&self.repo_path, stat);
        store_remove(&self.db, &key)
    }
}

} // verus!
