use gitultra::cache::{evaluate_lookup, CacheError, GitIndexCache, LookupOutcome};
use gitultra::codec::{encode_index_set, CachedIndexSet};
use gitultra::fingerprint::{cache_key, IndexStat};
use gitultra::index_entry::IndexEntry;
use gitultra::CACHE_VERSION;

fn entry(path: &[u8]) -> IndexEntry {
    IndexEntry {
        path: path.to_vec(),
        content_id: vec![0x42; 20],
        file_size: 5,
        ctime_secs: 10,
        ctime_nanos: 0,
        mtime_secs: 20,
        mtime_nanos: 0,
        dev: 0,
        ino: 0,
        mode: 0o100644,
        uid: 0,
        gid: 0,
        flags: 0,
        flags_extended: 0,
    }
}

#[test]
fn empty_store_is_a_miss() {
    match evaluate_lookup(None, CACHE_VERSION) {
        LookupOutcome::Rebuild(e) => assert_eq!(e, CacheError::CacheMiss),
        LookupOutcome::Hit(_) => panic!("an absent record must not hit"),
    }
}

#[test]
fn miss_then_hit_returns_identical_entries() {
    // first call: nothing stored, the cache must rebuild
    assert!(matches!(
        evaluate_lookup(None, CACHE_VERSION),
        LookupOutcome::Rebuild(CacheError::CacheMiss)
    ));
    // the rebuild writes the encoded live entries through; a second
    // call with the same fingerprint finds them and serves the hit
    // without any live enumeration
    let live = vec![entry(b"a.txt"), entry(b"b.txt")];
    let stored = encode_index_set(&CachedIndexSet { version: CACHE_VERSION, entries: live });
    match evaluate_lookup(Some(stored), CACHE_VERSION) {
        LookupOutcome::Hit(entries) => {
            assert_eq!(entries.len(), 2);
            assert_eq!(entries[0].path, b"a.txt".to_vec());
            assert_eq!(entries[1].path, b"b.txt".to_vec());
        },
        LookupOutcome::Rebuild(_) => panic!("a current-version record must hit"),
    }
}

#[test]
fn version_mismatch_is_a_miss() {
    let stored = encode_index_set(&CachedIndexSet {
        version: CACHE_VERSION,
        entries: vec![entry(b"a.txt")],
    });
    // read by logic expecting the next schema version
    match evaluate_lookup(Some(stored), CACHE_VERSION + 1) {
        LookupOutcome::Rebuild(e) => assert_eq!(e, CacheError::VersionMismatch),
        LookupOutcome::Hit(_) => panic!("a record of another version must not hit"),
    }
}

#[test]
fn corrupt_record_is_rejected() {
    match evaluate_lookup(Some(vec![9, 9, 9]), CACHE_VERSION) {
        LookupOutcome::Rebuild(e) => assert_eq!(e, CacheError::Corrupt),
        LookupOutcome::Hit(_) => panic!("garbage must not hit"),
    }
}

#[test]
fn fingerprint_is_stable_and_sensitive() {
    let path = b"/work/repo".to_vec();
    let stat = IndexStat { mtime_secs: 100, mtime_nanos: 7, size: 2048 };
    let again = IndexStat { mtime_secs: 100, mtime_nanos: 7, size: 2048 };
    assert_eq!(cache_key(&path, &stat), cache_key(&path, &again));

    let touched = IndexStat { mtime_secs: 101, mtime_nanos: 7, size: 2048 };
    assert_ne!(cache_key(&path, &stat), cache_key(&path, &touched));
    let regrown = IndexStat { mtime_secs: 100, mtime_nanos: 7, size: 2049 };
    assert_ne!(cache_key(&path, &stat), cache_key(&path, &regrown));
    let other_repo = b"/work/repo2".to_vec();
    assert_ne!(cache_key(&path, &stat), cache_key(&other_repo, &stat));
}

#[test]
fn fingerprint_renders_the_documented_hex() {
    let key = cache_key(&vec![0xab], &IndexStat { mtime_secs: 0, mtime_nanos: 0, size: 0 });
    let mut expected = String::from("ab");
    for _ in 0..40 {
        expected.push('0');
    }
    assert_eq!(key, expected);
}

fn unique_dir(tag: &str) -> String {
    let nanos = std::time::SystemTime::now()
        .duration_since(std::time::UNIX_EPOCH)
        .unwrap()
        .as_nanos();
    format!("/tmp/gitultra_{}_{}", tag, nanos)
}

#[test]
fn store_round_trip_hits_and_invalidates() {
    let dir = unique_dir("store");
    // creating the repository lays down the metadata area the cache
    // database lives in
    let repo = gitultra::repo::create_repo(&dir).expect("repository init");
    let cache = GitIndexCache::open(&dir).expect("cache open");
    let stat = IndexStat { mtime_secs: 1, mtime_nanos: 2, size: 3 };

    // first call: empty store, rebuilt from the (empty) live index
    let first = cache.get_index_entries(&repo, &stat).expect("first load");
    assert!(first.is_empty());

    // write a distinctive set through under this fingerprint; the
    // live index is empty, so getting it back proves the hit came
    // from the store
    let entries = vec![entry(b"cached.txt")];
    cache.update_index(&entries, &stat).expect("write through");
    let second = cache.get_index_entries(&repo, &stat).expect("second load");
    assert_eq!(second.len(), 1);
    assert_eq!(second[0].path, b"cached.txt".to_vec());

    // another fingerprint misses and serves the live (empty) index
    let other = IndexStat { mtime_secs: 9, mtime_nanos: 9, size: 9 };
    assert!(cache.get_index_entries(&repo, &other).expect("other load").is_empty());

    // invalidation forces the next load under the same fingerprint
    // to rebuild from the live index again
    cache.invalidate(&stat).expect("invalidate");
    let third = cache.get_index_entries(&repo, &stat).expect("third load");
    assert!(third.is_empty());
}

#[test]
fn live_index_entries_reflect_staged_content() {
    let dir = unique_dir("live");
    let repo = gitultra::repo::create_repo(&dir).expect("repository init");
    {
        let mut ix = repo.index().expect("index");
        let staged = git2::IndexEntry {
            ctime: git2::IndexTime::new(0, 0),
            mtime: git2::IndexTime::new(0, 0),
            dev: 0,
            ino: 0,
            mode: 0o100644,
            uid: 0,
            gid: 0,
            file_size: 5,
            id: git2::Oid::zero(),
            flags: 0,
            flags_extended: 0,
            path: b"hello.txt".to_vec(),
        };
        ix.add_frombuffer(&staged, b"hello").expect("stage from buffer");
        ix.write().expect("index write");
    }
    let live = gitultra::repo::live_index_entries(&repo).expect("live entries");
    assert_eq!(live.len(), 1);
    assert_eq!(live[0].path, b"hello.txt".to_vec());
    assert_eq!(live[0].file_size, 5);
    // the staged blob's content-derived id, not the zero id we passed
    assert_eq!(live[0].content_id.len(), 20);
    assert_ne!(live[0].content_id, vec![0u8; 20]);
}

#[test]
fn commit_graph_of_a_real_repository() {
    let dir = unique_dir("graph");
    let repo = gitultra::repo::create_repo(&dir).expect("repository init");
    let tree_id = {
        let mut ix = repo.index().expect("index");
        ix.write_tree().expect("tree")
    };
    let tree = repo.find_tree(tree_id).expect("find tree");
    let sig1 = git2::Signature::new("Ada", "ada@example.com", &git2::Time::new(1700000000, 0))
        .expect("signature");
    let first = repo
        .commit(Some("HEAD"), &sig1, &sig1, "first", &tree, &[])
        .expect("first commit");
    let parent = repo.find_commit(first).expect("find parent");
    let sig2 = git2::Signature::new("Ada", "ada@example.com", &git2::Time::new(1700000100, 0))
        .expect("signature");
    let _second = repo
        .commit(Some("HEAD"), &sig2, &sig2, "second", &tree, &[&parent])
        .expect("second commit");

    let g = gitultra::repo::get_commit_graph(&repo).expect("graph");
    assert_eq!(g.len(), 2);
    assert_eq!(g[0].message, "second");
    assert_eq!(g[0].parents, vec![first.to_string()]);
    assert_eq!(g[0].timestamp, 1700000100);
    assert_eq!(g[1].message, "first");
    assert!(g[1].parents.is_empty());
}
