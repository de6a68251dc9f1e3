//! The repository collaborator: a narrow read interface over the
//! object store. Opening, commit lookup, parent enumeration and live
//! index enumeration go through trusted wrappers around the
//! underlying library; everything computed from what they return is
//! verified.

use vstd::prelude::*;

use crate::cache::CacheError;
use crate::graph::{CommitNode, CommitNodeView, GraphError, build_graph, distinct_ids, has_id,
    order_spec, reachable_nodes, views};
use crate::index_entry::IndexEntry;

verus! {

#[verifier::external_type_specification]
#[verifier::external_body]
pub struct ExRepository(git2::Repository);

#[verifier::external_type_specification]
#[verifier::external_body]
pub struct ExIndex(git2::Index);

/// Relies on git2::Repository::open: opens the repository at `path`,
/// failing when the path has no repository metadata.
#[verifier::external_body]
pub fn open_repo(path: &String) -> (r: Result<git2::Repository, GraphError>)
{
    match git2::Repository::open(path.as_str()) {
        Ok(repo) => Ok(repo),
        Err(_) => Err(GraphError::NotARepository),
    }
}

/// Relies on git2::Repository::init: initializes a repository at
/// `path`.
#[verifier::external_body]
pub fn create_repo(path: &String) -> (r: Result<git2::Repository, GraphError>)
{
    match git2::Repository::init(path.as_str()) {
        Ok(repo) => Ok(repo),
        Err(_) => Err(GraphError::NotARepository),
    }
}

/// Relies on git2::Repository::head, Reference::peel_to_commit and
/// Oid's hex rendering: the id of the commit the current head points
/// to, if any.
#[verifier::external_body]
fn head_oid(repo: &git2::Repository) -> (r: Option<String>)
{
    let head = match repo.head() {
        Ok(h) => h,
        Err(_) => return None,
    };
    match head.peel_to_commit() {
        Ok(c) => Some(c.id().to_string()),
        Err(_) => None,
    }
}

/// Relies on git2::Oid::from_str, git2::Repository::find_commit,
/// Commit's accessors (id, author, message, parent_ids) and
/// Signature::when: the commit named by `id` as plain values, with
/// the author signature's time, or `None` when it resolves to no
/// commit object.
#[verifier::external_body]
fn commit_record(repo: &git2::Repository, id: &String) -> (r: Option<CommitNode>)
{
    let oid = git2::Oid::from_str(id.as_str()).ok()?;
    let c = repo.find_commit(oid).ok()?;
    let node = CommitNode {
        oid: c.id().to_string(),
        author: c.author().to_string(),
        message: c.message().unwrap_or("").to_string(),
        parents: c.parent_ids().map(|p| p.to_string()).collect(),
        timestamp: c.author().when().seconds(),
    };
    Some(node)
}

/// Gathers every commit reachable from the current head into an
/// in-memory model with pairwise-distinct ids, holding only frontier
/// state beyond the records produced. What each record holds comes
/// from the repository and is not pinned here; the model's ids being
/// distinct and the traversal visiting each id once are.
pub fn load_history(repo: &git2::Repository) -> (r: Result<(Vec<CommitNode>, String), GraphError>)
    ensures
        r matches Ok(p) ==> distinct_ids(views(p.0@)),
{
    let root = match head_oid(repo) {
        Some(x) => x,
        None => {
            return Err(GraphError::NotARepository);
        },
    };
    let mut model: Vec<CommitNode> = Vec::new();
    let mut pending: Vec<String> = Vec::new();
    pending.push(root.clone());
    // a step budget beyond any real history bounds the walk even if
    // the object store misbehaves; exhausting it reads as a broken
    // graph
    let mut fuel: u64 = u64::MAX;
    while pending.len() > 0 && fuel > 0
        invariant
            distinct_ids(views(model@)),
        decreases fuel,
    {
        fuel = fuel - 1;
        let id = match pending.pop() {
            Some(x) => x,
            None => vstd::pervasive::unreached(),
        };
        if !crate::graph::contains_id(&model, &id) {
            match commit_record(repo, &id) {
                None => {
                    return Err(GraphError::DanglingParent);
                },
                Some(node) => {
                    if node.oid == id {
                        let np = node.parents.len();
                        let mut j: usize = 0;
                        while j < np
                            invariant
                                j <= np == node@.parents.len(),
                            decreases np - j,
                        {
                            pending.push(node.parents[j].clone());
                            j = j + 1;
                        }
                        let ghost mv0 = views(model@);
                        let ghost nodev = node@;
                        proof {
                            assert(!has_id(mv0, nodev.oid));
                        }
                        model.push(node);
                        proof {
                            assert(views(model@) =~= mv0.push(nodev));
                            assert forall|a: int, b: int|
                                0 <= a < b < views(model@).len() implies views(model@)[a].oid
                                != views(model@)[b].oid by {
                                let mv = views(model@);
                                if b == mv.len() - 1 {
                                    assert(mv[a] == mv0[a]);
                                    assert(mv[b] == nodev);
                                    if mv0[a].oid == nodev.oid {
                                        assert(has_id(mv0, nodev.oid));
                                    }
                                } else {
                                    assert(mv[a] == mv0[a]);
                                    assert(mv[b] == mv0[b]);
                                }
                            }
                        }
                    } else {
                        // the object store answered under a different
                        // id than the one asked for
                        return Err(GraphError::DanglingParent);
                    }
                },
            }
        }
    }
    if pending.len() > 0 {
        return Err(GraphError::DanglingParent);
    }
    Ok((model, root))
}

/// Builds the rendered history of the repository: the commits
/// reachable from the current head, each exactly once, in the
/// time-descending topologically consistent order of `order_spec`
/// over whatever model the repository handed out.
pub fn get_commit_graph(repo: &git2::Repository) -> (r: Result<Vec<CommitNode>, GraphError>)
    ensures
        r matches Ok(out) ==> exists|m: Seq<CommitNodeView>, root: Seq<char>|
            {
                &&& distinct_ids(m)
                &&& views(out@) == order_spec(reachable_nodes(m, root))
            },
{
    let (model, root) = match load_history(repo) {
        Ok(p) => p,
        Err(e) => {
            return Err(e);
        },
    };
    let out = match build_graph(&model, &root) {
        Ok(o) => o,
        Err(e) => {
            return Err(e);
        },
    };
    proof {
        let m = views(model@);
        let rt = root@;
        assert(distinct_ids(m) && views(out@) == order_spec(reachable_nodes(m, rt)));
    }
    Ok(out)
}

/// Relies on git2::Repository::index: the repository's current index.
#[verifier::external_body]
fn repo_index(repo: &git2::Repository) -> (r: Result<git2::Index, CacheError>)
    ensures
        r matches Err(e) ==> e == CacheError::StorageUnavailable,
{
    match repo.index() {
        Ok(ix) => Ok(ix),
        Err(_) => Err(CacheError::StorageUnavailable),
    }
}

/// Relies on git2::Index::len: how many entries the index holds.
#[verifier::external_body]
fn index_len(ix: &git2::Index) -> (r: usize)
{
    ix.len()
}

/// Relies on git2::Index::get and Oid::as_bytes: the entry at slot
/// `i`, its fields moved one for one into plain values.
#[verifier::external_body]
fn index_entry_at(ix: &git2::Index, i: usize) -> (r: Option<IndexEntry>)
{
    ix.get(i).map(|e| IndexEntry {
        path: e.path, content_id: e.id.as_bytes().to_vec(), file_size: e.file_size,
        ctime_secs: e.ctime.seconds(), ctime_nanos: e.ctime.nanoseconds(),
        mtime_secs: e.mtime.seconds(), mtime_nanos: e.mtime.nanoseconds(),
        dev: e.dev, ino: e.ino, mode: e.mode, uid: e.uid, gid: e.gid,
        flags: e.flags, flags_extended: e.flags_extended,
    })
}

/// Enumerates the current staged entries of the repository's index,
/// in the index's own (path) order.
pub fn live_index_entries(repo: &git2::Repository) -> (r: Result<Vec<IndexEntry>, CacheError>)
    ensures
        r matches Err(e) ==> e == CacheError::StorageUnavailable,
{
    let ix = match repo_index(repo) {
        Ok(ix) => ix,
        Err(e) => {
            return Err(e);
        },
    };
    let n = index_len(&ix);
    let mut out: Vec<IndexEntry> = Vec::new();
    let mut i: usize = 0;
    while i < n
        invariant
            i <= n,
        decreases n - i,
    {
        match index_entry_at(&ix, i) {
            Some(e) => out.push(e),
            None => {
                return Err(CacheError::StorageUnavailable);
            },
        }
        i = i + 1;
    }
    Ok(out)
}

} // verus!
