//! The commit-graph builder: walks history from a traversal root over
//! an in-memory view of the object store, visits every reachable
//! commit exactly once, surfaces dangling parent links, and emits the
//! nodes in a time-descending, topologically consistent order.

use vstd::prelude::*;
use vstd::set_lib::lemma_len_subset;

verus! {

/// One commit of the rendered history graph.
///
/// `oid` is the commit's content-derived id in hex; `parents` holds
/// the parent ids in order, the first being the mainline parent;
/// `timestamp` is the author time in seconds since the epoch.
#[derive(Debug)]
pub struct CommitNode {
    pub oid: String,
    pub author: String,
    pub message: String,
    pub parents: Vec<String>,
    pub timestamp: i64,
}

/// The mathematical value of a commit node.
#[verifier::ext_equal]
pub ghost struct CommitNodeView {
    pub oid: Seq<char>,
    pub author: Seq<char>,
    pub message: Seq<char>,
    pub parents: Seq<Seq<char>>,
    pub timestamp: i64,
}

impl View for CommitNode {
    type V = CommitNodeView;

    open spec fn view(&self) -> CommitNodeView {
        CommitNodeView {
            oid: self.oid@,
            author: self.author@,
            message: self.message@,
            parents: self.parents.deep_view(),
            timestamp: self.timestamp,
        }
    }
}

/// Failures of graph construction: the path has no repository, or a
/// parent id named by some reachable commit resolves to no commit.
#[derive(Clone, Copy, PartialEq, Eq, Structural, Debug)]
pub enum GraphError {
    NotARepository,
    DanglingParent,
}

pub open spec fn views(s: Seq<CommitNode>) -> Seq<CommitNodeView> {
    s.map_values(|c: CommitNode| c@)
}

pub open spec fn has_id(m: Seq<CommitNodeView>, id: Seq<char>) -> bool {
    exists|i: int| 0 <= i < m.len() && m[i].oid == id
}

pub open spec fn distinct_ids(m: Seq<CommitNodeView>) -> bool {
    forall|i: int, j: int| 0 <= i < j < m.len() ==> m[i].oid != m[j].oid
}

/// Membership of a node value in a model, by value.
pub open spec fn in_model(m: Seq<CommitNodeView>, v: CommitNodeView) -> bool {
    exists|j: int| 0 <= j < m.len() && m[j] == v
}

/// `id` is reachable from `root` in at most `n` parent steps, where a
/// step goes from a commit present in the model to one of the ids its
/// parent list names (present in the model or not).
pub open spec fn reach_n(m: Seq<CommitNodeView>, root: Seq<char>, id: Seq<char>, n: nat) -> bool
    decreases n,
{
    id == root || (n > 0 && exists|i: int|
        0 <= i < m.len() && reach_n(m, root, #[trigger] m[i].oid, (n - 1) as nat)
            && m[i].parents.contains(id))
}

/// `id` is reachable from `root` by following parent links.
pub open spec fn reachable(m: Seq<CommitNodeView>, root: Seq<char>, id: Seq<char>) -> bool {
    exists|n: nat| reach_n(m, root, id, n)
}

/// The model nodes whose id is reachable from `root`.
pub open spec fn reachable_nodes(m: Seq<CommitNodeView>, root: Seq<char>) -> Set<CommitNodeView> {
    Set::new(|v: CommitNodeView| in_model(m, v) && reachable(m, root, v.oid))
}

/// A parent of a reachable commit is reachable.
pub proof fn lemma_reach_parent(m: Seq<CommitNodeView>, root: Seq<char>, i: int, p: Seq<char>)
    requires
        0 <= i < m.len(),
        reachable(m, root, m[i].oid),
        m[i].parents.contains(p),
    ensures
        reachable(m, root, p),
{
    let n = choose|n: nat| reach_n(m, root, m[i].oid, n);
    assert(reach_n(m, root, p, n + 1));
}

/// A set of nodes that contains the root id, draws its nodes from the
/// model, and is closed under parent links contains every id
/// reachable from the root.
proof fn lemma_closed_contains_reachable(
    m: Seq<CommitNodeView>,
    root: Seq<char>,
    s: Seq<CommitNodeView>,
    id: Seq<char>,
    n: nat,
)
    requires
        distinct_ids(m),
        has_id(s, root),
        forall|i: int| 0 <= i < s.len() ==> in_model(m, #[trigger] s[i]),
        forall|i: int, j: int|
            0 <= i < s.len() && 0 <= j < s[i].parents.len() ==> has_id(s,
                #[trigger] s[i].parents[j]),
        reach_n(m, root, id, n),
    ensures
        has_id(s, id),
    decreases n,
{
    if id != root {
        let i = choose|i: int|
            0 <= i < m.len() && reach_n(m, root, #[trigger] m[i].oid, (n - 1) as nat)
                && m[i].parents.contains(id);
        lemma_closed_contains_reachable(m, root, s, m[i].oid, (n - 1) as nat);
        let k = choose|k: int| 0 <= k < s.len() && s[k].oid == m[i].oid;
        let j = choose|j: int| 0 <= j < m.len() && m[j] == s[k];
        assert(m[j].oid == m[i].oid);
        assert(m[j] == m[i]);
        let pj = choose|pj: int| 0 <= pj < m[i].parents.len() && m[i].parents[pj] == id;
        assert(s[k].parents[pj] == id);
    }
}

/// Two sequences of nodes with pairwise-distinct ids, the first
/// drawing all its ids from the second, cannot be longer than the
/// second.
proof fn lemma_distinct_ids_card(sub: Seq<CommitNodeView>, sup: Seq<CommitNodeView>)
    requires
        distinct_ids(sub),
        distinct_ids(sup),
        forall|i: int| 0 <= i < sub.len() ==> has_id(sup, #[trigger] sub[i].oid),
    ensures
        sub.len() <= sup.len(),
{
    let a = sub.map_values(|c: CommitNodeView| c.oid);
    let b = sup.map_values(|c: CommitNodeView| c.oid);
    assert(a.no_duplicates());
    assert(b.no_duplicates());
    a.unique_seq_to_set();
    b.unique_seq_to_set();
    vstd::seq_lib::seq_to_set_is_finite(b);
    assert forall|x: Seq<char>| a.to_set().contains(x) implies b.to_set().contains(x) by {
        let i = choose|i: int| 0 <= i < a.len() && a[i] == x;
        assert(has_id(sup, sub[i].oid));
        let j = choose|j: int| 0 <= j < sup.len() && sup[j].oid == x;
        assert(b[j] == x);
    }
    lemma_len_subset(a.to_set(), b.to_set());
}

/// True when some node of `v` carries the id.
pub(crate) fn contains_id(v: &Vec<CommitNode>, id: &String) -> (r: bool)
    ensures
        r == has_id(views(v@), id@),
{
    let n = v.len();
    let mut i: usize = 0;
    while i < n
        invariant
            i <= n == v@.len(),
            forall|k: int| 0 <= k < i ==> views(v@)[k].oid != id@,
        decreases n - i,
    {
        if v[i].oid == *id {
            proof {
                assert(views(v@)[i as int].oid == id@);
            }
            return true;
        }
        i = i + 1;
    }
    false
}

/// Finds the model node carrying the id.
fn find_node(model: &Vec<CommitNode>, id: &String) -> (r: Option<usize>)
    ensures
        match r {
            Some(j) => j < model@.len() && views(model@)[j as int].oid == id@,
            None => !has_id(views(model@), id@),
        },
{
    let n = model.len();
    let mut i: usize = 0;
    while i < n
        invariant
            i <= n == model@.len(),
            forall|k: int| 0 <= k < i ==> views(model@)[k].oid != id@,
        decreases n - i,
    {
        if model[i].oid == *id {
            proof {
                assert(views(model@)[i as int].oid == id@);
            }
            return Some(i);
        }
        i = i + 1;
    }
    None
}

/// Copies a vector of strings.
fn clone_strings(v: &Vec<String>) -> (r: Vec<String>)
    ensures
        r.deep_view() == v.deep_view(),
        r@.len() == v@.len(),
{
    let n = v.len();
    let mut r: Vec<String> = Vec::new();
    let mut i: usize = 0;
    while i < n
        invariant
            i <= n == v@.len(),
            r@.len() == i,
            forall|k: int| 0 <= k < i ==> r.deep_view()[k] == v.deep_view()[k],
        decreases n - i,
    {
        r.push(v[i].clone());
        i = i + 1;
    }
    proof {
        assert(r.deep_view() =~= v.deep_view());
    }
    r
}

impl CommitNode {
    /// Copies a node, value for value.
    pub fn clone_node(&self) -> (r: CommitNode)
        ensures
            r@ == self@,
    {
        let r = CommitNode {
            oid: self.oid.clone(),
            author: self.author.clone(),
            message: self.message.clone(),
            parents: clone_strings(&self.parents),
            timestamp: self.timestamp,
        };
        proof {
            assert(r@ =~= self@);
        }
        r
    }
}

/// Collects every commit reachable from `root` within `model`, each
/// exactly once. Fails with `DanglingParent` exactly when some
/// reachable id (the root included) resolves to no model node.
pub fn collect_reachable(model: &Vec<CommitNode>, root: &String) -> (r: Result<
    Vec<CommitNode>,
    GraphError,
>)
    requires
        distinct_ids(views(model@)),
    ensures
        match r {
            Ok(out) => {
                &&& distinct_ids(views(out@))
                &&& forall|i: int|
                    0 <= i < out@.len() ==> in_model(views(model@), #[trigger] views(out@)[i])
                        && reachable(views(model@), root@, views(out@)[i].oid)
                &&& forall|id: Seq<char>|
                    reachable(views(model@), root@, id) ==> has_id(views(out@), id)
            },
            Err(e) => {
                &&& e == GraphError::DanglingParent
                &&& exists|id: Seq<char>|
                    reachable(views(model@), root@, id) && !has_id(views(model@), id)
            },
        },
{
    let ghost vm = views(model@);
    let mut out: Vec<CommitNode> = Vec::new();
    let mut pending: Vec<String> = Vec::new();
    pending.push(root.clone());
    proof {
        assert(reach_n(vm, root@, root@, 0));
        assert(pending.deep_view()[0] == root@);
    }
    while pending.len() > 0
        invariant
            distinct_ids(vm),
            vm == views(model@),
            distinct_ids(views(out@)),
            forall|i: int|
                0 <= i < out@.len() ==> in_model(vm, #[trigger] views(out@)[i]) && reachable(vm,
                    root@, views(out@)[i].oid),
            forall|i: int|
                0 <= i < pending@.len() ==> reachable(vm, root@,
                    #[trigger] pending.deep_view()[i]),
            forall|i: int, j: int|
                0 <= i < out@.len() && 0 <= j < views(out@)[i].parents.len() ==> has_id(
                    views(out@), #[trigger] views(out@)[i].parents[j]) || pending.deep_view()
                    .contains(views(out@)[i].parents[j]),
            has_id(views(out@), root@) || pending.deep_view().contains(root@),
            out@.len() <= model@.len(),
        decreases model@.len() - out@.len(), pending@.len(),
    {
        let ghost pend0 = pending.deep_view();
        let ghost out0 = views(out@);
        let id = match pending.pop() {
            Some(x) => x,
            None => vstd::pervasive::unreached(),
        };
        let ghost pend1 = pending.deep_view();
        proof {
            assert(id@ == pend0[pend0.len() - 1]);
            assert(pend1.len() == pend0.len() - 1);
            assert(forall|i: int| 0 <= i < pend1.len() ==> #[trigger] pend1[i] == pend0[i]);
            assert forall|x: Seq<char>| pend0.contains(x) implies x == id@ || pend1.contains(
                x) by {
                let i = choose|i: int| 0 <= i < pend0.len() && pend0[i] == x;
                if i < pend0.len() - 1 {
                    assert(pend1[i] == x);
                }
            }
            assert(reachable(vm, root@, id@));
        }
        if contains_id(&out, &id) {
            proof {
                assert(has_id(out0, id@));
            }
        } else {
            match find_node(model, &id) {
                None => {
                    proof {
                        assert(reachable(vm, root@, id@) && !has_id(vm, id@));
                    }
                    return Err(GraphError::DanglingParent);
                },
                Some(idx) => {
                    let node = model[idx].clone_node();
                    let ghost nv = node@;
                    proof {
                        assert(vm[idx as int] == model@[idx as int]@);
                        assert(vm[idx as int] == nv);
                        assert(nv.oid == id@);
                        assert(in_model(vm, nv));
                    }
                    let np = node.parents.len();
                    let mut j: usize = 0;
                    while j < np
                        invariant
                            j <= np == nv.parents.len(),
                            node@ == nv,
                            vm == views(model@),
                            distinct_ids(vm),
                            reachable(vm, root@, nv.oid),
                            in_model(vm, nv),
                            pending.deep_view() =~= pend1 + nv.parents.take(j as int),
                        decreases np - j,
                    {
                        let p = node.parents[j].clone();
                        proof {
                            assert(p@ == nv.parents[j as int]);
                        }
                        let ghost before = pending.deep_view();
                        pending.push(p);
                        proof {
                            assert forall|k: int| 0 <= k < pending@.len() implies
                                #[trigger] pending.deep_view()[k] == (pend1 + nv.parents.take(
                                j + 1))[k] by {
                                if k < before.len() {
                                    assert(pending.deep_view()[k] == before[k]);
                                    assert(before[k] == (pend1 + nv.parents.take(j as int))[k]);
                                    if k >= pend1.len() {
                                        assert(nv.parents.take(j as int)[k - pend1.len()]
                                            == nv.parents[k - pend1.len()]);
                                        assert(nv.parents.take(j + 1)[k - pend1.len()]
                                            == nv.parents[k - pend1.len()]);
                                    }
                                } else {
                                    assert(pending@[k] == p);
                                    assert(pending.deep_view()[k] == p@);
                                    assert((pend1 + nv.parents.take(j + 1))[k]
                                        == nv.parents.take(j + 1)[j as int]);
                                }
                            }
                            assert(pending@.len() == before.len() + 1);
                            assert(before.len() == pend1.len() + j);
                            assert(pending.deep_view().len() == pending@.len());
                            assert(pending.deep_view().len() == pend1.len() + j + 1);
                            assert((pend1 + nv.parents.take(j + 1)).len() == pend1.len() + j
                                + 1);
                            assert(pending.deep_view() =~= pend1 + nv.parents.take(j + 1));
                        }
                        j = j + 1;
                    }
                    proof {
                        assert(pending.deep_view() =~= pend1 + nv.parents);
                    }
                    out.push(node);
                    proof {
                        let outv = views(out@);
                        assert(outv =~= out0.push(nv));
                        // every id of the new output stands in the model
                        assert forall|i: int| 0 <= i < outv.len() implies has_id(vm,
                            #[trigger] outv[i].oid) by {
                            let k = choose|k: int| 0 <= k < vm.len() && vm[k] == outv[i];
                            assert(vm[k].oid == outv[i].oid);
                        }
                        lemma_distinct_ids_card(outv, vm);
                        // reachability of everything still pending
                        assert forall|i: int| 0 <= i < pending@.len() implies reachable(vm,
                            root@, #[trigger] pending.deep_view()[i]) by {
                            let pv = pending.deep_view();
                            if i >= pend1.len() {
                                assert(pv[i] == nv.parents[i - pend1.len()]);
                                let k = choose|k: int| 0 <= k < vm.len() && vm[k] == nv;
                                lemma_reach_parent(vm, root@, k, pv[i]);
                            }
                        }
                        // parent closure for the grown output
                        assert forall|i: int, j2: int|
                            0 <= i < outv.len() && 0 <= j2 < outv[i].parents.len() implies has_id(
                            outv, #[trigger] outv[i].parents[j2]) || pending.deep_view().contains(
                            outv[i].parents[j2]) by {
                            let x = outv[i].parents[j2];
                            if i < out0.len() {
                                if has_id(out0, x) {
                                    let k = choose|k: int| 0 <= k < out0.len() && out0[k].oid == x;
                                    assert(outv[k].oid == x);
                                } else {
                                    assert(pend0.contains(x));
                                    if x == id@ {
                                        assert(outv[out0.len() as int].oid == x);
                                    } else {
                                        let k = choose|k: int|
                                            0 <= k < pend1.len() && pend1[k] == x;
                                        assert(pending.deep_view()[k] == x);
                                    }
                                }
                            } else {
                                assert(outv[i] == nv);
                                assert(pending.deep_view()[pend1.len() + j2] == x);
                            }
                        }
                        // the root stays covered
                        if !has_id(out0, root@) {
                            if root@ == id@ {
                                assert(outv[out0.len() as int].oid == root@);
                            } else {
                                let k = choose|k: int| 0 <= k < pend0.len() && pend0[k] == root@;
                                assert(k < pend1.len());
                                assert(pending.deep_view()[k] == root@);
                            }
                        } else {
                            let k = choose|k: int| 0 <= k < out0.len() && out0[k].oid == root@;
                            assert(outv[k].oid == root@);
                        }
                    }
                },
            }
        }
    }
    proof {
        assert forall|id: Seq<char>| reachable(vm, root@, id) implies has_id(views(out@),
            id) by {
            let n = choose|n: nat| reach_n(vm, root@, id, n);
            lemma_closed_contains_reachable(vm, root@, views(out@), id, n);
        }
    }
    Ok(out)
}


// ---------------------------------------------------------------------
// Ordering: time-descending, topologically consistent emission.
// ---------------------------------------------------------------------

/// Strict lexicographic order on id strings, by code point. Ids are
/// pairwise distinct, so this gives every pair of nodes a definite
/// tie-break and makes the emitted order a function of the node set.
pub open spec fn lex_less(a: Seq<char>, b: Seq<char>) -> bool
    decreases a.len(),
{
    if b.len() == 0 {
        false
    } else if a.len() == 0 {
        true
    } else if a[0] != b[0] {
        (a[0] as u32) < (b[0] as u32)
    } else {
        lex_less(a.skip(1), b.skip(1))
    }
}

/// `a` is emitted before `b` when they are unrelated: newer first,
/// ties broken by id.
pub open spec fn prior(a: CommitNodeView, b: CommitNodeView) -> bool {
    a.timestamp > b.timestamp || (a.timestamp == b.timestamp && lex_less(a.oid, b.oid))
}

/// `c` may be emitted from the not-yet-emitted set `s`: no commit
/// still in `s` names `c` as a parent, so every child of `c` is
/// already out.
pub open spec fn ready(c: CommitNodeView, s: Set<CommitNodeView>) -> bool {
    forall|d: CommitNodeView| s.contains(d) ==> !d.parents.contains(c.oid)
}

pub open spec fn is_cand_best(c: CommitNodeView, s: Set<CommitNodeView>) -> bool {
    s.contains(c) && ready(c, s) && (forall|d: CommitNodeView|
        s.contains(d) && ready(d, s) && d != c ==> prior(c, d))
}

pub open spec fn is_any_best(c: CommitNodeView, s: Set<CommitNodeView>) -> bool {
    s.contains(c) && (forall|d: CommitNodeView| s.contains(d) && d != c ==> prior(c, d))
}

/// The next node to emit from `s`: the most `prior` among the ready
/// nodes, or the most `prior` overall when nothing is ready (which
/// cannot happen for commit history, whose parent links are acyclic).
pub open spec fn pick(s: Set<CommitNodeView>) -> CommitNodeView {
    if exists|c: CommitNodeView| is_cand_best(c, s) {
        choose|c: CommitNodeView| is_cand_best(c, s)
    } else {
        choose|c: CommitNodeView| is_any_best(c, s)
    }
}

/// The emitted order of a set of nodes.
pub open spec fn order_spec(s: Set<CommitNodeView>) -> Seq<CommitNodeView>
    decreases s.len(),
{
    if s.finite() && s.len() > 0 {
        if s.contains(pick(s)) {
            seq![pick(s)] + order_spec(s.remove(pick(s)))
        } else {
            Seq::<CommitNodeView>::empty()
        }
    } else {
        Seq::<CommitNodeView>::empty()
    }
}

pub open spec fn set_distinct_ids(s: Set<CommitNodeView>) -> bool {
    forall|a: CommitNodeView, b: CommitNodeView|
        s.contains(a) && s.contains(b) && a != b ==> a.oid != b.oid
}

proof fn lemma_char_cast_inj(x: char, y: char)
    requires
        x as u32 == y as u32,
    ensures
        x == y,
{
}

proof fn lemma_lex_total(a: Seq<char>, b: Seq<char>)
    requires
        a != b,
    ensures
        lex_less(a, b) || lex_less(b, a),
    decreases a.len(),
{
    if b.len() == 0 {
        if a.len() == 0 {
            assert(a =~= b);
        }
        assert(a.len() > 0);
    } else if a.len() == 0 {
    } else if a[0] != b[0] {
        if (a[0] as u32) == (b[0] as u32) {
            lemma_char_cast_inj(a[0], b[0]);
        }
        assert((a[0] as u32) != (b[0] as u32));
    } else {
        if a.skip(1) == b.skip(1) {
            assert(a.skip(1).len() == b.skip(1).len());
            assert(a.len() == b.len());
            assert forall|i: int| 0 <= i < a.len() implies a[i] == b[i] by {
                if i > 0 {
                    assert(a.skip(1)[i - 1] == a[i]);
                    assert(b.skip(1)[i - 1] == b[i]);
                }
            }
            assert(a =~= b);
        }
        lemma_lex_total(a.skip(1), b.skip(1));
    }
}

proof fn lemma_lex_asym(a: Seq<char>, b: Seq<char>)
    ensures
        !(lex_less(a, b) && lex_less(b, a)),
    decreases a.len(),
{
    if lex_less(a, b) && lex_less(b, a) {
        if b.len() == 0 {
        } else if a.len() == 0 {
        } else if a[0] != b[0] {
        } else {
            lemma_lex_asym(a.skip(1), b.skip(1));
        }
    }
}

proof fn lemma_lex_trans(a: Seq<char>, b: Seq<char>, c: Seq<char>)
    requires
        lex_less(a, b),
        lex_less(b, c),
    ensures
        lex_less(a, c),
    decreases a.len(),
{
    if b.len() == 0 {
    } else if c.len() == 0 {
    } else if a.len() == 0 {
    } else {
        if a[0] != b[0] {
            if b[0] != c[0] {
                assert((a[0] as u32) < (c[0] as u32));
                assert(a[0] != c[0]) by {
                    if a[0] == c[0] {
                    }
                }
            } else {
                assert(a[0] != c[0]);
                assert((a[0] as u32) < (c[0] as u32));
            }
        } else {
            if b[0] != c[0] {
                assert(a[0] != c[0]);
                assert((a[0] as u32) < (c[0] as u32));
            } else {
                lemma_lex_trans(a.skip(1), b.skip(1), c.skip(1));
                assert(a[0] == c[0]);
            }
        }
    }
}

proof fn lemma_prior_total(a: CommitNodeView, b: CommitNodeView)
    requires
        a.oid != b.oid,
    ensures
        prior(a, b) || prior(b, a),
{
    if a.timestamp == b.timestamp {
        lemma_lex_total(a.oid, b.oid);
    }
}

proof fn lemma_prior_asym(a: CommitNodeView, b: CommitNodeView)
    ensures
        !(prior(a, b) && prior(b, a)),
{
    if prior(a, b) && prior(b, a) && a.timestamp == b.timestamp {
        lemma_lex_asym(a.oid, b.oid);
    }
}

proof fn lemma_prior_trans(a: CommitNodeView, b: CommitNodeView, c: CommitNodeView)
    requires
        prior(a, b),
        prior(b, c),
    ensures
        prior(a, c),
{
    if a.timestamp == b.timestamp && b.timestamp == c.timestamp {
        lemma_lex_trans(a.oid, b.oid, c.oid);
    }
}

/// Every finite nonempty set of nodes with distinct ids has a single
/// most-`prior` element.
proof fn lemma_exists_any_best(s: Set<CommitNodeView>)
    requires
        s.finite(),
        s.len() > 0,
        set_distinct_ids(s),
    ensures
        exists|c: CommitNodeView| is_any_best(c, s),
    decreases s.len(),
{
    let x = s.choose();
    assert(s.contains(x));
    let s2 = s.remove(x);
    if s2.len() == 0 {
        assert forall|d: CommitNodeView| s.contains(d) && d != x implies prior(x, d) by {
            assert(s2.contains(d));
        }
        assert(is_any_best(x, s));
    } else {
        assert(set_distinct_ids(s2));
        lemma_exists_any_best(s2);
        let b = choose|b: CommitNodeView| is_any_best(b, s2);
        assert(b != x);
        lemma_prior_total(x, b);
        if prior(x, b) {
            assert forall|d: CommitNodeView| s.contains(d) && d != x implies prior(x, d) by {
                if d != b {
                    assert(s2.contains(d));
                    lemma_prior_trans(x, b, d);
                }
            }
            assert(is_any_best(x, s));
        } else {
            assert forall|d: CommitNodeView| s.contains(d) && d != b implies prior(b, d) by {
                if d != x {
                    assert(s2.contains(d));
                }
            }
            assert(is_any_best(b, s));
        }
    }
}

proof fn lemma_any_best_unique(s: Set<CommitNodeView>, c1: CommitNodeView, c2: CommitNodeView)
    requires
        is_any_best(c1, s),
        is_any_best(c2, s),
    ensures
        c1 == c2,
{
    if c1 != c2 {
        lemma_prior_asym(c1, c2);
    }
}

proof fn lemma_cand_best_unique(s: Set<CommitNodeView>, c1: CommitNodeView, c2: CommitNodeView)
    requires
        is_cand_best(c1, s),
        is_cand_best(c2, s),
    ensures
        c1 == c2,
{
    if c1 != c2 {
        lemma_prior_asym(c1, c2);
    }
}

/// The element the ordering emits next belongs to the set.
proof fn lemma_pick_in_set(s: Set<CommitNodeView>)
    requires
        s.finite(),
        s.len() > 0,
        set_distinct_ids(s),
    ensures
        s.contains(pick(s)),
{
    if exists|c: CommitNodeView| is_cand_best(c, s) {
        let c = choose|c: CommitNodeView| is_cand_best(c, s);
        assert(s.contains(c));
    } else {
        lemma_exists_any_best(s);
        let c = choose|c: CommitNodeView| is_any_best(c, s);
        assert(s.contains(c));
    }
}

/// What the ordering emits is exactly the set, each node once.
pub proof fn lemma_order_spec_elems(s: Set<CommitNodeView>)
    requires
        s.finite(),
        set_distinct_ids(s),
    ensures
        order_spec(s).len() == s.len(),
        forall|k: int| 0 <= k < order_spec(s).len() ==> s.contains(#[trigger] order_spec(s)[k]),
        forall|x: CommitNodeView| s.contains(x) ==> order_spec(s).contains(x),
        order_spec(s).no_duplicates(),
    decreases s.len(),
{
    if s.len() > 0 {
        lemma_pick_in_set(s);
        let c = pick(s);
        let s2 = s.remove(c);
        assert(set_distinct_ids(s2));
        lemma_order_spec_elems(s2);
        assert(order_spec(s) == seq![c] + order_spec(s2));
        assert forall|k: int| 0 <= k < order_spec(s).len() implies s.contains(
            #[trigger] order_spec(s)[k]) by {
            if k > 0 {
                assert(order_spec(s)[k] == order_spec(s2)[k - 1]);
                assert(s2.contains(order_spec(s2)[k - 1]));
            }
        }
        assert forall|x: CommitNodeView| s.contains(x) implies order_spec(s).contains(x) by {
            if x == c {
                assert(order_spec(s)[0] == x);
            } else {
                assert(s2.contains(x));
                let k = choose|k: int|
                    0 <= k < order_spec(s2).len() && order_spec(s2)[k] == x;
                assert(order_spec(s)[k + 1] == x);
            }
        }
        assert forall|a: int, b: int|
            0 <= a < order_spec(s).len() && 0 <= b < order_spec(s).len() && a != b implies
            order_spec(s)[a] != order_spec(s)[b] by {
            if a == 0 && b > 0 {
                assert(order_spec(s)[b] == order_spec(s2)[b - 1]);
                assert(s2.contains(order_spec(s2)[b - 1]));
            } else if b == 0 && a > 0 {
                assert(order_spec(s)[a] == order_spec(s2)[a - 1]);
                assert(s2.contains(order_spec(s2)[a - 1]));
            } else if a > 0 && b > 0 {
                assert(order_spec(s)[a] == order_spec(s2)[a - 1]);
                assert(order_spec(s)[b] == order_spec(s2)[b - 1]);
            }
        }
    }
}

/// A rank that strictly increases from parent to child certifies the
/// parent links acyclic on `s`.
pub open spec fn ranked(s: Set<CommitNodeView>, rank: Map<Seq<char>, int>) -> bool {
    forall|c: CommitNodeView, d: CommitNodeView|
        s.contains(c) && s.contains(d) && d.parents.contains(c.oid) ==> rank[c.oid] < rank[d.oid]
}

proof fn lemma_exists_max_rank(s: Set<CommitNodeView>, rank: Map<Seq<char>, int>)
    requires
        s.finite(),
        s.len() > 0,
    ensures
        exists|m: CommitNodeView|
            s.contains(m) && (forall|d: CommitNodeView|
                s.contains(d) ==> rank[d.oid] <= rank[#[trigger] m.oid]),
    decreases s.len(),
{
    let x = s.choose();
    assert(s.contains(x));
    let s2 = s.remove(x);
    if s2.len() == 0 {
        assert forall|d: CommitNodeView| s.contains(d) implies rank[d.oid] <= rank[x.oid] by {
            if d != x {
                assert(s2.contains(d));
            }
        }
    } else {
        lemma_exists_max_rank(s2, rank);
        let m = choose|m: CommitNodeView|
            s2.contains(m) && (forall|d: CommitNodeView|
                s2.contains(d) ==> rank[d.oid] <= rank[#[trigger] m.oid]);
        if rank[x.oid] <= rank[m.oid] {
            assert forall|d: CommitNodeView| s.contains(d) implies rank[d.oid] <= rank[
                m.oid] by {
                if d != x {
                    assert(s2.contains(d));
                }
            }
        } else {
            assert forall|d: CommitNodeView| s.contains(d) implies rank[d.oid] <= rank[
                x.oid] by {
                if d != x {
                    assert(s2.contains(d));
                }
            }
        }
    }
}

/// In an acyclic set some node is always ready, so the emitted order
/// never has to fall back past the topological constraint.
proof fn lemma_ranked_has_ready(s: Set<CommitNodeView>, rank: Map<Seq<char>, int>)
    requires
        s.finite(),
        s.len() > 0,
        ranked(s, rank),
    ensures
        exists|c: CommitNodeView| s.contains(c) && ready(c, s),
{
    lemma_exists_max_rank(s, rank);
    let m = choose|m: CommitNodeView|
        s.contains(m) && (forall|d: CommitNodeView|
            s.contains(d) ==> rank[d.oid] <= rank[#[trigger] m.oid]);
    assert forall|d: CommitNodeView| s.contains(d) implies !d.parents.contains(m.oid) by {
        if d.parents.contains(m.oid) {
            assert(rank[m.oid] < rank[d.oid]);
            assert(rank[d.oid] <= rank[m.oid]);
        }
    }
    assert(ready(m, s));
}

/// Topological soundness: in the emitted order of an acyclic node set
/// no commit is followed by one of its children; parent links always
/// point backwards-to-later, so no ancestor is ordered strictly
/// before one of its own descendants.
pub proof fn lemma_topological_soundness(s: Set<CommitNodeView>, rank: Map<Seq<char>, int>)
    requires
        s.finite(),
        set_distinct_ids(s),
        ranked(s, rank),
    ensures
        forall|i: int, j: int|
            0 <= i < j < order_spec(s).len() ==> !(#[trigger] order_spec(s)[j]).parents.contains(
                (#[trigger] order_spec(s)[i]).oid),
    decreases s.len(),
{
    if s.len() > 0 {
        lemma_pick_in_set(s);
        let c = pick(s);
        let s2 = s.remove(c);
        assert(set_distinct_ids(s2));
        assert(ranked(s2, rank));
        lemma_topological_soundness(s2, rank);
        lemma_order_spec_elems(s2);
        assert(order_spec(s) == seq![c] + order_spec(s2));
        // the pick is ready: the best ready node exists, and the
        // fallback branch is never taken on a ranked set
        lemma_ranked_has_ready(s, rank);
        let rdy = Set::new(|d: CommitNodeView| s.contains(d) && ready(d, s));
        vstd::set_lib::lemma_len_subset(rdy, s);
        assert(rdy.len() > 0) by {
            let w = choose|w: CommitNodeView| s.contains(w) && ready(w, s);
            assert(rdy.contains(w));
            if rdy.len() == 0 {
                assert(rdy =~= Set::<CommitNodeView>::empty());
            }
        }
        assert(set_distinct_ids(rdy));
        lemma_exists_any_best(rdy);
        let rb = choose|rb: CommitNodeView| is_any_best(rb, rdy);
        assert(is_cand_best(rb, s)) by {
            assert forall|d: CommitNodeView| s.contains(d) && ready(d, s) && d != rb implies
                prior(rb, d) by {
                assert(rdy.contains(d));
            }
        }
        let cb = choose|cb: CommitNodeView| is_cand_best(cb, s);
        assert(c == cb);
        assert(ready(c, s));
        assert forall|i: int, j: int|
            0 <= i < j < order_spec(s).len() implies !(#[trigger] order_spec(s)[j]).parents
            .contains((#[trigger] order_spec(s)[i]).oid) by {
            if i == 0 {
                assert(order_spec(s)[i] == c);
                assert(order_spec(s)[j] == order_spec(s2)[j - 1]);
                assert(s2.contains(order_spec(s2)[j - 1]));
                assert(s.contains(order_spec(s2)[j - 1]));
            } else {
                assert(order_spec(s)[i] == order_spec(s2)[i - 1]);
                assert(order_spec(s)[j] == order_spec(s2)[j - 1]);
            }
        }
    }
}


/// Compares two id strings in the order of `lex_less`.
fn lex_less_exec(a: &String, b: &String) -> (r: bool)
    ensures
        r == lex_less(a@, b@),
{
    let an = a.as_str().unicode_len();
    let bn = b.as_str().unicode_len();
    let mut i: usize = 0;
    proof {
        assert(a@.skip(0) =~= a@);
        assert(b@.skip(0) =~= b@);
    }
    while i < an && i < bn
        invariant
            i <= an == a@.len(),
            i <= bn == b@.len(),
            lex_less(a@, b@) == lex_less(a@.skip(i as int), b@.skip(i as int)),
        decreases an - i,
    {
        let ca = a.as_str().get_char(i);
        let cb = b.as_str().get_char(i);
        if ca != cb {
            proof {
                assert(a@.skip(i as int)[0] == ca);
                assert(b@.skip(i as int)[0] == cb);
            }
            return (ca as u32) < (cb as u32);
        }
        proof {
            assert(a@.skip(i as int)[0] == ca);
            assert(b@.skip(i as int)[0] == cb);
            assert(a@.skip(i as int).skip(1) =~= a@.skip(i + 1));
            assert(b@.skip(i as int).skip(1) =~= b@.skip(i + 1));
        }
        i = i + 1;
    }
    proof {
        assert(a@.skip(i as int).len() == an - i);
        assert(b@.skip(i as int).len() == bn - i);
    }
    i < bn
}

/// Compares two nodes in the emission order for unrelated commits.
fn prior_exec(a: &CommitNode, b: &CommitNode) -> (r: bool)
    ensures
        r == prior(a@, b@),
{
    if a.timestamp > b.timestamp {
        true
    } else if a.timestamp == b.timestamp {
        lex_less_exec(&a.oid, &b.oid)
    } else {
        false
    }
}

/// True when some string of `vs` has the value of `id`.
fn vec_contains_string(vs: &Vec<String>, id: &String) -> (r: bool)
    ensures
        r == vs.deep_view().contains(id@),
{
    let n = vs.len();
    let mut i: usize = 0;
    while i < n
        invariant
            i <= n == vs@.len(),
            forall|k: int| 0 <= k < i ==> vs.deep_view()[k] != id@,
        decreases n - i,
    {
        if vs[i] == *id {
            proof {
                assert(vs.deep_view()[i as int] == id@);
            }
            return true;
        }
        i = i + 1;
    }
    false
}

/// True when the node at `i` is ready with respect to all of `v`.
fn is_ready_at(v: &Vec<CommitNode>, i: usize) -> (r: bool)
    requires
        i < v@.len(),
    ensures
        r == ready(views(v@)[i as int], views(v@).to_set()),
{
    let ghost s = views(v@).to_set();
    let n = v.len();
    let mut j: usize = 0;
    while j < n
        invariant
            j <= n == v@.len(),
            i < v@.len(),
            s == views(v@).to_set(),
            forall|k: int|
                0 <= k < j ==> !(#[trigger] views(v@)[k]).parents.contains(
                    views(v@)[i as int].oid),
        decreases n - j,
    {
        if vec_contains_string(&v[j].parents, &v[i].oid) {
            proof {
                assert(views(v@)[j as int].parents.contains(views(v@)[i as int].oid));
                assert(s.contains(views(v@)[j as int]));
            }
            return false;
        }
        j = j + 1;
    }
    proof {
        assert forall|d: CommitNodeView| s.contains(d) implies !d.parents.contains(
            views(v@)[i as int].oid) by {
            let k = choose|k: int| 0 <= k < views(v@).len() && views(v@)[k] == d;
        }
    }
    true
}

/// Picks the index of the node that `pick` names for the set of `v`.
fn select_best(v: &Vec<CommitNode>) -> (bi: usize)
    requires
        v@.len() > 0,
        distinct_ids(views(v@)),
    ensures
        bi < v@.len(),
        views(v@)[bi as int] == pick(views(v@).to_set()),
{
    let ghost s = views(v@).to_set();
    let n = v.len();
    let mut bi: usize = 0;
    let mut bready = is_ready_at(v, 0);
    let mut i: usize = 1;
    while i < n
        invariant
            1 <= i <= n == v@.len(),
            bi < i,
            distinct_ids(views(v@)),
            s == views(v@).to_set(),
            bready == ready(views(v@)[bi as int], s),
            bready ==> forall|j: int|
                0 <= j < i && j != bi && ready(#[trigger] views(v@)[j], s) ==> prior(
                    views(v@)[bi as int], views(v@)[j]),
            !bready ==> forall|j: int| 0 <= j < i ==> !ready(#[trigger] views(v@)[j], s),
            !bready ==> forall|j: int|
                0 <= j < i && j != bi ==> prior(views(v@)[bi as int], #[trigger] views(v@)[j]),
        decreases n - i,
    {
        let r = is_ready_at(v, i);
        let better =
            if r && !bready {
                true
            } else if r == bready {
                prior_exec(&v[i], &v[bi])
            } else {
                false
            };
        proof {
            assert(views(v@)[i as int] == v@[i as int]@);
            if !better && r == bready {
                assert(views(v@)[i as int].oid != views(v@)[bi as int].oid);
                lemma_prior_total(views(v@)[i as int], views(v@)[bi as int]);
                assert(prior(views(v@)[bi as int], views(v@)[i as int]));
            }
            if better && r == bready {
                // the new best outranks everything the old best outranked
                assert forall|j: int|
                    0 <= j < i && j != i as int && (!bready || ready(
                        #[trigger] views(v@)[j], s)) && j != bi implies prior(
                    views(v@)[i as int], views(v@)[j]) by {
                    lemma_prior_trans(views(v@)[i as int], views(v@)[bi as int], views(v@)[j]);
                }
            }
        }
        if better {
            bi = i;
            bready = r;
        }
        i = i + 1;
    }
    proof {
        let c = views(v@)[bi as int];
        assert(s.contains(c));
        if bready {
            assert(is_cand_best(c, s)) by {
                assert forall|d: CommitNodeView| s.contains(d) && ready(d, s) && d != c implies
                    prior(c, d) by {
                    let j = choose|j: int| 0 <= j < views(v@).len() && views(v@)[j] == d;
                    assert(j != bi);
                }
            }
            let cb = choose|cb: CommitNodeView| is_cand_best(cb, s);
            lemma_cand_best_unique(s, c, cb);
        } else {
            assert forall|d: CommitNodeView| s.contains(d) implies !ready(d, s) by {
                let j = choose|j: int| 0 <= j < views(v@).len() && views(v@)[j] == d;
            }
            assert(!exists|cb: CommitNodeView| is_cand_best(cb, s));
            assert(is_any_best(c, s)) by {
                assert forall|d: CommitNodeView| s.contains(d) && d != c implies prior(c,
                    d) by {
                    let j = choose|j: int| 0 <= j < views(v@).len() && views(v@)[j] == d;
                    assert(j != bi);
                }
            }
            let ab = choose|ab: CommitNodeView| is_any_best(ab, s);
            lemma_any_best_unique(s, c, ab);
        }
    }
    bi
}

/// Removing index `i` from a sequence with distinct ids removes
/// exactly that node from its set.
proof fn lemma_swap_remove_set(rv: Seq<CommitNodeView>, i: int)
    requires
        0 <= i < rv.len(),
        distinct_ids(rv),
    ensures
        distinct_ids(rv.update(i, rv.last()).drop_last()),
        rv.update(i, rv.last()).drop_last().to_set() =~= rv.to_set().remove(rv[i]),
{
    let t = rv.update(i, rv.last()).drop_last();
    assert(t.len() == rv.len() - 1);
    assert forall|k: int| 0 <= k < t.len() implies #[trigger] t[k] == (if k == i {
        rv.last()
    } else {
        rv[k]
    }) by {}
    assert forall|a: int, b: int| 0 <= a < b < t.len() implies t[a].oid != t[b].oid by {
        if a == i {
            assert(t[a] == rv.last());
            assert(t[b] == rv[b]);
        } else if b == i {
            assert(t[b] == rv.last());
        }
    }
    assert forall|x: CommitNodeView| t.to_set().contains(x) implies rv.to_set().remove(
        rv[i]).contains(x) by {
        let k = choose|k: int| 0 <= k < t.len() && t[k] == x;
        if k == i {
            assert(rv[rv.len() - 1] == x);
            if i == rv.len() - 1 {
            } else {
                assert(x != rv[i]);
            }
        } else {
            assert(rv[k] == x);
            assert(x != rv[i]);
        }
    }
    assert forall|x: CommitNodeView| rv.to_set().remove(rv[i]).contains(x) implies t.to_set()
        .contains(x) by {
        let k = choose|k: int| 0 <= k < rv.len() && rv[k] == x;
        assert(k != i);
        if k == rv.len() - 1 {
            assert(i < rv.len() - 1);
            assert(t[i] == x);
        } else {
            assert(t[k] == x);
        }
    }
}

/// Emits the nodes in the order of `order_spec` of their set: ready
/// nodes first by recency, ties broken by id, topological constraints
/// respected wherever the parent links are acyclic.
pub fn order_nodes(nodes: Vec<CommitNode>) -> (out: Vec<CommitNode>)
    requires
        distinct_ids(views(nodes@)),
    ensures
        views(out@) == order_spec(views(nodes@).to_set()),
        out@.len() == nodes@.len(),
{
    let ghost s0 = views(nodes@).to_set();
    let mut rem = nodes;
    let mut out: Vec<CommitNode> = Vec::new();
    while rem.len() > 0
        invariant
            distinct_ids(views(rem@)),
            views(out@) + order_spec(views(rem@).to_set()) == order_spec(s0),
            out@.len() + rem@.len() == views(nodes@).len(),
            s0 == views(nodes@).to_set(),
        decreases rem@.len(),
    {
        let ghost rv = views(rem@);
        let ghost rs = rv.to_set();
        proof {
            assert(rv.no_duplicates()) by {
                assert forall|a: int, b: int|
                    0 <= a < rv.len() && 0 <= b < rv.len() && a != b implies rv[a] != rv[b] by {
                    if a < b {
                        assert(rv[a].oid != rv[b].oid);
                    } else {
                        assert(rv[b].oid != rv[a].oid);
                    }
                }
            }
            rv.unique_seq_to_set();
            vstd::seq_lib::seq_to_set_is_finite(rv);
            assert(rs.len() == rv.len());
        }
        let bi = select_best(&rem);
        let ghost picked = rv[bi as int];
        proof {
            assert(picked == pick(rs));
            assert(rs.contains(picked));
            assert(order_spec(rs) == seq![picked] + order_spec(rs.remove(picked)));
            lemma_swap_remove_set(rv, bi as int);
        }
        let node = rem.swap_remove(bi);
        proof {
            assert(node@ == picked);
            assert(views(rem@) =~= rv.update(bi as int, rv.last()).drop_last());
            assert(views(rem@).to_set() =~= rs.remove(picked));
        }
        let ghost out0 = views(out@);
        out.push(node);
        proof {
            assert(views(out@) =~= out0.push(picked));
            assert(views(out@) + order_spec(views(rem@).to_set()) =~= order_spec(s0));
        }
    }
    proof {
        assert(views(rem@).len() == 0);
        assert(views(rem@).to_set() =~= Set::<CommitNodeView>::empty());
        assert(order_spec(views(rem@).to_set()) == Seq::<CommitNodeView>::empty());
        assert(views(out@) =~= order_spec(s0));
    }
    out
}


/// Builds the rendered history: collects every commit reachable from
/// `root` in `model` exactly once and emits the nodes in the order of
/// `order_spec`. The result is a function of the model and the root
/// alone, so repeated calls on an unchanged repository agree; every
/// reachable id appears exactly once; a parent id that resolves to no
/// model node surfaces as `DanglingParent`.
pub fn build_graph(model: &Vec<CommitNode>, root: &String) -> (r: Result<
    Vec<CommitNode>,
    GraphError,
>)
    requires
        distinct_ids(views(model@)),
    ensures
        match r {
            Ok(out) => {
                &&& views(out@) == order_spec(reachable_nodes(views(model@), root@))
                &&& distinct_ids(views(out@))
                &&& forall|id: Seq<char>|
                    reachable(views(model@), root@, id) ==> has_id(views(out@), id)
                &&& forall|i: int|
                    0 <= i < out@.len() ==> in_model(views(model@), #[trigger] views(out@)[i])
                        && reachable(views(model@), root@, views(out@)[i].oid)
            },
            Err(e) => {
                &&& e == GraphError::DanglingParent
                &&& exists|id: Seq<char>|
                    reachable(views(model@), root@, id) && !has_id(views(model@), id)
            },
        },
{
    let ghost vm = views(model@);
    let collected = match collect_reachable(model, root) {
        Ok(c) => c,
        Err(e) => {
            return Err(e);
        },
    };
    let ghost cv = views(collected@);
    proof {
        assert(cv.no_duplicates()) by {
            assert forall|a: int, b: int|
                0 <= a < cv.len() && 0 <= b < cv.len() && a != b implies cv[a] != cv[b] by {
                if a < b {
                    assert(cv[a].oid != cv[b].oid);
                } else {
                    assert(cv[b].oid != cv[a].oid);
                }
            }
        }
        cv.unique_seq_to_set();
        vstd::seq_lib::seq_to_set_is_finite(cv);
        assert forall|x: CommitNodeView| cv.to_set().contains(x) implies reachable_nodes(vm,
            root@).contains(x) by {
            let i = choose|i: int| 0 <= i < cv.len() && cv[i] == x;
        }
        assert forall|x: CommitNodeView| reachable_nodes(vm, root@).contains(x) implies cv
            .to_set().contains(x) by {
            assert(has_id(cv, x.oid));
            let i = choose|i: int| 0 <= i < cv.len() && cv[i].oid == x.oid;
            let j = choose|j: int| 0 <= j < vm.len() && vm[j] == cv[i];
            let k = choose|k: int| 0 <= k < vm.len() && vm[k] == x;
            assert(vm[j].oid == vm[k].oid);
            assert(vm[j] == vm[k]);
            assert(cv.contains(cv[i]));
        }
        assert(cv.to_set() =~= reachable_nodes(vm, root@));
        assert(set_distinct_ids(cv.to_set())) by {
            assert forall|a: CommitNodeView, b: CommitNodeView|
                cv.to_set().contains(a) && cv.to_set().contains(b) && a != b implies a.oid
                != b.oid by {
                let i = choose|i: int| 0 <= i < cv.len() && cv[i] == a;
                let j = choose|j: int| 0 <= j < cv.len() && cv[j] == b;
                if i < j {
                    assert(cv[i].oid != cv[j].oid);
                } else if j < i {
                    assert(cv[j].oid != cv[i].oid);
                }
            }
        }
    }
    let out = order_nodes(collected);
    proof {
        let ov = views(out@);
        lemma_order_spec_elems(cv.to_set());
        assert(distinct_ids(ov)) by {
            assert forall|a: int, b: int| 0 <= a < b < ov.len() implies ov[a].oid != ov[b]
                .oid by {
                assert(ov[a] != ov[b]);
                assert(cv.to_set().contains(ov[a]));
                assert(cv.to_set().contains(ov[b]));
            }
        }
        assert forall|id: Seq<char>| reachable(vm, root@, id) implies has_id(ov, id) by {
            assert(has_id(cv, id));
            let i = choose|i: int| 0 <= i < cv.len() && cv[i].oid == id;
            assert(cv.to_set().contains(cv[i]));
            assert(ov.contains(cv[i]));
            let k = choose|k: int| 0 <= k < ov.len() && ov[k] == cv[i];
        }
        assert forall|i: int| 0 <= i < ov.len() implies in_model(vm, #[trigger] ov[i])
            && reachable(vm, root@, ov[i].oid) by {
            assert(cv.to_set().contains(ov[i]));
            let k = choose|k: int| 0 <= k < cv.len() && cv[k] == ov[i];
        }
    }
    Ok(out)
}

/// Determinism of graph construction: for one model and root there is
/// exactly one sequence satisfying `build_graph`'s success contract,
/// so two successive builds over an unchanged repository yield
/// identical node sequences.
pub proof fn lemma_build_graph_deterministic(
    m: Seq<CommitNodeView>,
    root: Seq<char>,
    r1: Seq<CommitNodeView>,
    r2: Seq<CommitNodeView>,
)
    requires
        r1 == order_spec(reachable_nodes(m, root)),
        r2 == order_spec(reachable_nodes(m, root)),
    ensures
        r1 == r2,
{
}

} // verus!
