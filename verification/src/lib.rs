//! A directed-acyclic-graph analyzer. Nodes carry an id and up to two
//! predecessor references; the library detects duplicate ids, missing
//! references and repeated submissions, builds a topological order,
//! computes shortest and longest path lengths from a root, and
//! enumerates every root-originating path prefix.
//!
//! Two identity notions coexist: a [`Node`] compares equal by id alone,
//! while a [`collitions::CollidingNode`] wraps the same record and
//! compares by every field, so that "same id, different content" can be
//! told apart from an exact duplicate.
use vstd::prelude::*;
use std::collections::HashMap;

/// Node collision bookkeeping: the full-identity wrapper type.
pub mod collitions;
/// Error values shared by the topological algorithms.
pub mod error;
/// Topological analysis: ingestion, consistency, sorting and paths.
pub mod topological;

use collitions::CollidingNode;

verus! {

broadcast use vstd::std_specs::hash::group_hash_axioms;

/// A graph node: an id, up to two optional predecessor ids, and an
/// optional payload. Nodes make no assumption about the structure of the
/// graph they are inserted in; two nodes are equal when their ids are
/// equal, whatever the other fields hold.
#[derive(Debug, Clone, Copy, Hash)]
pub struct Node {
    pub id: u64,
    pub left: Option<u64>,
    pub right: Option<u64>,
    pub payload: Option<u64>,
}

/// True when the two records agree on id and on both predecessor
/// references; the payload is not compared.
pub open spec fn same_node_fields(a: Node, b: Node) -> bool {
    a.id == b.id && a.left == b.left && a.right == b.right
}

/// The in-degree of a node: how many of its two predecessor fields are
/// set. A node referencing the same predecessor through both fields
/// still counts 2.
pub open spec fn spec_in_degree(n: Node) -> int {
    (if n.left is Some { 1int } else { 0int }) + (if n.right is Some { 1int } else { 0int })
}

impl PartialEq for Node {
    fn eq(&self, other: &Node) -> (r: bool) {
        self.id == other.id
    }
}

impl Eq for Node {}

impl vstd::std_specs::cmp::PartialEqSpecImpl for Node {
    open spec fn obeys_eq_spec() -> bool {
        true
    }

    open spec fn eq_spec(&self, other: &Node) -> bool {
        self.id == other.id
    }
}

impl Node {
    /// Builds a node from its id, its two optional predecessor
    /// references and its optional payload.
    pub fn new(id: u64, left: Option<u64>, right: Option<u64>, payload: Option<u64>) -> (r: Node)
        ensures
            r == (Node { id, left, right, payload }),
    {
        Node { id, left, right, payload }
    }

    /// Compares id and both predecessor references of this node with
    /// those of `node`.
    pub fn has_same_fields_to(&self, node: &Node) -> (r: bool)
        ensures
            r == same_node_fields(*self, *node),
    {
        self.id == node.id && self.left == node.left && self.right == node.right
    }

    /// Counts the non-empty predecessor references of the node.
    pub fn in_degree(&self) -> (r: usize)
        ensures
            r == spec_in_degree(*self),
    {
        let mut in_degree: usize = 0;
        if self.left.is_some() {
            in_degree += 1
        };
        if self.right.is_some() {
            in_degree += 1
        };
        in_degree
    }
}

/// The mathematical state of a [`Dag`]: the keyed records, the collision
/// sets accumulated per id, and the safety flag.
pub struct DagModel {
    pub map: Map<u64, Node>,
    pub cols: Map<u64, Seq<CollidingNode>>,
    pub safe: bool,
}

/// The state of a freshly created repository: no records, no collisions,
/// marked safe.
pub open spec fn dag_empty() -> DagModel {
    DagModel { map: Map::empty(), cols: Map::empty(), safe: true }
}

/// The collision set recorded for `id`, or the empty sequence when none
/// has been recorded yet.
pub open spec fn dag_cols_at(m: DagModel, id: u64) -> Seq<CollidingNode> {
    if m.cols.contains_key(id) {
        m.cols[id]
    } else {
        Seq::empty()
    }
}

/// True when every predecessor reference of `n` resolves to a record
/// already present in `m`.
pub open spec fn dag_refs_present(m: DagModel, n: Node) -> bool {
    &&& (n.left is Some ==> m.map.contains_key(n.left->0))
    &&& (n.right is Some ==> m.map.contains_key(n.right->0))
}

/// One insertion step of the repository. A known id leaves the records
/// untouched and accumulates the submission in that id's collision set;
/// a new id is always stored, but a predecessor reference that does not
/// resolve clears the safety flag for good.
pub open spec fn dag_step(m: DagModel, n: Node) -> DagModel {
    if m.map.contains_key(n.id) {
        let cs = dag_cols_at(m, n.id);
        let cs2 = if cs.contains(CollidingNode(n)) {
            cs
        } else {
            cs.push(CollidingNode(n))
        };
        DagModel { cols: m.cols.insert(n.id, cs2), ..m }
    } else if !dag_refs_present(m, n) {
        DagModel { map: m.map.insert(n.id, n), safe: false, ..m }
    } else {
        DagModel { map: m.map.insert(n.id, n), ..m }
    }
}

/// What one insertion step reports: the record already holding the id on
/// a collision, the node itself when it was stored with a dangling
/// reference, nothing on a clean insertion.
pub open spec fn dag_step_out(m: DagModel, n: Node) -> Option<Node> {
    if m.map.contains_key(n.id) {
        Some(m.map[n.id])
    } else if !dag_refs_present(m, n) {
        Some(n)
    } else {
        None
    }
}

/// Folds [`dag_step`] over a whole input sequence.
pub open spec fn dag_run(m: DagModel, s: Seq<Node>) -> DagModel
    decreases s.len(),
{
    if s.len() == 0 {
        m
    } else {
        dag_step(dag_run(m, s.drop_last()), s.last())
    }
}

/// The reports of each step of [`dag_run`], in input order.
pub open spec fn dag_run_outs(m: DagModel, s: Seq<Node>) -> Seq<Option<Node>>
    decreases s.len(),
{
    if s.len() == 0 {
        Seq::empty()
    } else {
        dag_run_outs(m, s.drop_last()).push(dag_step_out(dag_run(m, s.drop_last()), s.last()))
    }
}

/// Every stored record carries the id it is keyed by — so a record
/// looked up under an id is a record with that id.
pub open spec fn dag_keys_ok(m: DagModel) -> bool {
    forall|k: u64| #[trigger] m.map.contains_key(k) ==> m.map[k].id == k
}

/// One insertion step keeps every record under its own id: the empty
/// repository trivially has the property, every insertion stores a
/// node under that node's id, and the in-place update does the same,
/// so it is an invariant of every repository this interface can build.
pub proof fn lemma_dag_step_keys(m: DagModel, n: Node)
    requires
        dag_keys_ok(m),
    ensures
        dag_keys_ok(dag_step(m, n)),
{
}

/// A whole ingestion run keeps every record under its own id.
pub proof fn lemma_dag_run_keys(m: DagModel, s: Seq<Node>)
    requires
        dag_keys_ok(m),
    ensures
        dag_keys_ok(dag_run(m, s)),
    decreases s.len(),
{
    if s.len() > 0 {
        lemma_dag_run_keys(m, s.drop_last());
        lemma_dag_step_keys(dag_run(m, s.drop_last()), s.last());
    }
}

/// A keyed node repository: id-unique records, a per-id set of colliding
/// submissions, and a monotonic safety flag that is cleared forever once
/// an insertion references an id not yet present, or once a record is
/// updated in place.
#[derive(Debug, Clone)]
pub struct Dag {
    nodes: HashMap<u64, Node>,
    possible_collitions: HashMap<u64, Vec<CollidingNode>>,
    safe: bool,
}

impl Dag {
    /// The mathematical state of the repository.
    pub closed spec fn model(&self) -> DagModel {
        DagModel {
            map: self.nodes@,
            cols: self.possible_collitions@.map_values(|v: Vec<CollidingNode>| v@),
            safe: self.safe,
        }
    }

    /// Creates a new empty repository marked as safe.
    pub fn new() -> (r: Dag)
        ensures
            r.model() == dag_empty(),
    {
        let r = Dag { nodes: HashMap::new(), possible_collitions: HashMap::new(), safe: true };
        proof {
            assert(r.model().cols =~= dag_empty().cols);
            assert(r.model() == dag_empty());
        }
        r
    }

    /// Builds a fresh repository from a list of nodes and reports
    /// whether the list respected a topological order: every reference
    /// resolved at the time it was inserted and no id was repeated.
    pub fn check_topological_order(node_list: &Vec<Node>) -> (r: bool)
        ensures
            r == dag_run(dag_empty(), node_list@).safe,
    {
        let mut topology = Self::new();
        topology.insert_from(node_list);
        topology.is_safe()
    }

    /// Inserts every node of the list in order, collecting each step's
    /// report.
    pub fn insert_from(&mut self, node_list: &Vec<Node>) -> (r: Vec<Option<Node>>)
        ensures
            final(self).model() == dag_run(old(self).model(), node_list@),
            r@ == dag_run_outs(old(self).model(), node_list@),
    {
        let ghost m0 = self.model();
        let mut results: Vec<Option<Node>> = Vec::new();
        let mut i: usize = 0;
        while i < node_list.len()
            invariant
                i <= node_list.len(),
                self.model() == dag_run(m0, node_list@.subrange(0, i as int)),
                results@ == dag_run_outs(m0, node_list@.subrange(0, i as int)),
            decreases node_list.len() - i,
        {
            let ghost pre = node_list@.subrange(0, i as int);
            let out = self.insert(node_list[i]);
            results.push(out);
            i += 1;
            proof {
                let post = node_list@.subrange(0, i as int);
                assert(post.drop_last() =~= pre);
                assert(post.last() == node_list@[i - 1]);
            }
        }
        proof {
            assert(node_list@.subrange(0, node_list@.len() as int) =~= node_list@);
        }
        results
    }

    /// Inserts a node unless its id is already present.
    ///
    /// A new id is always stored and indexed; if one of its references
    /// does not resolve, the repository is marked unsafe for good and
    /// the stored node is reported back. A known id never updates the
    /// stored record: the submission joins that id's collision set and
    /// the pre-existing record is reported.
    pub fn insert(&mut self, node: Node) -> (r: Option<Node>)
        ensures
            final(self).model() == dag_step(old(self).model(), node),
            r == dag_step_out(old(self).model(), node),
    {
        let ghost m0 = self.model();
        if self.nodes.contains_key(&node.id) {
            let c = CollidingNode(node);
            let mut cset: Vec<CollidingNode> = match self.possible_collitions.get(&node.id) {
                Some(existing) => copy_colliding_vec(existing),
                None => Vec::new(),
            };
            proof {
                assert(cset@ == dag_cols_at(m0, node.id));
            }
            if !colliding_vec_contains(&cset, &c) {
                cset.push(c);
            }
            self.possible_collitions.insert(node.id, cset);
            proof {
                assert(self.model().cols =~= dag_step(m0, node).cols);
                assert(self.model() == dag_step(m0, node));
            }
            match self.nodes.get(&node.id) {
                Some(previous) => Some(*previous),
                None => None,
            }
        } else if node.left.is_some() && !self.nodes.contains_key(&node.left.unwrap()) {
            self.safe = false;
            self.nodes.insert(node.id, node);
            proof {
                assert(self.model() == dag_step(m0, node));
            }
            Some(node)
        } else if node.right.is_some() && !self.nodes.contains_key(&node.right.unwrap()) {
            self.safe = false;
            self.nodes.insert(node.id, node);
            proof {
                assert(self.model() == dag_step(m0, node));
            }
            Some(node)
        } else {
            self.nodes.insert(node.id, node);
            proof {
                assert(self.model() == dag_step(m0, node));
            }
            None
        }
    }

    /// Stores the node under its id whether or not the id is already
    /// present, reporting the record it replaced. Using this method
    /// gives up the safety guarantee: the flag is cleared for good.
    pub fn insert_or_update(&mut self, node: Node) -> (r: Option<Node>)
        ensures
            final(self).model().map == old(self).model().map.insert(node.id, node),
            final(self).model().cols == old(self).model().cols,
            final(self).model().safe == false,
            r == (if old(self).model().map.contains_key(node.id) {
                Some(old(self).model().map[node.id])
            } else {
                Option::<Node>::None
            }),
    {
        self.safe = false;
        self.nodes.insert(node.id, node)
    }

    /// True when a record with this id is present.
    pub fn contains_id(&self, id: &u64) -> (r: bool)
        ensures
            r == self.model().map.contains_key(*id),
    {
        self.nodes.contains_key(id)
    }

    /// Looks a record up by id.
    pub fn get(&self, id: &u64) -> (r: Option<&Node>)
        ensures
            match r {
                Some(n) => self.model().map.contains_key(*id) && *n == self.model().map[*id],
                None => !self.model().map.contains_key(*id),
            },
    {
        self.nodes.get(id)
    }

    /// The submissions that collided with the record stored under `id`,
    /// in the order they arrived, or nothing when no collision was ever
    /// recorded for it.
    pub fn get_collitions(&self, id: &u64) -> (r: Option<&Vec<CollidingNode>>)
        ensures
            match r {
                Some(v) => self.model().cols.contains_key(*id) && v@ == self.model().cols[*id],
                None => !self.model().cols.contains_key(*id),
            },
    {
        self.possible_collitions.get(id)
    }

    /// Reads the safety flag: true as long as no insertion ever dangled
    /// a reference and no record was updated in place.
    pub fn is_safe(&mut self) -> (r: bool)
        ensures
            *final(self) == *old(self),
            r == old(self).model().safe,
    {
        self.safe
    }
}

/// Copies a vector of full-identity views element by element.
pub(crate) fn copy_colliding_vec(v: &Vec<CollidingNode>) -> (r: Vec<CollidingNode>)
    ensures
        r@ == v@,
{
    let mut r: Vec<CollidingNode> = Vec::new();
    let mut i: usize = 0;
    while i < v.len()
        invariant
            i <= v.len(),
            r@ == v@.subrange(0, i as int),
        decreases v.len() - i,
    {
        r.push(v[i]);
        i += 1;
    }
    proof {
        assert(v@.subrange(0, v@.len() as int) =~= v@);
    }
    r
}

/// Membership test on a vector of full-identity views: every field of
/// the wrapped nodes is compared.
pub(crate) fn colliding_vec_contains(v: &Vec<CollidingNode>, c: &CollidingNode) -> (r: bool)
    ensures
        r == v@.contains(*c),
{
    let mut i: usize = 0;
    while i < v.len()
        invariant
            i <= v.len(),
            forall|k: int| 0 <= k < i ==> v@[k] != *c,
        decreases v.len() - i,
    {
        let a = v[i].0;
        let b = c.0;
        if a.id == b.id && a.left == b.left && a.right == b.right && a.payload == b.payload {
            proof {
                assert(v@[i as int] == *c);
            }
            return true;
        }
        i += 1;
    }
    false
}

} // verus!
