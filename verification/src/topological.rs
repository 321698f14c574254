use vstd::prelude::*;
use crate::Node;
use crate::spec_in_degree;
use crate::collitions::CollidingNode;
use crate::colliding_vec_contains;
use crate::copy_colliding_vec;
use crate::error::TopologicalError;

verus! {

// ------------------------------------------------------------------
// Looking nodes up by id
// ------------------------------------------------------------------

/// True when some record in `s` carries the id.
pub open spec fn has_id(s: Seq<Node>, id: u64) -> bool {
    exists|i: int| 0 <= i < s.len() && s[i].id == id
}

/// The first record in `s` carrying the id, if any.
pub open spec fn find_node(s: Seq<Node>, id: u64) -> Option<Node>
    decreases s.len(),
{
    if s.len() == 0 {
        None
    } else if s[0].id == id {
        Some(s[0])
    } else {
        find_node(s.subrange(1, s.len() as int), id)
    }
}

/// True when no two records in `s` share an id.
pub open spec fn unique_ids(s: Seq<Node>) -> bool {
    forall|i: int, j: int| 0 <= i < j < s.len() ==> s[i].id != s[j].id
}

proof fn lemma_find_node_some_iff(s: Seq<Node>, id: u64)
    ensures
        find_node(s, id) is Some <==> has_id(s, id),
        find_node(s, id) is Some ==> (find_node(s, id)->0).id == id,
    decreases s.len(),
{
    if s.len() == 0 {
    } else if s[0].id == id {
    } else {
        let t = s.subrange(1, s.len() as int);
        lemma_find_node_some_iff(t, id);
        assert(has_id(s, id) <==> has_id(t, id)) by {
            if has_id(s, id) {
                let i = choose|i: int| 0 <= i < s.len() && s[i].id == id;
                assert(i != 0);
                assert(t[i - 1].id == id);
            }
            if has_id(t, id) {
                let i = choose|i: int| 0 <= i < t.len() && t[i].id == id;
                assert(s[i + 1].id == id);
            }
        }
    }
}

proof fn lemma_find_node_at(s: Seq<Node>, id: u64, i: int)
    requires
        0 <= i < s.len(),
        s[i].id == id,
        forall|k: int| 0 <= k < i ==> s[k].id != id,
    ensures
        find_node(s, id) == Some(s[i]),
    decreases s.len(),
{
    if i == 0 {
    } else {
        let t = s.subrange(1, s.len() as int);
        lemma_find_node_at(t, id, i - 1);
    }
}

/// With unique ids, any record carrying the id is the one `find_node`
/// returns.
proof fn lemma_find_node_unique(s: Seq<Node>, id: u64, i: int)
    requires
        unique_ids(s),
        0 <= i < s.len(),
        s[i].id == id,
    ensures
        find_node(s, id) == Some(s[i]),
{
    lemma_find_node_at(s, id, i);
}

// ------------------------------------------------------------------
// The forward-edge index, mathematically
// ------------------------------------------------------------------

/// Appends one forward edge `p -> c` to an edge map: `c` joins the back
/// of `p`'s successor list.
pub open spec fn edge_add(m: Map<u64, Seq<u64>>, p: u64, c: u64) -> Map<u64, Seq<u64>> {
    if m.contains_key(p) {
        m.insert(p, m[p].push(c))
    } else {
        m.insert(p, seq![c])
    }
}

/// Appends the edges contributed by one canonical record: one entry per
/// non-empty predecessor field, the left one first. A record naming the
/// same predecessor twice contributes two entries.
pub open spec fn node_edges_added(m: Map<u64, Seq<u64>>, n: Node) -> Map<u64, Seq<u64>> {
    let m1 = if n.left is Some {
        edge_add(m, n.left->0, n.id)
    } else {
        m
    };
    if n.right is Some {
        edge_add(m1, n.right->0, n.id)
    } else {
        m1
    }
}

/// The forward-edge index determined by a sequence of canonical
/// records: predecessor id to the ordered list of successor ids.
pub open spec fn edges_from(s: Seq<Node>) -> Map<u64, Seq<u64>>
    decreases s.len(),
{
    if s.len() == 0 {
        Map::empty()
    } else {
        node_edges_added(edges_from(s.drop_last()), s.last())
    }
}

/// The total number of forward edges contributed by the records of `s`:
/// the sum of their in-degrees.
pub open spec fn edge_total(s: Seq<Node>) -> int
    decreases s.len(),
{
    if s.len() == 0 {
        0
    } else {
        edge_total(s.drop_last()) + spec_in_degree(s.last())
    }
}

// ------------------------------------------------------------------
// Views of the association lists the struct actually stores
// ------------------------------------------------------------------

/// The edge map described by the stored association list.
pub open spec fn eview(s: Seq<(u64, Vec<u64>)>) -> Map<u64, Seq<u64>>
    decreases s.len(),
{
    if s.len() == 0 {
        Map::empty()
    } else {
        eview(s.drop_last()).insert(s.last().0, s.last().1@)
    }
}

/// True when no key repeats in the edge association list.
pub open spec fn ekeys_unique(s: Seq<(u64, Vec<u64>)>) -> bool {
    forall|i: int, j: int| 0 <= i < j < s.len() ==> s[i].0 != s[j].0
}

/// The number of edge entries stored across all successor lists.
pub open spec fn esum(s: Seq<(u64, Vec<u64>)>) -> int
    decreases s.len(),
{
    if s.len() == 0 {
        0
    } else {
        esum(s.drop_last()) + s.last().1@.len()
    }
}

proof fn lemma_eview_dom(s: Seq<(u64, Vec<u64>)>, k: u64)
    ensures
        eview(s).contains_key(k) <==> exists|i: int| 0 <= i < s.len() && s[i].0 == k,
    decreases s.len(),
{
    if s.len() == 0 {
    } else {
        lemma_eview_dom(s.drop_last(), k);
        if eview(s).contains_key(k) {
            if k != s.last().0 {
                let i = choose|i: int| 0 <= i < s.len() - 1 && s.drop_last()[i].0 == k;
                assert(s[i].0 == k);
            } else {
                assert(s[s.len() - 1].0 == k);
            }
        }
        if exists|i: int| 0 <= i < s.len() && s[i].0 == k {
            let i = choose|i: int| 0 <= i < s.len() && s[i].0 == k;
            if i < s.len() - 1 {
                assert(s.drop_last()[i].0 == k);
            }
        }
    }
}

proof fn lemma_eview_index(s: Seq<(u64, Vec<u64>)>, i: int)
    requires
        ekeys_unique(s),
        0 <= i < s.len(),
    ensures
        eview(s).contains_key(s[i].0),
        eview(s)[s[i].0] == s[i].1@,
    decreases s.len(),
{
    if i == s.len() - 1 {
    } else {
        assert(s.drop_last()[i] == s[i]);
        lemma_eview_index(s.drop_last(), i);
        assert(s[i].0 != s.last().0);
    }
}

proof fn lemma_eview_update(s: Seq<(u64, Vec<u64>)>, i: int, v: Vec<u64>)
    requires
        ekeys_unique(s),
        0 <= i < s.len(),
    ensures
        eview(s.update(i, (s[i].0, v))) =~= eview(s).insert(s[i].0, v@),
        ekeys_unique(s.update(i, (s[i].0, v))),
    decreases s.len(),
{
    let s2 = s.update(i, (s[i].0, v));
    assert(forall|k: int| 0 <= k < s.len() && k != i ==> s2[k] == s[k]);
    if i == s.len() - 1 {
        assert(s2.drop_last() =~= s.drop_last());
    } else {
        assert(s2.drop_last() =~= s.drop_last().update(i, (s[i].0, v)));
        assert(s.drop_last()[i] == s[i]);
        lemma_eview_update(s.drop_last(), i, v);
        assert(s.last().0 != s[i].0);
        assert(s2.last() == s.last());
        assert(eview(s2) =~= eview(s).insert(s[i].0, v@));
    }
}

proof fn lemma_esum_update(s: Seq<(u64, Vec<u64>)>, i: int, v: Vec<u64>)
    requires
        0 <= i < s.len(),
    ensures
        esum(s.update(i, (s[i].0, v))) == esum(s) - s[i].1@.len() + v@.len(),
    decreases s.len(),
{
    let s2 = s.update(i, (s[i].0, v));
    if i == s.len() - 1 {
        assert(s2.drop_last() =~= s.drop_last());
    } else {
        assert(s2.drop_last() =~= s.drop_last().update(i, (s[i].0, v)));
        assert(s.drop_last()[i] == s[i]);
        lemma_esum_update(s.drop_last(), i, v);
        assert(s2.last() == s.last());
    }
}

/// The map view described by the stored repeated-submission list.
pub open spec fn rview(s: Seq<(u64, Vec<CollidingNode>)>) -> Map<u64, Seq<CollidingNode>>
    decreases s.len(),
{
    if s.len() == 0 {
        Map::empty()
    } else {
        rview(s.drop_last()).insert(s.last().0, s.last().1@)
    }
}

/// True when no key repeats in the repeated-submission list.
pub open spec fn rkeys_unique(s: Seq<(u64, Vec<CollidingNode>)>) -> bool {
    forall|i: int, j: int| 0 <= i < j < s.len() ==> s[i].0 != s[j].0
}

proof fn lemma_rview_dom(s: Seq<(u64, Vec<CollidingNode>)>, k: u64)
    ensures
        rview(s).contains_key(k) <==> exists|i: int| 0 <= i < s.len() && s[i].0 == k,
    decreases s.len(),
{
    if s.len() == 0 {
    } else {
        lemma_rview_dom(s.drop_last(), k);
        if rview(s).contains_key(k) {
            if k != s.last().0 {
                let i = choose|i: int| 0 <= i < s.len() - 1 && s.drop_last()[i].0 == k;
                assert(s[i].0 == k);
            } else {
                assert(s[s.len() - 1].0 == k);
            }
        }
        if exists|i: int| 0 <= i < s.len() && s[i].0 == k {
            let i = choose|i: int| 0 <= i < s.len() && s[i].0 == k;
            if i < s.len() - 1 {
                assert(s.drop_last()[i].0 == k);
            }
        }
    }
}

proof fn lemma_rview_index(s: Seq<(u64, Vec<CollidingNode>)>, i: int)
    requires
        rkeys_unique(s),
        0 <= i < s.len(),
    ensures
        rview(s).contains_key(s[i].0),
        rview(s)[s[i].0] == s[i].1@,
    decreases s.len(),
{
    if i == s.len() - 1 {
    } else {
        assert(s.drop_last()[i] == s[i]);
        lemma_rview_index(s.drop_last(), i);
        assert(s[i].0 != s.last().0);
    }
}

proof fn lemma_rview_update(s: Seq<(u64, Vec<CollidingNode>)>, i: int, v: Vec<CollidingNode>)
    requires
        rkeys_unique(s),
        0 <= i < s.len(),
    ensures
        rview(s.update(i, (s[i].0, v))) =~= rview(s).insert(s[i].0, v@),
        rkeys_unique(s.update(i, (s[i].0, v))),
    decreases s.len(),
{
    let s2 = s.update(i, (s[i].0, v));
    assert(forall|k: int| 0 <= k < s.len() && k != i ==> s2[k] == s[k]);
    if i == s.len() - 1 {
        assert(s2.drop_last() =~= s.drop_last());
    } else {
        assert(s2.drop_last() =~= s.drop_last().update(i, (s[i].0, v)));
        assert(s.drop_last()[i] == s[i]);
        lemma_rview_update(s.drop_last(), i, v);
        assert(s.last().0 != s[i].0);
        assert(s2.last() == s.last());
        assert(rview(s2) =~= rview(s).insert(s[i].0, v@));
    }
}

// ------------------------------------------------------------------
// The ingestion model
// ------------------------------------------------------------------

/// The mathematical state of a [`Topology`]: every full-identity view
/// ever seen, the canonical records in first-seen order, the colliding
/// views, and the repeated submissions per id.
pub struct TopoModel {
    pub all: Seq<CollidingNode>,
    pub canon: Seq<Node>,
    pub cols: Seq<CollidingNode>,
    pub reps: Map<u64, Seq<CollidingNode>>,
}

/// The state of a freshly created analysis.
pub open spec fn topo_empty() -> TopoModel {
    TopoModel { all: Seq::empty(), canon: Seq::empty(), cols: Seq::empty(), reps: Map::empty() }
}

/// Adds one repeated submission to the per-id record, ignoring an exact
/// duplicate already recorded there.
pub open spec fn rep_add(reps: Map<u64, Seq<CollidingNode>>, n: Node) -> Map<
    u64,
    Seq<CollidingNode>,
> {
    let c = CollidingNode(n);
    let cur = if reps.contains_key(n.id) {
        reps[n.id]
    } else {
        Seq::empty()
    };
    if cur.contains(c) {
        reps
    } else {
        reps.insert(n.id, cur.push(c))
    }
}

proof fn lemma_rep_add_absent(reps: Map<u64, Seq<CollidingNode>>, n: Node, cur: Seq<CollidingNode>)
    requires
        reps.contains_key(n.id),
        reps[n.id] == cur,
        !cur.contains(CollidingNode(n)),
    ensures
        rep_add(reps, n) == reps.insert(n.id, cur.push(CollidingNode(n))),
{
}

proof fn lemma_rep_add_present(reps: Map<u64, Seq<CollidingNode>>, n: Node, cur: Seq<CollidingNode>)
    requires
        reps.contains_key(n.id),
        reps[n.id] == cur,
        cur.contains(CollidingNode(n)),
    ensures
        rep_add(reps, n) == reps,
{
}

proof fn lemma_rep_add_fresh(reps: Map<u64, Seq<CollidingNode>>, n: Node)
    requires
        !reps.contains_key(n.id),
    ensures
        rep_add(reps, n) == reps.insert(n.id, Seq::<CollidingNode>::empty().push(CollidingNode(n))),
{
}

/// True when the collision set already holds a view other than `c`
/// that carries `c`'s id.
pub open spec fn cols_has_other(cols: Seq<CollidingNode>, c: CollidingNode) -> bool {
    exists|i: int| 0 <= i < cols.len() && cols[i].0.id == c.0.id && cols[i] != c
}

/// One ingestion step. A never-seen view with a new id becomes
/// canonical; a never-seen view whose id is taken joins the collision
/// set — and, when a distinct collision already existed for that id,
/// also the repeated set, which accumulates duplicate submissions
/// beyond the first collision; an exactly repeated view joins the
/// repeated set alone.
pub open spec fn topo_step(m: TopoModel, n: Node) -> TopoModel {
    let c = CollidingNode(n);
    if !m.all.contains(c) {
        if !has_id(m.canon, n.id) {
            TopoModel { all: m.all.push(c), canon: m.canon.push(n), ..m }
        } else {
            let cols2 = if m.cols.contains(c) {
                m.cols
            } else {
                m.cols.push(c)
            };
            let reps2 = if cols_has_other(m.cols, c) {
                rep_add(m.reps, n)
            } else {
                m.reps
            };
            TopoModel { all: m.all.push(c), cols: cols2, reps: reps2, ..m }
        }
    } else {
        TopoModel { reps: rep_add(m.reps, n), ..m }
    }
}

/// What one ingestion step reports: nothing for a fresh id, otherwise
/// the canonical record already holding the id.
pub open spec fn topo_step_out(m: TopoModel, n: Node) -> Option<CollidingNode> {
    if !m.all.contains(CollidingNode(n)) && !has_id(m.canon, n.id) {
        None
    } else {
        Some(CollidingNode(find_node(m.canon, n.id)->0))
    }
}

/// Folds [`topo_step`] over a whole input sequence, starting from the
/// empty analysis.
pub open spec fn topo_run(s: Seq<Node>) -> TopoModel
    decreases s.len(),
{
    if s.len() == 0 {
        topo_empty()
    } else {
        topo_step(topo_run(s.drop_last()), s.last())
    }
}

/// The number of repeated submissions recorded for `id`.
pub open spec fn rep_count(reps: Map<u64, Seq<CollidingNode>>, id: u64) -> int {
    if reps.contains_key(id) {
        reps[id].len() as int
    } else {
        0
    }
}

/// Re-inserting a node whose full-identity view was seen before —
/// every field equal to some earlier submission — never changes the
/// canonical records, hence neither the forward-edge index, nor the
/// collision set; the view is recorded among the repeated submissions
/// of its id, raising that id's repeated count by one the first time
/// and leaving the count unchanged once the same view is already
/// recorded there.
pub proof fn lemma_reinsert_identical(m: TopoModel, n: Node)
    requires
        m.all.contains(CollidingNode(n)),
    ensures
        topo_step(m, n).canon == m.canon,
        edges_from(topo_step(m, n).canon) == edges_from(m.canon),
        topo_step(m, n).all == m.all,
        topo_step(m, n).cols == m.cols,
        topo_step(m, n).reps.contains_key(n.id),
        topo_step(m, n).reps[n.id].contains(CollidingNode(n)),
        rep_count(topo_step(m, n).reps, n.id) == (if m.reps.contains_key(n.id)
            && m.reps[n.id].contains(CollidingNode(n)) {
            rep_count(m.reps, n.id)
        } else {
            rep_count(m.reps, n.id) + 1
        }),
{
    let c = CollidingNode(n);
    let cur = if m.reps.contains_key(n.id) {
        m.reps[n.id]
    } else {
        Seq::<CollidingNode>::empty()
    };
    if cur.contains(c) {
        assert(m.reps.contains_key(n.id)) by {
            if !m.reps.contains_key(n.id) {
                let j = choose|j: int| 0 <= j < cur.len() && cur[j] == c;
            }
        }
    } else {
        assert(rep_add(m.reps, n) == m.reps.insert(n.id, cur.push(c)));
        assert(cur.push(c)[cur.len() as int] == c);
    }
}

/// True when every predecessor reference of `n` resolves to a canonical
/// record of `s`.
pub open spec fn node_refs_resolved(s: Seq<Node>, n: Node) -> bool {
    &&& (n.left is Some ==> has_id(s, n.left->0))
    &&& (n.right is Some ==> has_id(s, n.right->0))
}

/// True when every canonical record's references resolve.
pub open spec fn resolved(s: Seq<Node>) -> bool {
    forall|i: int| 0 <= i < s.len() ==> node_refs_resolved(s, #[trigger] s[i])
}

/// A consistent analysis: no collision, no repeated submission, and
/// every reference resolves.
pub open spec fn consistent(m: TopoModel) -> bool {
    m.cols.len() == 0 && m.reps == Map::<u64, Seq<CollidingNode>>::empty() && resolved(m.canon)
}

// ------------------------------------------------------------------
// Topological orderings
// ------------------------------------------------------------------

/// Both predecessors of the record at position `k` of `order` appear at
/// strictly earlier positions.
pub open spec fn node_preds_before(order: Seq<Node>, k: int) -> bool {
    &&& (order[k].left is Some ==> exists|k2: int|
        0 <= k2 < k && order[k2].id == order[k].left->0)
    &&& (order[k].right is Some ==> exists|k2: int|
        0 <= k2 < k && order[k2].id == order[k].right->0)
}

/// `order` is a topological ordering of the canonical records `canon`:
/// a permutation of them — same length, every element canonical, no id
/// twice, every canonical id present — in which every record comes
/// after both of its predecessors.
pub open spec fn is_topological_order(canon: Seq<Node>, order: Seq<Node>) -> bool {
    &&& order.len() == canon.len()
    &&& (forall|k: int|
        0 <= k < order.len() ==> find_node(canon, (#[trigger] order[k]).id) == Some(order[k]))
    &&& (forall|k1: int, k2: int| 0 <= k1 < k2 < order.len() ==> order[k1].id != order[k2].id)
    &&& (forall|i: int| 0 <= i < canon.len() ==> has_id(order, (#[trigger] canon[i]).id))
    &&& (forall|k: int| 0 <= k < order.len() ==> node_preds_before(order, k))
}

/// The id-reference graph of `canon` is acyclic exactly when some
/// topological ordering of its records exists.
pub open spec fn sortable(canon: Seq<Node>) -> bool {
    exists|order: Seq<Node>| is_topological_order(canon, order)
}

/// How many of `n`'s predecessor fields name exactly the id `p`; both
/// fields count separately.
pub open spec fn count_named(n: Node, p: u64) -> int {
    (if n.left == Some(p) { 1int } else { 0int }) + (if n.right == Some(p) { 1int } else { 0int })
}

/// True when the record holding `id` is still pending: present in
/// `canon` at a position not yet marked removed.
pub open spec fn is_pending_id(canon: Seq<Node>, removed: Seq<bool>, id: u64) -> bool {
    exists|j: int| 0 <= j < canon.len() && canon[j].id == id && !removed[j]
}

/// How many of `n`'s predecessor fields still point at a pending
/// record.
pub open spec fn count_pending_fields(n: Node, canon: Seq<Node>, removed: Seq<bool>) -> int {
    (if n.left is Some && is_pending_id(canon, removed, n.left->0) {
        1int
    } else {
        0int
    }) + (if n.right is Some && is_pending_id(canon, removed, n.right->0) {
        1int
    } else {
        0int
    })
}

/// How many entries of `s` are true.
pub open spec fn count_true(s: Seq<bool>) -> int
    decreases s.len(),
{
    if s.len() == 0 {
        0
    } else {
        count_true(s.drop_last()) + (if s.last() {
            1int
        } else {
            0int
        })
    }
}

proof fn lemma_count_true_bound(s: Seq<bool>)
    ensures
        0 <= count_true(s) <= s.len(),
    decreases s.len(),
{
    if s.len() > 0 {
        lemma_count_true_bound(s.drop_last());
    }
}

proof fn lemma_count_true_all(s: Seq<bool>)
    requires
        count_true(s) == s.len(),
    ensures
        forall|i: int| 0 <= i < s.len() ==> s[i],
    decreases s.len(),
{
    if s.len() > 0 {
        lemma_count_true_bound(s.drop_last());
        lemma_count_true_all(s.drop_last());
        assert(forall|i: int| 0 <= i < s.len() - 1 ==> s[i] == s.drop_last()[i]);
    }
}

proof fn lemma_count_true_missing(s: Seq<bool>) -> (i: int)
    requires
        count_true(s) < s.len(),
    ensures
        0 <= i < s.len() && !s[i],
    decreases s.len(),
{
    if !s.last() {
        s.len() - 1
    } else {
        lemma_count_true_missing(s.drop_last())
    }
}

proof fn lemma_count_true_update(s: Seq<bool>, i: int)
    requires
        0 <= i < s.len(),
        !s[i],
    ensures
        count_true(s.update(i, true)) == count_true(s) + 1,
    decreases s.len(),
{
    let s2 = s.update(i, true);
    if i == s.len() - 1 {
        assert(s2.drop_last() =~= s.drop_last());
    } else {
        assert(s2.drop_last() =~= s.drop_last().update(i, true));
        lemma_count_true_update(s.drop_last(), i);
        assert(s2.last() == s.last());
    }
}

/// Marking the (unique) holder of an id as removed lowers each record's
/// pending-field count by exactly the number of fields naming that id.
proof fn lemma_count_pending_remove(canon: Seq<Node>, removed: Seq<bool>, idx: int, n: Node)
    requires
        unique_ids(canon),
        removed.len() == canon.len(),
        0 <= idx < canon.len(),
        !removed[idx],
    ensures
        count_pending_fields(n, canon, removed) == count_pending_fields(
            n,
            canon,
            removed.update(idx, true),
        ) + count_named(n, canon[idx].id),
{
    let p = canon[idx].id;
    let removed2 = removed.update(idx, true);
    assert forall|q: u64|
        q != p implies (is_pending_id(canon, removed, q) <==> is_pending_id(
        canon,
        removed2,
        q,
    )) by {
        if is_pending_id(canon, removed, q) {
            let j = choose|j: int| 0 <= j < canon.len() && canon[j].id == q && !removed[j];
            assert(j != idx);
            assert(!removed2[j]);
        }
        if is_pending_id(canon, removed2, q) {
            let j = choose|j: int| 0 <= j < canon.len() && canon[j].id == q && !removed2[j];
            assert(j != idx);
            assert(!removed[j]);
        }
    }
    assert(is_pending_id(canon, removed, p)) by {
        assert(canon[idx].id == p && !removed[idx]);
    }
    assert(!is_pending_id(canon, removed2, p)) by {
        if is_pending_id(canon, removed2, p) {
            let j = choose|j: int| 0 <= j < canon.len() && canon[j].id == p && !removed2[j];
            assert(j != idx);
            assert(canon[j].id != canon[idx].id);
        }
    }
    if n.left is Some {
        if n.left->0 == p {
            assert(n.left == Some(p));
        } else {
            assert(is_pending_id(canon, removed, n.left->0) <==> is_pending_id(
                canon,
                removed2,
                n.left->0,
            ));
        }
    }
    if n.right is Some {
        if n.right->0 == p {
            assert(n.right == Some(p));
        } else {
            assert(is_pending_id(canon, removed, n.right->0) <==> is_pending_id(
                canon,
                removed2,
                n.right->0,
            ));
        }
    }
}

/// The earliest position of `s` whose record's id is still pending.
proof fn lemma_first_pending(s: Seq<Node>, canon: Seq<Node>, removed: Seq<bool>) -> (k: int)
    requires
        exists|k: int| 0 <= k < s.len() && is_pending_id(canon, removed, (#[trigger] s[k]).id),
    ensures
        0 <= k < s.len(),
        is_pending_id(canon, removed, s[k].id),
        forall|k2: int| 0 <= k2 < k ==> !is_pending_id(canon, removed, (#[trigger] s[k2]).id),
    decreases s.len(),
{
    if is_pending_id(canon, removed, s[0].id) {
        0
    } else {
        let t = s.subrange(1, s.len() as int);
        assert(exists|k: int|
            0 <= k < t.len() && is_pending_id(canon, removed, (#[trigger] t[k]).id)) by {
            let k0 = choose|k0: int|
                0 <= k0 < s.len() && is_pending_id(canon, removed, (#[trigger] s[k0]).id);
            assert(k0 != 0);
            assert(t[k0 - 1] == s[k0]);
        }
        let kt = lemma_first_pending(t, canon, removed);
        assert(s[kt + 1] == t[kt]);
        assert forall|k2: int|
            0 <= k2 < kt + 1 implies !is_pending_id(canon, removed, (#[trigger] s[k2]).id) by {
            if k2 > 0 {
                assert(t[k2 - 1] == s[k2]);
            }
        }
        kt + 1
    }
}

proof fn lemma_count_true_none(s: Seq<bool>)
    requires
        forall|i: int| 0 <= i < s.len() ==> !s[i],
    ensures
        count_true(s) == 0,
    decreases s.len(),
{
    if s.len() > 0 {
        assert(forall|i: int| 0 <= i < s.len() - 1 ==> s.drop_last()[i] == s[i]);
        lemma_count_true_none(s.drop_last());
    }
}

/// `nd` is one of the already-removed canonical records.
spec fn ordering_member(canon: Seq<Node>, removed: Seq<bool>, nd: Node) -> bool {
    exists|i: int| 0 <= i < canon.len() && removed[i] && nd == canon[i]
}

/// The loop-stable portion of the sorting state: the analysis is sound
/// and consistent, the bookkeeping vectors line up with the canonical
/// records, and the ordering built so far is a duplicate-free,
/// topologically sorted arrangement of exactly the removed records.
spec fn kahn_state(t: &Topology, counters: Seq<usize>, removed: Seq<bool>, ordering: Seq<
    Node,
>) -> bool {
    let canon = t.unique_nodes@;
    &&& t.wf()
    &&& consistent(t.model())
    &&& counters.len() == canon.len()
    &&& removed.len() == canon.len()
    &&& (forall|k: int|
        0 <= k < ordering.len() ==> ordering_member(canon, removed, #[trigger] ordering[k]))
    &&& (forall|i: int|
        0 <= i < canon.len() && removed[i] ==> has_id(ordering, (#[trigger] canon[i]).id))
    &&& (forall|k1: int, k2: int| 0 <= k1 < k2 < ordering.len() ==> ordering[k1].id != ordering[k2].id)
    &&& (forall|k: int| 0 <= k < ordering.len() ==> node_preds_before(ordering, k))
    &&& ordering.len() == count_true(removed)
    &&& count_true(removed) <= removed.len()
    &&& (canon.len() > 0 && spec_in_degree(canon[0]) == 0 ==> (if ordering.len() == 0 {
        !removed[0]
    } else {
        ordering[0] == canon[0]
    }))
}

/// Every pending counter holds exactly its record's count of pending
/// predecessor fields.
spec fn counters_ok(canon: Seq<Node>, counters: Seq<usize>, removed: Seq<bool>) -> bool {
    forall|m: int|
        0 <= m < canon.len() && !removed[m] ==> counters[m] == count_pending_fields(
            #[trigger] canon[m],
            canon,
            removed,
        )
}

/// When every pending record still has a pending predecessor, no
/// topological ordering exists: any candidate would have to place some
/// pending record first among the pending ones, yet that record's
/// pending predecessor would need to come even earlier.
proof fn lemma_stuck_not_sortable(canon: Seq<Node>, removed: Seq<bool>)
    requires
        unique_ids(canon),
        removed.len() == canon.len(),
        exists|i: int| 0 <= i < canon.len() && !removed[i],
        forall|m: int|
            0 <= m < canon.len() && !removed[m] ==> count_pending_fields(
                #[trigger] canon[m],
                canon,
                removed,
            ) >= 1,
    ensures
        !sortable(canon),
{
    if sortable(canon) {
        let sigma = choose|order: Seq<Node>| is_topological_order(canon, order);
        let i0 = choose|i: int| 0 <= i < canon.len() && !removed[i];
        assert(has_id(sigma, canon[i0].id));
        assert(exists|k: int|
            0 <= k < sigma.len() && is_pending_id(canon, removed, (#[trigger] sigma[k]).id)) by {
            let pos = choose|pos: int| 0 <= pos < sigma.len() && sigma[pos].id == canon[i0].id;
            assert(is_pending_id(canon, removed, sigma[pos].id)) by {
                assert(canon[i0].id == sigma[pos].id && !removed[i0]);
            }
        }
        let k = lemma_first_pending(sigma, canon, removed);
        let j = choose|j: int|
            0 <= j < canon.len() && canon[j].id == sigma[k].id && !removed[j];
        lemma_find_node_unique(canon, sigma[k].id, j);
        assert(find_node(canon, sigma[k].id) == Some(sigma[k]));
        assert(sigma[k] == canon[j]);
        assert(count_pending_fields(canon[j], canon, removed) >= 1);
        let q: u64 = if canon[j].left is Some && is_pending_id(canon, removed, canon[j].left->0) {
            canon[j].left->0
        } else {
            canon[j].right->0
        };
        assert(is_pending_id(canon, removed, q));
        assert(node_preds_before(sigma, k));
        assert(exists|k2: int| 0 <= k2 < k && sigma[k2].id == q);
        let k2 = choose|k2: int| 0 <= k2 < k && sigma[k2].id == q;
        assert(!is_pending_id(canon, removed, sigma[k2].id));
        assert(false);
    }
}

// ------------------------------------------------------------------
// Paths and path lengths
// ------------------------------------------------------------------

/// One step of the id-reference graph: the canonical record holding
/// `b` names `a` through one of its predecessor fields.
pub open spec fn is_step(canon: Seq<Node>, a: u64, b: u64) -> bool {
    exists|i: int|
        0 <= i < canon.len() && canon[i].id == b && (canon[i].left == Some(a) || canon[i].right
            == Some(a))
}

/// `w` is a directed walk along forward edges.
pub open spec fn is_walk(canon: Seq<Node>, w: Seq<u64>) -> bool {
    w.len() >= 1 && (forall|k: int| 0 <= k < w.len() - 1 ==> is_step(canon, #[trigger] w[k], w[k + 1]))
}

/// `w` leads from `root` to `id` along forward edges; a single-element
/// walk connects `root` to itself.
pub open spec fn is_path_between(canon: Seq<Node>, root: u64, id: u64, w: Seq<u64>) -> bool {
    is_walk(canon, w) && w[0] == root && w.last() == id
}

/// What one entry of the path-length table claims for the id it is
/// keyed by: the two slots are set together, they are set exactly when
/// the id is reachable from the root, and when set they hold the exact
/// least and greatest number of edges of any root path to the id.
pub open spec fn lengths_entry_correct(
    canon: Seq<Node>,
    root: u64,
    id: u64,
    e: (Option<usize>, Option<usize>),
) -> bool {
    &&& (e.0 is Some <==> e.1 is Some)
    &&& (e.0 is Some <==> exists|w: Seq<u64>| is_path_between(canon, root, id, w))
    &&& (e.0 matches Some(d) ==> (exists|w: Seq<u64>|
        is_path_between(canon, root, id, w) && w.len() == d + 1) && (forall|w: Seq<u64>|
        is_path_between(canon, root, id, w) ==> w.len() >= d + 1))
    &&& (e.1 matches Some(d) ==> (exists|w: Seq<u64>|
        is_path_between(canon, root, id, w) && w.len() == d + 1) && (forall|w: Seq<u64>|
        is_path_between(canon, root, id, w) ==> w.len() <= d + 1))
}

/// The path-length table is keyed by the canonical records in
/// first-seen order and every entry is exact.
pub open spec fn lengths_table_correct(
    canon: Seq<Node>,
    root: u64,
    table: Seq<(u64, (Option<usize>, Option<usize>))>,
) -> bool {
    &&& table.len() == canon.len()
    &&& (forall|k: int| 0 <= k < table.len() ==> (#[trigger] table[k]).0 == canon[k].id)
    &&& (forall|k: int|
        0 <= k < table.len() ==> lengths_entry_correct(
            canon,
            root,
            canon[k].id,
            (#[trigger] table[k]).1,
        ))
}

proof fn lemma_walk_prefix(canon: Seq<Node>, w: Seq<u64>)
    requires
        is_walk(canon, w),
        w.len() >= 2,
    ensures
        is_walk(canon, w.drop_last()),
        w.drop_last()[0] == w[0],
        is_step(canon, w[w.len() - 2], w.last()),
{
    let w0 = w.drop_last();
    assert forall|k: int| 0 <= k < w0.len() - 1 implies is_step(canon, #[trigger] w0[k], w0[k + 1]) by {
        assert(w[k] == w0[k]);
        assert(is_step(canon, w[k], w[k + 1]));
    }
    assert(w[w.len() - 2] == w[(w.len() - 2) as int]);
    assert(is_step(canon, w[(w.len() - 2) as int], w[(w.len() - 2) + 1]));
    assert(w.last() == w[(w.len() - 2) + 1]);
}

proof fn lemma_walk_extend(canon: Seq<Node>, w: Seq<u64>, b: u64)
    requires
        is_walk(canon, w),
        is_step(canon, w.last(), b),
    ensures
        is_walk(canon, w.push(b)),
        w.push(b)[0] == w[0],
        w.push(b).last() == b,
{
    let w2 = w.push(b);
    assert forall|k: int| 0 <= k < w2.len() - 1 implies is_step(canon, #[trigger] w2[k], w2[k + 1]) by {
        if k < w.len() - 1 {
            assert(is_step(canon, w[k], w[k + 1]));
        } else {
            assert(w2[k] == w.last() && w2[k + 1] == b);
        }
    }
}

/// Each record of a walk sits no earlier in a topological ordering
/// than its offset in the walk; hence no walk is longer than the
/// ordering.
proof fn lemma_walk_pos(canon: Seq<Node>, sigma: Seq<Node>, w: Seq<u64>, k: int) -> (p: int)
    requires
        unique_ids(canon),
        is_topological_order(canon, sigma),
        is_walk(canon, w),
        has_id(canon, w[0]),
        0 <= k < w.len(),
    ensures
        k <= p < sigma.len(),
        sigma[p].id == w[k],
    decreases k,
{
    if k == 0 {
        let i = choose|i: int| 0 <= i < canon.len() && canon[i].id == w[0];
        assert(has_id(sigma, canon[i].id));
        let p = choose|p: int| 0 <= p < sigma.len() && sigma[p].id == w[0];
        p
    } else {
        let p0 = lemma_walk_pos(canon, sigma, w, k - 1);
        assert(is_step(canon, w[k - 1], w[(k - 1) + 1]));
        assert(is_step(canon, w[k - 1], w[k]));
        let i = choose|i: int|
            0 <= i < canon.len() && canon[i].id == w[k] && (canon[i].left == Some(w[k - 1])
                || canon[i].right == Some(w[k - 1]));
        assert(has_id(sigma, canon[i].id));
        let p1 = choose|p1: int| 0 <= p1 < sigma.len() && sigma[p1].id == w[k];
        lemma_find_node_unique(canon, w[k], i);
        assert(find_node(canon, sigma[p1].id) == Some(sigma[p1]));
        assert(sigma[p1] == canon[i]);
        assert(node_preds_before(sigma, p1));
        let p2: int = if canon[i].left == Some(w[k - 1]) {
            choose|p2: int| 0 <= p2 < p1 && sigma[p2].id == sigma[p1].left->0
        } else {
            choose|p2: int| 0 <= p2 < p1 && sigma[p2].id == sigma[p1].right->0
        };
        assert(sigma[p2].id == w[k - 1]);
        assert(p2 == p0) by {
            if p2 != p0 {
                assert(sigma[p2].id != sigma[p0].id);
            }
        }
        p1
    }
}

proof fn lemma_walk_len_bound(canon: Seq<Node>, sigma: Seq<Node>, w: Seq<u64>)
    requires
        unique_ids(canon),
        is_topological_order(canon, sigma),
        is_walk(canon, w),
        has_id(canon, w[0]),
    ensures
        w.len() <= sigma.len(),
{
    let p = lemma_walk_pos(canon, sigma, w, w.len() - 1);
}

/// Walking the table along any root walk: the endpoint's entry is set,
/// its shortest slot is at most the walk's edge count, and its longest
/// slot at least that count. The table only needs the root pinned at
/// zero and every edge relaxed.
proof fn lemma_walk_table(
    canon: Seq<Node>,
    root: u64,
    table: Seq<(u64, (Option<usize>, Option<usize>))>,
    w: Seq<u64>,
) -> (i: int)
    requires
        unique_ids(canon),
        canon.len() > 0,
        canon[0].id == root,
        table.len() == canon.len(),
        table[0].1.0 == Some(0usize),
        table[0].1.1 == Some(0usize),
        forall|k: int| 0 <= k < table.len() ==> ((#[trigger] table[k]).1.0 is Some <==> table[k].1.1 is Some),
        edges_relaxed(canon, table),
        is_walk(canon, w),
        w[0] == root,
    ensures
        0 <= i < canon.len(),
        canon[i].id == w.last(),
        table[i].1.0 is Some,
        table[i].1.1 is Some,
        table[i].1.0->0 <= w.len() - 1,
        table[i].1.1->0 >= w.len() - 1,
    decreases w.len(),
{
    if w.len() == 1 {
        0
    } else {
        lemma_walk_prefix(canon, w);
        let ip = lemma_walk_table(canon, root, table, w.drop_last());
        let ib = choose|ib: int|
            0 <= ib < canon.len() && canon[ib].id == w.last() && (canon[ib].left == Some(
                w[w.len() - 2],
            ) || canon[ib].right == Some(w[w.len() - 2]));
        assert(w.drop_last().last() == w[w.len() - 2]);
        assert(canon[ip].id == w[w.len() - 2]);
        assert(canon[ib].left == Some(canon[ip].id) || canon[ib].right == Some(canon[ip].id));
        assert(table[ib].1.0 is Some && table[ib].1.0->0 <= table[ip].1.0->0 + 1 && table[ib].1.1->0
            >= table[ip].1.1->0 + 1);
        ib
    }
}

/// Every forward edge of the graph satisfies the relaxation
/// inequalities: a set source entry forces a set target entry, at most
/// one edge longer on the shortest side and at least one edge longer on
/// the longest side.
pub open spec fn edges_relaxed(
    canon: Seq<Node>,
    table: Seq<(u64, (Option<usize>, Option<usize>))>,
) -> bool {
    forall|ia: int, ib: int|
        0 <= ia < canon.len() && 0 <= ib < canon.len() && (canon[ib].left == Some(canon[ia].id)
            || canon[ib].right == Some(canon[ia].id)) && (#[trigger] table[ia]).1.0 is Some ==> (
        #[trigger] table[ib]).1.0 is Some && table[ib].1.0->0 <= table[ia].1.0->0 + 1
            && table[ib].1.1 is Some && table[ib].1.1->0 >= table[ia].1.1->0 + 1
}

/// The ids already handled: those of the first `pos` records of the
/// ordering.
pub open spec fn processed_id(order: Seq<Node>, pos: int, id: u64) -> bool {
    exists|q: int| 0 <= q < pos && order[q].id == id
}

/// [`edges_relaxed`], restricted to edges leaving an already-handled
/// record.
pub open spec fn sources_relaxed(
    canon: Seq<Node>,
    order: Seq<Node>,
    pos: int,
    table: Seq<(u64, (Option<usize>, Option<usize>))>,
) -> bool {
    forall|ia: int, ib: int|
        0 <= ia < canon.len() && 0 <= ib < canon.len() && processed_id(order, pos, canon[ia].id)
            && (canon[ib].left == Some(canon[ia].id) || canon[ib].right == Some(canon[ia].id)) && (
        #[trigger] table[ia]).1.0 is Some ==> (#[trigger] table[ib]).1.0 is Some
            && table[ib].1.0->0 <= table[ia].1.0->0 + 1 && table[ib].1.1 is Some
            && table[ib].1.1->0 >= table[ia].1.1->0 + 1
}

/// An already-handled record never holds a field naming the record
/// handled right now: its predecessors sit strictly earlier in the
/// ordering.
proof fn lemma_processed_source_frozen(
    canon: Seq<Node>,
    order: Seq<Node>,
    pos: int,
    ia: int,
)
    requires
        unique_ids(canon),
        is_topological_order(canon, order),
        0 <= pos < order.len(),
        0 <= ia < canon.len(),
        processed_id(order, pos + 1, canon[ia].id),
    ensures
        canon[ia].left != Some(order[pos].id),
        canon[ia].right != Some(order[pos].id),
{
    let qa = choose|q: int| 0 <= q < pos + 1 && order[q].id == canon[ia].id;
    lemma_find_node_unique(canon, canon[ia].id, ia);
    assert(find_node(canon, order[qa].id) == Some(order[qa]));
    assert(order[qa] == canon[ia]);
    assert(node_preds_before(order, qa));
    if canon[ia].left == Some(order[pos].id) {
        let p2 = choose|p2: int| 0 <= p2 < qa && order[p2].id == order[qa].left->0;
        assert(order[p2].id == order[pos].id);
        assert(p2 != pos);
        assert(false);
    }
    if canon[ia].right == Some(order[pos].id) {
        let p2 = choose|p2: int| 0 <= p2 < qa && order[p2].id == order[qa].right->0;
        assert(order[p2].id == order[pos].id);
        assert(p2 != pos);
        assert(false);
    }
}

/// Both slots of a table entry are witnessed by actual root paths of
/// exactly the recorded length.
spec fn entry_realizable(
    canon: Seq<Node>,
    root: u64,
    id: u64,
    e: (Option<usize>, Option<usize>),
) -> bool {
    &&& (e.0 matches Some(d) ==> exists|w: Seq<u64>|
        is_path_between(canon, root, id, w) && w.len() == d + 1)
    &&& (e.1 matches Some(d) ==> exists|w: Seq<u64>|
        is_path_between(canon, root, id, w) && w.len() == d + 1)
}

/// The stable facts of the relaxation: the table is keyed by the
/// canonical records, slots are set in pairs, the root is pinned at
/// zero, and every set slot is witnessed by a real path.
spec fn table_base(
    canon: Seq<Node>,
    root: u64,
    table: Seq<(u64, (Option<usize>, Option<usize>))>,
) -> bool {
    &&& table.len() == canon.len()
    &&& canon.len() > 0
    &&& canon[0].id == root
    &&& canon[0].left is None
    &&& canon[0].right is None
    &&& table[0].1.0 == Some(0usize)
    &&& table[0].1.1 == Some(0usize)
    &&& (forall|k: int| 0 <= k < table.len() ==> (#[trigger] table[k]).0 == canon[k].id)
    &&& (forall|k: int|
        0 <= k < table.len() ==> ((#[trigger] table[k]).1.0 is Some <==> table[k].1.1 is Some))
    &&& (forall|k: int|
        0 <= k < table.len() ==> entry_realizable(canon, root, canon[k].id, (#[trigger] table[k]).1))
}

/// What one pass of relaxation from a record with shortest `du` and
/// longest `dl` guarantees of entry `m` once the pass has reached
/// position `k`: a target already passed is set and bounded, anything
/// else is untouched.
spec fn inner_entry_ok(
    canon: Seq<Node>,
    pre: Seq<(u64, (Option<usize>, Option<usize>))>,
    cur: Seq<(u64, (Option<usize>, Option<usize>))>,
    m: int,
    k: int,
    uid: u64,
    du: usize,
    dl: usize,
) -> bool {
    if canon[m].left == Some(uid) || canon[m].right == Some(uid) {
        if m < k {
            &&& cur[m].1.0 is Some
            &&& cur[m].1.0->0 <= du + 1
            &&& cur[m].1.1 is Some
            &&& cur[m].1.1->0 >= dl + 1
            &&& (pre[m].1.0 matches Some(x) ==> cur[m].1.0->0 <= x)
            &&& (pre[m].1.1 matches Some(y) ==> cur[m].1.1->0 >= y)
        } else {
            cur[m] == pre[m]
        }
    } else {
        cur[m] == pre[m]
    }
}

/// How often `x` occurs in `s`.
pub open spec fn occ(s: Seq<u64>, x: u64) -> int
    decreases s.len(),
{
    if s.len() == 0 {
        0
    } else {
        occ(s.drop_last(), x) + (if s.last() == x {
            1int
        } else {
            0int
        })
    }
}

/// The successor list an edge map holds for `p`, empty when it holds
/// none.
pub open spec fn em_list(em: Map<u64, Seq<u64>>, p: u64) -> Seq<u64> {
    if em.contains_key(p) {
        em[p]
    } else {
        Seq::empty()
    }
}

/// The number of distinct ways to follow `w` from its position `from`
/// on: the product, over each remaining step, of how often the next id
/// occurs in the current id's successor list. A doubled edge doubles
/// the ways through it.
pub open spec fn step_prod(em: Map<u64, Seq<u64>>, w: Seq<u64>, from: int) -> int
    decreases w.len() - from,
{
    if from >= w.len() - 1 {
        1
    } else {
        occ(em_list(em, w[from]), w[from + 1]) * step_prod(em, w, from + 1)
    }
}

/// How many entries of `out` hold exactly the id sequence `w`.
pub open spec fn out_count(out: Seq<Vec<u64>>, w: Seq<u64>) -> int
    decreases out.len(),
{
    if out.len() == 0 {
        0
    } else {
        out_count(out.drop_last(), w) + (if out.last()@ == w {
            1int
        } else {
            0int
        })
    }
}

proof fn lemma_occ_nonneg(s: Seq<u64>, x: u64)
    ensures
        occ(s, x) >= 0,
    decreases s.len(),
{
    if s.len() > 0 {
        lemma_occ_nonneg(s.drop_last(), x);
    }
}

proof fn lemma_occ_contains(s: Seq<u64>, x: u64)
    ensures
        s.contains(x) <==> occ(s, x) >= 1,
    decreases s.len(),
{
    if s.len() > 0 {
        lemma_occ_nonneg(s.drop_last(), x);
        lemma_occ_contains(s.drop_last(), x);
        if s.contains(x) && s.last() != x {
            let i = choose|i: int| 0 <= i < s.len() && s[i] == x;
            assert(s.drop_last()[i] == x);
        }
        if s.drop_last().contains(x) {
            let i = choose|i: int| 0 <= i < s.len() - 1 && s.drop_last()[i] == x;
            assert(s[i] == x);
        }
    }
}

proof fn lemma_occ_prefix_step(s: Seq<u64>, j: int, x: u64)
    requires
        0 <= j < s.len(),
    ensures
        occ(s.subrange(0, j + 1), x) == occ(s.subrange(0, j), x) + (if s[j] == x {
            1int
        } else {
            0int
        }),
{
    assert(s.subrange(0, j + 1).drop_last() =~= s.subrange(0, j));
    assert(s.subrange(0, j + 1).last() == s[j]);
}

proof fn lemma_step_prod_pos(em: Map<u64, Seq<u64>>, w: Seq<u64>, from: int)
    requires
        forall|k: int|
            from <= k < w.len() - 1 ==> em.contains_key(#[trigger] w[k]) && em[w[k]].contains(
                w[k + 1],
            ),
    ensures
        step_prod(em, w, from) >= 1,
    decreases w.len() - from,
{
    if from < w.len() - 1 {
        lemma_step_prod_pos(em, w, from + 1);
        lemma_occ_contains(em_list(em, w[from]), w[from + 1]);
        let a = occ(em_list(em, w[from]), w[from + 1]);
        let p = step_prod(em, w, from + 1);
        assert(a >= 1 && p >= 1 ==> a * p >= 1) by (nonlinear_arith);
    }
}

/// `w` is a walk read directly off an edge map: each id's successor
/// list holds the next id.
pub open spec fn is_em_walk(em: Map<u64, Seq<u64>>, w: Seq<u64>) -> bool {
    w.len() >= 1 && (forall|k: int|
        0 <= k < w.len() - 1 ==> em.contains_key(#[trigger] w[k]) && em[w[k]].contains(w[k + 1]))
}

/// The position a topological ordering gives to the record holding
/// `id`.
pub open spec fn pos_in(order: Seq<Node>, id: u64) -> int {
    choose|p: int| 0 <= p < order.len() && order[p].id == id
}

/// Some topological ordering of `canon`, when one exists.
pub open spec fn the_order(canon: Seq<Node>) -> Seq<Node> {
    choose|o: Seq<Node>| is_topological_order(canon, o)
}

proof fn lemma_edge_add_keeps(m: Map<u64, Seq<u64>>, p2: u64, c2: u64, p: u64, c: u64)
    requires
        m.contains_key(p),
        m[p].contains(c),
    ensures
        edge_add(m, p2, c2).contains_key(p),
        edge_add(m, p2, c2)[p].contains(c),
{
    if p2 == p {
        let j = choose|j: int| 0 <= j < m[p].len() && m[p][j] == c;
        assert(edge_add(m, p2, c2)[p][j] == c);
    }
}

proof fn lemma_edge_add_cases(m: Map<u64, Seq<u64>>, p2: u64, c2: u64, p: u64, c: u64)
    requires
        edge_add(m, p2, c2).contains_key(p),
        edge_add(m, p2, c2)[p].contains(c),
    ensures
        (m.contains_key(p) && m[p].contains(c)) || (p2 == p && c2 == c),
{
    if p2 == p {
        if m.contains_key(p) {
            let lst = edge_add(m, p2, c2)[p];
            let j = choose|j: int| 0 <= j < lst.len() && lst[j] == c;
            if j < m[p].len() {
                assert(m[p][j] == c);
            } else {
                assert(c == c2);
            }
        } else {
            let lst = edge_add(m, p2, c2)[p];
            let j = choose|j: int| 0 <= j < lst.len() && lst[j] == c;
            assert(c == c2);
        }
    }
}

/// A field of a canonical record puts an edge into the index.
proof fn lemma_step_edges_from(s: Seq<Node>, p: u64, c: u64)
    requires
        is_step(s, p, c),
    ensures
        edges_from(s).contains_key(p),
        edges_from(s)[p].contains(c),
    decreases s.len(),
{
    let i = choose|i: int|
        0 <= i < s.len() && s[i].id == c && (s[i].left == Some(p) || s[i].right == Some(p));
    let m0 = edges_from(s.drop_last());
    let last = s.last();
    let m1 = if last.left is Some {
        edge_add(m0, last.left->0, last.id)
    } else {
        m0
    };
    if i == s.len() - 1 {
        assert(last == s[i]);
        assert(last.id == c);
        if last.left == Some(p) {
            assert(m1 == edge_add(m0, p, c));
            assert(m1.contains_key(p) && m1[p].contains(c)) by {
                if m0.contains_key(p) {
                    assert(m1[p] == m0[p].push(c));
                    assert(m1[p][m1[p].len() - 1] == c);
                } else {
                    assert(m1[p] =~= seq![c]);
                    assert(m1[p][0] == c);
                }
            }
            if last.right is Some {
                lemma_edge_add_keeps(m1, last.right->0, last.id, p, c);
            }
        } else {
            assert(last.right == Some(p));
            assert(edges_from(s) == edge_add(m1, p, c));
            if m1.contains_key(p) {
                assert(edges_from(s)[p] == m1[p].push(c));
                assert(edges_from(s)[p][edges_from(s)[p].len() - 1] == c);
            } else {
                assert(edges_from(s)[p] =~= seq![c]);
                assert(edges_from(s)[p][0] == c);
            }
        }
    } else {
        assert(s.drop_last()[i] == s[i]);
        assert(is_step(s.drop_last(), p, c));
        lemma_step_edges_from(s.drop_last(), p, c);
        if last.left is Some {
            lemma_edge_add_keeps(m0, last.left->0, last.id, p, c);
        }
        if last.right is Some {
            lemma_edge_add_keeps(m1, last.right->0, last.id, p, c);
        }
    }
}

/// Every edge of the index comes from a field of a canonical record.
proof fn lemma_edges_from_step(s: Seq<Node>, p: u64, c: u64)
    requires
        edges_from(s).contains_key(p),
        edges_from(s)[p].contains(c),
    ensures
        is_step(s, p, c),
    decreases s.len(),
{
    if s.len() == 0 {
        assert(false);
    } else {
        let m0 = edges_from(s.drop_last());
        let last = s.last();
        let m1 = if last.left is Some {
            edge_add(m0, last.left->0, last.id)
        } else {
            m0
        };
        let mut from_last = false;
        if last.right is Some {
            lemma_edge_add_cases(m1, last.right->0, last.id, p, c);
            if !(m1.contains_key(p) && m1[p].contains(c)) {
                assert(last.right == Some(p) && last.id == c);
                assert(s[s.len() - 1].id == c && s[s.len() - 1].right == Some(p));
                from_last = true;
            }
        }
        if !from_last {
            assert(m1.contains_key(p) && m1[p].contains(c));
            if last.left is Some {
                lemma_edge_add_cases(m0, last.left->0, last.id, p, c);
                if !(m0.contains_key(p) && m0[p].contains(c)) {
                    assert(last.left == Some(p) && last.id == c);
                    assert(s[s.len() - 1].id == c && s[s.len() - 1].left == Some(p));
                    from_last = true;
                }
            }
        }
        if !from_last {
            assert(m0.contains_key(p) && m0[p].contains(c));
            lemma_edges_from_step(s.drop_last(), p, c);
            let i = choose|i: int|
                0 <= i < s.drop_last().len() && s.drop_last()[i].id == c && (s.drop_last()[i].left
                    == Some(p) || s.drop_last()[i].right == Some(p));
            assert(s[i] == s.drop_last()[i]);
        }
    }
}

proof fn lemma_em_walk_to_walk(canon: Seq<Node>, w: Seq<u64>)
    requires
        is_em_walk(edges_from(canon), w),
    ensures
        is_walk(canon, w),
{
    assert forall|k: int| 0 <= k < w.len() - 1 implies is_step(canon, #[trigger] w[k], w[k + 1]) by {
        lemma_edges_from_step(canon, w[k], w[k + 1]);
    }
}

proof fn lemma_walk_to_em_walk(canon: Seq<Node>, w: Seq<u64>)
    requires
        is_walk(canon, w),
    ensures
        is_em_walk(edges_from(canon), w),
{
    assert forall|k: int|
        0 <= k < w.len() - 1 implies edges_from(canon).contains_key(#[trigger] w[k]) && edges_from(
        canon,
    )[w[k]].contains(w[k + 1]) by {
        assert(is_step(canon, w[k], w[k + 1]));
        lemma_step_edges_from(canon, w[k], w[k + 1]);
    }
}

/// Along any edge the topological position strictly increases.
proof fn lemma_pos_increase(canon: Seq<Node>, sigma: Seq<Node>, a: u64, b: u64)
    requires
        unique_ids(canon),
        is_topological_order(canon, sigma),
        is_step(canon, a, b),
        has_id(canon, a),
    ensures
        0 <= pos_in(sigma, a) < pos_in(sigma, b) < sigma.len(),
        sigma[pos_in(sigma, b)].id == b,
        has_id(canon, b),
{
    let ia = choose|i: int| 0 <= i < canon.len() && canon[i].id == a;
    let ib = choose|i: int|
        0 <= i < canon.len() && canon[i].id == b && (canon[i].left == Some(a) || canon[i].right
            == Some(a));
    assert(has_id(sigma, canon[ia].id));
    assert(has_id(sigma, canon[ib].id));
    let pa = pos_in(sigma, a);
    let pb = pos_in(sigma, b);
    assert(0 <= pa < sigma.len() && sigma[pa].id == a) by {
        let w = choose|w: int| 0 <= w < sigma.len() && sigma[w].id == a;
    }
    assert(0 <= pb < sigma.len() && sigma[pb].id == b) by {
        let w = choose|w: int| 0 <= w < sigma.len() && sigma[w].id == b;
    }
    lemma_find_node_unique(canon, b, ib);
    assert(find_node(canon, sigma[pb].id) == Some(sigma[pb]));
    assert(sigma[pb] == canon[ib]);
    assert(node_preds_before(sigma, pb));
    let p2: int = if canon[ib].left == Some(a) {
        choose|p2: int| 0 <= p2 < pb && sigma[p2].id == sigma[pb].left->0
    } else {
        choose|p2: int| 0 <= p2 < pb && sigma[p2].id == sigma[pb].right->0
    };
    assert(sigma[p2].id == a);
    assert(p2 == pa) by {
        if p2 != pa {
            assert(sigma[p2].id != sigma[pa].id);
        }
    }
}

/// The canonical record of the first node of a nonempty ingestion run
/// is that first node itself.
proof fn lemma_run_first(s: Seq<Node>)
    requires
        s.len() >= 1,
    ensures
        topo_run(s).canon.len() >= 1,
        topo_run(s).canon[0] == s[0],
    decreases s.len(),
{
    if s.len() == 1 {
        assert(s.drop_last().len() == 0);
        assert(topo_run(s.drop_last()) == topo_empty());
        assert(!topo_empty().all.contains(CollidingNode(s[0])));
        assert(!has_id(topo_empty().canon, s[0].id));
        assert(topo_run(s).canon == topo_empty().canon.push(s[0]));
    } else {
        lemma_run_first(s.drop_last());
    }
}

/// For a consistent analysis whose designated root has no
/// predecessors, an exact path-length table assigns the root the pair
/// (zero, zero), and wherever both slots of an entry are set the
/// shortest length never exceeds the longest.
pub proof fn lemma_root_lengths_and_order(
    canon: Seq<Node>,
    root: u64,
    table: Seq<(u64, (Option<usize>, Option<usize>))>,
)
    requires
        unique_ids(canon),
        canon.len() > 0,
        canon[0].id == root,
        canon[0].left is None,
        canon[0].right is None,
        lengths_table_correct(canon, root, table),
    ensures
        table[0].1.0 == Some(0usize),
        table[0].1.1 == Some(0usize),
        forall|k: int|
            0 <= k < table.len() ==> ((#[trigger] table[k]).1.0 is Some && table[k].1.1 is Some
                ==> table[k].1.0->0 <= table[k].1.1->0),
{
    let unit = seq![root];
    assert(is_path_between(canon, root, root, unit));
    assert(lengths_entry_correct(canon, root, canon[0].id, table[0].1));
    assert(table[0].1.0 is Some);
    let ds0 = table[0].1.0->0;
    assert(unit.len() >= ds0 + 1);
    assert(ds0 == 0);
    let dl0 = table[0].1.1->0;
    assert forall|w: Seq<u64>| is_path_between(canon, root, root, w) implies w.len() == 1 by {
        if w.len() >= 2 {
            assert(w[w.len() - 2] == w[(w.len() - 2) as int]);
            assert(is_step(canon, w[(w.len() - 2) as int], w[(w.len() - 2) + 1]));
            assert(w.last() == w[(w.len() - 2) + 1]);
            assert(is_step(canon, w[w.len() - 2], w.last()));
            let i = choose|i: int|
                0 <= i < canon.len() && canon[i].id == root && (canon[i].left == Some(
                    w[w.len() - 2],
                ) || canon[i].right == Some(w[w.len() - 2]));
            assert(i == 0) by {
                if i != 0 {
                    assert(canon[i].id != canon[0].id);
                }
            }
            assert(false);
        }
    }
    let wl = choose|w: Seq<u64>| is_path_between(canon, root, root, w) && w.len() == dl0 + 1;
    assert(wl.len() == 1);
    assert(dl0 == 0);
    assert forall|k: int|
        0 <= k < table.len() && (#[trigger] table[k]).1.0 is Some
            && table[k].1.1 is Some implies table[k].1.0->0 <= table[k].1.1->0 by {
        assert(lengths_entry_correct(canon, root, canon[k].id, table[k].1));
        let dl = table[k].1.1->0;
        let w = choose|w: Seq<u64>|
            is_path_between(canon, root, canon[k].id, w) && w.len() == dl + 1;
        assert(w.len() >= table[k].1.0->0 + 1);
    }
}

// ------------------------------------------------------------------
// The Topology structure
// ------------------------------------------------------------------

/// Per-run ingestion state for one topological analysis: the
/// full-identity views seen, the canonical record per id in first-seen
/// order, the collisions, the repeated submissions, and the
/// forward-edge index of the canonical records.
#[derive(Debug, Clone)]
pub struct Topology {
    /// Every full-identity view seen so far, first-seen order, no
    /// duplicates.
    pub all_nodes: Vec<CollidingNode>,
    /// The canonical (first-seen) record of each distinct id, in
    /// first-seen order.
    pub unique_nodes: Vec<Node>,
    /// Views whose id was already canonical but whose other fields
    /// differ.
    pub collitions: Vec<CollidingNode>,
    /// Further duplicate submissions, per id.
    pub repeated_nodes: Vec<(u64, Vec<CollidingNode>)>,
    /// Predecessor id to the ordered list of successor ids.
    pub outgoing_edges: Vec<(u64, Vec<u64>)>,
}

impl Topology {
    /// The mathematical state of the analysis.
    pub open spec fn model(&self) -> TopoModel {
        TopoModel {
            all: self.all_nodes@,
            canon: self.unique_nodes@,
            cols: self.collitions@,
            reps: rview(self.repeated_nodes@),
        }
    }

    /// Structural soundness: ids unique, sets duplicate-free, the
    /// collision set a subset of the seen set, every seen id canonical,
    /// and the stored edge index exactly the one the canonical records
    /// determine.
    pub open spec fn wf(&self) -> bool {
        &&& unique_ids(self.unique_nodes@)
        &&& self.all_nodes@.no_duplicates()
        &&& (forall|c: CollidingNode|
            self.collitions@.contains(c) ==> self.all_nodes@.contains(c))
        &&& (forall|c: CollidingNode| #[trigger]
            self.all_nodes@.contains(c) ==> has_id(self.unique_nodes@, c.0.id))
        &&& rkeys_unique(self.repeated_nodes@)
        &&& ekeys_unique(self.outgoing_edges@)
        &&& eview(self.outgoing_edges@) == edges_from(self.unique_nodes@)
        &&& esum(self.outgoing_edges@) == edge_total(self.unique_nodes@)
    }

    /// Creates an empty analysis.
    pub fn new() -> (r: Topology)
        ensures
            r.wf(),
            r.model() == topo_empty(),
    {
        let r = Topology {
            all_nodes: Vec::new(),
            unique_nodes: Vec::new(),
            collitions: Vec::new(),
            repeated_nodes: Vec::new(),
            outgoing_edges: Vec::new(),
        };
        proof {
            assert(r.model().all =~= topo_empty().all);
            assert(r.model().canon =~= topo_empty().canon);
            assert(r.model().cols =~= topo_empty().cols);
            assert(r.model().reps =~= topo_empty().reps);
            assert(r.model() == topo_empty());
        }
        r
    }

    /// The canonical record stored for `id`, if any.
    pub fn get_unique_node_by_id(&self, id: u64) -> (r: Option<Node>)
        ensures
            r == find_node(self.unique_nodes@, id),
    {
        let ghost s = self.unique_nodes@;
        let mut i: usize = 0;
        while i < self.unique_nodes.len()
            invariant
                i <= s.len(),
                s == self.unique_nodes@,
                forall|k: int| 0 <= k < i ==> s[k].id != id,
            decreases s.len() - i,
        {
            if self.unique_nodes[i].id == id {
                proof {
                    lemma_find_node_at(s, id, i as int);
                }
                return Some(self.unique_nodes[i]);
            }
            i += 1;
        }
        proof {
            lemma_find_node_some_iff(s, id);
        }
        None
    }

    /// The successor list recorded for `id`, if the id has any outgoing
    /// edge.
    pub fn get_outgoing_edges_by_id(&self, id: u64) -> (r: Option<&Vec<u64>>)
        requires
            self.wf(),
        ensures
            match r {
                Some(v) => edges_from(self.unique_nodes@).contains_key(id) && v@ == edges_from(
                    self.unique_nodes@,
                )[id],
                None => !edges_from(self.unique_nodes@).contains_key(id),
            },
    {
        let ghost s = self.outgoing_edges@;
        let mut i: usize = 0;
        while i < self.outgoing_edges.len()
            invariant
                i <= s.len(),
                s == self.outgoing_edges@,
                ekeys_unique(s),
                eview(s) == edges_from(self.unique_nodes@),
                forall|k: int| 0 <= k < i ==> s[k].0 != id,
            decreases s.len() - i,
        {
            if self.outgoing_edges[i].0 == id {
                proof {
                    lemma_eview_index(s, i as int);
                }
                return Some(&self.outgoing_edges[i].1);
            }
            i += 1;
        }
        proof {
            lemma_eview_dom(s, id);
        }
        None
    }

    /// The total number of forward edges indexed so far: each non-empty
    /// predecessor field of a canonical record contributes one.
    pub fn edge_sum(&self) -> (r: usize)
        requires
            self.wf(),
            edge_total(self.unique_nodes@) <= usize::MAX,
        ensures
            r == edge_total(self.unique_nodes@),
    {
        let ghost s = self.outgoing_edges@;
        let mut sum: usize = 0;
        let mut i: usize = 0;
        while i < self.outgoing_edges.len()
            invariant
                i <= s.len(),
                s == self.outgoing_edges@,
                sum == esum(s.subrange(0, i as int)),
                esum(s) == edge_total(self.unique_nodes@),
                edge_total(self.unique_nodes@) <= usize::MAX,
            decreases s.len() - i,
        {
            proof {
                assert(s.subrange(0, i + 1 as int).drop_last() =~= s.subrange(0, i as int));
                assert(s.subrange(0, i + 1 as int).last() == s[i as int]);
                lemma_esum_prefix_bound(s, i + 1 as int);
                lemma_esum_nonneg(s.subrange(0, i + 1 as int));
            }
            sum = sum + self.outgoing_edges[i].1.len();
            i += 1;
        }
        proof {
            assert(s.subrange(0, s.len() as int) =~= s);
        }
        sum
    }

    /// Records one repeated submission under its id, ignoring an exact
    /// duplicate already recorded there.
    fn collect_repeated_node(&mut self, node: Node)
        requires
            rkeys_unique(old(self).repeated_nodes@),
        ensures
            final(self).all_nodes == old(self).all_nodes,
            final(self).unique_nodes == old(self).unique_nodes,
            final(self).collitions == old(self).collitions,
            final(self).outgoing_edges == old(self).outgoing_edges,
            rkeys_unique(final(self).repeated_nodes@),
            rview(final(self).repeated_nodes@) == rep_add(rview(old(self).repeated_nodes@), node),
    {
        let ghost s = self.repeated_nodes@;
        let c = CollidingNode(node);
        let mut i: usize = 0;
        while i < self.repeated_nodes.len()
            invariant
                i <= s.len(),
                *self == *old(self),
                s == self.repeated_nodes@,
                c == CollidingNode(node),
                rkeys_unique(s),
                forall|k: int| 0 <= k < i ==> s[k].0 != node.id,
            decreases s.len() - i,
        {
            if self.repeated_nodes[i].0 == node.id {
                proof {
                    lemma_rview_index(s, i as int);
                }
                let mut cur = copy_colliding_vec(&self.repeated_nodes[i].1);
                if !colliding_vec_contains(&cur, &c) {
                    proof {
                        lemma_rep_add_absent(rview(s), node, cur@);
                    }
                    cur.push(c);
                    proof {
                        lemma_rview_update(s, i as int, cur);
                    }
                    let ghost cv = cur@;
                    let ghost entry = (node.id, cur);
                    proof {
                        assert(entry == (s[i as int].0, cur));
                    }
                    self.repeated_nodes.set(i, (node.id, cur));
                    proof {
                        assert(self.repeated_nodes@ == s.update(i as int, entry));
                        assert(rview(self.repeated_nodes@) == rview(s).insert(node.id, cv));
                    }
                } else {
                    proof {
                        lemma_rep_add_present(rview(s), node, cur@);
                        lemma_rview_update(s, i as int, cur);
                        assert(rview(s).insert(node.id, cur@) =~= rview(s));
                    }
                    let ghost cv = cur@;
                    let ghost entry = (node.id, cur);
                    proof {
                        assert(entry == (s[i as int].0, cur));
                    }
                    self.repeated_nodes.set(i, (node.id, cur));
                    proof {
                        assert(self.repeated_nodes@ == s.update(i as int, entry));
                        assert(rview(self.repeated_nodes@) == rview(s).insert(node.id, cv));
                    }
                }
                return ;
            }
            i += 1;
        }
        proof {
            lemma_rview_dom(s, node.id);
            lemma_rep_add_fresh(rview(s), node);
        }
        let mut fresh: Vec<CollidingNode> = Vec::new();
        fresh.push(c);
        self.repeated_nodes.push((node.id, fresh));
        proof {
            assert(self.repeated_nodes@.drop_last() =~= s);
            assert forall|i2: int, j2: int|
                0 <= i2 < j2 < self.repeated_nodes@.len() implies self.repeated_nodes@[i2].0
                != self.repeated_nodes@[j2].0 by {
                if j2 == self.repeated_nodes@.len() - 1 {
                    assert(s[i2].0 != node.id);
                }
            }
            assert(fresh@ == Seq::<CollidingNode>::empty().push(CollidingNode(node)));
        }
    }

    /// Inserts one node into the analysis. A never-seen full-identity
    /// view with a new id becomes the id's canonical record and its
    /// edges are indexed; any duplicate — exact, or by id only — is
    /// recorded as such and the pre-existing canonical record is
    /// reported back.
    pub fn insert(&mut self, node: Node) -> (r: Option<CollidingNode>)
        requires
            old(self).wf(),
        ensures
            final(self).wf(),
            final(self).model() == topo_step(old(self).model(), node),
            r == topo_step_out(old(self).model(), node),
    {
        let ghost canon0 = self.unique_nodes@;
        let ghost all0 = self.all_nodes@;
        let c = CollidingNode(node);
        if !colliding_vec_contains(&self.all_nodes, &c) {
            match self.get_unique_node_by_id(node.id) {
                None => {
                    proof {
                        lemma_find_node_some_iff(canon0, node.id);
                    }
                    self.all_nodes.push(c);
                    self.unique_nodes.push(node);
                    self.collect_edges(node);
                    proof {
                        let canon1 = self.unique_nodes@;
                        assert(canon1.drop_last() =~= canon0);
                        assert(forall|k: int|
                            0 <= k < canon0.len() ==> canon1[k] == canon0[k]);
                        assert(unique_ids(canon1));
                        assert(self.all_nodes@.drop_last() =~= all0);
                        assert(self.all_nodes@.no_duplicates()) by {
                            assert(forall|k: int|
                                0 <= k < all0.len() ==> self.all_nodes@[k] == all0[k]);
                            assert(self.all_nodes@.last() == c);
                            assert(!all0.contains(c));
                        }
                        assert forall|c2: CollidingNode|
                            self.collitions@.contains(c2) implies self.all_nodes@.contains(
                            c2,
                        ) by {
                            let j = choose|j: int|
                                0 <= j < self.collitions@.len() && self.collitions@[j] == c2;
                            assert(all0.contains(c2));
                            let k = choose|k: int| 0 <= k < all0.len() && all0[k] == c2;
                            assert(self.all_nodes@[k] == c2);
                        }
                        assert forall|c2: CollidingNode| #[trigger]
                            self.all_nodes@.contains(c2) implies has_id(
                            self.unique_nodes@,
                            c2.0.id,
                        ) by {
                            let k = choose|k: int|
                                0 <= k < self.all_nodes@.len() && self.all_nodes@[k] == c2;
                            if k < all0.len() {
                                assert(all0[k] == c2);
                                assert(all0.contains(c2));
                                let j = choose|j: int|
                                    0 <= j < canon0.len() && canon0[j].id == c2.0.id;
                                assert(canon1[j].id == c2.0.id);
                            } else {
                                assert(c2 == c);
                                assert(canon1[canon1.len() - 1].id == node.id);
                            }
                        }
                        assert(edges_from(canon1) == node_edges_added(edges_from(canon0), node));
                        assert(edge_total(canon1) == edge_total(canon0) + spec_in_degree(node));
                        assert(self.model().all =~= topo_step(
                            TopoModel { all: all0, canon: canon0, cols: self.collitions@, reps: rview(self.repeated_nodes@) },
                            node,
                        ).all);
                        assert(self.model() == topo_step(
                            TopoModel { all: all0, canon: canon0, cols: self.collitions@, reps: rview(self.repeated_nodes@) },
                            node,
                        ));
                    }
                    None
                },
                Some(unique_node) => {
                    proof {
                        lemma_find_node_some_iff(canon0, node.id);
                    }
                    self.all_nodes.push(c);
                    let had_other_collision = colliding_vec_has_other(&self.collitions, &c);
                    if !colliding_vec_contains(&self.collitions, &c) {
                        self.collitions.push(c);
                    }
                    if had_other_collision {
                        self.collect_repeated_node(node);
                    }
                    proof {
                        assert(self.all_nodes@.drop_last() =~= all0);
                        assert(self.all_nodes@.no_duplicates()) by {
                            assert(forall|k: int|
                                0 <= k < all0.len() ==> self.all_nodes@[k] == all0[k]);
                            assert(!all0.contains(c));
                        }
                        assert forall|c2: CollidingNode|
                            self.collitions@.contains(c2) implies self.all_nodes@.contains(
                            c2,
                        ) by {
                            let j = choose|j: int|
                                0 <= j < self.collitions@.len() && self.collitions@[j] == c2;
                            if j < self.collitions@.len() - 1 || self.collitions@[j] != c {
                                assert(all0.contains(c2) || c2 == c);
                            }
                            if c2 == c {
                                assert(self.all_nodes@[self.all_nodes@.len() - 1] == c);
                            } else {
                                let k = choose|k: int| 0 <= k < all0.len() && all0[k] == c2;
                                assert(self.all_nodes@[k] == c2);
                            }
                        }
                        assert forall|c2: CollidingNode| #[trigger]
                            self.all_nodes@.contains(c2) implies has_id(
                            self.unique_nodes@,
                            c2.0.id,
                        ) by {
                            let k = choose|k: int|
                                0 <= k < self.all_nodes@.len() && self.all_nodes@[k] == c2;
                            if k < all0.len() {
                                assert(all0[k] == c2);
                                assert(all0.contains(c2));
                            } else {
                                assert(c2 == c);
                            }
                        }
                        if self.collitions@ != old(self).collitions@ {
                            assert(self.collitions@.drop_last() =~= old(self).collitions@);
                        }
                        assert(self.model() == topo_step(old(self).model(), node));
                    }
                    Some(CollidingNode(unique_node))
                },
            }
        } else {
            self.collect_repeated_node(node);
            proof {
                assert(all0.contains(c));
                assert(has_id(canon0, c.0.id));
                lemma_find_node_some_iff(canon0, node.id);
            }
            let unique_node = self.get_unique_node_by_id(node.id);
            Some(CollidingNode(unique_node.unwrap()))
        }
    }

    /// Whether the analysis is consistent: no collision was recorded,
    /// no submission was repeated, and every predecessor reference of a
    /// canonical record resolves to a canonical record. A node
    /// referencing itself is not specially rejected.
    pub fn is_consistent(&self) -> (r: bool)
        requires
            self.wf(),
        ensures
            r == consistent(self.model()),
    {
        if self.repeated_nodes.len() != 0 {
            proof {
                let s = self.repeated_nodes@;
                assert(rview(s).contains_key(s.last().0));
            }
            return false;
        }
        if self.collitions.len() != 0 {
            return false;
        }
        let ghost canon = self.unique_nodes@;
        let mut i: usize = 0;
        while i < self.unique_nodes.len()
            invariant
                i <= canon.len(),
                canon == self.unique_nodes@,
                forall|k: int| 0 <= k < i ==> node_refs_resolved(canon, #[trigger] canon[k]),
            decreases canon.len() - i,
        {
            let n = self.unique_nodes[i];
            match n.left {
                Some(l) => {
                    if self.get_unique_node_by_id(l).is_none() {
                        proof {
                            lemma_find_node_some_iff(canon, l);
                            assert(!node_refs_resolved(canon, canon[i as int]));
                        }
                        return false;
                    }
                },
                None => {},
            }
            match n.right {
                Some(rr) => {
                    if self.get_unique_node_by_id(rr).is_none() {
                        proof {
                            lemma_find_node_some_iff(canon, rr);
                            assert(!node_refs_resolved(canon, canon[i as int]));
                        }
                        return false;
                    }
                },
                None => {},
            }
            proof {
                if n.left is Some {
                    lemma_find_node_some_iff(canon, n.left->0);
                }
                if n.right is Some {
                    lemma_find_node_some_iff(canon, n.right->0);
                }
                assert(node_refs_resolved(canon, canon[i as int]));
            }
            i += 1;
        }
        true
    }

    /// Builds an analysis from a list of nodes; the analysis is handed
    /// back only when it came out consistent.
    pub fn from_slice(node_list: &Vec<Node>) -> (r: Option<Topology>)
        ensures
            match r {
                Some(t) => t.wf() && t.model() == topo_run(node_list@) && consistent(
                    topo_run(node_list@),
                ),
                None => !consistent(topo_run(node_list@)),
            },
    {
        let mut topology = Topology::new();
        proof {
            assert(node_list@.subrange(0, 0) =~= Seq::<Node>::empty());
        }
        let mut i: usize = 0;
        while i < node_list.len()
            invariant
                i <= node_list.len(),
                topology.wf(),
                topology.model() == topo_run(node_list@.subrange(0, i as int)),
            decreases node_list.len() - i,
        {
            let ghost pre = node_list@.subrange(0, i as int);
            topology.insert(node_list[i]);
            i += 1;
            proof {
                let post = node_list@.subrange(0, i as int);
                assert(post.drop_last() =~= pre);
                assert(post.last() == node_list@[i - 1]);
            }
        }
        proof {
            assert(node_list@.subrange(0, node_list@.len() as int) =~= node_list@);
        }
        if topology.is_consistent() {
            Some(topology)
        } else {
            None
        }
    }

    /// Tries to build a topological ordering of the canonical records
    /// of a list of nodes.
    ///
    /// The list is ingested afresh; when any collision, repeated
    /// submission or unresolved reference turned up, or the
    /// id-reference graph holds a cycle, the result is `Ok(None)` — a
    /// normal outcome, never an error. Otherwise the ordering comes
    /// back, with ties between simultaneously ready records broken by
    /// first-seen order, so the result is reproducible.
    pub fn sort(nodes: &Vec<Node>) -> (r: Result<Option<Vec<Node>>, TopologicalError>)
        ensures
            match r {
                Ok(Some(order)) => consistent(topo_run(nodes@)) && is_topological_order(
                    topo_run(nodes@).canon,
                    order@,
                ) && (topo_run(nodes@).canon.len() > 0 && spec_in_degree(
                    topo_run(nodes@).canon[0],
                ) == 0 ==> order@[0] == topo_run(nodes@).canon[0]),
                Ok(None) => !(consistent(topo_run(nodes@)) && sortable(topo_run(nodes@).canon)),
                Err(_) => false,
            },
    {
        let mut topology = Topology::new();
        proof {
            assert(nodes@.subrange(0, 0) =~= Seq::<Node>::empty());
        }
        let mut i: usize = 0;
        while i < nodes.len()
            invariant
                i <= nodes.len(),
                topology.wf(),
                topology.model() == topo_run(nodes@.subrange(0, i as int)),
            decreases nodes.len() - i,
        {
            let ghost pre = nodes@.subrange(0, i as int);
            topology.insert(nodes[i]);
            i += 1;
            proof {
                let post = nodes@.subrange(0, i as int);
                assert(post.drop_last() =~= pre);
                assert(post.last() == nodes@[i - 1]);
            }
        }
        proof {
            assert(nodes@.subrange(0, nodes@.len() as int) =~= nodes@);
        }
        if topology.collitions.len() != 0 {
            return Ok(None);
        }
        if topology.repeated_nodes.len() != 0 {
            proof {
                let s = topology.repeated_nodes@;
                assert(rview(s).contains_key(s.last().0));
            }
            return Ok(None);
        }
        if !topology.is_consistent() {
            return Ok(None);
        }
        match kahn_order(&topology) {
            Some(ordering) => Ok(Some(ordering)),
            None => Ok(None),
        }
    }

    /// The position of the canonical record holding `id`.
    fn index_of_id(&self, id: u64) -> (r: usize)
        requires
            has_id(self.unique_nodes@, id),
        ensures
            r < self.unique_nodes@.len(),
            self.unique_nodes@[r as int].id == id,
    {
        let mut i: usize = 0;
        while i < self.unique_nodes.len()
            invariant
                i <= self.unique_nodes@.len(),
                has_id(self.unique_nodes@, id),
                forall|k: int| 0 <= k < i ==> self.unique_nodes@[k].id != id,
            decreases self.unique_nodes@.len() - i,
        {
            if self.unique_nodes[i].id == id {
                return i;
            }
            i += 1;
        }
        proof {
            let j = choose|j: int|
                0 <= j < self.unique_nodes@.len() && self.unique_nodes@[j].id == id;
            assert(false);
        }
        0
    }

    /// Computes, for every id of the list, the least and greatest
    /// number of edges of any path from the list's first node — the
    /// designated root — to that id.
    ///
    /// The root must have no predecessors; otherwise the call fails
    /// with the root-predecessor error, the one error this computation
    /// can raise. An empty list, or a list whose analysis is
    /// inconsistent or cyclic, yields no result — a normal outcome. On
    /// success every id is listed in first-seen order; an id
    /// unreachable from the root keeps both of its slots unset.
    #[verifier::rlimit(100)]
    #[verifier::spinoff_prover]
    pub fn shortest_and_longest_paths(nodes: &Vec<Node>) -> (r: Result<
        Option<Vec<(u64, (Option<usize>, Option<usize>))>>,
        TopologicalError,
    >)
        ensures
            match r {
                Ok(Some(table)) => nodes@.len() > 0 && nodes@[0].left is None
                    && nodes@[0].right is None && consistent(topo_run(nodes@)) && sortable(
                    topo_run(nodes@).canon,
                ) && lengths_table_correct(topo_run(nodes@).canon, nodes@[0].id, table@),
                Ok(None) => nodes@.len() == 0 || (nodes@[0].left is None && nodes@[0].right is None
                    && !(consistent(topo_run(nodes@)) && sortable(topo_run(nodes@).canon))),
                Err(e) => nodes@.len() > 0 && (nodes@[0].left is Some || nodes@[0].right is Some)
                    && e is FirstNodeHasIncomingEdges,
            },
    {
        if nodes.len() == 0 {
            return Ok(None);
        }
        let first = nodes[0];
        if first.left.is_some() {
            return Err(TopologicalError::FirstNodeHasIncomingEdges);
        }
        if first.right.is_some() {
            return Err(TopologicalError::FirstNodeHasIncomingEdges);
        }
        let order = match Self::sort(nodes) {
            Ok(Some(o)) => o,
            Ok(None) => {
                return Ok(None);
            },
            Err(_) => {
                proof {
                    assert(false);
                }
                return Ok(None);
            },
        };
        let ghost canon = topo_run(nodes@).canon;
        let ghost root = nodes@[0].id;
        proof {
            lemma_run_first(nodes@);
            assert(canon[0] == nodes@[0]);
            assert(spec_in_degree(canon[0]) == 0);
            assert(order@[0] == canon[0]);
        }
        let topology = match Self::from_slice(nodes) {
            Some(t) => t,
            None => {
                proof {
                    assert(false);
                }
                return Ok(None);
            },
        };
        proof {
            assert(topology.unique_nodes@ == canon);
        }
        // cross-check the recomputed ordering against the declared root
        if order.len() == 0 || order[0].id != first.id {
            proof {
                assert(false);
            }
            return Ok(None);
        }
        let n = topology.unique_nodes.len();
        let mut table: Vec<(u64, (Option<usize>, Option<usize>))> = Vec::new();
        let mut i: usize = 0;
        while i < n
            invariant
                i <= n,
                n == canon.len(),
                canon == topology.unique_nodes@,
                table@.len() == i,
                forall|k: int| 0 <= k < i ==> (#[trigger] table@[k]).0 == canon[k].id,
                forall|k: int|
                    0 <= k < i ==> (#[trigger] table@[k]).1 == (
                    Option::<usize>::None,
                    Option::<usize>::None,
                ),
            decreases n - i,
        {
            table.push((topology.unique_nodes[i].id, (None, None)));
            i += 1;
        }
        let root_exec = topology.unique_nodes[0].id;
        table.set(0, (root_exec, (Some(0), Some(0))));
        proof {
            assert(root_exec == root);
            let unit = seq![root];
            assert(is_path_between(canon, root, root, unit));
            assert forall|k: int|
                0 <= k < table@.len() implies entry_realizable(
                canon,
                root,
                canon[k].id,
                (#[trigger] table@[k]).1,
            ) by {
                if k == 0 {
                    assert(is_path_between(canon, root, canon[0].id, unit) && unit.len() == 0 + 1);
                } else {
                    assert(table@[k].1 == (Option::<usize>::None, Option::<usize>::None));
                }
            }
            assert(table_base(canon, root, table@));
            assert(sources_relaxed(canon, order@, 0, table@));
        }
        let mut pos: usize = 0;
        while pos < order.len()
            invariant
                pos <= order@.len(),
                topology.wf(),
                canon == topology.unique_nodes@,
                n == canon.len(),
                root == canon[0].id,
                is_topological_order(canon, order@),
                table_base(canon, root, table@),
                sources_relaxed(canon, order@, pos as int, table@),
            decreases order@.len() - pos,
        {
            let u = order[pos];
            proof {
                assert(find_node(canon, u.id) == Some(u));
                lemma_find_node_some_iff(canon, u.id);
            }
            let ku = topology.index_of_id(u.id);
            proof {
                lemma_find_node_unique(canon, u.id, ku as int);
                assert(canon[ku as int] == u);
                assert(processed_id(order@, pos + 1, canon[ku as int].id)) by {
                    assert(order@[pos as int].id == canon[ku as int].id);
                }
                lemma_processed_source_frozen(canon, order@, pos as int, ku as int);
            }
            let entry = table[ku];
            match entry.1.0 {
                None => {
                    proof {
                        assert forall|ia: int, ib: int|
                            0 <= ia < canon.len() && 0 <= ib < canon.len() && processed_id(
                            order@,
                            pos + 1,
                            canon[ia].id,
                        ) && (canon[ib].left == Some(canon[ia].id) || canon[ib].right == Some(
                            canon[ia].id,
                        )) && (#[trigger] table@[ia]).1.0 is Some implies (
                        #[trigger] table@[ib]).1.0 is Some && table@[ib].1.0->0 <= table@[ia].1.0->0
                            + 1 && table@[ib].1.1 is Some && table@[ib].1.1->0 >= table@[ia].1.1->0
                            + 1 by {
                            if processed_id(order@, pos as int, canon[ia].id) {
                            } else {
                                let q = choose|q: int|
                                    0 <= q < pos + 1 && order@[q].id == canon[ia].id;
                                assert(q == pos);
                                assert(canon[ia].id == u.id);
                                assert(ia == ku as int) by {
                                    if ia != ku as int {
                                        assert(canon[ia].id != canon[ku as int].id);
                                    }
                                }
                                assert(false);
                            }
                        }
                        assert(sources_relaxed(canon, order@, pos + 1, table@));
                    }
                },
                Some(du) => {
                    let dl = match entry.1.1 {
                        Some(x) => x,
                        None => {
                            proof {
                                assert(false);
                            }
                            0
                        },
                    };
                    proof {
                        assert(entry_realizable(canon, root, canon[ku as int].id, table@[ku as int].1));
                        let ws = choose|w: Seq<u64>|
                            is_path_between(canon, root, canon[ku as int].id, w) && w.len() == du
                                + 1;
                        assert(has_id(canon, ws[0])) by {
                            assert(canon[0].id == ws[0]);
                        }
                        lemma_walk_len_bound(canon, order@, ws);
                        let wl = choose|w: Seq<u64>|
                            is_path_between(canon, root, canon[ku as int].id, w) && w.len() == dl
                                + 1;
                        assert(has_id(canon, wl[0])) by {
                            assert(canon[0].id == wl[0]);
                        }
                        lemma_walk_len_bound(canon, order@, wl);
                        assert(du + 1 <= n && dl + 1 <= n);
                    }
                    let ghost table_pre = table@;
                    let mut k: usize = 0;
                    while k < n
                        invariant
                            k <= n,
                            n == canon.len(),
                            canon == topology.unique_nodes@,
                            topology.wf(),
                            root == canon[0].id,
                            is_topological_order(canon, order@),
                            table_base(canon, root, table@),
                            sources_relaxed(canon, order@, pos as int, table_pre),
                            pos < order@.len(),
                            u == order@[pos as int],
                            ku < n,
                            canon[ku as int] == u,
                            canon[ku as int].left != Some(u.id),
                            canon[ku as int].right != Some(u.id),
                            table_pre.len() == n,
                            table_pre[ku as int].1.0 == Some(du),
                            table_pre[ku as int].1.1 == Some(dl),
                            du + 1 <= n,
                            dl + 1 <= n,
                            forall|m: int|
                                0 <= m < n ==> inner_entry_ok(
                                    canon,
                                    table_pre,
                                    table@,
                                    m,
                                    k as int,
                                    u.id,
                                    du,
                                    dl,
                                ),
                        decreases n - k,
                    {
                        let cand = topology.unique_nodes[k];
                        let hit_l = match cand.left {
                            Some(q) => q == u.id,
                            None => false,
                        };
                        let hit_r = match cand.right {
                            Some(q) => q == u.id,
                            None => false,
                        };
                        if hit_l || hit_r {
                            proof {
                                assert(inner_entry_ok(canon, table_pre, table@, ku as int, k as int, u.id, du, dl));
                                assert(table@[ku as int] == table_pre[ku as int]);
                                assert(inner_entry_ok(canon, table_pre, table@, k as int, k as int, u.id, du, dl));
                                assert(table@[k as int] == table_pre[k as int]);
                            }
                            let e2 = table[k];
                            let new_s: Option<usize> = match e2.1.0 {
                                None => Some(du + 1),
                                Some(x) => if x <= du + 1 {
                                    Some(x)
                                } else {
                                    Some(du + 1)
                                },
                            };
                            let new_l: Option<usize> = match e2.1.1 {
                                None => Some(dl + 1),
                                Some(y) => if y >= dl + 1 {
                                    Some(y)
                                } else {
                                    Some(dl + 1)
                                },
                            };
                            proof {
                                assert(is_step(canon, u.id, canon[k as int].id)) by {
                                    assert(canon[k as int].id == canon[k as int].id && (canon[k as int].left
                                        == Some(u.id) || canon[k as int].right == Some(u.id)));
                                }
                                assert(entry_realizable(canon, root, canon[ku as int].id, table@[ku as int].1));
                                let ws = choose|w: Seq<u64>|
                                    is_path_between(canon, root, canon[ku as int].id, w) && w.len()
                                        == du + 1;
                                assert(ws.last() == canon[ku as int].id == u.id);
                                lemma_walk_extend(canon, ws, canon[k as int].id);
                                assert(is_path_between(canon, root, canon[k as int].id, ws.push(canon[k as int].id))
                                    && ws.push(canon[k as int].id).len() == (du + 1) + 1);
                                let wl = choose|w: Seq<u64>|
                                    is_path_between(canon, root, canon[ku as int].id, w) && w.len()
                                        == dl + 1;
                                assert(wl.last() == canon[ku as int].id == u.id);
                                lemma_walk_extend(canon, wl, canon[k as int].id);
                                assert(is_path_between(canon, root, canon[k as int].id, wl.push(canon[k as int].id))
                                    && wl.push(canon[k as int].id).len() == (dl + 1) + 1);
                                assert(entry_realizable(canon, root, canon[k as int].id, table@[k as int].1));
                                assert(k != 0) by {
                                    assert(canon[0].left is None && canon[0].right is None);
                                }
                            }
                            let ghost before = table@;
                            table.set(k, (cand.id, (new_s, new_l)));
                            proof {
                                let k2 = k + 1 as int;
                                assert(table@ == before.update(k as int, (cand.id, (new_s, new_l))));
                                assert(entry_realizable(canon, root, canon[k as int].id, table@[k as int].1));
                                assert(table_base(canon, root, table@));
                                assert forall|m: int|
                                    0 <= m < n implies inner_entry_ok(
                                    canon,
                                    table_pre,
                                    table@,
                                    m,
                                    k2,
                                    u.id,
                                    du,
                                    dl,
                                ) by {
                                    assert(inner_entry_ok(canon, table_pre, before, m, k as int, u.id, du, dl));
                                    if m != k as int {
                                        assert(table@[m] == before[m]);
                                    }
                                }
                            }
                        } else {
                            proof {
                                let k2 = k + 1 as int;
                                assert forall|m: int|
                                    0 <= m < n implies inner_entry_ok(
                                    canon,
                                    table_pre,
                                    table@,
                                    m,
                                    k2,
                                    u.id,
                                    du,
                                    dl,
                                ) by {
                                    assert(inner_entry_ok(canon, table_pre, table@, m, k as int, u.id, du, dl));
                                }
                            }
                        }
                        k += 1;
                    }
                    proof {
                        assert forall|ia: int, ib: int|
                            0 <= ia < canon.len() && 0 <= ib < canon.len() && processed_id(
                            order@,
                            pos + 1,
                            canon[ia].id,
                        ) && (canon[ib].left == Some(canon[ia].id) || canon[ib].right == Some(
                            canon[ia].id,
                        )) && (#[trigger] table@[ia]).1.0 is Some implies (
                        #[trigger] table@[ib]).1.0 is Some && table@[ib].1.0->0 <= table@[ia].1.0->0
                            + 1 && table@[ib].1.1 is Some && table@[ib].1.1->0 >= table@[ia].1.1->0
                            + 1 by {
                            assert(inner_entry_ok(canon, table_pre, table@, ia, n as int, u.id, du, dl));
                            assert(inner_entry_ok(canon, table_pre, table@, ib, n as int, u.id, du, dl));
                            if processed_id(order@, pos as int, canon[ia].id) {
                                lemma_processed_source_frozen(canon, order@, pos as int, ia);
                                assert(table@[ia] == table_pre[ia]);
                                assert(table_pre[ib].1.0 is Some ==> table@[ib].1.0 is Some);
                            } else {
                                let q = choose|q: int|
                                    0 <= q < pos + 1 && order@[q].id == canon[ia].id;
                                assert(q == pos);
                                assert(canon[ia].id == u.id);
                                assert(ia == ku as int) by {
                                    if ia != ku as int {
                                        assert(canon[ia].id != canon[ku as int].id);
                                    }
                                }
                                assert(table@[ia] == table_pre[ku as int]);
                                assert(canon[ib].left == Some(u.id) || canon[ib].right == Some(u.id));
                            }
                        }
                        assert(sources_relaxed(canon, order@, pos + 1, table@));
                    }
                },
            }
            pos += 1;
        }
        proof {
            assert forall|ia: int, ib: int|
                0 <= ia < canon.len() && 0 <= ib < canon.len() && (canon[ib].left == Some(
                canon[ia].id,
            ) || canon[ib].right == Some(canon[ia].id)) && (#[trigger] table@[ia]).1.0 is Some implies (
            #[trigger] table@[ib]).1.0 is Some && table@[ib].1.0->0 <= table@[ia].1.0->0 + 1
                && table@[ib].1.1 is Some && table@[ib].1.1->0 >= table@[ia].1.1->0 + 1 by {
                assert(has_id(order@, canon[ia].id));
                let q = choose|q: int| 0 <= q < order@.len() && order@[q].id == canon[ia].id;
                assert(processed_id(order@, order@.len() as int, canon[ia].id));
            }
            assert(edges_relaxed(canon, table@));
            assert forall|k: int|
                0 <= k < table@.len() implies lengths_entry_correct(
                canon,
                root,
                canon[k].id,
                (#[trigger] table@[k]).1,
            ) by {
                let e = table@[k].1;
                assert forall|w: Seq<u64>|
                    is_path_between(canon, root, canon[k].id, w) implies e.0 is Some && e.1 is Some
                        && w.len() >= e.0->0 + 1 && w.len() <= e.1->0 + 1 by {
                    let i2 = lemma_walk_table(canon, root, table@, w);
                    assert(i2 == k) by {
                        if i2 != k {
                            assert(canon[i2].id != canon[k].id);
                        }
                    }
                }
                assert(entry_realizable(canon, root, canon[k].id, e));
                if e.0 is Some {
                    let d = e.0->0;
                    assert(exists|w: Seq<u64>|
                        is_path_between(canon, root, canon[k].id, w) && w.len() == d + 1);
                }
                if e.1 is Some {
                    let d = e.1->0;
                    assert(exists|w: Seq<u64>|
                        is_path_between(canon, root, canon[k].id, w) && w.len() == d + 1);
                }
            }
            assert(lengths_table_correct(canon, root, table@));
        }
        Ok(Some(table))
    }

    /// What one visit adds to the collected paths, given the effective
    /// prefix `eff` it set out from: earlier entries stay; every new
    /// entry properly extends `eff` along edges; every proper edge
    /// extension of `eff` shows up; and each one shows up exactly as
    /// often as there are ways to follow its edges.
    spec fn visit_delta_ok(
        em: Map<u64, Seq<u64>>,
        eff: Seq<u64>,
        pre: Seq<Vec<u64>>,
        post: Seq<Vec<u64>>,
    ) -> bool {
        &&& post.len() >= pre.len()
        &&& (forall|o: int| 0 <= o < pre.len() ==> post[o] == pre[o])
        &&& (forall|o: int|
            pre.len() <= o < post.len() ==> is_em_walk(em, (#[trigger] post[o])@)
                && post[o]@.len() > eff.len() && post[o]@.subrange(0, eff.len() as int) == eff)
        &&& (forall|w: Seq<u64>|
            #[trigger] is_em_walk(em, w) && w.len() > eff.len() && w.subrange(
                0,
                eff.len() as int,
            ) == eff ==> exists|o: int| pre.len() <= o < post.len() && (#[trigger] post[o])@ == w)
        &&& (forall|w: Seq<u64>|
            #[trigger] out_count(post, w) == out_count(pre, w) + (if is_em_walk(em, w) && w.len()
                > eff.len() && w.subrange(0, eff.len() as int) == eff {
                step_prod(em, w, eff.len() - 1)
            } else {
                0int
            }))
    }

    /// Walks the forward edges from `id`, emitting every prefix
    /// `backtrace -> ... -> successor` it passes through as a path of
    /// its own; a node without outgoing edges ends its branch. The
    /// acyclicity demanded of the analysis bounds the recursion by the
    /// number of canonical records.
    #[verifier::rlimit(100)]
    fn bfs_visit(
        topology: &Topology,
        id: u64,
        backtrace: &mut Vec<u64>,
        paths_collection: &mut Vec<Vec<u64>>,
    )
        requires
            topology.wf(),
            consistent(topology.model()),
            sortable(topology.unique_nodes@),
            old(backtrace)@.len() > 0 ==> old(backtrace)@.last() == id && is_em_walk(
                edges_from(topology.unique_nodes@),
                old(backtrace)@,
            ),
        ensures
            ({
                let em = edges_from(topology.unique_nodes@);
                let eff = if old(backtrace)@.len() == 0 {
                    seq![id]
                } else {
                    old(backtrace)@
                };
                &&& Self::visit_delta_ok(em, eff, old(paths_collection)@, final(paths_collection)@)
                &&& final(backtrace)@ == (if old(backtrace)@.len() == 0 && em.contains_key(id) {
                    seq![id]
                } else {
                    old(backtrace)@
                })
            }),
        decreases the_order(topology.unique_nodes@).len() - pos_in(
            the_order(topology.unique_nodes@),
            id,
        ),
    {
        let ghost canon = topology.unique_nodes@;
        let ghost em = edges_from(canon);
        match topology.get_outgoing_edges_by_id(id) {
            Some(edges) => {
                if backtrace.len() == 0 {
                    backtrace.push(id);
                }
                let ghost eff = backtrace@;
                proof {
                    assert(eff.last() == id);
                    assert(is_em_walk(em, eff)) by {
                        if old(backtrace)@.len() == 0 {
                            assert(eff == seq![id]);
                        }
                    }
                }
                let ghost pre = paths_collection@;
                let mut j: usize = 0;
                while j < edges.len()
                    invariant
                        j <= edges@.len(),
                        topology.wf(),
                        consistent(topology.model()),
                        sortable(topology.unique_nodes@),
                        canon == topology.unique_nodes@,
                        em == edges_from(canon),
                        em.contains_key(id),
                        edges@ == em[id],
                        backtrace@ == eff,
                        eff.len() > 0,
                        eff.last() == id,
                        is_em_walk(em, eff),
                        paths_collection@.len() >= pre.len(),
                        forall|o: int| 0 <= o < pre.len() ==> paths_collection@[o] == pre[o],
                        forall|o: int|
                            pre.len() <= o < paths_collection@.len() ==> is_em_walk(
                                em,
                                (#[trigger] paths_collection@[o])@,
                            ) && paths_collection@[o]@.len() > eff.len()
                                && paths_collection@[o]@.subrange(0, eff.len() as int) == eff,
                        forall|w: Seq<u64>|
                            #[trigger] is_em_walk(em, w) && w.len() > eff.len() && w.subrange(
                                0,
                                eff.len() as int,
                            ) == eff && (exists|jj: int| 0 <= jj < j && em[id][jj] == w[eff.len() as int])
                                ==> exists|o: int|
                                pre.len() <= o < paths_collection@.len() && (
                                #[trigger] paths_collection@[o])@ == w,
                        forall|w: Seq<u64>|
                            #[trigger] out_count(paths_collection@, w) == out_count(pre, w) + (
                            if is_em_walk(em, w) && w.len() > eff.len() && w.subrange(
                                0,
                                eff.len() as int,
                            ) == eff {
                                occ(em[id].subrange(0, j as int), w[eff.len() as int])
                                    * step_prod(em, w, eff.len() as int)
                            } else {
                                0int
                            }),
                    decreases edges@.len() - j,
                {
                    let ghost it_start = paths_collection@;
                    let node_id = edges[j];
                    let mut new_thread = copy_u64_vec(backtrace);
                    new_thread.push(node_id);
                    proof {
                        assert(new_thread@ == eff.push(node_id));
                        assert(is_em_walk(em, new_thread@)) by {
                            assert forall|k: int|
                                0 <= k < new_thread@.len() - 1 implies em.contains_key(
                                #[trigger] new_thread@[k],
                            ) && em[new_thread@[k]].contains(new_thread@[k + 1]) by {
                                if k < eff.len() - 1 {
                                    assert(new_thread@[k] == eff[k]);
                                    assert(new_thread@[k + 1] == eff[k + 1]);
                                } else {
                                    assert(new_thread@[k] == id);
                                    assert(em[id][j as int] == node_id);
                                }
                            }
                        }
                    }
                    let emitted = copy_u64_vec(&new_thread);
                    paths_collection.push(emitted);
                    proof {
                        assert(paths_collection@.last()@ == eff.push(node_id));
                        assert(eff.push(node_id).subrange(0, eff.len() as int) =~= eff);
                        // the recursion needs the next id's topological
                        // position, which lies strictly deeper
                        assert(is_topological_order(canon, the_order(canon))) by {
                            assert(sortable(canon));
                        }
                        lemma_edges_from_step(canon, id, node_id);
                        assert(has_id(canon, id)) by {
                            assert(resolved(canon));
                            let i0 = choose|i0: int|
                                0 <= i0 < canon.len() && canon[i0].id == node_id && (canon[i0].left
                                    == Some(id) || canon[i0].right == Some(id));
                            assert(node_refs_resolved(canon, canon[i0]));
                        }
                        lemma_pos_increase(canon, the_order(canon), id, node_id);
                    }
                    let ghost mid = paths_collection@;
                    Topology::bfs_visit(topology, node_id, &mut new_thread, paths_collection);
                    proof {
                        let post = paths_collection@;
                        let effc = eff.push(node_id);
                        assert(Self::visit_delta_ok(em, effc, mid, post));
                        // entries added by the recursion extend the longer
                        // prefix, hence this one
                        assert forall|o: int|
                            pre.len() <= o < post.len() implies is_em_walk(
                            em,
                            (#[trigger] post[o])@,
                        ) && post[o]@.len() > eff.len() && post[o]@.subrange(0, eff.len() as int)
                            == eff by {
                            if o < mid.len() {
                            } else {
                                assert(post[o]@.subrange(0, effc.len() as int) == effc);
                                assert(post[o]@.subrange(0, eff.len() as int) =~= effc.subrange(
                                    0,
                                    eff.len() as int,
                                ));
                                assert(effc.subrange(0, eff.len() as int) =~= eff);
                            }
                        }
                        // every extension through this successor is now out
                        assert forall|w: Seq<u64>|
                            #[trigger] is_em_walk(em, w) && w.len() > eff.len() && w.subrange(
                                0,
                                eff.len() as int,
                            ) == eff && (exists|jj: int|
                                0 <= jj < j + 1 && em[id][jj] == w[eff.len() as int])
                            implies exists|o: int|
                            pre.len() <= o < post.len() && (#[trigger] post[o])@ == w by {
                            let jj = choose|jj: int|
                                0 <= jj < j + 1 && em[id][jj] == w[eff.len() as int];
                            if jj < j {
                                let o = choose|o: int|
                                    pre.len() <= o < it_start.len() && (#[trigger] it_start[o])@
                                        == w;
                                assert(mid[o] == it_start[o]);
                                assert(post[o] == mid[o]);
                                assert(post[o]@ == w);
                            } else {
                                assert(w[eff.len() as int] == node_id);
                                if w.len() == eff.len() + 1 {
                                    assert(w =~= effc);
                                    assert(mid[mid.len() - 1]@ == w);
                                    assert(post[mid.len() - 1]@ == w);
                                } else {
                                    assert(w.subrange(0, effc.len() as int) =~= effc);
                                    let o = choose|o: int|
                                        mid.len() <= o < post.len() && (#[trigger] post[o])@ == w;
                                }
                            }
                        }
                        // count bookkeeping: one more listed occurrence of
                        // this successor adds one more unit of the ways
                        // through it
                        assert(mid.drop_last() =~= it_start);
                        assert(mid.last()@ == effc);
                        assert forall|w: Seq<u64>|
                            #[trigger] out_count(post, w) == out_count(pre, w) + (if is_em_walk(
                            em,
                            w,
                        ) && w.len() > eff.len() && w.subrange(0, eff.len() as int) == eff {
                            occ(em[id].subrange(0, j + 1), w[eff.len() as int]) * step_prod(
                                em,
                                w,
                                eff.len() as int,
                            )
                        } else {
                            0int
                        }) by {
                            let guard = is_em_walk(em, w) && w.len() > eff.len() && w.subrange(
                                0,
                                eff.len() as int,
                            ) == eff;
                            let guardc = is_em_walk(em, w) && w.len() > effc.len() && w.subrange(
                                0,
                                effc.len() as int,
                            ) == effc;
                            assert(out_count(mid, w) == out_count(it_start, w) + (if effc == w {
                                1int
                            } else {
                                0int
                            }));
                            if guard {
                                let x = w[eff.len() as int];
                                let a = occ(em[id].subrange(0, j as int), x);
                                let p = step_prod(em, w, eff.len() as int);
                                lemma_occ_prefix_step(em[id], j as int, x);
                                if x == node_id {
                                    if w.len() == eff.len() + 1 {
                                        assert(w =~= effc);
                                        assert(!guardc);
                                        assert(step_prod(em, w, eff.len() as int) == 1);
                                        assert((a + 1) * p == a * p + p) by (nonlinear_arith);
                                    } else {
                                        assert(effc.len() != w.len());
                                        assert(effc != w);
                                        assert(w.subrange(0, effc.len() as int) =~= effc);
                                        assert(guardc);
                                        assert(effc.len() - 1 == eff.len());
                                        assert((a + 1) * p == a * p + p) by (nonlinear_arith);
                                    }
                                } else {
                                    assert(effc[eff.len() as int] == node_id);
                                    assert(w != effc);
                                    assert(!guardc) by {
                                        if guardc {
                                            assert(w.subrange(0, effc.len() as int)[eff.len() as int]
                                                == w[eff.len() as int]);
                                        }
                                    }
                                }
                            } else {
                                assert(effc.subrange(0, eff.len() as int) =~= eff);
                                assert(w != effc) by {
                                    if w == effc {
                                        assert(is_em_walk(em, effc));
                                    }
                                }
                                assert(!guardc) by {
                                    if guardc {
                                        assert(w.subrange(0, eff.len() as int) =~= w.subrange(
                                            0,
                                            effc.len() as int,
                                        ).subrange(0, eff.len() as int));
                                        assert(w.subrange(0, eff.len() as int) =~= eff);
                                    }
                                }
                            }
                        }
                    }
                    j += 1;
                }
                proof {
                    // the full successor list has been walked: the counted
                    // prefix is the whole list, and one unfolding of the
                    // product absorbs it
                    assert forall|w: Seq<u64>|
                        #[trigger] out_count(paths_collection@, w) == out_count(pre, w) + (
                        if is_em_walk(em, w) && w.len() > eff.len() && w.subrange(
                            0,
                            eff.len() as int,
                        ) == eff {
                            step_prod(em, w, eff.len() - 1)
                        } else {
                            0int
                        }) by {
                        if is_em_walk(em, w) && w.len() > eff.len() && w.subrange(
                            0,
                            eff.len() as int,
                        ) == eff {
                            assert(em[id].subrange(0, edges@.len() as int) =~= em[id]);
                            assert(w[eff.len() - 1] == eff[eff.len() - 1]) by {
                                assert(w.subrange(0, eff.len() as int)[eff.len() - 1] == w[eff.len()
                                    - 1]);
                            }
                            assert(w[eff.len() - 1] == id);
                            assert(em_list(em, w[eff.len() - 1]) == em[id]);
                            assert(step_prod(em, w, eff.len() - 1) == occ(em[id], w[eff.len() as int])
                                * step_prod(em, w, eff.len() as int));
                        }
                    }
                    // a walk out of `eff` must continue with a listed
                    // successor of `id`
                    assert forall|w: Seq<u64>|
                        #[trigger] is_em_walk(em, w) && w.len() > eff.len() && w.subrange(
                            0,
                            eff.len() as int,
                        ) == eff implies exists|jj: int|
                        0 <= jj < edges@.len() && em[id][jj] == w[eff.len() as int] by {
                        assert(w[eff.len() - 1] == eff[eff.len() - 1]) by {
                            assert(w.subrange(0, eff.len() as int)[eff.len() - 1] == w[eff.len()
                                - 1]);
                        }
                        assert(w[eff.len() - 1] == id);
                        assert(em[w[eff.len() - 1]].contains(w[eff.len() as int]));
                        let jj = choose|jj: int|
                            0 <= jj < em[id].len() && em[id][jj] == w[eff.len() as int];
                    }
                    assert forall|w: Seq<u64>|
                        #[trigger] is_em_walk(em, w) && w.len() > eff.len() && w.subrange(
                            0,
                            eff.len() as int,
                        ) == eff implies exists|o: int|
                        pre.len() <= o < paths_collection@.len() && (
                        #[trigger] paths_collection@[o])@ == w by {
                        let jj = choose|jj: int|
                            0 <= jj < edges@.len() && em[id][jj] == w[eff.len() as int];
                    }
                    assert(Self::visit_delta_ok(em, eff, pre, paths_collection@));
                    assert(pre == old(paths_collection)@);
                    assert(eff == (if old(backtrace)@.len() == 0 {
                        seq![id]
                    } else {
                        old(backtrace)@
                    }));
                    assert(Self::visit_delta_ok(
                        em,
                        if old(backtrace)@.len() == 0 {
                            seq![id]
                        } else {
                            old(backtrace)@
                        },
                        old(paths_collection)@,
                        paths_collection@,
                    ));
                }
            },
            None => {
                proof {
                    let eff = if old(backtrace)@.len() == 0 {
                        seq![id]
                    } else {
                        old(backtrace)@
                    };
                    assert forall|w: Seq<u64>|
                        #[trigger] is_em_walk(em, w) && w.len() > eff.len() && w.subrange(
                            0,
                            eff.len() as int,
                        ) == eff implies false by {
                        assert(w[eff.len() - 1] == eff[eff.len() - 1]) by {
                            assert(w.subrange(0, eff.len() as int)[eff.len() - 1] == w[eff.len()
                                - 1]);
                        }
                        assert(eff[eff.len() - 1] == id);
                        assert(em.contains_key(w[eff.len() - 1]));
                    }
                    assert forall|w: Seq<u64>|
                        #[trigger] is_em_walk(em, w) && w.len() > eff.len() && w.subrange(
                            0,
                            eff.len() as int,
                        ) == eff implies exists|o: int|
                        old(paths_collection)@.len() <= o < paths_collection@.len() && (
                        #[trigger] paths_collection@[o])@ == w by {
                        assert(false);
                    }
                    assert(Self::visit_delta_ok(em, eff, old(paths_collection)@, paths_collection@));
                }
            },
        };
    }

    /// What the path enumeration returns for start id `id`: exactly
    /// the one-element path when `id` has no outgoing edge, otherwise
    /// precisely the walks of at least one edge leaving `id` — each
    /// output is such a walk, and every such walk is an output.
    pub open spec fn bfs_output_ok(canon: Seq<Node>, id: u64, out: Seq<Vec<u64>>) -> bool {
        &&& (!edges_from(canon).contains_key(id) ==> out.len() == 1 && out[0]@ == seq![id])
        &&& (edges_from(canon).contains_key(id) ==> {
            &&& (forall|o: int|
                0 <= o < out.len() ==> is_walk(canon, (#[trigger] out[o])@) && out[o]@.len() >= 2
                    && out[o]@[0] == id)
            &&& (forall|w: Seq<u64>|
                #[trigger] is_walk(canon, w) && w.len() >= 2 && w[0] == id ==> exists|o: int|
                    0 <= o < out.len() && (#[trigger] out[o])@ == w)
            &&& (forall|w: Seq<u64>|
                #[trigger] out_count(out, w) == (if is_walk(canon, w) && w.len() >= 2 && w[0]
                    == id {
                    step_prod(edges_from(canon), w, 0)
                } else {
                    0int
                }))
        })
    }

    /// Enumerates every path prefix that starts at `id` and follows
    /// forward edges: a node with several outgoing edges contributes
    /// one new path per edge at that depth. When `id` has no outgoing
    /// edge at all, the single path holding just `id` comes back.
    pub fn bfs_all_paths(topology: &Self, id: u64) -> (r: Option<Vec<Vec<u64>>>)
        requires
            topology.wf(),
            consistent(topology.model()),
            sortable(topology.unique_nodes@),
        ensures
            match r {
                Some(v) => Self::bfs_output_ok(topology.unique_nodes@, id, v@),
                None => false,
            },
    {
        let ghost canon = topology.unique_nodes@;
        let mut collection: Vec<Vec<u64>> = Vec::new();
        let mut empty_vector: Vec<u64> = Vec::new();
        if topology.get_outgoing_edges_by_id(id).is_none() {
            let mut single: Vec<u64> = Vec::new();
            single.push(id);
            collection.push(single);
            proof {
                assert(collection@[0]@ =~= seq![id]);
                assert(Self::bfs_output_ok(canon, id, collection@));
            }
            return Some(collection);
        }
        Topology::bfs_visit(topology, id, &mut empty_vector, &mut collection);
        proof {
            let em = edges_from(canon);
            assert forall|o: int|
                0 <= o < collection@.len() implies is_walk(canon, (#[trigger] collection@[o])@)
                && collection@[o]@.len() >= 2 && collection@[o]@[0] == id by {
                lemma_em_walk_to_walk(canon, collection@[o]@);
                assert(collection@[o]@.subrange(0, 1)[0] == collection@[o]@[0]);
            }
            assert forall|w: Seq<u64>|
                #[trigger] is_walk(canon, w) && w.len() >= 2 && w[0] == id implies exists|o: int|
                0 <= o < collection@.len() && (#[trigger] collection@[o])@ == w by {
                lemma_walk_to_em_walk(canon, w);
                assert(w.subrange(0, 1) =~= seq![id]);
                assert(is_em_walk(em, w) && w.len() > seq![id].len() && w.subrange(
                    0,
                    seq![id].len() as int,
                ) == seq![id]);
            }
            assert forall|w: Seq<u64>|
                #[trigger] out_count(collection@, w) == (if is_walk(canon, w) && w.len() >= 2
                    && w[0] == id {
                    step_prod(em, w, 0)
                } else {
                    0int
                }) by {
                let eff = seq![id];
                if is_walk(canon, w) && w.len() >= 2 && w[0] == id {
                    lemma_walk_to_em_walk(canon, w);
                    assert(w.subrange(0, 1) =~= eff);
                    assert(eff.len() - 1 == 0);
                } else {
                    if is_em_walk(em, w) && w.len() > eff.len() && w.subrange(0, eff.len() as int)
                        == eff {
                        lemma_em_walk_to_walk(canon, w);
                        assert(w.subrange(0, 1)[0] == w[0]);
                    }
                }
            }
            assert(Self::bfs_output_ok(canon, id, collection@));
        }
        Some(collection)
    }

    /// Indexes the forward edges contributed by one canonical record:
    /// one entry per non-empty predecessor field.
    fn collect_edges(&mut self, node: Node)
        requires
            ekeys_unique(old(self).outgoing_edges@),
        ensures
            final(self).all_nodes == old(self).all_nodes,
            final(self).unique_nodes == old(self).unique_nodes,
            final(self).collitions == old(self).collitions,
            final(self).repeated_nodes == old(self).repeated_nodes,
            ekeys_unique(final(self).outgoing_edges@),
            eview(final(self).outgoing_edges@) == node_edges_added(
                eview(old(self).outgoing_edges@),
                node,
            ),
            esum(final(self).outgoing_edges@) == esum(old(self).outgoing_edges@) + spec_in_degree(
                node,
            ),
    {
        match node.left {
            None => {},
            Some(ancestor) => {
                push_edge(&mut self.outgoing_edges, ancestor, node.id);
            },
        };
        match node.right {
            None => {},
            Some(ancestor) => {
                push_edge(&mut self.outgoing_edges, ancestor, node.id);
            },
        };
    }
}

proof fn lemma_esum_nonneg(s: Seq<(u64, Vec<u64>)>)
    ensures
        esum(s) >= 0,
    decreases s.len(),
{
    if s.len() > 0 {
        lemma_esum_nonneg(s.drop_last());
    }
}

proof fn lemma_esum_prefix_bound(s: Seq<(u64, Vec<u64>)>, j: int)
    requires
        0 <= j <= s.len(),
    ensures
        esum(s.subrange(0, j)) <= esum(s),
    decreases s.len() - j,
{
    if j == s.len() {
        assert(s.subrange(0, j) =~= s);
    } else {
        lemma_esum_prefix_bound(s, j + 1);
        assert(s.subrange(0, j + 1).drop_last() =~= s.subrange(0, j));
        assert(s.subrange(0, j + 1).last() == s[j]);
    }
}

/// Appends one forward edge `p -> c` to the stored association list.
fn push_edge(edges: &mut Vec<(u64, Vec<u64>)>, p: u64, c: u64)
    requires
        ekeys_unique(old(edges)@),
    ensures
        ekeys_unique(final(edges)@),
        eview(final(edges)@) == edge_add(eview(old(edges)@), p, c),
        esum(final(edges)@) == esum(old(edges)@) + 1,
{
    let ghost s = edges@;
    let mut i: usize = 0;
    while i < edges.len()
        invariant
            i <= s.len(),
            edges@ == old(edges)@,
            s == edges@,
            ekeys_unique(s),
            forall|k: int| 0 <= k < i ==> s[k].0 != p,
        decreases s.len() - i,
    {
        if edges[i].0 == p {
            proof {
                lemma_eview_index(s, i as int);
            }
            let mut cur = copy_u64_vec(&edges[i].1);
            cur.push(c);
            proof {
                lemma_eview_update(s, i as int, cur);
                lemma_esum_update(s, i as int, cur);
            }
            edges.set(i, (p, cur));
            return ;
        }
        i += 1;
    }
    proof {
        lemma_eview_dom(s, p);
    }
    let mut fresh: Vec<u64> = Vec::new();
    fresh.push(c);
    edges.push((p, fresh));
    proof {
        assert(edges@.drop_last() =~= s);
        assert forall|i2: int, j2: int| 0 <= i2 < j2 < edges@.len() implies edges@[i2].0
            != edges@[j2].0 by {
            if j2 == edges@.len() - 1 {
                assert(s[i2].0 != p);
            }
        }
        assert(fresh@ =~= seq![c]);
        assert(eview(edges@) =~= edge_add(eview(s), p, c));
    }
}

/// The repeated collection phase of Kahn's algorithm, over a consistent
/// analysis: records whose every predecessor has been emitted are
/// collected in first-seen order, emitted, and struck from the pending
/// map, until none is ready. The ordering comes back only when every
/// record was emitted; otherwise the leftover records all sit on
/// cycles, and no topological ordering exists at all.
#[verifier::rlimit(100)]
fn kahn_order(topology: &Topology) -> (r: Option<Vec<Node>>)
    requires
        topology.wf(),
        consistent(topology.model()),
    ensures
        match r {
            Some(v) => is_topological_order(topology.unique_nodes@, v@) && (
            topology.unique_nodes@.len() > 0 && spec_in_degree(topology.unique_nodes@[0]) == 0
                ==> v@[0] == topology.unique_nodes@[0]),
            None => !sortable(topology.unique_nodes@),
        },
{
    let ghost canon = topology.unique_nodes@;
    let n = topology.unique_nodes.len();
    let mut counters: Vec<usize> = Vec::new();
    let mut removed: Vec<bool> = Vec::new();
    let mut i: usize = 0;
    while i < n
        invariant
            i <= n,
            n == canon.len(),
            canon == topology.unique_nodes@,
            topology.wf(),
            consistent(topology.model()),
            counters@.len() == i,
            removed@.len() == i,
            forall|k: int| 0 <= k < i ==> counters@[k] == spec_in_degree(#[trigger] canon[k]),
            forall|k: int| 0 <= k < i ==> !(#[trigger] removed@[k]),
        decreases n - i,
    {
        counters.push(topology.unique_nodes[i].in_degree());
        removed.push(false);
        i += 1;
    }
    let mut ordering: Vec<Node> = Vec::new();
    proof {
        assert(resolved(canon));
        assert forall|m: int|
            0 <= m < canon.len() && !removed@[m] implies counters@[m] == count_pending_fields(
            #[trigger] canon[m],
            canon,
            removed@,
        ) by {
            assert(node_refs_resolved(canon, canon[m]));
            if canon[m].left is Some {
                let q = canon[m].left->0;
                let j = choose|j: int| 0 <= j < canon.len() && canon[j].id == q;
                assert(canon[j].id == q && !removed@[j]);
                assert(is_pending_id(canon, removed@, q));
            }
            if canon[m].right is Some {
                let q = canon[m].right->0;
                let j = choose|j: int| 0 <= j < canon.len() && canon[j].id == q;
                assert(canon[j].id == q && !removed@[j]);
                assert(is_pending_id(canon, removed@, q));
            }
        }
        lemma_count_true_none(removed@);
        assert(kahn_state(topology, counters@, removed@, ordering@));
    }
    loop
        invariant_except_break
            n == canon.len(),
            canon == topology.unique_nodes@,
            kahn_state(topology, counters@, removed@, ordering@),
            counters_ok(canon, counters@, removed@),
        ensures
            n == canon.len(),
            canon == topology.unique_nodes@,
            kahn_state(topology, counters@, removed@, ordering@),
            counters_ok(canon, counters@, removed@),
            forall|m: int| 0 <= m < canon.len() && !removed@[m] ==> counters@[m] != 0,
        decreases n - count_true(removed@),
    {
        let mut zeros: Vec<usize> = Vec::new();
        let mut j: usize = 0;
        while j < n
            invariant
                j <= n,
                n == canon.len(),
                canon == topology.unique_nodes@,
                kahn_state(topology, counters@, removed@, ordering@),
                counters_ok(canon, counters@, removed@),
                forall|w: int| 0 <= w < zeros@.len() ==> (#[trigger] zeros@[w]) < j,
                forall|w: int|
                    0 <= w < zeros@.len() ==> !removed@[#[trigger] zeros@[w] as int]
                        && counters@[zeros@[w] as int] == 0,
                forall|w1: int, w2: int| 0 <= w1 < w2 < zeros@.len() ==> zeros@[w1] < zeros@[w2],
                forall|m: int|
                    0 <= m < j && !removed@[m] && counters@[m] == 0 ==> exists|w: int|
                        0 <= w < zeros@.len() && zeros@[w] == m,
            decreases n - j,
        {
            if !removed[j] && counters[j] == 0 {
                let ghost zeros0 = zeros@;
                zeros.push(j);
                proof {
                    assert(zeros@.last() == j as usize);
                    assert forall|m: int|
                        0 <= m < j + 1 && !removed@[m] && counters@[m] == 0 implies exists|w: int|
                        0 <= w < zeros@.len() && zeros@[w] == m by {
                        if m < j {
                            let w0 = choose|w0: int| 0 <= w0 < zeros0.len() && zeros0[w0] == m;
                            assert(zeros@[w0] == m);
                        } else {
                            assert(zeros@[zeros@.len() - 1] == m);
                        }
                    }
                }
            }
            j += 1;
        }
        if zeros.len() == 0 {
            proof {
                assert forall|m: int|
                    0 <= m < canon.len() && !removed@[m] implies counters@[m] != 0 by {
                    if counters@[m] == 0 {
                        let w = choose|w: int| 0 <= w < zeros@.len() && zeros@[w] == m;
                        assert(false);
                    }
                }
            }
            break ;
        }
        proof {
            if canon.len() > 0 && spec_in_degree(canon[0]) == 0 && ordering@.len() == 0 {
                assert(count_pending_fields(canon[0], canon, removed@) == 0);
                assert(counters@[0] == 0);
                let w = choose|w: int| 0 <= w < zeros@.len() && zeros@[w] == 0;
                assert(zeros@[0] <= zeros@[w]);
            }
        }
        let ghost round_base = count_true(removed@);
        proof {
            lemma_count_true_bound(removed@);
        }
        let mut z: usize = 0;
        while z < zeros.len()
            invariant
                z <= zeros@.len(),
                0 <= round_base,
                count_true(removed@) == round_base + z,
                canon.len() > 0 && spec_in_degree(canon[0]) == 0 && ordering@.len() == 0
                    ==> zeros@.len() > 0 && zeros@[0] == 0,
                n == canon.len(),
                canon == topology.unique_nodes@,
                kahn_state(topology, counters@, removed@, ordering@),
                counters_ok(canon, counters@, removed@),
                forall|w: int| z <= w < zeros@.len() ==> (#[trigger] zeros@[w]) < n,
                forall|w: int|
                    z <= w < zeros@.len() ==> !removed@[#[trigger] zeros@[w] as int]
                        && count_pending_fields(canon[zeros@[w] as int], canon, removed@) == 0,
                forall|w1: int, w2: int| 0 <= w1 < w2 < zeros@.len() ==> zeros@[w1] < zeros@[w2],
            decreases zeros@.len() - z,
        {
            let idx = zeros[z];
            let nd = topology.unique_nodes[idx];
            let p = nd.id;
            let ghost removed0 = removed@;
            let ghost ordering0 = ordering@;
            removed.set(idx, true);
            proof {
                lemma_count_true_update(removed0, idx as int);
                lemma_count_true_bound(removed@);
                assert forall|m: int|
                    0 <= m < canon.len() && !removed@[m] implies counters@[m]
                    == count_pending_fields(#[trigger] canon[m], canon, removed@) + count_named(
                    canon[m],
                    p,
                ) by {
                    lemma_count_pending_remove(canon, removed0, idx as int, canon[m]);
                    assert(!removed0[m]);
                }
                // the other pending-field counts of the remaining ready
                // records stay at zero
                assert forall|w: int|
                    z + 1 <= w < zeros@.len() implies !removed@[#[trigger] zeros@[w] as int]
                    && count_pending_fields(canon[zeros@[w] as int], canon, removed@) == 0 by {
                    assert(zeros@[z as int] < zeros@[w]);
                    lemma_count_pending_remove(canon, removed0, idx as int, canon[zeros@[w] as int]);
                }
            }
            ordering.push(nd);
            proof {
                // the new record's predecessors were all emitted already
                assert(count_pending_fields(canon[idx as int], canon, removed0) == 0);
                assert(node_preds_before(ordering@, ordering@.len() - 1)) by {
                    if nd.left is Some {
                        let q = nd.left->0;
                        assert(node_refs_resolved(canon, canon[idx as int]));
                        let jj = choose|jj: int| 0 <= jj < canon.len() && canon[jj].id == q;
                        assert(removed0[jj]);
                        assert(has_id(ordering0, canon[jj].id));
                        let k0 = choose|k0: int|
                            0 <= k0 < ordering0.len() && ordering0[k0].id == canon[jj].id;
                        assert(ordering@[k0].id == q);
                    }
                    if nd.right is Some {
                        let q = nd.right->0;
                        assert(node_refs_resolved(canon, canon[idx as int]));
                        let jj = choose|jj: int| 0 <= jj < canon.len() && canon[jj].id == q;
                        assert(removed0[jj]);
                        assert(has_id(ordering0, canon[jj].id));
                        let k0 = choose|k0: int|
                            0 <= k0 < ordering0.len() && ordering0[k0].id == canon[jj].id;
                        assert(ordering@[k0].id == q);
                    }
                }
                // the new record's id was not emitted before
                assert forall|k1: int|
                    0 <= k1 < ordering0.len() implies ordering0[k1].id != nd.id by {
                    if ordering0[k1].id == nd.id {
                        assert(ordering_member(canon, removed0, ordering0[k1]));
                        let i2 = choose|i2: int|
                            0 <= i2 < canon.len() && removed0[i2] && ordering0[k1] == canon[i2];
                        assert(canon[i2].id == canon[idx as int].id);
                        assert(i2 == idx as int);
                    }
                }
                // membership and coverage carry over to the longer ordering
                assert forall|k: int|
                    0 <= k < ordering@.len() implies ordering_member(
                    canon,
                    removed@,
                    #[trigger] ordering@[k],
                ) by {
                    if k < ordering0.len() {
                        assert(ordering_member(canon, removed0, ordering0[k]));
                        let i2 = choose|i2: int|
                            0 <= i2 < canon.len() && removed0[i2] && ordering0[k] == canon[i2];
                        assert(removed@[i2] && ordering@[k] == canon[i2]);
                    } else {
                        assert(removed@[idx as int] && ordering@[k] == canon[idx as int]);
                    }
                }
                assert forall|i2: int|
                    0 <= i2 < canon.len() && removed@[i2] implies has_id(
                    ordering@,
                    (#[trigger] canon[i2]).id,
                ) by {
                    if i2 == idx as int {
                        assert(ordering@[ordering@.len() - 1].id == canon[i2].id);
                    } else {
                        assert(removed0[i2]);
                        let k0 = choose|k0: int|
                            0 <= k0 < ordering0.len() && ordering0[k0].id == canon[i2].id;
                        assert(ordering@[k0].id == canon[i2].id);
                    }
                }
                assert forall|k: int|
                    0 <= k < ordering@.len() implies node_preds_before(ordering@, k) by {
                    if k < ordering0.len() {
                        assert(node_preds_before(ordering0, k));
                        if ordering0[k].left is Some {
                            let k2 = choose|k2: int|
                                0 <= k2 < k && ordering0[k2].id == ordering0[k].left->0;
                            assert(ordering@[k2].id == ordering@[k].left->0);
                        }
                        if ordering0[k].right is Some {
                            let k2 = choose|k2: int|
                                0 <= k2 < k && ordering0[k2].id == ordering0[k].right->0;
                            assert(ordering@[k2].id == ordering@[k].right->0);
                        }
                    }
                }
                if canon.len() > 0 && spec_in_degree(canon[0]) == 0 {
                    if ordering0.len() == 0 {
                        assert(count_true(removed0) == 0);
                        assert(z == 0);
                        assert(idx == zeros@[0]);
                        assert(ordering@[0] == canon[0]);
                    } else {
                        assert(ordering@[0] == ordering0[0]);
                    }
                }
                assert(kahn_state(topology, counters@, removed@, ordering@));
            }
            let mut t: usize = 0;
            while t < n
                invariant
                    t <= n,
                    n == canon.len(),
                    canon == topology.unique_nodes@,
                    kahn_state(topology, counters@, removed@, ordering@),
                    forall|m: int|
                        0 <= m < t && !removed@[m] ==> counters@[m] == count_pending_fields(
                            #[trigger] canon[m],
                            canon,
                            removed@,
                        ),
                    forall|m: int|
                        t <= m < n && !removed@[m] ==> counters@[m] == count_pending_fields(
                            #[trigger] canon[m],
                            canon,
                            removed@,
                        ) + count_named(canon[m], p),
                    forall|w: int| z + 1 <= w < zeros@.len() ==> (#[trigger] zeros@[w]) < n,
                    forall|w: int|
                        z + 1 <= w < zeros@.len() ==> !removed@[#[trigger] zeros@[w] as int]
                            && count_pending_fields(canon[zeros@[w] as int], canon, removed@) == 0,
                    forall|w1: int, w2: int| 0 <= w1 < w2 < zeros@.len() ==> zeros@[w1] < zeros@[w2],
                decreases n - t,
            {
                if !removed[t] {
                    let node_t = topology.unique_nodes[t];
                    let mut d: usize = 0;
                    match node_t.left {
                        Some(q) => {
                            if q == p {
                                d += 1;
                            }
                        },
                        None => {},
                    }
                    match node_t.right {
                        Some(q) => {
                            if q == p {
                                d += 1;
                            }
                        },
                        None => {},
                    }
                    proof {
                        assert(d == count_named(canon[t as int], p));
                    }
                    if d > 0 {
                        let cv = counters[t] - d;
                        counters.set(t, cv);
                    }
                }
                t += 1;
            }
            z += 1;
        }
    }
    if ordering.len() == n {
        proof {
            lemma_count_true_all(removed@);
            assert forall|k: int|
                0 <= k < ordering@.len() implies find_node(canon, (#[trigger] ordering@[k]).id)
                == Some(ordering@[k]) by {
                assert(ordering_member(canon, removed@, ordering@[k]));
                let i2 = choose|i2: int|
                    0 <= i2 < canon.len() && removed@[i2] && ordering@[k] == canon[i2];
                lemma_find_node_unique(canon, ordering@[k].id, i2);
            }
            assert(is_topological_order(canon, ordering@));
            if canon.len() > 0 && spec_in_degree(canon[0]) == 0 {
                assert(ordering@.len() > 0);
                assert(ordering@[0] == canon[0]);
            }
        }
        Some(ordering)
    } else {
        proof {
            lemma_count_true_bound(removed@);
            let i_missing = lemma_count_true_missing(removed@);
            assert(exists|i2: int| 0 <= i2 < canon.len() && !removed@[i2]);
            assert forall|m: int|
                0 <= m < canon.len() && !removed@[m] implies count_pending_fields(
                #[trigger] canon[m],
                canon,
                removed@,
            ) >= 1 by {
                assert(counters@[m] != 0);
            }
            lemma_stuck_not_sortable(canon, removed@);
        }
        None
    }
}

/// Looks for a full-identity view in `v` that carries the same id as
/// `c` yet is not `c` itself: a distinct collision already recorded
/// for that id.
fn colliding_vec_has_other(v: &Vec<CollidingNode>, c: &CollidingNode) -> (r: bool)
    ensures
        r == cols_has_other(v@, *c),
{
    let mut i: usize = 0;
    while i < v.len()
        invariant
            i <= v.len(),
            forall|k: int| 0 <= k < i ==> !(v@[k].0.id == c.0.id && v@[k] != *c),
        decreases v.len() - i,
    {
        let a = v[i].0;
        let b = c.0;
        if a.id == b.id && !(a.left == b.left && a.right == b.right && a.payload == b.payload) {
            proof {
                assert(v@[i as int].0.id == c.0.id && v@[i as int] != *c);
            }
            return true;
        }
        i += 1;
    }
    false
}

/// Copies a vector of ids element by element.
fn copy_u64_vec(v: &Vec<u64>) -> (r: Vec<u64>)
    ensures
        r@ == v@,
{
    let mut r: Vec<u64> = Vec::new();
    let mut i: usize = 0;
    while i < v.len()
        invariant
            i <= v.len(),
            r@ == v@.subrange(0, i as int),
        decreases v.len() - i,
    {
        r.push(v[i]);
        i += 1;
    }
    proof {
        assert(v@.subrange(0, v@.len() as int) =~= v@);
    }
    r
}

} // verus!

