//! The membership registry: a table of known members keyed by id, plus the
//! local node's own record. All conflict resolution lives here: an incoming
//! record replaces an existing one only when its incarnation is strictly
//! greater (last-writer-wins keyed by a sender-controlled counter).

use vstd::prelude::*;

use crate::node::Node;
use crate::node::State;

verus! {

/// No two records in the sequence share an id.
pub open spec fn ids_unique(s: Seq<Node>) -> bool {
    forall|i: int, j: int|
        0 <= i < j < s.len() ==> (#[trigger] s[i]).id != (#[trigger] s[j]).id
}

/// Some record in the sequence carries this id.
pub open spec fn has_id(s: Seq<Node>, id: usize) -> bool {
    exists|i: int| 0 <= i < s.len() && (#[trigger] s[i]).id == id
}

/// The record occurs in the sequence.
pub open spec fn in_seq(s: Seq<Node>, n: Node) -> bool {
    exists|i: int| 0 <= i < s.len() && #[trigger] s[i] == n
}

/// Every record in the sequence with this id has incarnation at most `k`.
pub open spec fn all_le(s: Seq<Node>, id: usize, k: usize) -> bool {
    forall|i: int|
        0 <= i < s.len() && (#[trigger] s[i]).id == id ==> s[i].incarnation <= k
}

/// Any two records in the sequence with equal id and equal incarnation are
/// the same record. Incarnations order conflicting facts, so two distinct
/// facts at the same incarnation are a protocol anomaly.
pub open spec fn coherent(s: Seq<Node>) -> bool {
    forall|i: int, j: int|
        0 <= i < s.len() && 0 <= j < s.len() && (#[trigger] s[i]).id == (#[trigger] s[j]).id
            && s[i].incarnation == s[j].incarnation ==> s[i] == s[j]
}

/// The registry as a mathematical map, read off a sequence of records.
pub open spec fn map_of(s: Seq<Node>) -> Map<usize, Node>
    decreases s.len(),
{
    if s.len() == 0 {
        Map::empty()
    } else {
        map_of(s.drop_last()).insert(s.last().id, s.last())
    }
}

/// One step of conflict resolution: insert an unknown record, replace a
/// known one only on strictly greater incarnation, discard otherwise.
pub open spec fn merge_one(m: Map<usize, Node>, n: Node) -> Map<usize, Node> {
    if !m.contains_key(n.id) || m[n.id].incarnation < n.incarnation {
        m.insert(n.id, n)
    } else {
        m
    }
}

/// Conflict resolution applied to a whole snapshot, record by record.
pub open spec fn merge_seq(m: Map<usize, Node>, s: Seq<Node>) -> Map<usize, Node>
    decreases s.len(),
{
    if s.len() == 0 {
        m
    } else {
        merge_one(merge_seq(m, s.drop_last()), s.last())
    }
}

/// The sequence enumerates exactly the records of the map, without
/// duplicates and in no particular order.
pub open spec fn snapshot_of(s: Seq<Node>, m: Map<usize, Node>) -> bool {
    &&& ids_unique(s)
    &&& forall|i: int|
        0 <= i < s.len() ==> m.contains_key((#[trigger] s[i]).id) && m[s[i].id] == s[i]
    &&& forall|id: usize| #[trigger] m.contains_key(id) ==> has_id(s, id)
}

proof fn lemma_ids_unique_prefix(s: Seq<Node>)
    requires
        ids_unique(s),
        s.len() > 0,
    ensures
        ids_unique(s.drop_last()),
{
    let s0 = s.drop_last();
    assert forall|i: int, j: int| 0 <= i < j < s0.len() implies (#[trigger] s0[i]).id != (
    #[trigger] s0[j]).id by {
        assert(s0[i] == s[i]);
        assert(s0[j] == s[j]);
    }
}

proof fn lemma_map_of_contains(s: Seq<Node>, id: usize)
    ensures
        map_of(s).contains_key(id) <==> has_id(s, id),
    decreases s.len(),
{
    if s.len() == 0 {
    } else {
        let s0 = s.drop_last();
        lemma_map_of_contains(s0, id);
        if has_id(s, id) {
            let i = choose|i: int| 0 <= i < s.len() && (#[trigger] s[i]).id == id;
            if i < s.len() - 1 {
                assert(s0[i] == s[i]);
                assert(has_id(s0, id));
            } else {
                assert(s.last().id == id);
            }
        }
        if has_id(s0, id) {
            let i = choose|i: int| 0 <= i < s0.len() && (#[trigger] s0[i]).id == id;
            assert(s[i] == s0[i]);
            assert(has_id(s, id));
        }
    }
}

proof fn lemma_map_of_index(s: Seq<Node>, i: int)
    requires
        ids_unique(s),
        0 <= i < s.len(),
    ensures
        map_of(s).contains_key(s[i].id),
        map_of(s)[s[i].id] == s[i],
    decreases s.len(),
{
    if i == s.len() - 1 {
        assert(s.last() == s[i]);
    } else {
        let s0 = s.drop_last();
        lemma_ids_unique_prefix(s);
        assert(s0[i] == s[i]);
        lemma_map_of_index(s0, i);
        assert(s[i].id != s.last().id);
    }
}

proof fn lemma_map_of_len(s: Seq<Node>)
    requires
        ids_unique(s),
    ensures
        map_of(s).dom().finite(),
        map_of(s).dom().len() == s.len(),
    decreases s.len(),
{
    broadcast use vstd::set::group_set_axioms;

    if s.len() == 0 {
        assert(map_of(s).dom() =~= Set::<usize>::empty());
    } else {
        let s0 = s.drop_last();
        lemma_ids_unique_prefix(s);
        lemma_map_of_len(s0);
        lemma_map_of_contains(s0, s.last().id);
        assert(!has_id(s0, s.last().id)) by {
            if has_id(s0, s.last().id) {
                let i = choose|i: int| 0 <= i < s0.len() && (#[trigger] s0[i]).id == s.last().id;
                assert(s[i] == s0[i]);
                assert(s[i].id != s[s.len() - 1].id);
            }
        }
        assert(map_of(s).dom() =~= map_of(s0).dom().insert(s.last().id));
    }
}

proof fn lemma_map_of_update(s: Seq<Node>, i: int, n: Node)
    requires
        ids_unique(s),
        0 <= i < s.len(),
        s[i].id == n.id,
    ensures
        ids_unique(s.update(i, n)),
        map_of(s.update(i, n)) == map_of(s).insert(n.id, n),
    decreases s.len(),
{
    let t = s.update(i, n);
    assert forall|p: int, q: int| 0 <= p < q < t.len() implies (#[trigger] t[p]).id != (
    #[trigger] t[q]).id by {
        assert(t[p].id == s[p].id);
        assert(t[q].id == s[q].id);
    }
    if i == s.len() - 1 {
        assert(t.drop_last() =~= s.drop_last());
        assert(t.last() == n);
        assert(map_of(t) =~= map_of(s).insert(n.id, n));
    } else {
        let s0 = s.drop_last();
        lemma_ids_unique_prefix(s);
        assert(t.drop_last() =~= s0.update(i, n));
        lemma_map_of_update(s0, i, n);
        assert(t.last() == s.last());
        assert(s[i].id != s.last().id);
        assert(map_of(t) =~= map_of(s).insert(n.id, n));
    }
}

proof fn lemma_ids_unique_push(s: Seq<Node>, n: Node)
    requires
        ids_unique(s),
        !has_id(s, n.id),
    ensures
        ids_unique(s.push(n)),
        map_of(s.push(n)) == map_of(s).insert(n.id, n),
{
    let t = s.push(n);
    assert forall|p: int, q: int| 0 <= p < q < t.len() implies (#[trigger] t[p]).id != (
    #[trigger] t[q]).id by {
        if q < t.len() - 1 {
            assert(t[p] == s[p]);
            assert(t[q] == s[q]);
        } else {
            assert(t[p] == s[p]);
            assert(t[q] == n);
        }
    }
    assert(t.drop_last() =~= s);
    assert(t.last() == n);
}

/// The registry: the local node's own record plus one record per known id.
pub struct Nodestore {
    self_node: Node,
    nodes: Vec<Node>,
}

impl View for Nodestore {
    type V = Map<usize, Node>;

    closed spec fn view(&self) -> Map<usize, Node> {
        map_of(self.nodes@)
    }
}

impl Nodestore {
    /// The local node's id.
    pub closed spec fn self_id(&self) -> usize {
        self.self_node.id
    }

    /// The local node's own record, kept separately from the table.
    pub closed spec fn self_node_spec(&self) -> Node {
        self.self_node
    }

    /// Internal invariant: one record per id, and the local node's id is
    /// always among the members.
    pub closed spec fn wf(&self) -> bool {
        &&& ids_unique(self.nodes@)
        &&& map_of(self.nodes@).contains_key(self.self_node.id)
    }

    /// A well-formed registry always knows its own node.
    pub proof fn lemma_self_present(&self)
        requires
            self.wf(),
        ensures
            self@.contains_key(self.self_id()),
    {
    }

    /// A registry starts with exactly the local node's record.
    pub fn new(self_node: Node) -> (s: Nodestore)
        ensures
            s.wf(),
            s@ == Map::<usize, Node>::empty().insert(self_node.id, self_node),
            s.self_node_spec() == self_node,
    {
        let mut nodes: Vec<Node> = Vec::new();
        nodes.push(self_node);
        proof {
            assert(nodes@.drop_last() =~= Seq::<Node>::empty());
            assert(nodes@.last() == self_node);
            assert(map_of(nodes@.drop_last()) == Map::<usize, Node>::empty());
            assert(map_of(nodes@) == Map::<usize, Node>::empty().insert(
                self_node.id,
                self_node,
            ));
        }
        Nodestore { self_node, nodes }
    }

    fn find_index(&self, id: usize) -> (r: Option<usize>)
        ensures
            match r {
                Some(i) => i < self.nodes@.len() && self.nodes@[i as int].id == id,
                None => !has_id(self.nodes@, id),
            },
    {
        let mut i: usize = 0;
        while i < self.nodes.len()
            invariant
                i <= self.nodes@.len(),
                forall|j: int| 0 <= j < i ==> (#[trigger] self.nodes@[j]).id != id,
            decreases self.nodes@.len() - i,
        {
            if self.nodes[i].id == id {
                return Some(i);
            }
            i = i + 1;
        }
        None
    }

    /// Unconditional upsert: the record replaces whatever the registry
    /// held for its id.
    pub fn insert(&mut self, node: Node)
        requires
            old(self).wf(),
        ensures
            final(self).wf(),
            final(self)@ == old(self)@.insert(node.id, node),
            final(self).self_node_spec() == old(self).self_node_spec(),
    {
        match self.find_index(node.id) {
            Some(i) => {
                proof {
                    lemma_map_of_update(self.nodes@, i as int, node);
                }
                self.nodes.set(i, node);
            },
            None => {
                proof {
                    lemma_ids_unique_push(self.nodes@, node);
                }
                self.nodes.push(node);
            },
        }
    }

    /// Point lookup; a miss is an absence, not an error.
    pub fn get(&self, id: usize) -> (r: Option<Node>)
        requires
            self.wf(),
        ensures
            r == if self@.contains_key(id) {
                Some(self@[id])
            } else {
                None::<Node>
            },
    {
        match self.find_index(id) {
            Some(i) => {
                proof {
                    lemma_map_of_index(self.nodes@, i as int);
                }
                Some(self.nodes[i])
            },
            None => {
                proof {
                    lemma_map_of_contains(self.nodes@, id);
                }
                None
            },
        }
    }

    /// Snapshot of all current members; order is not part of the contract.
    /// The local node's id is always among the ids returned.
    pub fn get_all(&self) -> (r: Vec<Node>)
        requires
            self.wf(),
        ensures
            snapshot_of(r@, self@),
            exists|i: int| 0 <= i < r@.len() && (#[trigger] r@[i]).id == self.self_id(),
    {
        let mut out: Vec<Node> = Vec::new();
        let mut i: usize = 0;
        while i < self.nodes.len()
            invariant
                i <= self.nodes@.len(),
                out@ == self.nodes@.subrange(0, i as int),
            decreases self.nodes@.len() - i,
        {
            out.push(self.nodes[i]);
            proof {
                assert(out@ =~= self.nodes@.subrange(0, i as int + 1));
            }
            i = i + 1;
        }
        proof {
            assert(out@ =~= self.nodes@);
            assert forall|k: int| 0 <= k < self.nodes@.len() implies self@.contains_key(
                (#[trigger] self.nodes@[k]).id,
            ) && self@[self.nodes@[k].id] == self.nodes@[k] by {
                lemma_map_of_index(self.nodes@, k);
            }
            assert forall|id: usize| #[trigger] self@.contains_key(id) implies has_id(
                self.nodes@,
                id,
            ) by {
                lemma_map_of_contains(self.nodes@, id);
            }
            lemma_map_of_contains(self.nodes@, self.self_node.id);
        }
        out
    }

    /// Fold a gossiped snapshot into the registry under the strict
    /// incarnation rule: unknown ids are inserted, known ids are replaced
    /// only by a strictly greater incarnation, ties and lower incarnations
    /// are discarded silently.
    pub fn update_from_vec(&mut self, nodes: Vec<Node>)
        requires
            old(self).wf(),
        ensures
            final(self).wf(),
            final(self)@ == merge_seq(old(self)@, nodes@),
            final(self).self_node_spec() == old(self).self_node_spec(),
    {
        let ghost m0 = self@;
        let mut k: usize = 0;
        while k < nodes.len()
            invariant
                self.wf(),
                k <= nodes@.len(),
                self@ == merge_seq(m0, nodes@.subrange(0, k as int)),
                self.self_node_spec() == old(self).self_node_spec(),
            decreases nodes@.len() - k,
        {
            let ghost prev = self@;
            let n = nodes[k];
            match self.get(n.id) {
                Some(existing) => {
                    if existing.incarnation < n.incarnation {
                        self.insert(n);
                    }
                },
                None => {
                    self.insert(n);
                },
            }
            proof {
                assert(self@ == merge_one(prev, n));
                assert(nodes@.subrange(0, k as int + 1) =~= nodes@.subrange(0, k as int).push(n));
                lemma_merge_seq_push(m0, nodes@.subrange(0, k as int), n);
            }
            k = k + 1;
        }
        proof {
            assert(nodes@.subrange(0, nodes@.len() as int) =~= nodes@);
        }
    }

    /// Count of known members.
    pub fn len(&self) -> (r: usize)
        requires
            self.wf(),
        ensures
            r == self@.dom().len(),
    {
        proof {
            lemma_map_of_len(self.nodes@);
        }
        self.nodes.len()
    }

    /// The local node's own record.
    pub fn self_node(&self) -> (n: Node)
        ensures
            n == self.self_node_spec(),
    {
        self.self_node
    }

    /// Record a failed peer: its state becomes DEAD, everything else about
    /// the record is kept. An unknown id changes nothing.
    pub fn mark_dead(&mut self, id: usize)
        requires
            old(self).wf(),
        ensures
            final(self).wf(),
            final(self).self_node_spec() == old(self).self_node_spec(),
            final(self)@ == if old(self)@.contains_key(id) {
                old(self)@.insert(
                    id,
                    Node {
                        id,
                        addr: old(self)@[id].addr,
                        state: State::DEAD,
                        incarnation: old(self)@[id].incarnation,
                    },
                )
            } else {
                old(self)@
            },
    {
        match self.get(id) {
            Some(n) => {
                self.insert(
                    Node { id, addr: n.addr, state: State::DEAD, incarnation: n.incarnation },
                );
            },
            None => {},
        }
    }
}

proof fn lemma_merge_seq_push(m: Map<usize, Node>, s: Seq<Node>, n: Node)
    ensures
        merge_seq(m, s.push(n)) == merge_one(merge_seq(m, s), n),
{
    assert(s.push(n).drop_last() =~= s);
    assert(s.push(n).last() == n);
}

/// Knowledge never regresses: merging keeps every known id, and the
/// incarnation recorded for an id never decreases.
pub proof fn lemma_merge_monotone(m: Map<usize, Node>, s: Seq<Node>)
    ensures
        forall|id: usize| #[trigger]
            m.contains_key(id) ==> merge_seq(m, s).contains_key(id) && m[id].incarnation
                <= merge_seq(m, s)[id].incarnation,
    decreases s.len(),
{
    if s.len() > 0 {
        lemma_merge_monotone(m, s.drop_last());
    }
}

/// After a merge, every record of the snapshot has its id present, at an
/// incarnation at least the record's own.
pub proof fn lemma_merge_covers(m: Map<usize, Node>, s: Seq<Node>)
    ensures
        forall|i: int|
            0 <= i < s.len() ==> merge_seq(m, s).contains_key((#[trigger] s[i]).id)
                && s[i].incarnation <= merge_seq(m, s)[s[i].id].incarnation,
    decreases s.len(),
{
    if s.len() > 0 {
        let s0 = s.drop_last();
        lemma_merge_covers(m, s0);
        let r0 = merge_seq(m, s0);
        let r = merge_seq(m, s);
        assert forall|i: int| 0 <= i < s.len() implies r.contains_key((#[trigger] s[i]).id)
            && s[i].incarnation <= r[s[i].id].incarnation by {
            if i < s.len() - 1 {
                assert(s0[i] == s[i]);
                assert(r0.contains_key(s[i].id) && s[i].incarnation <= r0[s[i].id].incarnation);
            } else {
                assert(s[i] == s.last());
            }
        }
    }
}

/// Merging a snapshot the registry already dominates changes nothing.
pub proof fn lemma_merge_noop(m: Map<usize, Node>, s: Seq<Node>)
    requires
        forall|i: int|
            0 <= i < s.len() ==> m.contains_key((#[trigger] s[i]).id) && s[i].incarnation
                <= m[s[i].id].incarnation,
    ensures
        merge_seq(m, s) == m,
    decreases s.len(),
{
    if s.len() > 0 {
        let s0 = s.drop_last();
        assert forall|i: int| 0 <= i < s0.len() implies m.contains_key((#[trigger] s0[i]).id)
            && s0[i].incarnation <= m[s0[i].id].incarnation by {
            assert(s0[i] == s[i]);
        }
        lemma_merge_noop(m, s0);
        assert(s.last() == s[s.len() - 1]);
    }
}

/// Merging a snapshot twice equals merging it once.
pub proof fn lemma_merge_idempotent(m: Map<usize, Node>, s: Seq<Node>)
    ensures
        merge_seq(merge_seq(m, s), s) == merge_seq(m, s),
{
    lemma_merge_covers(m, s);
    lemma_merge_noop(merge_seq(m, s), s);
}

/// What a merge leaves at each id: either the registry's old record, when
/// no incoming record for that id strictly beats it, or an incoming record
/// of maximal incarnation for that id, when one does.
pub proof fn lemma_merge_characterize(m: Map<usize, Node>, s: Seq<Node>)
    ensures
        forall|id: usize| #[trigger]
            merge_seq(m, s).contains_key(id) <==> m.contains_key(id) || has_id(s, id),
        forall|id: usize| #[trigger]
            merge_seq(m, s).contains_key(id) ==> (m.contains_key(id) && merge_seq(m, s)[id]
                == m[id] && all_le(s, id, m[id].incarnation)) || (in_seq(s, merge_seq(m, s)[id])
                && merge_seq(m, s)[id].id == id && all_le(s, id, merge_seq(m, s)[id].incarnation)
                && (m.contains_key(id) ==> m[id].incarnation < merge_seq(m, s)[id].incarnation)),
    decreases s.len(),
{
    if s.len() == 0 {
        assert(forall|id: usize| !has_id(s, id));
    } else {
        let s0 = s.drop_last();
        let n = s.last();
        let r0 = merge_seq(m, s0);
        let r = merge_seq(m, s);
        lemma_merge_characterize(m, s0);
        assert forall|id: usize| #[trigger]
            r.contains_key(id) <==> m.contains_key(id) || has_id(s, id) by {
            if r.contains_key(id) {
                if id == n.id {
                    assert(s[s.len() - 1].id == id);
                    assert(has_id(s, id));
                } else {
                    assert(r0.contains_key(id));
                    if has_id(s0, id) {
                        let i = choose|i: int| 0 <= i < s0.len() && (#[trigger] s0[i]).id == id;
                        assert(s[i] == s0[i]);
                        assert(has_id(s, id));
                    }
                }
            }
            if m.contains_key(id) {
                assert(r0.contains_key(id));
                assert(r.contains_key(id));
            }
            if has_id(s, id) {
                let i = choose|i: int| 0 <= i < s.len() && (#[trigger] s[i]).id == id;
                if i < s.len() - 1 {
                    assert(s0[i] == s[i]);
                    assert(has_id(s0, id));
                    assert(r0.contains_key(id));
                } else {
                    assert(id == n.id);
                }
                assert(r.contains_key(id));
            }
        }
        assert forall|id: usize| #[trigger] r.contains_key(id) implies (m.contains_key(id) && r[id]
            == m[id] && all_le(s, id, m[id].incarnation)) || (in_seq(s, r[id]) && r[id].id == id
            && all_le(s, id, r[id].incarnation) && (m.contains_key(id) ==> m[id].incarnation
            < r[id].incarnation)) by {
            if id != n.id {
                // the last record cannot affect this id
                assert(r[id] == r0[id]);
                assert(r0.contains_key(id));
                if r0[id] == m[id] && m.contains_key(id) && all_le(s0, id, m[id].incarnation) {
                    assert forall|i: int| 0 <= i < s.len() && (#[trigger] s[i]).id == id implies
                        s[i].incarnation <= m[id].incarnation by {
                        assert(i < s.len() - 1);
                        assert(s0[i] == s[i]);
                    }
                } else {
                    assert(in_seq(s0, r0[id]));
                    let i = choose|i: int| 0 <= i < s0.len() && #[trigger] s0[i] == r0[id];
                    assert(s[i] == s0[i]);
                    assert(in_seq(s, r[id]));
                    assert forall|i: int| 0 <= i < s.len() && (#[trigger] s[i]).id == id implies
                        s[i].incarnation <= r[id].incarnation by {
                        assert(i < s.len() - 1);
                        assert(s0[i] == s[i]);
                    }
                }
            } else {
                // id == n.id
                let inserted = !r0.contains_key(id) || r0[id].incarnation < n.incarnation;
                if inserted {
                    assert(r[id] == n);
                    assert(s[s.len() - 1] == n);
                    assert(in_seq(s, n));
                    if !r0.contains_key(id) {
                        assert(!has_id(s0, id));
                        assert(!m.contains_key(id));
                        assert forall|i: int| 0 <= i < s.len() && (#[trigger] s[i]).id == id
                            implies s[i].incarnation <= n.incarnation by {
                            if i < s.len() - 1 {
                                assert(s0[i] == s[i]);
                                assert(has_id(s0, id));
                            }
                        }
                    } else {
                        // r0[id].incarnation < n.incarnation
                        assert forall|i: int| 0 <= i < s.len() && (#[trigger] s[i]).id == id
                            implies s[i].incarnation <= n.incarnation by {
                            if i < s.len() - 1 {
                                assert(s0[i] == s[i]);
                                assert(s0[i].incarnation <= r0[id].incarnation);
                            }
                        }
                        if m.contains_key(id) {
                            lemma_merge_monotone(m, s0);
                        }
                    }
                } else {
                    // kept: r == r0, and n.incarnation <= r0[id].incarnation
                    assert(r[id] == r0[id]);
                    if m.contains_key(id) && r0[id] == m[id] && all_le(s0, id, m[id].incarnation) {
                        assert forall|i: int| 0 <= i < s.len() && (#[trigger] s[i]).id == id
                            implies s[i].incarnation <= m[id].incarnation by {
                            if i < s.len() - 1 {
                                assert(s0[i] == s[i]);
                            } else {
                                assert(s[i] == n);
                            }
                        }
                    } else {
                        assert(in_seq(s0, r0[id]));
                        let i = choose|i: int| 0 <= i < s0.len() && #[trigger] s0[i] == r0[id];
                        assert(s[i] == s0[i]);
                        assert(in_seq(s, r[id]));
                        assert forall|i: int| 0 <= i < s.len() && (#[trigger] s[i]).id == id
                            implies s[i].incarnation <= r[id].incarnation by {
                            if i < s.len() - 1 {
                                assert(s0[i] == s[i]);
                            } else {
                                assert(s[i] == n);
                            }
                        }
                    }
                }
            }
        }
    }
}

/// Convergence does not depend on delivery order: two snapshots carrying
/// the same multiset of records merge to the same registry, provided any
/// two records with equal id and equal incarnation are the same record.
pub proof fn lemma_merge_confluent(m: Map<usize, Node>, s1: Seq<Node>, s2: Seq<Node>)
    requires
        coherent(s1),
        s1.to_multiset() == s2.to_multiset(),
    ensures
        merge_seq(m, s1) == merge_seq(m, s2),
{
    s1.to_multiset_ensures();
    s2.to_multiset_ensures();
    // the two snapshots hold the same records
    assert forall|x: Node| in_seq(s1, x) implies in_seq(s2, x) by {
        let i = choose|i: int| 0 <= i < s1.len() && #[trigger] s1[i] == x;
        assert(s1.contains(x));
        assert(s1.to_multiset().count(x) > 0);
        assert(s2.to_multiset().count(x) > 0);
        assert(s2.contains(x));
        let j = choose|j: int| 0 <= j < s2.len() && s2[j] == x;
        assert(s2[j] == x);
    }
    assert forall|x: Node| in_seq(s2, x) implies in_seq(s1, x) by {
        let i = choose|i: int| 0 <= i < s2.len() && #[trigger] s2[i] == x;
        assert(s2.contains(x));
        assert(s2.to_multiset().count(x) > 0);
        assert(s1.to_multiset().count(x) > 0);
        assert(s1.contains(x));
        let j = choose|j: int| 0 <= j < s1.len() && s1[j] == x;
        assert(s1[j] == x);
    }
    lemma_merge_characterize(m, s1);
    lemma_merge_characterize(m, s2);
    let r1 = merge_seq(m, s1);
    let r2 = merge_seq(m, s2);
    assert forall|id: usize| #[trigger] r1.contains_key(id) <==> r2.contains_key(id) by {
        if has_id(s1, id) {
            let i = choose|i: int| 0 <= i < s1.len() && (#[trigger] s1[i]).id == id;
            assert(in_seq(s1, s1[i]));
            let j = choose|j: int| 0 <= j < s2.len() && #[trigger] s2[j] == s1[i];
            assert(has_id(s2, id));
        }
        if has_id(s2, id) {
            let i = choose|i: int| 0 <= i < s2.len() && (#[trigger] s2[i]).id == id;
            assert(in_seq(s2, s2[i]));
            let j = choose|j: int| 0 <= j < s1.len() && #[trigger] s1[j] == s2[i];
            assert(has_id(s1, id));
        }
    }
    assert forall|id: usize| #[trigger] r1.contains_key(id) implies r1[id] == r2[id] by {
        // transfer the per-id incarnation bounds between the snapshots
        assert forall|k: usize| all_le(s1, id, k) implies all_le(s2, id, k) by {
            assert forall|i: int| 0 <= i < s2.len() && (#[trigger] s2[i]).id == id implies
                s2[i].incarnation <= k by {
                assert(in_seq(s2, s2[i]));
                let j = choose|j: int| 0 <= j < s1.len() && #[trigger] s1[j] == s2[i];
                assert(s1[j].incarnation <= k);
            }
        }
        assert forall|k: usize| all_le(s2, id, k) implies all_le(s1, id, k) by {
            assert forall|i: int| 0 <= i < s1.len() && (#[trigger] s1[i]).id == id implies
                s1[i].incarnation <= k by {
                assert(in_seq(s1, s1[i]));
                let j = choose|j: int| 0 <= j < s2.len() && #[trigger] s2[j] == s1[i];
                assert(s2[j].incarnation <= k);
            }
        }
        let v1 = r1[id];
        let v2 = r2[id];
        let kept1 = m.contains_key(id) && v1 == m[id] && all_le(s1, id, m[id].incarnation);
        let kept2 = m.contains_key(id) && v2 == m[id] && all_le(s2, id, m[id].incarnation);
        if kept1 && kept2 {
        } else if kept1 && !kept2 {
            // v2 came from s2 and strictly beats m[id]; but s1 (hence s2)
            // holds nothing above m[id]'s incarnation: contradiction
            assert(in_seq(s2, v2) && v2.id == id);
            assert(m.contains_key(id) ==> m[id].incarnation < v2.incarnation);
            assert(all_le(s2, id, m[id].incarnation));
            let j = choose|j: int| 0 <= j < s2.len() && #[trigger] s2[j] == v2;
            assert(false);
        } else if !kept1 && kept2 {
            assert(in_seq(s1, v1) && v1.id == id);
            assert(all_le(s1, id, m[id].incarnation));
            let j = choose|j: int| 0 <= j < s1.len() && #[trigger] s1[j] == v1;
            assert(false);
        } else {
            // both records come from the snapshots, each of maximal
            // incarnation for this id; coherence makes them one record
            assert(in_seq(s1, v1) && v1.id == id && all_le(s1, id, v1.incarnation));
            assert(in_seq(s2, v2) && v2.id == id && all_le(s2, id, v2.incarnation));
            assert(in_seq(s1, v2));
            let i1 = choose|i: int| 0 <= i < s1.len() && #[trigger] s1[i] == v1;
            let i2 = choose|i: int| 0 <= i < s1.len() && #[trigger] s1[i] == v2;
            assert(v2.incarnation <= v1.incarnation) by {
                assert(all_le(s1, id, v1.incarnation));
                assert(s1[i2].incarnation <= v1.incarnation);
            }
            assert(v1.incarnation <= v2.incarnation) by {
                assert(all_le(s2, id, v2.incarnation));
                assert(in_seq(s2, v1));
                let j = choose|j: int| 0 <= j < s2.len() && #[trigger] s2[j] == v1;
                assert(s2[j].incarnation <= v2.incarnation);
            }
            assert(s1[i1] == s1[i2]);
        }
    }
    assert(r1 =~= r2);
}

} // verus!
