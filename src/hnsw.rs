//! The graph index: a hierarchical navigable small-world graph over the
//! stored vectors. Vectors are held as the bit patterns of their 32-bit
//! floats; distances come from a `DistanceFunction` and are compared by
//! their order keys.
use crate::filter::{evaluate_filter, evaluates, Filter, Metadata};
use crate::types::{IndexConfig, VectorDbError, VectorId};
use rand::Rng;
use vstd::prelude::*;

verus! {

/// A distance between two vectors, each given by the bit patterns of its
/// 32-bit floats. The result is the distance's order key: smaller is nearer.
pub trait DistanceFunction {
    fn distance(&self, a: &Vec<u32>, b: &Vec<u32>) -> u64;
}

#[verifier::external_type_specification]
#[verifier::external_body]
pub struct ExStdRng(rand::rngs::StdRng);

/// Relies on rand's `Standard` distribution for `bool`: one fair coin flip.
#[verifier::external_body]
fn coin_flip(rng: &mut rand::rngs::StdRng) -> (r: bool) {
    rng.gen::<bool>()
}

/// The layer that a run of coin flips gives: one more for each leading
/// head, at most `max_layer`.
pub open spec fn layer_of_flips(flips: Seq<bool>, max_layer: nat) -> nat
    decreases flips.len(),
{
    if flips.len() == 0 || max_layer == 0 || !flips[0] {
        0
    } else {
        1 + layer_of_flips(flips.skip(1), (max_layer - 1) as nat)
    }
}

/// The layer for a new node, from the flips that were drawn.
pub fn layer_from_flips(flips: &Vec<bool>, max_layer: usize) -> (r: usize)
    ensures
        r == layer_of_flips(flips@, max_layer as nat),
        r <= max_layer,
{
    let mut l: usize = 0;
    assert(flips@.skip(0) =~= flips@);
    while l < max_layer && l < flips.len() && flips[l]
        invariant
            l <= max_layer,
            l <= flips@.len(),
            layer_of_flips(flips@, max_layer as nat) == l + layer_of_flips(
                flips@.skip(l as int),
                (max_layer - l) as nat,
            ),
        decreases max_layer - l,
    {
        assert(flips@.skip(l as int).skip(1) =~= flips@.skip(l + 1));
        l = l + 1;
    }
    l
}

/// A node of the graph.
pub struct HnswNode {
    pub id: VectorId,
    pub vector: Vec<u32>,
    pub layer: usize,
    /// For each layer up to the node's own, the slots of its neighbours.
    pub connections: Vec<Vec<usize>>,
    /// The metadata that filters read.
    pub metadata: Option<Metadata>,
}

/// Counts of an index, as `stats` reports them.
pub struct IndexStats {
    pub vector_count: usize,
    pub dimension: usize,
    pub max_layer: usize,
    pub total_connections: usize,
}

/// The graph index of one collection. Nodes live in a vector, one slot
/// each, and links name slots; the index is changed through `&mut self`,
/// so one owner serialises its writes instead of a concurrent map.
pub struct HnswIndex {
    nodes: Vec<HnswNode>,
    entry_point: Option<usize>,
    config: IndexConfig,
    dimension: usize,
    rng: rand::rngs::StdRng,
}

impl HnswIndex {
    /// The ids of the indexed vectors, by slot.
    pub closed spec fn ids(&self) -> Seq<VectorId> {
        Seq::new(self.nodes@.len(), |i: int| self.nodes@[i].id)
    }

    pub closed spec fn dimension_view(&self) -> usize {
        self.dimension
    }

    pub closed spec fn config_view(&self) -> IndexConfig {
        self.config
    }

    /// The vector stored under slot `i`.
    pub closed spec fn vector_at(&self, i: int) -> Seq<u32> {
        self.nodes@[i].vector@
    }

    /// The metadata stored under slot `i`.
    pub closed spec fn metadata_at(&self, i: int) -> Option<Metadata> {
        self.nodes@[i].metadata
    }

    pub closed spec fn layer_at(&self, i: int) -> usize {
        self.nodes@[i].layer
    }

    /// The vector indexed under `id` has metadata that `f` accepts.
    pub closed spec fn accepts(&self, f: Filter, id: VectorId) -> bool {
        exists|s: int| 0 <= s < self.nodes@.len() && self.nodes@[s].id == id && evaluates(f, #[trigger] self.nodes@[s].metadata)
    }

    /// `id` is indexed with vector `v` and metadata `m`.
    pub closed spec fn stores(&self, id: VectorId, v: Seq<u32>, m: Option<Metadata>) -> bool {
        exists|s: int| 0 <= s < self.nodes@.len() && (#[trigger] self.nodes@[s]).id == id && self.nodes@[s].vector@ == v
            && self.nodes@[s].metadata == m
    }

    /// The node of id `a` links at `layer` to the node of id `b`.
    pub closed spec fn has_link(&self, a: VectorId, layer: int, b: VectorId) -> bool {
        exists|s: int, k: int|
            0 <= s < self.nodes@.len() && self.nodes@[s].id == a && 0 <= layer < self.nodes@[s].connections@.len() && 0 <= k
                < self.nodes@[s].connections@[layer]@.len() && #[trigger] self.nodes@[s].connections@[layer]@[k]
                < self.nodes@.len() && self.nodes@[self.nodes@[s].connections@[layer]@[k] as int].id == b
    }

    pub closed spec fn entry_view(&self) -> Option<usize> {
        self.entry_point
    }

    /// Every neighbour slot names a node.
    pub closed spec fn links_in_range(&self) -> bool {
        forall|s: int, l: int, k: int|
            0 <= s < self.nodes@.len() && 0 <= l < self.nodes@[s].connections@.len() && 0 <= k
                < self.nodes@[s].connections@[l]@.len() ==> #[trigger] self.nodes@[s].connections@[l]@[k]
                < self.nodes@.len()
    }

    /// The index is well formed: ids are distinct, every node has one
    /// neighbour list per layer and a vector of the index's dimension,
    /// links stay inside the graph, and the entry point is a node of the
    /// highest layer (there is one exactly when the graph is not empty).
    pub closed spec fn wf(&self) -> bool {
        &&& self.graph_wf()
        &&& (self.entry_point is None <==> self.nodes@.len() == 0)
        &&& (self.entry_point matches Some(e) ==> e < self.nodes@.len() && forall|s: int|
            0 <= s < self.nodes@.len() ==> (#[trigger] self.nodes@[s]).layer <= self.nodes@[e as int].layer)
    }

    /// The nodes and links are well formed, whatever the entry point.
    pub closed spec fn graph_wf(&self) -> bool {
        &&& forall|i: int, j: int|
            0 <= i < j < self.nodes@.len() ==> (#[trigger] self.nodes@[i]).id != (#[trigger] self.nodes@[j]).id
        &&& forall|s: int|
            0 <= s < self.nodes@.len() ==> {
                &&& (#[trigger] self.nodes@[s]).connections@.len() == self.nodes@[s].layer + 1
                &&& self.nodes@[s].vector@.len() == self.dimension
                &&& self.nodes@[s].layer <= self.config.max_layer
            }
        &&& self.links_in_range()
    }

    /// An empty index.
    pub fn new(config: IndexConfig, dimension: usize, rng: rand::rngs::StdRng) -> (r: Self)
        ensures
            r.wf(),
            r.ids() == Seq::<VectorId>::empty(),
            r.dimension_view() == dimension,
            r.config_view() == config,
    {
        let r = HnswIndex { nodes: Vec::new(), entry_point: None, config, dimension, rng };
        assert(r.ids() =~= Seq::<VectorId>::empty());
        r
    }

    /// Number of indexed vectors.
    pub fn len(&self) -> (r: usize)
        ensures
            r == self.ids().len(),
    {
        self.nodes.len()
    }

    /// Draws the layer for a new node, as `insert` does; the index itself
    /// is left as it was.
    pub fn select_layer(&mut self) -> (r: usize)
        requires
            old(self).wf(),
        ensures
            r <= old(self).config_view().max_layer,
            final(self).wf(),
            final(self).ids() == old(self).ids(),
            final(self).config_view() == old(self).config_view(),
            final(self).dimension_view() == old(self).dimension_view(),
    {
        self.draw_layer()
    }

    /// Draws the layer of a new node: flip coins while they come up heads,
    /// up to the configured highest layer.
    fn draw_layer(&mut self) -> (r: usize)
        ensures
            r <= old(self).config.max_layer,
            final(self).nodes == old(self).nodes,
            final(self).entry_point == old(self).entry_point,
            final(self).config == old(self).config,
            final(self).dimension == old(self).dimension,
    {
        let mut layer: usize = 0;
        while layer < self.config.max_layer
            invariant
                layer <= self.config.max_layer,
                self.nodes == old(self).nodes,
                self.entry_point == old(self).entry_point,
                self.config == old(self).config,
                self.dimension == old(self).dimension,
            decreases self.config.max_layer - layer,
        {
            if !coin_flip(&mut self.rng) {
                break;
            }
            layer = layer + 1;
        }
        layer
    }
}

/// `w` is sorted by distance key, nearest first.
pub open spec fn sorted_by_key(w: Seq<(u64, usize)>) -> bool {
    forall|i: int, j: int| 0 <= i <= j < w.len() ==> (#[trigger] w[i]).0 <= (#[trigger] w[j]).0
}

/// The slots of `w` are distinct and name nodes of a graph of `n` nodes.
pub open spec fn distinct_slots(w: Seq<(u64, usize)>, n: nat) -> bool {
    &&& forall|i: int| 0 <= i < w.len() ==> (#[trigger] w[i]).1 < n
    &&& forall|i: int, j: int| 0 <= i < j < w.len() ==> (#[trigger] w[i]).1 != (#[trigger] w[j]).1
}

/// Inserts `item` into the sorted list after every entry not farther than it.
fn insert_sorted(w: &mut Vec<(u64, usize)>, item: (u64, usize))
    requires
        sorted_by_key(old(w)@),
    ensures
        sorted_by_key(final(w)@),
        final(w)@.to_multiset() == old(w)@.to_multiset().insert(item),
        exists|p: int| 0 <= p <= old(w)@.len() && final(w)@ == old(w)@.insert(p, item),
{
    let mut p: usize = 0;
    while p < w.len() && w[p].0 <= item.0
        invariant
            p <= w@.len(),
            w@ == old(w)@,
            sorted_by_key(w@),
            forall|j: int| 0 <= j < p ==> (#[trigger] w@[j]).0 <= item.0,
        decreases w@.len() - p,
    {
        p = p + 1;
    }
    let ghost before = w@;
    w.insert(p, item);
    proof {
        vstd::seq_lib::to_multiset_insert(before, p as int, item);
        assert forall|i: int, j: int| 0 <= i <= j < w@.len() implies (#[trigger] w@[i]).0 <= (#[trigger] w@[j]).0 by {
            if i < p && j > p {
                assert(before[j - 1].0 >= before[p as int].0 || p == before.len() || true);
                if p < before.len() {
                    assert(before[p as int].0 > item.0);
                    assert(before[i].0 <= item.0);
                }
                assert(before[i].0 <= before[j - 1].0);
            } else if i < p && j < p {
                assert(before[i].0 <= before[j].0);
            } else if i > p {
                assert(before[i - 1].0 <= before[j - 1].0);
            } else if i == p && j > p {
                assert(before[p as int].0 > item.0);
                assert(before[p as int].0 <= before[j - 1].0);
            } else if i < p && j == p {
                assert(before[i].0 <= item.0);
            }
        }
    }
}


/// Removes the last entries of `w` until it holds at most `k`.
fn keep_nearest(w: &mut Vec<(u64, usize)>, k: usize)
    ensures
        final(w)@ == (if old(w)@.len() <= k { old(w)@ } else { old(w)@.take(k as int) }),
{
    while w.len() > k
        invariant
            w@.len() <= old(w)@.len(),
            old(w)@.len() <= k ==> w@.len() == old(w)@.len(),
            old(w)@.len() > k ==> w@.len() >= k,
            w@ == old(w)@.take(w@.len() as int),
        decreases w@.len(),
    {
        w.pop();
        assert(w@ =~= old(w)@.take(w@.len() as int));
    }
    assert(old(w)@.take(old(w)@.len() as int) =~= old(w)@);
}

/// Position of the nearest entry of a non-empty list.
fn nearest_index(c: &Vec<(u64, usize)>) -> (r: usize)
    requires
        c@.len() > 0,
    ensures
        r < c@.len(),
        forall|i: int| 0 <= i < c@.len() ==> c@[r as int].0 <= (#[trigger] c@[i]).0,
{
    let mut best: usize = 0;
    let mut i: usize = 1;
    while i < c.len()
        invariant
            1 <= i <= c@.len(),
            best < c@.len(),
            forall|j: int| 0 <= j < i ==> c@[best as int].0 <= (#[trigger] c@[j]).0,
        decreases c@.len() - i,
    {
        if c[i].0 < c[best].0 {
            best = i;
        }
        i = i + 1;
    }
    best
}

/// Adds `item` to the sorted list `w` and, when `w` then holds more than
/// `k`, drops its farthest entry.
fn add_candidate(w: &mut Vec<(u64, usize)>, item: (u64, usize), k: usize, n: usize)
    requires
        sorted_by_key(old(w)@),
        distinct_slots(old(w)@, n as nat),
        item.1 < n,
        forall|i: int| 0 <= i < old(w)@.len() ==> (#[trigger] old(w)@[i]).1 != item.1,
    ensures
        sorted_by_key(final(w)@),
        distinct_slots(final(w)@, n as nat),
        forall|i: int| 0 <= i < final(w)@.len() ==> #[trigger] final(w)@[i] == item || old(w)@.contains(final(w)@[i]),
        final(w)@.len() >= old(w)@.len(),
        k > 0 ==> final(w)@.len() > 0,
{
    let ghost before = w@;
    insert_sorted(w, item);
    let ghost p = choose|p: int| 0 <= p <= before.len() && w@ == before.insert(p, item);
    proof {
        let v = w@;
        assert forall|i: int, j: int| 0 <= i < j < v.len() implies (#[trigger] v[i]).1 != (#[trigger] v[j]).1 by {
            if i == p {
                assert(v[j] == before[j - 1]);
            } else if j == p {
                assert(v[i] == before[i]);
            } else {
                let i2 = if i < p { i } else { i - 1 };
                let j2 = if j < p { j } else { j - 1 };
                assert(v[i] == before[i2]);
                assert(v[j] == before[j2]);
            }
        }
        assert forall|i: int| 0 <= i < v.len() implies (#[trigger] v[i]).1 < n by {
            if i != p {
                let i2 = if i < p { i } else { i - 1 };
                assert(v[i] == before[i2]);
            }
        }
        assert forall|i: int| 0 <= i < v.len() implies #[trigger] v[i] == item || before.contains(v[i]) by {
            if i != p {
                let i2 = if i < p { i } else { i - 1 };
                assert(v[i] == before[i2]);
            }
        }
    }
    if w.len() > k {
        let ghost full = w@;
        w.pop();
        proof {
            assert forall|i: int| 0 <= i < w@.len() implies #[trigger] w@[i] == item || before.contains(w@[i]) by {
                assert(w@[i] == full[i]);
            }
        }
    }
}

impl HnswIndex {
    /// Greedy search of one layer from `entries` for the `k` nodes nearest
    /// the query, nearest first. Each node is looked at once; the search
    /// stops when the nearest unexplored candidate is farther than the
    /// farthest of `k` found.
    fn search_layer<D: DistanceFunction>(
        &self,
        d: &D,
        query: &Vec<u32>,
        entries: &Vec<usize>,
        k: usize,
        layer: usize,
    ) -> (r: Vec<(u64, usize)>)
        requires
            self.graph_wf(),
            forall|i: int| 0 <= i < entries@.len() ==> #[trigger] entries@[i] < self.nodes@.len(),
        ensures
            sorted_by_key(r@),
            r@.len() <= k,
            distinct_slots(r@, self.nodes@.len() as nat),
            entries@.len() > 0 && k > 0 ==> r@.len() > 0,
    {
        let n = self.nodes.len();
        let mut visited: Vec<bool> = Vec::new();
        while visited.len() < n
            invariant
                visited@.len() <= n,
                forall|i: int| 0 <= i < visited@.len() ==> !#[trigger] visited@[i],
            decreases n - visited@.len(),
        {
            visited.push(false);
        }
        let mut w: Vec<(u64, usize)> = Vec::new();
        let mut c: Vec<(u64, usize)> = Vec::new();
        let mut e: usize = 0;
        while e < entries.len()
            invariant
                n == self.nodes@.len(),
                self.graph_wf(),
                forall|i: int| 0 <= i < entries@.len() ==> #[trigger] entries@[i] < n,
                visited@.len() == n,
                sorted_by_key(w@),
                distinct_slots(w@, n as nat),
                forall|i: int| 0 <= i < w@.len() ==> visited@[(#[trigger] w@[i]).1 as int],
                forall|i: int| 0 <= i < c@.len() ==> (#[trigger] c@[i]).1 < n,
                e > 0 ==> w@.len() > 0,
                e == 0 ==> forall|i: int| 0 <= i < n ==> !#[trigger] visited@[i],
            decreases entries@.len() - e,
        {
            let s = entries[e];
            if !visited[s] {
                let dist = d.distance(query, &self.nodes[s].vector);
                let ghost before = w@;
                let ghost vis_before = visited@;
                proof {
                    assert forall|i: int| 0 <= i < before.len() implies (#[trigger] before[i]).1 != s by {
                        assert(vis_before[before[i].1 as int]);
                    }
                }
                add_candidate(&mut w, (dist, s), usize::MAX, n);
                visited.set(s, true);
                c.push((dist, s));
                proof {
                    assert forall|i: int| 0 <= i < w@.len() implies visited@[(#[trigger] w@[i]).1 as int] by {
                        if w@[i] != (dist, s) {
                            let q = choose|q: int| 0 <= q < before.len() && before[q] == w@[i];
                            assert(vis_before[before[q].1 as int]);
                        }
                    }
                }
            }
            e = e + 1;
        }
        let mut budget: usize = n;
        while c.len() > 0 && budget > 0
            invariant
                n == self.nodes@.len(),
                self.graph_wf(),
                visited@.len() == n,
                sorted_by_key(w@),
                distinct_slots(w@, n as nat),
                forall|i: int| 0 <= i < w@.len() ==> visited@[(#[trigger] w@[i]).1 as int],
                forall|i: int| 0 <= i < c@.len() ==> (#[trigger] c@[i]).1 < n,
                entries@.len() > 0 ==> w@.len() > 0,
            decreases budget,
        {
            budget = budget - 1;
            let idx = nearest_index(&c);
            let cur = c.remove(idx);
            if w.len() >= k && w.len() > 0 && cur.0 > w[w.len() - 1].0 {
                break;
            }
            if layer < self.nodes[cur.1].connections.len() {
                let conns = &self.nodes[cur.1].connections[layer];
                let mut j: usize = 0;
                while j < conns.len()
                    invariant
                        n == self.nodes@.len(),
                        self.graph_wf(),
                        cur.1 < n,
                        layer < self.nodes@[cur.1 as int].connections@.len(),
                        conns == self.nodes@[cur.1 as int].connections@[layer as int],
                        visited@.len() == n,
                        sorted_by_key(w@),
                        distinct_slots(w@, n as nat),
                        forall|i: int| 0 <= i < w@.len() ==> visited@[(#[trigger] w@[i]).1 as int],
                        forall|i: int| 0 <= i < c@.len() ==> (#[trigger] c@[i]).1 < n,
                        entries@.len() > 0 ==> w@.len() > 0,
                    decreases conns@.len() - j,
                {
                    let t = conns[j];
                    proof {
                        assert(self.links_in_range());
                        assert(self.nodes@[cur.1 as int].connections@[layer as int]@[j as int] < n);
                    }
                    if !visited[t] {
                        let ghost vis_before = visited@;
                        visited.set(t, true);
                        let dist = d.distance(query, &self.nodes[t].vector);
                        let add = w.len() < k || (w.len() > 0 && dist < w[w.len() - 1].0);
                        if add {
                            let ghost before = w@;
                            proof {
                                assert forall|i: int| 0 <= i < before.len() implies (#[trigger] before[i]).1 != t by {
                                    assert(vis_before[before[i].1 as int]);
                                }
                            }
                            add_candidate(&mut w, (dist, t), k, n);
                            c.push((dist, t));
                            proof {
                                assert forall|i: int| 0 <= i < w@.len() implies visited@[(#[trigger] w@[i]).1 as int] by {
                                    if w@[i] != (dist, t) {
                                        let q = choose|q: int| 0 <= q < before.len() && before[q] == w@[i];
                                        assert(vis_before[before[q].1 as int]);
                                    }
                                }
                            }
                        }
                    }
                    j = j + 1;
                }
            }
        }
        keep_nearest(&mut w, k);
        w
    }
}

/// Results nearest first.
pub open spec fn results_sorted(v: Seq<(VectorId, u64)>) -> bool {
    forall|i: int, j: int| 0 <= i <= j < v.len() ==> (#[trigger] v[i]).1 <= (#[trigger] v[j]).1
}

/// Every result names a distinct indexed vector.
pub open spec fn results_distinct_in(v: Seq<(VectorId, u64)>, ids: Seq<VectorId>) -> bool {
    &&& forall|i: int| 0 <= i < v.len() ==> ids.contains((#[trigger] v[i]).0)
    &&& forall|i: int, j: int| 0 <= i < j < v.len() ==> (#[trigger] v[i]).0 != (#[trigger] v[j]).0
}

impl HnswIndex {
    /// Up to `limit` indexed vectors near `query`, nearest first, with the
    /// order keys of their distances. The top layers are descended greedily
    /// from the entry point; the bottom layer is searched with
    /// `max(ef, limit)` candidates, `ef` defaulting to the configured value.
    /// A query of another dimension is refused with `InvalidDimension`; an
    /// empty index gives no results.
    pub fn search<D: DistanceFunction>(&self, d: &D, query: &Vec<u32>, limit: usize, ef: Option<usize>) -> (r: Result<
        Vec<(VectorId, u64)>,
        VectorDbError,
    >)
        requires
            self.wf(),
        ensures
            query@.len() != self.dimension_view() <==> r is Err,
            r matches Err(e) ==> e == (VectorDbError::InvalidDimension {
                expected: self.dimension_view(),
                actual: query@.len() as usize,
            }),
            r matches Ok(v) ==> v@.len() <= limit && results_sorted(v@) && results_distinct_in(v@, self.ids()),
            (query@.len() == self.dimension_view() && self.ids().len() == 0) ==> (r matches Ok(v) && v@.len() == 0),
            (query@.len() == self.dimension_view() && self.ids().len() > 0 && limit > 0) ==> (r matches Ok(v) && v@.len() > 0),
    {
        self.query(d, query, limit, ef, None)
    }

    /// A search whose results must pass `filter`: the index is asked for
    /// three times `limit` candidates, those whose metadata the filter
    /// rejects are dropped, and the first `limit` left are returned. Without
    /// a filter this is `search`.
    pub fn query<D: DistanceFunction>(&self, d: &D, query: &Vec<u32>, limit: usize, ef: Option<usize>, filter: Option<&Filter>) -> (r: Result<
        Vec<(VectorId, u64)>,
        VectorDbError,
    >)
        requires
            self.wf(),
        ensures
            query@.len() != self.dimension_view() <==> r is Err,
            r matches Err(e) ==> e == (VectorDbError::InvalidDimension {
                expected: self.dimension_view(),
                actual: query@.len() as usize,
            }),
            r matches Ok(v) ==> v@.len() <= limit && results_sorted(v@) && results_distinct_in(v@, self.ids()),
            r matches Ok(v) ==> forall|i: int| 0 <= i < v@.len() ==> (filter matches Some(f) ==> self.accepts(*f, (#[trigger] v@[i]).0)),
            (query@.len() == self.dimension_view() && self.ids().len() == 0) ==> (r matches Ok(v) && v@.len() == 0),
            (query@.len() == self.dimension_view() && self.ids().len() > 0 && limit > 0 && filter is None) ==> (r matches Ok(v)
                && v@.len() > 0),
    {
        if query.len() != self.dimension {
            return Err(VectorDbError::InvalidDimension { expected: self.dimension, actual: query.len() });
        }
        let entry = match self.entry_point {
            Some(e) => e,
            None => {
                return Ok(Vec::new());
            },
        };
        let ef_search = match ef {
            Some(x) => x,
            None => self.config.ef_search,
        };
        let mut current: Vec<usize> = Vec::new();
        current.push(entry);
        let mut lc: usize = self.nodes[entry].layer;
        while lc > 0
            invariant
                self.wf(),
                forall|i: int| 0 <= i < current@.len() ==> #[trigger] current@[i] < self.nodes@.len(),
                current@.len() > 0,
            decreases lc,
        {
            let found = self.search_layer(d, query, &current, 1, lc);
            let mut next: Vec<usize> = Vec::new();
            let mut i: usize = 0;
            while i < found.len()
                invariant
                    i <= found@.len(),
                    next@.len() == i,
                    distinct_slots(found@, self.nodes@.len() as nat),
                    forall|q: int| 0 <= q < next@.len() ==> #[trigger] next@[q] < self.nodes@.len(),
                decreases found@.len() - i,
            {
                next.push(found[i].1);
                i = i + 1;
            }
            current = next;
            lc = lc - 1;
        }
        let wanted = crate::query::candidate_limit(limit, filter.is_some());
        let k = if ef_search > wanted {
            ef_search
        } else {
            wanted
        };
        let found = self.search_layer(d, query, &current, k, 0);
        let mut out: Vec<(VectorId, u64)> = Vec::new();
        let ghost picked: Seq<int> = Seq::empty();
        let mut i: usize = 0;
        while i < found.len() && i < wanted && out.len() < limit
            invariant
                self.wf(),
                i <= found@.len(),
                out@.len() == picked.len(),
                out@.len() <= limit,
                sorted_by_key(found@),
                distinct_slots(found@, self.nodes@.len() as nat),
                forall|q: int| 0 <= q < picked.len() ==> 0 <= #[trigger] picked[q] < i,
                filter is None ==> picked.len() == i,
                forall|q: int, w: int| 0 <= q < w < picked.len() ==> #[trigger] picked[q] < #[trigger] picked[w],
                forall|q: int| 0 <= q < picked.len() ==> (#[trigger] out@[q]) == (self.nodes@[found@[picked[q]].1 as int].id, found@[picked[q]].0),
                forall|q: int| 0 <= q < picked.len() ==> (filter matches Some(f) ==> evaluates(*f, self.nodes@[found@[#[trigger] picked[q]].1 as int].metadata)),
            decreases found@.len() - i,
        {
            let s = found[i].1;
            let pass = match filter {
                Some(f) => evaluate_filter(f, &self.nodes[s].metadata),
                None => true,
            };
            if pass {
                out.push((self.nodes[s].id, found[i].0));
                proof {
                    picked = picked.push(i as int);
                }
            }
            i = i + 1;
        }
        proof {
            assert forall|a: int, b: int| 0 <= a <= b < out@.len() implies (#[trigger] out@[a]).1 <= (#[trigger] out@[b]).1 by {
                if a < b {
                    assert(picked[a] < picked[b]);
                }
                assert(found@[picked[a]].0 <= found@[picked[b]].0);
            }
            assert forall|a: int| 0 <= a < out@.len() implies self.ids().contains((#[trigger] out@[a]).0) by {
                let s = found@[picked[a]].1 as int;
                assert(self.ids()[s] == out@[a].0);
            }
            assert forall|a: int, b: int| 0 <= a < b < out@.len() implies (#[trigger] out@[a]).0 != (#[trigger] out@[b]).0 by {
                assert(picked[a] < picked[b]);
                let sa = found@[picked[a]].1 as int;
                let sb = found@[picked[b]].1 as int;
                assert(sa != sb);
                if sa < sb {
                    assert(self.nodes@[sa].id != self.nodes@[sb].id);
                } else {
                    assert(self.nodes@[sb].id != self.nodes@[sa].id);
                }
            }
            assert forall|a: int| 0 <= a < out@.len() implies (filter matches Some(f) ==> self.accepts(*f, (#[trigger] out@[a]).0)) by {
                let s = found@[picked[a]].1 as int;
                if let Some(f) = filter {
                    assert(self.nodes@[s].id == out@[a].0);
                    assert(evaluates(*f, self.nodes@[s].metadata));
                }
            }
        }
        Ok(out)
    }
}

/// The neighbour list `list` after slot `gone` is removed and the last
/// slot `last` takes its place.
pub open spec fn relinked(list: Seq<usize>, gone: usize, last: usize) -> Seq<usize>
    decreases list.len(),
{
    if list.len() == 0 {
        list
    } else {
        let rest = relinked(list.drop_last(), gone, last);
        let x = list.last();
        if x == gone {
            rest
        } else if x == last {
            rest.push(gone)
        } else {
            rest.push(x)
        }
    }
}

/// A relinked list names only the slots that remain.
proof fn lemma_relinked_below(list: Seq<usize>, gone: usize, last: usize)
    requires
        forall|k: int| 0 <= k < list.len() ==> #[trigger] list[k] < last + 1,
        gone <= last,
    ensures
        forall|k: int| 0 <= k < relinked(list, gone, last).len() ==> #[trigger] relinked(list, gone, last)[k] < last,
    decreases list.len(),
{
    if list.len() > 0 {
        lemma_relinked_below(list.drop_last(), gone, last);
        let rest = relinked(list.drop_last(), gone, last);
        let r = relinked(list, gone, last);
        assert forall|k: int| 0 <= k < r.len() implies #[trigger] r[k] < last by {
            if k < rest.len() {
                assert(r[k] == rest[k]);
            }
        }
    }
}

/// The slot that `y` has once `gone` is removed and `last` moved there.
pub open spec fn renamed(y: usize, gone: usize, last: usize) -> usize {
    if y == last {
        gone
    } else {
        y
    }
}

/// A relinked list holds exactly the renamed slots other than `gone`.
proof fn lemma_relinked_members(list: Seq<usize>, gone: usize, last: usize)
    ensures
        forall|k: int| 0 <= k < relinked(list, gone, last).len() ==> exists|j: int|
            0 <= j < list.len() && list[j] != gone && renamed(list[j], gone, last) == #[trigger] relinked(list, gone, last)[k],
        forall|j: int| 0 <= j < list.len() && #[trigger] list[j] != gone ==> exists|k: int|
            0 <= k < relinked(list, gone, last).len() && relinked(list, gone, last)[k] == renamed(list[j], gone, last),
    decreases list.len(),
{
    if list.len() > 0 {
        let d = list.drop_last();
        lemma_relinked_members(d, gone, last);
        let rest = relinked(d, gone, last);
        let r = relinked(list, gone, last);
        let x = list.last();
        assert forall|k: int| 0 <= k < r.len() implies exists|j: int|
            0 <= j < list.len() && list[j] != gone && renamed(list[j], gone, last) == #[trigger] r[k] by {
            if k < rest.len() {
                assert(r[k] == rest[k]);
                let j = choose|j: int| 0 <= j < d.len() && d[j] != gone && renamed(d[j], gone, last) == rest[k];
                assert(list[j] == d[j]);
            } else {
                assert(list[list.len() - 1] == x);
            }
        }
        assert forall|j: int| 0 <= j < list.len() && #[trigger] list[j] != gone implies exists|k: int|
            0 <= k < r.len() && r[k] == renamed(list[j], gone, last) by {
            if j < d.len() {
                assert(d[j] == list[j]);
                let k = choose|k: int| 0 <= k < rest.len() && rest[k] == renamed(d[j], gone, last);
                assert(r[k] == rest[k]);
            } else {
                assert(r[r.len() - 1] == renamed(x, gone, last));
            }
        }
    }
}

/// What is stored after a delete is what was stored before, but `id`.
proof fn lemma_delete_stores(old: &HnswIndex, new: &HnswIndex, gone: usize, last: usize, id: VectorId)
    requires
        old.wf(),
        new.nodes@.len() + 1 == old.nodes@.len(),
        gone <= last,
        last == new.nodes@.len(),
        old.nodes@[gone as int].id == id,
        forall|x: int| 0 <= x < new.nodes@.len() ==> (#[trigger] new.nodes@[x]).id == old.nodes@[if x == gone { last as int } else { x }].id,
        forall|x: int| 0 <= x < new.nodes@.len() ==> (#[trigger] new.nodes@[x]).vector@ == old.nodes@[if x == gone { last as int } else { x }].vector@,
        forall|x: int| 0 <= x < new.nodes@.len() ==> (#[trigger] new.nodes@[x]).metadata == old.nodes@[if x == gone { last as int } else { x }].metadata,
    ensures
        forall|x: VectorId, v: Seq<u32>, m: Option<Metadata>| #[trigger] new.stores(x, v, m) == (old.stores(x, v, m) && x != id),
{
    assert forall|x: VectorId, v: Seq<u32>, m: Option<Metadata>| #[trigger] new.stores(x, v, m) == (old.stores(x, v, m) && x != id) by {
        if new.stores(x, v, m) {
            let t = choose|t: int| 0 <= t < new.nodes@.len() && (#[trigger] new.nodes@[t]).id == x && new.nodes@[t].vector@ == v
                && new.nodes@[t].metadata == m;
            let o = if t == gone { last as int } else { t };
            assert(old.nodes@[o].id == x);
            assert(o != gone);
            if o < gone {
                assert(old.nodes@[o].id != old.nodes@[gone as int].id);
            } else {
                assert(old.nodes@[gone as int].id != old.nodes@[o].id);
            }
        }
        if old.stores(x, v, m) && x != id {
            let o = choose|o: int| 0 <= o < old.nodes@.len() && (#[trigger] old.nodes@[o]).id == x && old.nodes@[o].vector@ == v
                && old.nodes@[o].metadata == m;
            assert(o != gone);
            let t = if o == last { gone as int } else { o };
            assert(new.nodes@[t].id == x);
        }
    }
}

/// The links after a delete are the links before it that neither start
/// nor end at the deleted id.
proof fn lemma_delete_links(old: &HnswIndex, new: &HnswIndex, gone: usize, last: usize, id: VectorId)
    requires
        old.wf(),
        new.links_in_range(),
        new.nodes@.len() + 1 == old.nodes@.len(),
        gone <= last,
        last == new.nodes@.len(),
        old.nodes@[gone as int].id == id,
        forall|x: int| 0 <= x < new.nodes@.len() ==> (#[trigger] new.nodes@[x]).id == old.nodes@[if x == gone { last as int } else { x }].id,
        forall|x: int| 0 <= x < new.nodes@.len() ==> (#[trigger] new.nodes@[x]).connections@.len() == old.nodes@[if x == gone { last as int } else { x }].connections@.len(),
        forall|x: int, l: int| 0 <= x < new.nodes@.len() && 0 <= l < new.nodes@[x].connections@.len() ==> (#[trigger] new.nodes@[x].connections@[l])@
            == relinked(old.nodes@[if x == gone { last as int } else { x }].connections@[l]@, gone, last),
    ensures
        forall|a: VectorId, l: int, b: VectorId| #[trigger] new.has_link(a, l, b) == (old.has_link(a, l, b) && a != id && b != id),
{
    assert forall|a: VectorId, l: int, b: VectorId| #[trigger] new.has_link(a, l, b) == (old.has_link(a, l, b) && a != id && b != id) by {
        if new.has_link(a, l, b) {
            lemma_delete_link_was_there(old, new, gone, last, id, a, l, b);
        }
        if old.has_link(a, l, b) && a != id && b != id {
            lemma_delete_link_stays(old, new, gone, last, id, a, l, b);
        }
    }
}

#[verifier::rlimit(50)]
proof fn lemma_delete_link_was_there(old: &HnswIndex, new: &HnswIndex, gone: usize, last: usize, id: VectorId, a: VectorId, l: int, b: VectorId)
    requires
        old.wf(),
        new.links_in_range(),
        new.nodes@.len() + 1 == old.nodes@.len(),
        gone <= last,
        last == new.nodes@.len(),
        old.nodes@[gone as int].id == id,
        forall|x: int| 0 <= x < new.nodes@.len() ==> (#[trigger] new.nodes@[x]).id == old.nodes@[if x == gone { last as int } else { x }].id,
        forall|x: int| 0 <= x < new.nodes@.len() ==> (#[trigger] new.nodes@[x]).connections@.len() == old.nodes@[if x == gone { last as int } else { x }].connections@.len(),
        forall|x: int, l: int| 0 <= x < new.nodes@.len() && 0 <= l < new.nodes@[x].connections@.len() ==> (#[trigger] new.nodes@[x].connections@[l])@
            == relinked(old.nodes@[if x == gone { last as int } else { x }].connections@[l]@, gone, last),
        new.has_link(a, l, b),
    ensures
        old.has_link(a, l, b) && a != id && b != id,
{
    let (s0, k) = choose|s0: int, k: int|
        0 <= s0 < new.nodes@.len() && new.nodes@[s0].id == a && 0 <= l < new.nodes@[s0].connections@.len() && 0 <= k
            < new.nodes@[s0].connections@[l]@.len() && #[trigger] new.nodes@[s0].connections@[l]@[k]
            < new.nodes@.len() && new.nodes@[new.nodes@[s0].connections@[l]@[k] as int].id == b;
    let os = (if s0 == gone { last as int } else { s0 });
    let olist = old.nodes@[os].connections@[l]@;
    assert(new.nodes@[s0].connections@[l]@ == relinked(olist, gone, last));
    lemma_relinked_members(olist, gone, last);
    let t = new.nodes@[s0].connections@[l]@[k];
    let j = choose|j: int| 0 <= j < olist.len() && olist[j] != gone && renamed(olist[j], gone, last) == relinked(olist, gone, last)[k];
    let y = olist[j];
    assert(old.links_in_range());
    assert(old.nodes@[os].connections@[l]@[j] < old.nodes@.len());
    assert((if t as int == gone { last as int } else { t as int }) == y as int);
    assert(old.nodes@[y as int].id == b);
    assert(old.nodes@[os].id == a);
    assert(old.has_link(a, l, b));
    assert(os != gone);
    if os < gone {
        assert(old.nodes@[os].id != old.nodes@[gone as int].id);
    } else {
        assert(old.nodes@[gone as int].id != old.nodes@[os].id);
    }
    if (y as int) < gone {
        assert(old.nodes@[y as int].id != old.nodes@[gone as int].id);
    } else {
        assert(old.nodes@[gone as int].id != old.nodes@[y as int].id);
    }
}

#[verifier::rlimit(50)]
proof fn lemma_delete_link_stays(old: &HnswIndex, new: &HnswIndex, gone: usize, last: usize, id: VectorId, a: VectorId, l: int, b: VectorId)
    requires
        old.wf(),
        new.links_in_range(),
        new.nodes@.len() + 1 == old.nodes@.len(),
        gone <= last,
        last == new.nodes@.len(),
        old.nodes@[gone as int].id == id,
        forall|x: int| 0 <= x < new.nodes@.len() ==> (#[trigger] new.nodes@[x]).id == old.nodes@[if x == gone { last as int } else { x }].id,
        forall|x: int| 0 <= x < new.nodes@.len() ==> (#[trigger] new.nodes@[x]).connections@.len() == old.nodes@[if x == gone { last as int } else { x }].connections@.len(),
        forall|x: int, l: int| 0 <= x < new.nodes@.len() && 0 <= l < new.nodes@[x].connections@.len() ==> (#[trigger] new.nodes@[x].connections@[l])@
            == relinked(old.nodes@[if x == gone { last as int } else { x }].connections@[l]@, gone, last),
        old.has_link(a, l, b),
        a != id,
        b != id,
    ensures
        new.has_link(a, l, b),
{
    let (os, j) = choose|os: int, j: int|
        0 <= os < old.nodes@.len() && old.nodes@[os].id == a && 0 <= l < old.nodes@[os].connections@.len() && 0 <= j
            < old.nodes@[os].connections@[l]@.len() && #[trigger] old.nodes@[os].connections@[l]@[j]
            < old.nodes@.len() && old.nodes@[old.nodes@[os].connections@[l]@[j] as int].id == b;
    assert(os != gone);
    let s0 = if os == last { gone as int } else { os };
    assert((if s0 == gone { last as int } else { s0 }) == os);
    let olist = old.nodes@[os].connections@[l]@;
    let y = olist[j];
    assert(y != gone);
    lemma_relinked_members(olist, gone, last);
    let k = choose|k: int| 0 <= k < relinked(olist, gone, last).len() && relinked(olist, gone, last)[k] == renamed(olist[j], gone, last);
    assert(new.nodes@[s0].connections@[l]@ == relinked(olist, gone, last));
    let t = renamed(y, gone, last);
    assert(new.links_in_range());
    assert(new.nodes@[s0].connections@[l]@[k] == t);
    assert(new.nodes@[s0].connections@[l]@[k] < new.nodes@.len());
    assert((if t as int == gone { last as int } else { t as int }) == y as int);
    assert(new.nodes@[t as int].id == b);
    assert(new.has_link(a, l, b));
}

/// Removes slot `gone` from a neighbour list and renames `last` to `gone`.
fn relink(list: &Vec<usize>, gone: usize, last: usize) -> (r: Vec<usize>)
    ensures
        r@ == relinked(list@, gone, last),
{
    let mut out: Vec<usize> = Vec::new();
    let mut i: usize = 0;
    assert(list@.take(0) =~= Seq::<usize>::empty());
    while i < list.len()
        invariant
            i <= list@.len(),
            out@ == relinked(list@.take(i as int), gone, last),
        decreases list@.len() - i,
    {
        let x = list[i];
        proof {
            assert(list@.take(i + 1).drop_last() =~= list@.take(i as int));
            assert(list@.take(i + 1).last() == x);
        }
        if x == gone {
        } else if x == last {
            out.push(gone);
        } else {
            out.push(x);
        }
        i = i + 1;
    }
    assert(list@.take(list@.len() as int) =~= list@);
    out
}

impl HnswIndex {
    /// The slot of `id`, if it is indexed.
    fn find_slot(&self, id: VectorId) -> (r: Option<usize>)
        ensures
            match r {
                Some(s) => s < self.nodes@.len() && self.nodes@[s as int].id == id,
                None => !self.ids().contains(id),
            },
    {
        let mut i: usize = 0;
        while i < self.nodes.len()
            invariant
                i <= self.nodes@.len(),
                forall|j: int| 0 <= j < i ==> (#[trigger] self.nodes@[j]).id != id,
            decreases self.nodes@.len() - i,
        {
            if self.nodes[i].id == id {
                return Some(i);
            }
            i = i + 1;
        }
        proof {
            assert forall|j: int| 0 <= j < self.ids().len() implies self.ids()[j] != id by {
                assert(self.ids()[j] == self.nodes@[j].id);
            }
        }
        None
    }

    /// Whether `id` is indexed.
    pub fn contains(&self, id: VectorId) -> (r: bool)
        ensures
            r == self.ids().contains(id),
    {
        match self.find_slot(id) {
            Some(s) => {
                assert(self.ids()[s as int] == id);
                true
            },
            None => false,
        }
    }

    /// A slot of the highest layer, if the graph has nodes.
    fn highest_slot(&self) -> (r: Option<usize>)
        ensures
            r is None <==> self.nodes@.len() == 0,
            r matches Some(e) ==> e < self.nodes@.len() && forall|s: int|
                0 <= s < self.nodes@.len() ==> (#[trigger] self.nodes@[s]).layer <= self.nodes@[e as int].layer,
    {
        if self.nodes.len() == 0 {
            return None;
        }
        let mut best: usize = 0;
        let mut i: usize = 1;
        while i < self.nodes.len()
            invariant
                1 <= i <= self.nodes@.len(),
                best < self.nodes@.len(),
                forall|s: int| 0 <= s < i ==> (#[trigger] self.nodes@[s]).layer <= self.nodes@[best as int].layer,
            decreases self.nodes@.len() - i,
        {
            if self.nodes[i].layer > self.nodes[best].layer {
                best = i;
            }
            i = i + 1;
        }
        Some(best)
    }

    /// Removes `id` and every link to it; when it was the entry point, a
    /// node of the highest remaining layer becomes the entry point. Returns
    /// whether `id` was indexed.
    pub fn delete(&mut self, id: VectorId) -> (r: bool)
        requires
            old(self).wf(),
        ensures
            final(self).wf(),
            r == old(self).ids().contains(id),
            final(self).ids().to_set() == old(self).ids().to_set().remove(id),
            r ==> final(self).ids().len() == old(self).ids().len() - 1,
            !r ==> final(self).ids() == old(self).ids(),
            final(self).dimension_view() == old(self).dimension_view(),
            final(self).config_view() == old(self).config_view(),
            forall|a: VectorId, l: int, b: VectorId| #[trigger] final(self).has_link(a, l, b) == (old(self).has_link(a, l, b) && a != id && b != id),
            forall|x: VectorId, v: Seq<u32>, m: Option<Metadata>| #[trigger] final(self).stores(x, v, m) == (old(self).stores(x, v, m) && x != id),
            deleted(*old(self), *final(self), id),
    {
        let gone = match self.find_slot(id) {
            Some(s) => s,
            None => {
                assert(self.ids().to_set().remove(id) =~= self.ids().to_set());
                proof {
                    assert forall|v: Seq<u32>, m: Option<Metadata>| !#[trigger] self.stores(id, v, m) by {
                        if self.stores(id, v, m) {
                            let t = choose|t: int| 0 <= t < self.nodes@.len() && (#[trigger] self.nodes@[t]).id == id
                                && self.nodes@[t].vector@ == v && self.nodes@[t].metadata == m;
                            assert(self.ids()[t] == id);
                        }
                    }
                    assert forall|a: VectorId, l: int, b: VectorId| #[trigger] self.has_link(a, l, b) implies a != id && b != id by {
                        let (s, k) = choose|s: int, k: int|
                            0 <= s < self.nodes@.len() && self.nodes@[s].id == a && 0 <= l < self.nodes@[s].connections@.len() && 0 <= k
                                < self.nodes@[s].connections@[l]@.len() && #[trigger] self.nodes@[s].connections@[l]@[k]
                                < self.nodes@.len() && self.nodes@[self.nodes@[s].connections@[l]@[k] as int].id == b;
                        assert(self.ids()[s] == a);
                        let t = self.nodes@[s].connections@[l]@[k] as int;
                        assert(self.ids()[t] == b);
                    }
                }
                return false;
            },
        };
        let ghost old_nodes = self.nodes@;
        assert(old_nodes == old(self).nodes@);
        let last = self.nodes.len() - 1;
        let _removed = self.nodes.swap_remove(gone);
        let n = self.nodes.len();
        proof {
            assert forall|x: int| 0 <= x < n implies (#[trigger] self.nodes@[x]) == (if x == gone { old_nodes[last as int] } else { old_nodes[x] }) by {}
        }
        let mut u: usize = 0;
        while u < n
            invariant
                n == self.nodes@.len(),
                n + 1 == old_nodes.len(),
                self.dimension == old(self).dimension,
                self.config == old(self).config,
                self.entry_point == old(self).entry_point,
                gone <= n,
                last == n,
                forall|x: int| 0 <= x < n ==> (#[trigger] self.nodes@[x]).id == (if x == gone { old_nodes[last as int].id } else { old_nodes[x].id }),
                forall|x: int| 0 <= x < n ==> (#[trigger] self.nodes@[x]).layer == (if x == gone { old_nodes[last as int].layer } else { old_nodes[x].layer }),
                forall|x: int| 0 <= x < n ==> (#[trigger] self.nodes@[x]).vector@ == (if x == gone { old_nodes[last as int].vector@ } else { old_nodes[x].vector@ }),
                forall|x: int| 0 <= x < n ==> (#[trigger] self.nodes@[x]).metadata == (if x == gone { old_nodes[last as int].metadata } else { old_nodes[x].metadata }),
                forall|x: int| 0 <= x < n ==> (#[trigger] self.nodes@[x]).connections@.len() == self.nodes@[x].layer + 1,
                forall|x: int, l: int, k: int| 0 <= x < u && 0 <= l < self.nodes@[x].connections@.len() && 0 <= k < self.nodes@[x].connections@[l]@.len()
                    ==> #[trigger] self.nodes@[x].connections@[l]@[k] < n,
                forall|x: int, l: int, k: int| u <= x < n && 0 <= l < self.nodes@[x].connections@.len() && 0 <= k < self.nodes@[x].connections@[l]@.len()
                    ==> #[trigger] self.nodes@[x].connections@[l]@[k] < n + 1,
                forall|x: int| 0 <= x < n ==> (#[trigger] self.nodes@[x]).connections@.len() == old_nodes[if x == gone { last as int } else { x }].connections@.len(),
                forall|x: int, l: int| 0 <= x < u && 0 <= l < self.nodes@[x].connections@.len() ==> (#[trigger] self.nodes@[x].connections@[l])@
                    == relinked(old_nodes[if x == gone { last as int } else { x }].connections@[l]@, gone, last),
                forall|x: int, l: int| u <= x < n && 0 <= l < self.nodes@[x].connections@.len() ==> (#[trigger] self.nodes@[x].connections@[l])@
                    == old_nodes[if x == gone { last as int } else { x }].connections@[l]@,
            decreases n - u,
        {
            let layers = self.nodes[u].connections.len();
            let mut l: usize = 0;
            while l < layers
                invariant
                    n == self.nodes@.len(),
                    u < n,
                    self.dimension == old(self).dimension,
                    self.config == old(self).config,
                    self.entry_point == old(self).entry_point,
                    gone <= n,
                    last == n,
                    layers == self.nodes@[u as int].connections@.len(),
                    forall|x: int| 0 <= x < n ==> (#[trigger] self.nodes@[x]).id == (if x == gone { old_nodes[last as int].id } else { old_nodes[x].id }),
                    forall|x: int| 0 <= x < n ==> (#[trigger] self.nodes@[x]).layer == (if x == gone { old_nodes[last as int].layer } else { old_nodes[x].layer }),
                    forall|x: int| 0 <= x < n ==> (#[trigger] self.nodes@[x]).vector@ == (if x == gone { old_nodes[last as int].vector@ } else { old_nodes[x].vector@ }),
                forall|x: int| 0 <= x < n ==> (#[trigger] self.nodes@[x]).metadata == (if x == gone { old_nodes[last as int].metadata } else { old_nodes[x].metadata }),
                    forall|x: int| 0 <= x < n ==> (#[trigger] self.nodes@[x]).connections@.len() == self.nodes@[x].layer + 1,
                    forall|x: int, l2: int, k: int| 0 <= x < u && 0 <= l2 < self.nodes@[x].connections@.len() && 0 <= k < self.nodes@[x].connections@[l2]@.len()
                        ==> #[trigger] self.nodes@[x].connections@[l2]@[k] < n,
                    forall|x: int, l2: int, k: int| u < x < n && 0 <= l2 < self.nodes@[x].connections@.len() && 0 <= k < self.nodes@[x].connections@[l2]@.len()
                        ==> #[trigger] self.nodes@[x].connections@[l2]@[k] < n + 1,
                    forall|l2: int, k: int| 0 <= l2 < l && 0 <= k < self.nodes@[u as int].connections@[l2]@.len()
                        ==> #[trigger] self.nodes@[u as int].connections@[l2]@[k] < n,
                    forall|l2: int, k: int| l <= l2 < layers && 0 <= k < self.nodes@[u as int].connections@[l2]@.len()
                        ==> #[trigger] self.nodes@[u as int].connections@[l2]@[k] < n + 1,
                    forall|x: int| 0 <= x < n ==> (#[trigger] self.nodes@[x]).connections@.len() == old_nodes[if x == gone { last as int } else { x }].connections@.len(),
                    forall|x: int, l2: int| 0 <= x < u && 0 <= l2 < self.nodes@[x].connections@.len() ==> (#[trigger] self.nodes@[x].connections@[l2])@
                        == relinked(old_nodes[if x == gone { last as int } else { x }].connections@[l2]@, gone, last),
                    forall|x: int, l2: int| u < x < n && 0 <= l2 < self.nodes@[x].connections@.len() ==> (#[trigger] self.nodes@[x].connections@[l2])@
                        == old_nodes[if x == gone { last as int } else { x }].connections@[l2]@,
                    forall|l2: int| 0 <= l2 < l ==> (#[trigger] self.nodes@[u as int].connections@[l2])@
                        == relinked(old_nodes[if u == gone { last as int } else { u as int }].connections@[l2]@, gone, last),
                    forall|l2: int| l <= l2 < layers ==> (#[trigger] self.nodes@[u as int].connections@[l2])@
                        == old_nodes[if u == gone { last as int } else { u as int }].connections@[l2]@,
                decreases layers - l,
            {
                let fresh = relink(&self.nodes[u].connections[l], gone, last);
                proof {
                    let old_list = self.nodes@[u as int].connections@[l as int]@;
                    assert forall|k: int| 0 <= k < old_list.len() implies #[trigger] old_list[k] < n + 1 by {
                        assert(self.nodes@[u as int].connections@[l as int]@[k] < n + 1);
                    }
                    lemma_relinked_below(old_list, gone, last);
                }
                self.nodes[u].connections.set(l, fresh);
                l = l + 1;
            }
            u = u + 1;
        }
        let new_entry = match self.entry_point {
            Some(e) => {
                if e == gone {
                    self.highest_slot()
                } else if e == last {
                    Some(gone)
                } else {
                    Some(e)
                }
            },
            None => None,
        };
        self.entry_point = new_entry;
        proof {
            let nn = self.nodes@;
            assert forall|x: int, y: int| 0 <= x < y < nn.len() implies (#[trigger] nn[x]).id != (#[trigger] nn[y]).id by {
                let x2 = if x == gone { last as int } else { x };
                let y2 = if y == gone { last as int } else { y };
                assert(x2 != y2);
                if x2 < y2 {
                    assert(old_nodes[x2].id != old_nodes[y2].id);
                } else {
                    assert(old_nodes[y2].id != old_nodes[x2].id);
                }
            }
            assert forall|x: int| 0 <= x < nn.len() implies {
                &&& (#[trigger] nn[x]).connections@.len() == nn[x].layer + 1
                &&& nn[x].vector@.len() == self.dimension
                &&& nn[x].layer <= self.config.max_layer
            } by {
                let x2 = if x == gone { last as int } else { x };
                assert(old_nodes[x2] == old(self).nodes@[x2]);
                assert(old(self).nodes@[x2].vector@.len() == old(self).dimension);
                assert(old(self).nodes@[x2].layer <= old(self).config.max_layer);
            }
            assert(self.links_in_range());
            if let Some(e) = self.entry_point {
                assert(e < nn.len());
                let oe = old(self).entry_point->0;
                if oe != gone {
                    assert forall|x: int| 0 <= x < nn.len() implies (#[trigger] nn[x]).layer <= nn[e as int].layer by {
                        let x2 = if x == gone { last as int } else { x };
                        assert(old_nodes[x2].layer <= old_nodes[oe as int].layer);
                    }
                }
            }
            let oi = old(self).ids();
            let ni = self.ids();
            assert(oi[gone as int] == id);
            assert forall|v: VectorId| ni.to_set().contains(v) <==> oi.to_set().remove(id).contains(v) by {
                if ni.to_set().contains(v) {
                    let x = choose|x: int| 0 <= x < ni.len() && ni[x] == v;
                    let x2 = if x == gone { last as int } else { x };
                    assert(oi[x2] == v);
                    assert(x2 != gone);
                    if x2 < gone {
                        assert(old_nodes[x2].id != old_nodes[gone as int].id);
                    } else {
                        assert(old_nodes[gone as int].id != old_nodes[x2].id);
                    }
                }
                if oi.to_set().remove(id).contains(v) {
                    let x = choose|x: int| 0 <= x < oi.len() && oi[x] == v;
                    assert(x != gone);
                    if x == last {
                        assert(ni[gone as int] == v);
                    } else {
                        assert(ni[x] == v);
                    }
                }
            }
            assert(ni.to_set() =~= oi.to_set().remove(id));
            lemma_delete_links(&*old(self), &*self, gone, last, id);
            lemma_delete_stores(&*old(self), &*self, gone, last, id);
        }
        true
    }
}

impl HnswIndex {
    /// Everything but the links of node `from` at `layer` is as in `old`.
    pub closed spec fn same_but_links(&self, old: &Self) -> bool {
        &&& self.nodes@.len() == old.nodes@.len()
        &&& forall|x: int| 0 <= x < self.nodes@.len() ==> {
            &&& (#[trigger] self.nodes@[x]).id == old.nodes@[x].id
            &&& self.nodes@[x].layer == old.nodes@[x].layer
            &&& self.nodes@[x].vector@ == old.nodes@[x].vector@
            &&& self.nodes@[x].metadata == old.nodes@[x].metadata
            &&& self.nodes@[x].connections@.len() == old.nodes@[x].connections@.len()
        }
        &&& self.entry_point == old.entry_point
        &&& self.config == old.config
        &&& self.dimension == old.dimension
    }

    /// Replaces the links of `from` at `layer`.
    fn set_links(&mut self, from: usize, layer: usize, list: Vec<usize>)
        requires
            old(self).graph_wf(),
            from < old(self).nodes@.len(),
            layer < old(self).nodes@[from as int].connections@.len(),
            forall|k: int| 0 <= k < list@.len() ==> #[trigger] list@[k] < old(self).nodes@.len(),
        ensures
            final(self).graph_wf(),
            final(self).same_but_links(&*old(self)),
            final(self).nodes@[from as int].connections@[layer as int]@ == list@,
            forall|x: int, l: int| 0 <= x < old(self).nodes@.len() && 0 <= l < old(self).nodes@[x].connections@.len() && (x != from || l != layer)
                ==> #[trigger] final(self).nodes@[x].connections@[l] == old(self).nodes@[x].connections@[l],
    {
        let ghost lv = list@;
        self.nodes[from].connections.set(layer, list);
        proof {
            let nn = self.nodes@;
            assert forall|x: int, l: int, k: int|
                0 <= x < nn.len() && 0 <= l < nn[x].connections@.len() && 0 <= k < nn[x].connections@[l]@.len()
                    implies #[trigger] nn[x].connections@[l]@[k] < nn.len() by {
                if x != from || l != layer {
                    assert(nn[x].connections@[l] == old(self).nodes@[x].connections@[l]);
                    assert(old(self).links_in_range());
                    assert(old(self).nodes@[x].connections@[l]@[k] < nn.len());
                }
            }
            assert(self.links_in_range());
            assert forall|x: int, y: int| 0 <= x < y < nn.len() implies (#[trigger] nn[x]).id != (#[trigger] nn[y]).id by {
                assert(old(self).nodes@[x].id != old(self).nodes@[y].id);
            }
            assert forall|x: int| 0 <= x < nn.len() implies {
                &&& (#[trigger] nn[x]).connections@.len() == nn[x].layer + 1
                &&& nn[x].vector@.len() == self.dimension
                &&& nn[x].layer <= self.config.max_layer
            } by {
                assert(old(self).nodes@[x].connections@.len() == old(self).nodes@[x].layer + 1);
            }
        }
    }

    /// Appends `to` to the links of `from` at `layer`, when `from` has that layer.
    fn add_link(&mut self, from: usize, layer: usize, to: usize)
        requires
            old(self).graph_wf(),
            from < old(self).nodes@.len(),
            to < old(self).nodes@.len(),
        ensures
            final(self).graph_wf(),
            final(self).same_but_links(&*old(self)),
            layer < old(self).nodes@[from as int].connections@.len() ==> final(self).nodes@[from as int].connections@[layer as int]@
                == old(self).nodes@[from as int].connections@[layer as int]@.push(to),
            forall|x: int, l: int| 0 <= x < old(self).nodes@.len() && 0 <= l < old(self).nodes@[x].connections@.len() && (x != from || l != layer)
                ==> #[trigger] final(self).nodes@[x].connections@[l] == old(self).nodes@[x].connections@[l],
    {
        if layer < self.nodes[from].connections.len() {
            let mut list: Vec<usize> = Vec::new();
            let src = &self.nodes[from].connections[layer];
            let mut i: usize = 0;
            while i < src.len()
                invariant
                    self.graph_wf(),
                    from < self.nodes@.len(),
                    layer < self.nodes@[from as int].connections@.len(),
                    src == self.nodes@[from as int].connections@[layer as int],
                    i <= src@.len(),
                    list@ == src@.take(i as int),
                    forall|k: int| 0 <= k < list@.len() ==> #[trigger] list@[k] < self.nodes@.len(),
                decreases src@.len() - i,
            {
                proof {
                    assert(self.links_in_range());
                    assert(self.nodes@[from as int].connections@[layer as int]@[i as int] < self.nodes@.len());
                }
                list.push(src[i]);
                i = i + 1;
                assert(list@ =~= src@.take(i as int));
            }
            assert(src@.take(src@.len() as int) =~= src@);
            list.push(to);
            self.set_links(from, layer, list);
        } else {
            proof {
                assert forall|x: int| 0 <= x < self.nodes@.len() implies {
                    &&& (#[trigger] self.nodes@[x]).id == old(self).nodes@[x].id
                    &&& self.nodes@[x].layer == old(self).nodes@[x].layer
                    &&& self.nodes@[x].vector@ == old(self).nodes@[x].vector@
                    &&& self.nodes@[x].metadata == old(self).nodes@[x].metadata
                    &&& self.nodes@[x].connections@.len() == old(self).nodes@[x].connections@.len()
                } by {}
            }
        }
    }
}

proof fn lemma_same_but_links_trans(a: &HnswIndex, b: &HnswIndex, c: &HnswIndex)
    requires
        b.same_but_links(a),
        c.same_but_links(b),
    ensures
        c.same_but_links(a),
{
    assert forall|x: int| 0 <= x < c.nodes@.len() implies {
        &&& (#[trigger] c.nodes@[x]).id == a.nodes@[x].id
        &&& c.nodes@[x].layer == a.nodes@[x].layer
        &&& c.nodes@[x].vector@ == a.nodes@[x].vector@
        &&& c.nodes@[x].metadata == a.nodes@[x].metadata
        &&& c.nodes@[x].connections@.len() == a.nodes@[x].connections@.len()
    } by {
        assert(b.nodes@[x].id == a.nodes@[x].id);
    }
}

/// The slots of a search result.
fn slots_of(found: &Vec<(u64, usize)>, n: usize) -> (r: Vec<usize>)
    requires
        distinct_slots(found@, n as nat),
    ensures
        r@.len() == found@.len(),
        forall|i: int| 0 <= i < r@.len() ==> #[trigger] r@[i] == found@[i].1 && r@[i] < n,
{
    let mut out: Vec<usize> = Vec::new();
    let mut i: usize = 0;
    while i < found.len()
        invariant
            i <= found@.len(),
            distinct_slots(found@, n as nat),
            out@.len() == i,
            forall|q: int| 0 <= q < i ==> #[trigger] out@[q] == found@[q].1 && out@[q] < n,
        decreases found@.len() - i,
    {
        out.push(found[i].1);
        i = i + 1;
    }
    out
}

/// `new` is `old` with `v` and `m` stored under `id`, whatever was stored
/// there before, and every other id as it was.
pub open spec fn inserted(old: HnswIndex, new: HnswIndex, id: VectorId, v: Seq<u32>, m: Option<Metadata>) -> bool {
    &&& new.ids().to_set() == old.ids().to_set().insert(id)
    &&& new.stores(id, v, m)
    &&& forall|v2: Seq<u32>, m2: Option<Metadata>| #[trigger] new.stores(id, v2, m2) ==> v2 == v && m2 == m
    &&& forall|x: VectorId, v2: Seq<u32>, m2: Option<Metadata>| x != id ==> #[trigger] new.stores(x, v2, m2) == old.stores(x, v2, m2)
}

/// `new` is `old` without `id`, every other id as it was.
pub open spec fn deleted(old: HnswIndex, new: HnswIndex, id: VectorId) -> bool {
    &&& new.ids().to_set() == old.ids().to_set().remove(id)
    &&& forall|x: VectorId, v: Seq<u32>, m: Option<Metadata>| #[trigger] new.stores(x, v, m) == (old.stores(x, v, m) && x != id)
}

/// Item `i` is the last of `items` with id `x`.
pub open spec fn last_with(items: Seq<(VectorId, Vec<u32>, Option<Metadata>)>, x: VectorId, i: int) -> bool {
    0 <= i < items.len() && items[i].0 == x && forall|j: int| i < j < items.len() ==> (#[trigger] items[j]).0 != x
}

/// Some item of `items` has id `x`.
pub open spec fn mentions(items: Seq<(VectorId, Vec<u32>, Option<Metadata>)>, x: VectorId) -> bool {
    exists|i: int| 0 <= i < items.len() && (#[trigger] items[i]).0 == x
}

/// `new` is `old` after indexing `items` in order: an id of the batch holds
/// the vector and metadata of its last item, every other id is as it was.
pub open spec fn batch_stored(old: HnswIndex, new: HnswIndex, items: Seq<(VectorId, Vec<u32>, Option<Metadata>)>) -> bool {
    forall|x: VectorId, v: Seq<u32>, m: Option<Metadata>| #[trigger] new.stores(x, v, m) == if mentions(items, x) {
        exists|i: int| #[trigger] last_with(items, x, i) && items[i].1@ == v && items[i].2 == m
    } else {
        old.stores(x, v, m)
    }
}

proof fn lemma_batch_step(
    start: HnswIndex,
    prev: HnswIndex,
    cur: HnswIndex,
    items: Seq<(VectorId, Vec<u32>, Option<Metadata>)>,
    it: (VectorId, Vec<u32>, Option<Metadata>),
)
    requires
        batch_stored(start, prev, items),
        inserted(prev, cur, it.0, it.1@, it.2),
    ensures
        batch_stored(start, cur, items.push(it)),
{
    let next = items.push(it);
    let n = items.len() as int;
    assert(next[n] == it);
    assert forall|x: VectorId, v: Seq<u32>, m: Option<Metadata>| #[trigger] cur.stores(x, v, m) == if mentions(next, x) {
        exists|i: int| #[trigger] last_with(next, x, i) && next[i].1@ == v && next[i].2 == m
    } else {
        start.stores(x, v, m)
    } by {
        if x == it.0 {
            assert(mentions(next, x));
            assert(last_with(next, x, n));
            if exists|i: int| #[trigger] last_with(next, x, i) && next[i].1@ == v && next[i].2 == m {
                let i = choose|i: int| #[trigger] last_with(next, x, i) && next[i].1@ == v && next[i].2 == m;
                assert(i == n);
            }
        } else {
            assert forall|i: int| 0 <= i < n implies #[trigger] next[i] == items[i] by {}
            if mentions(next, x) {
                let i = choose|i: int| 0 <= i < next.len() && (#[trigger] next[i]).0 == x;
                assert(i < n);
                assert(mentions(items, x));
            }
            if mentions(items, x) {
                let i = choose|i: int| 0 <= i < items.len() && (#[trigger] items[i]).0 == x;
                assert(next[i].0 == x);
            }
            assert forall|i: int| #[trigger] last_with(next, x, i) == last_with(items, x, i) by {
                if last_with(items, x, i) {
                    assert forall|j: int| i < j < next.len() implies (#[trigger] next[j]).0 != x by {
                        if j < n {
                            assert(items[j].0 != x);
                        }
                    }
                }
                if last_with(next, x, i) {
                    assert(i < n);
                    assert forall|j: int| i < j < items.len() implies (#[trigger] items[j]).0 != x by {
                        assert(next[j].0 != x);
                    }
                }
            }
            if exists|i: int| #[trigger] last_with(next, x, i) && next[i].1@ == v && next[i].2 == m {
                let i = choose|i: int| #[trigger] last_with(next, x, i) && next[i].1@ == v && next[i].2 == m;
                assert(last_with(items, x, i));
            }
            if exists|i: int| #[trigger] last_with(items, x, i) && items[i].1@ == v && items[i].2 == m {
                let i = choose|i: int| #[trigger] last_with(items, x, i) && items[i].1@ == v && items[i].2 == m;
                assert(last_with(next, x, i));
            }
        }
    }
}

/// In a well-formed index an id stores one vector and one metadata.
proof fn lemma_stores_unique(idx: &HnswIndex, id: VectorId)
    requires
        idx.wf(),
    ensures
        forall|v1: Seq<u32>, m1: Option<Metadata>, v2: Seq<u32>, m2: Option<Metadata>|
            #[trigger] idx.stores(id, v1, m1) && #[trigger] idx.stores(id, v2, m2) ==> v1 == v2 && m1 == m2,
{
    assert forall|v1: Seq<u32>, m1: Option<Metadata>, v2: Seq<u32>, m2: Option<Metadata>|
        #[trigger] idx.stores(id, v1, m1) && #[trigger] idx.stores(id, v2, m2) implies v1 == v2 && m1 == m2 by {
        let a = choose|a: int| 0 <= a < idx.nodes@.len() && (#[trigger] idx.nodes@[a]).id == id && idx.nodes@[a].vector@ == v1
            && idx.nodes@[a].metadata == m1;
        let b = choose|b: int| 0 <= b < idx.nodes@.len() && (#[trigger] idx.nodes@[b]).id == id && idx.nodes@[b].vector@ == v2
            && idx.nodes@[b].metadata == m2;
        if a < b {
            assert(idx.nodes@[a].id != idx.nodes@[b].id);
        } else if b < a {
            assert(idx.nodes@[b].id != idx.nodes@[a].id);
        }
    }
}

/// After a node is added at the end and the others keep their id,
/// vector and metadata, only the added id changes what is stored.
proof fn lemma_push_stores(old: &HnswIndex, new: &HnswIndex, id: VectorId, v: Seq<u32>, m: Option<Metadata>)
    requires
        new.nodes@.len() == old.nodes@.len() + 1,
        forall|x: int| 0 <= x < old.nodes@.len() ==> #[trigger] new.nodes@[x] == new.nodes@[x] && new.nodes@[x].id == old.nodes@[x].id
            && new.nodes@[x].vector@ == old.nodes@[x].vector@ && new.nodes@[x].metadata == old.nodes@[x].metadata,
        new.nodes@[old.nodes@.len() as int].id == id,
        new.nodes@[old.nodes@.len() as int].vector@ == v,
        new.nodes@[old.nodes@.len() as int].metadata == m,
    ensures
        new.stores(id, v, m),
        forall|x: VectorId, v2: Seq<u32>, m2: Option<Metadata>| x != id ==> #[trigger] new.stores(x, v2, m2) == old.stores(x, v2, m2),
{
    let n = old.nodes@.len() as int;
    assert(new.nodes@[n].id == id);
    assert forall|x: VectorId, v2: Seq<u32>, m2: Option<Metadata>| x != id implies #[trigger] new.stores(x, v2, m2) == old.stores(x, v2, m2) by {
        if new.stores(x, v2, m2) {
            let t = choose|t: int| 0 <= t < new.nodes@.len() && (#[trigger] new.nodes@[t]).id == x && new.nodes@[t].vector@ == v2
                && new.nodes@[t].metadata == m2;
            assert(t < n);
            assert(old.nodes@[t].id == x);
        }
        if old.stores(x, v2, m2) {
            let t = choose|t: int| 0 <= t < old.nodes@.len() && (#[trigger] old.nodes@[t]).id == x && old.nodes@[t].vector@ == v2
                && old.nodes@[t].metadata == m2;
            assert(new.nodes@[t].id == x);
        }
    }
}

/// The first `m` slots of a search result.
fn first_slots(found: &Vec<(u64, usize)>, m: usize, n: usize) -> (r: Vec<usize>)
    requires
        distinct_slots(found@, n as nat),
    ensures
        r@.len() <= m,
        r@.len() <= found@.len(),
        r@.len() == found@.len() || r@.len() == m,
        forall|i: int| 0 <= i < r@.len() ==> #[trigger] r@[i] == found@[i].1 && r@[i] < n,
{
    let mut out: Vec<usize> = Vec::new();
    let mut i: usize = 0;
    while i < found.len() && i < m
        invariant
            i <= found@.len(),
            i <= m,
            distinct_slots(found@, n as nat),
            out@.len() == i,
            forall|q: int| 0 <= q < i ==> #[trigger] out@[q] == found@[q].1 && out@[q] < n,
        decreases found@.len() - i,
    {
        out.push(found[i].1);
        i = i + 1;
    }
    out
}

impl HnswIndex {
    /// Adds a node of the given layer and links it into the graph: a greedy
    /// descent through the layers above its own, then on each of its layers
    /// the `M` nearest of `ef_construction` candidates become neighbours in
    /// both directions, and a neighbour left with more than its budget
    /// (`2M` on the bottom layer, `M` above) keeps only its nearest.
    fn insert_with_layer<D: DistanceFunction>(&mut self, d: &D, id: VectorId, vector: Vec<u32>, metadata: Option<Metadata>, layer: usize)
        requires
            old(self).wf(),
            !old(self).ids().contains(id),
            vector@.len() == old(self).dimension,
            layer <= old(self).config.max_layer,
        ensures
            final(self).wf(),
            final(self).ids() == old(self).ids().push(id),
            final(self).vector_at(old(self).ids().len() as int) == vector@,
            final(self).metadata_at(old(self).ids().len() as int) == metadata,
            final(self).layer_at(old(self).ids().len() as int) == layer,
            final(self).dimension == old(self).dimension,
            final(self).config == old(self).config,
            final(self).stores(id, vector@, metadata),
            forall|x: VectorId, v: Seq<u32>, m: Option<Metadata>| x != id ==> #[trigger] final(self).stores(x, v, m) == old(self).stores(x, v, m),
            old(self).ids().len() > 0 && old(self).config.max_connections > 0 && old(self).config.ef_construction > 0
                ==> exists|b: VectorId| #[trigger] final(self).has_link(id, 0, b),
    {
        let ghost vv = vector@;
        let s = self.nodes.len();
        let mut conns: Vec<Vec<usize>> = Vec::new();
        while conns.len() <= layer
            invariant
                conns@.len() <= layer + 1,
                forall|l: int| 0 <= l < conns@.len() ==> (#[trigger] conns@[l])@.len() == 0,
            decreases layer + 1 - conns@.len(),
        {
            conns.push(Vec::new());
        }
        self.nodes.push(HnswNode { id, vector, layer, connections: conns, metadata });
        proof {
            let nn = self.nodes@;
            assert forall|x: int, y: int| 0 <= x < y < nn.len() implies (#[trigger] nn[x]).id != (#[trigger] nn[y]).id by {
                if y == s {
                    assert(old(self).ids()[x] == nn[x].id);
                } else {
                    assert(old(self).nodes@[x].id != old(self).nodes@[y].id);
                }
            }
            assert forall|x: int| 0 <= x < nn.len() implies {
                &&& (#[trigger] nn[x]).connections@.len() == nn[x].layer + 1
                &&& nn[x].vector@.len() == self.dimension
                &&& nn[x].layer <= self.config.max_layer
            } by {
                if x < s {
                    assert(old(self).nodes@[x] == nn[x]);
                }
            }
            assert forall|x: int, l: int, k: int|
                0 <= x < nn.len() && 0 <= l < nn[x].connections@.len() && 0 <= k < nn[x].connections@[l]@.len()
                    implies #[trigger] nn[x].connections@[l]@[k] < nn.len() by {
                if x < s {
                    assert(old(self).nodes@[x] == nn[x]);
                    assert(old(self).links_in_range());
                    assert(old(self).nodes@[x].connections@[l]@[k] < s);
                }
            }
            assert(self.links_in_range());
        }
        let entry = match self.entry_point {
            Some(e) => e,
            None => {
                self.entry_point = Some(s);
                proof {
                    assert(self.ids() =~= old(self).ids().push(id));
                    lemma_push_stores(&*old(self), &*self, id, vv, metadata);
                }
                return;
            },
        };
        let ghost base = *self;
        let n = self.nodes.len();
        let entry_layer = self.nodes[entry].layer;
        let mut current: Vec<usize> = Vec::new();
        current.push(entry);
        let mut lc: usize = entry_layer;
        while lc > layer
            invariant
                self.graph_wf(),
                self.same_but_links(&base),
                n == self.nodes@.len(),
                s < n,
                forall|i: int| 0 <= i < current@.len() ==> #[trigger] current@[i] < n,
                current@.len() > 0,
            decreases lc,
        {
            let found = self.search_layer(d, &self.nodes[s].vector, &current, 1, lc);
            current = slots_of(&found, n);
            lc = lc - 1;
        }
        let top = if layer < entry_layer {
            layer
        } else {
            entry_layer
        };
        let m = self.config.max_connections;
        let mut level_plus: usize = top + 1;
        while level_plus > 0
            invariant
                self.graph_wf(),
                self.same_but_links(&base),
                n == self.nodes@.len(),
                s < n,
                forall|i: int| 0 <= i < current@.len() ==> #[trigger] current@[i] < n,
                m == self.config.max_connections,
                level_plus <= top + 1,
                top <= layer,
                m > 0 && self.config.ef_construction > 0 ==> current@.len() > 0,
                self.nodes@[s as int].connections@.len() == layer + 1,
                level_plus == 0 && m > 0 && self.config.ef_construction > 0 ==> self.nodes@[s as int].connections@[0]@.len() > 0,
            decreases level_plus,
        {
            level_plus = level_plus - 1;
            let level = level_plus;
            let ef = if level == 0 && self.config.max_connections > self.config.ef_construction {
                self.config.max_connections
            } else {
                self.config.ef_construction
            };
            let max_m = if level == 0 {
                if m > usize::MAX / 2 {
                    usize::MAX
                } else {
                    m * 2
                }
            } else {
                m
            };
            let candidates = self.search_layer(d, &self.nodes[s].vector, &current, ef, level);
            let selected = first_slots(&candidates, m, n);
            let mut j: usize = 0;
            while j < selected.len()
                invariant
                    self.graph_wf(),
                    self.same_but_links(&base),
                    n == self.nodes@.len(),
                    s < n,
                    forall|i: int| 0 <= i < selected@.len() ==> #[trigger] selected@[i] < n,
                    j <= selected@.len(),
                    level <= layer,
                    m == self.config.max_connections,
                    level == 0 ==> max_m > 0 || m == 0,
                    self.nodes@[s as int].connections@.len() == layer + 1,
                    level == 0 && j > 0 && m > 0 ==> self.nodes@[s as int].connections@[0]@.len() > 0,
                    m > 0 && self.config.ef_construction > 0 ==> selected@.len() > 0,
                decreases selected@.len() - j,
            {
                let nb = selected[j];
                let ghost before = *self;
                self.add_link(s, level, nb);
                let ghost mid = *self;
                self.add_link(nb, level, s);
                proof {
                    lemma_same_but_links_trans(&before, &mid, &*self);
                    lemma_same_but_links_trans(&base, &before, &*self);
                }
                if level < self.nodes[nb].connections.len() && self.nodes[nb].connections[level].len() > max_m {
                    let mut seed: Vec<usize> = Vec::new();
                    seed.push(s);
                    let want = if max_m == usize::MAX {
                        max_m
                    } else {
                        max_m + 1
                    };
                    let found = self.search_layer(d, &self.nodes[nb].vector, &seed, want, level);
                    let kept = first_slots(&found, max_m, n);
                    let ghost before2 = *self;
                    self.set_links(nb, level, kept);
                    proof {
                        lemma_same_but_links_trans(&base, &before2, &*self);
                    }
                }
                j = j + 1;
            }
            current = selected;
        }
        if layer > entry_layer {
            self.entry_point = Some(s);
        }
        proof {
            let nn = self.nodes@;
            assert forall|x: int| 0 <= x < nn.len() implies (#[trigger] nn[x]).layer == base.nodes@[x].layer by {}
            if layer > entry_layer {
                assert forall|x: int| 0 <= x < nn.len() implies (#[trigger] nn[x]).layer <= nn[s as int].layer by {
                    if x < s {
                        assert(old(self).nodes@[x].layer <= old(self).nodes@[entry as int].layer);
                        assert(base.nodes@[x] == old(self).nodes@[x]);
                        assert(base.nodes@[entry as int] == old(self).nodes@[entry as int]);
                    }
                }
            } else {
                assert forall|x: int| 0 <= x < nn.len() implies (#[trigger] nn[x]).layer <= nn[entry as int].layer by {
                    if x < s {
                        assert(old(self).nodes@[x].layer <= old(self).nodes@[entry as int].layer);
                        assert(base.nodes@[x] == old(self).nodes@[x]);
                        assert(base.nodes@[entry as int] == old(self).nodes@[entry as int]);
                    }
                }
            }
            assert forall|x: int| 0 <= x < nn.len() implies #[trigger] self.ids()[x] == old(self).ids().push(id)[x] by {
                assert(nn[x].id == base.nodes@[x].id);
                if x < s {
                    assert(base.nodes@[x] == old(self).nodes@[x]);
                }
            }
            assert(self.ids() =~= old(self).ids().push(id));
            assert forall|x: int| 0 <= x < s implies #[trigger] nn[x] == nn[x] && nn[x].id == old(self).nodes@[x].id && nn[x].vector@
                == old(self).nodes@[x].vector@ && nn[x].metadata == old(self).nodes@[x].metadata by {
                assert(base.nodes@[x] == old(self).nodes@[x]);
            }
            assert(nn[s as int].vector@ == vv && nn[s as int].metadata == metadata && nn[s as int].id == id) by {
                assert(base.nodes@[s as int].vector@ == vv);
            }
            lemma_push_stores(&*old(self), &*self, id, vv, metadata);
            if old(self).ids().len() > 0 && m > 0 && self.config.ef_construction > 0 {
                let list = nn[s as int].connections@[0]@;
                assert(list.len() > 0);
                assert(self.links_in_range());
                assert(nn[s as int].connections@[0]@[0] < nn.len());
                let b = nn[list[0] as int].id;
                assert(self.has_link(id, 0, b));
            }
        }
    }

    /// Indexes `vector` under `id`, replacing any vector already indexed
    /// under that id, on a layer drawn at random. A vector of another
    /// dimension is refused with `InvalidDimension` and the index is left
    /// as it was.
    pub fn insert<D: DistanceFunction>(&mut self, d: &D, id: VectorId, vector: Vec<u32>, metadata: Option<Metadata>) -> (r: Result<(), VectorDbError>)
        requires
            old(self).wf(),
        ensures
            final(self).wf(),
            final(self).dimension_view() == old(self).dimension_view(),
            final(self).config_view() == old(self).config_view(),
            vector@.len() != old(self).dimension_view() <==> r is Err,
            r matches Err(e) ==> e == (VectorDbError::InvalidDimension {
                expected: old(self).dimension_view(),
                actual: vector@.len() as usize,
            }) && final(self).ids() == old(self).ids(),
            r is Ok ==> final(self).ids().to_set() == old(self).ids().to_set().insert(id),
            r is Ok ==> exists|s: int| 0 <= s < final(self).ids().len() && final(self).ids()[s] == id
                && final(self).vector_at(s) == vector@ && final(self).metadata_at(s) == metadata,
            r is Ok ==> inserted(*old(self), *final(self), id, vector@, metadata),
    {
        let ghost vv = vector@;
        if vector.len() != self.dimension {
            return Err(VectorDbError::InvalidDimension { expected: self.dimension, actual: vector.len() });
        }
        let ghost start = self.ids();
        self.delete(id);
        let ghost mid = self.ids();
        proof {
            assert(!mid.to_set().contains(id));
            assert(!mid.contains(id)) by {
                if mid.contains(id) {
                    let x = choose|x: int| 0 <= x < mid.len() && mid[x] == id;
                    assert(mid.to_set().contains(mid[x]));
                }
            }
        }
        let ghost after_delete = *self;
        let layer = self.draw_layer();
        assert(self.ids() == mid);
        let ghost before_insert = *self;
        assert(before_insert.nodes == after_delete.nodes);
        self.insert_with_layer(d, id, vector, metadata, layer);
        proof {
            assert(self.ids().to_set() =~= mid.to_set().insert(id)) by {
                assert(self.ids() == mid.push(id));
                assert forall|v: VectorId| self.ids().to_set().contains(v) <==> mid.to_set().insert(id).contains(v) by {
                    if self.ids().to_set().contains(v) {
                        let x = choose|x: int| 0 <= x < self.ids().len() && self.ids()[x] == v;
                        if x < mid.len() {
                            assert(mid[x] == v);
                        }
                    }
                    if mid.to_set().contains(v) {
                        let x = choose|x: int| 0 <= x < mid.len() && mid[x] == v;
                        assert(self.ids()[x] == v);
                    }
                    if v == id {
                        assert(self.ids()[mid.len() as int] == id);
                    }
                }
            }
            assert(start.to_set().insert(id) =~= start.to_set().remove(id).insert(id));
            assert(self.ids()[mid.len() as int] == id);
            lemma_stores_unique(&*self, id);
            assert(self.stores(id, vv, metadata));
            assert(forall|v2: Seq<u32>, m2: Option<Metadata>| #[trigger] self.stores(id, v2, m2) ==> v2 == vv && m2 == metadata);
            assert forall|x: VectorId, v2: Seq<u32>, m2: Option<Metadata>| x != id implies #[trigger] self.stores(x, v2, m2)
                == old(self).stores(x, v2, m2) by {
                assert(self.stores(x, v2, m2) == before_insert.stores(x, v2, m2));
                assert(before_insert.stores(x, v2, m2) == after_delete.stores(x, v2, m2));
                assert(after_delete.stores(x, v2, m2) == (old(self).stores(x, v2, m2) && x != id));
            }
        }
        Ok(())
    }
}

impl HnswIndex {
    /// Indexes every vector of `items` in order, each as `insert` does.
    /// When any vector has another dimension nothing is indexed and the
    /// first such is reported with `InvalidDimension`; no items change
    /// nothing.
    pub fn batch_insert<D: DistanceFunction>(&mut self, d: &D, items: Vec<(VectorId, Vec<u32>, Option<Metadata>)>) -> (r: Result<(), VectorDbError>)
        requires
            old(self).wf(),
        ensures
            final(self).wf(),
            final(self).dimension_view() == old(self).dimension_view(),
            final(self).config_view() == old(self).config_view(),
            (forall|i: int| 0 <= i < items@.len() ==> (#[trigger] items@[i]).1@.len() == old(self).dimension_view()) <==> r is Ok,
            r is Err ==> final(self).ids() == old(self).ids(),
            r is Ok ==> final(self).ids().to_set() == old(self).ids().to_set().union(
                Set::new(|v: VectorId| exists|i: int| 0 <= i < items@.len() && (#[trigger] items@[i]).0 == v),
            ),
            items@.len() == 0 ==> *final(self) == *old(self),
            r is Ok ==> batch_stored(*old(self), *final(self), items@),
    {
        if items.len() == 0 {
            proof {
                let e = Set::new(|v: VectorId| exists|i: int| 0 <= i < items@.len() && (#[trigger] items@[i]).0 == v);
                assert(self.ids().to_set().union(e) =~= self.ids().to_set());
            }
            return Ok(());
        }
        let mut i: usize = 0;
        while i < items.len()
            invariant
                self.wf(),
                i <= items@.len(),
                forall|j: int| 0 <= j < i ==> (#[trigger] items@[j]).1@.len() == self.dimension,
            decreases items@.len() - i,
        {
            if items[i].1.len() != self.dimension {
                return Err(VectorDbError::InvalidDimension { expected: self.dimension, actual: items[i].1.len() });
            }
            i = i + 1;
        }
        let ghost start = self.ids().to_set();
        let ghost start_idx = *self;
        let ghost all = items@;
        let mut rest = items;
        let mut done: usize = 0;
        proof {
            assert(all.take(0) =~= Seq::<(VectorId, Vec<u32>, Option<Metadata>)>::empty());
            assert forall|x: VectorId| !mentions(all.take(0), x) by {}
        }
        assert(start.union(Set::new(|v: VectorId| exists|q: int| 0 <= q < 0 && (#[trigger] all[q]).0 == v)) =~= start);
        while rest.len() > 0
            invariant
                self.wf(),
                self.dimension == old(self).dimension,
                self.config == old(self).config,
                done + rest@.len() == all.len(),
                all.len() <= usize::MAX,
                all.len() > 0,
                rest@ == all.skip(done as int),
                forall|j: int| 0 <= j < all.len() ==> (#[trigger] all[j]).1@.len() == self.dimension,
                self.ids().to_set() == start.union(Set::new(|v: VectorId| exists|q: int| 0 <= q < done && (#[trigger] all[q]).0 == v)),
                batch_stored(start_idx, *self, all.take(done as int)),
                start_idx == *old(self),
            decreases rest@.len(),
        {
            let (id, vector, metadata) = rest.remove(0);
            proof {
                assert(all[done as int] == (id, vector, metadata));
            }
            let ghost prev = *self;
            let ghost it = all[done as int];
            // every dimension was checked above, so this insert succeeds
            let _ = self.insert(d, id, vector, metadata);
            proof {
                lemma_batch_step(start_idx, prev, *self, all.take(done as int), it);
                assert(all.take(done as int).push(it) =~= all.take(done + 1));
                assert(all.skip(done + 1) =~= rest@);
                let a = Set::new(|v: VectorId| exists|q: int| 0 <= q < done && (#[trigger] all[q]).0 == v);
                let b = Set::new(|v: VectorId| exists|q: int| 0 <= q < done + 1 && (#[trigger] all[q]).0 == v);
                assert(b =~= a.insert(id)) by {
                    assert forall|v: VectorId| b.contains(v) implies a.insert(id).contains(v) by {
                        let q = choose|q: int| 0 <= q < done + 1 && (#[trigger] all[q]).0 == v;
                        if q < done {
                            assert(a.contains(v));
                        }
                    }
                    assert forall|v: VectorId| a.insert(id).contains(v) implies b.contains(v) by {
                        if v == id {
                            assert(all[done as int].0 == v);
                        } else {
                            let q = choose|q: int| 0 <= q < done && (#[trigger] all[q]).0 == v;
                            assert(all[q].0 == v);
                        }
                    }
                }
                assert(self.ids().to_set() =~= start.union(b));
            }
            done = done + 1;
        }
        assert(all.take(all.len() as int) =~= all);
        Ok(())
    }

    /// The vector indexed under `id`.
    pub fn get_vector(&self, id: VectorId) -> (r: Option<&Vec<u32>>)
        ensures
            r is Some == self.ids().contains(id),
            r matches Some(v) ==> exists|s: int| 0 <= s < self.ids().len() && self.ids()[s] == id && self.vector_at(s) == v@,
    {
        match self.find_slot(id) {
            Some(s) => {
                assert(self.ids()[s as int] == id);
                assert(self.vector_at(s as int) == self.nodes@[s as int].vector@);
                Some(&self.nodes[s].vector)
            },
            None => None,
        }
    }

    /// Counts of the index: its vectors (one per distinct id), its
    /// dimension, its highest layer, and its links.
    pub fn stats(&self) -> (r: IndexStats)
        requires
            self.wf(),
        ensures
            r.vector_count == self.ids().len(),
            r.vector_count == self.ids().to_set().len(),
            r.dimension == self.dimension_view(),
            forall|s: int| 0 <= s < self.ids().len() ==> self.layer_at(s) <= r.max_layer,
            self.ids().len() > 0 ==> exists|s: int| 0 <= s < self.ids().len() && self.layer_at(s) == r.max_layer,
            self.ids().len() == 0 ==> r.max_layer == 0,
    {
        let mut max_layer: usize = 0;
        let mut total: usize = 0;
        let mut i: usize = 0;
        while i < self.nodes.len()
            invariant
                i <= self.nodes@.len(),
                forall|s: int| 0 <= s < i ==> (#[trigger] self.nodes@[s]).layer <= max_layer,
                i > 0 ==> exists|s: int| 0 <= s < i && self.nodes@[s].layer == max_layer,
                i == 0 ==> max_layer == 0,
            decreases self.nodes@.len() - i,
        {
            if i == 0 || self.nodes[i].layer > max_layer {
                max_layer = self.nodes[i].layer;
            }
            let mut l: usize = 0;
            while l < self.nodes[i].connections.len()
                invariant
                    i < self.nodes@.len(),
                    l <= self.nodes@[i as int].connections@.len(),
                decreases self.nodes@[i as int].connections@.len() - l,
            {
                let c = self.nodes[i].connections[l].len();
                total = if total > usize::MAX - c { usize::MAX } else { total + c };
                l = l + 1;
            }
            i = i + 1;
        }
        proof {
            let ids = self.ids();
            assert(ids.no_duplicates()) by {
                assert forall|a: int, b: int| 0 <= a < ids.len() && 0 <= b < ids.len() && a != b implies ids[a] != ids[b] by {
                    if a < b {
                        assert(self.nodes@[a].id != self.nodes@[b].id);
                    } else {
                        assert(self.nodes@[b].id != self.nodes@[a].id);
                    }
                }
            }
            ids.unique_seq_to_set();
            assert forall|s: int| 0 <= s < ids.len() implies self.layer_at(s) <= max_layer by {
                assert(self.nodes@[s].layer <= max_layer);
            }
            if ids.len() > 0 {
                let w = choose|w: int| 0 <= w < self.nodes@.len() && self.nodes@[w].layer == max_layer;
                assert(self.layer_at(w) == max_layer);
            }
        }
        IndexStats { vector_count: self.nodes.len(), dimension: self.dimension, max_layer, total_connections: total }
    }
}

/// Indexing a batch of one item stores exactly what inserting that item
/// stores: `batch_insert` and `insert` leave indexes that agree on every id.
pub proof fn law_single_batch_is_insert(
    start: HnswIndex,
    by_batch: HnswIndex,
    by_insert: HnswIndex,
    items: Seq<(VectorId, Vec<u32>, Option<Metadata>)>,
)
    requires
        items.len() == 1,
        batch_stored(start, by_batch, items),
        inserted(start, by_insert, items[0].0, items[0].1@, items[0].2),
    ensures
        forall|x: VectorId, v: Seq<u32>, m: Option<Metadata>| #[trigger] by_batch.stores(x, v, m) == by_insert.stores(x, v, m),
{
    let id = items[0].0;
    assert(last_with(items, id, 0));
    assert forall|x: VectorId, v: Seq<u32>, m: Option<Metadata>| #[trigger] by_batch.stores(x, v, m) == by_insert.stores(x, v, m) by {
        if x == id {
            assert(mentions(items, x));
            if by_batch.stores(x, v, m) {
                let i = choose|i: int| #[trigger] last_with(items, x, i) && items[i].1@ == v && items[i].2 == m;
                assert(i == 0);
            }
            if by_insert.stores(x, v, m) {
                assert(last_with(items, x, 0) && items[0].1@ == v && items[0].2 == m);
            }
        } else {
            assert(!mentions(items, x));
        }
    }
}

/// Re-inserting an id (an update) leaves an index that agrees with
/// deleting the id and then inserting it, on every id and what it stores.
pub proof fn law_update_is_delete_then_insert(
    start: HnswIndex,
    updated: HnswIndex,
    emptied: HnswIndex,
    refilled: HnswIndex,
    id: VectorId,
    v: Seq<u32>,
    m: Option<Metadata>,
)
    requires
        inserted(start, updated, id, v, m),
        deleted(start, emptied, id),
        inserted(emptied, refilled, id, v, m),
    ensures
        updated.ids().to_set() == refilled.ids().to_set(),
        forall|x: VectorId, v2: Seq<u32>, m2: Option<Metadata>| #[trigger] updated.stores(x, v2, m2) == refilled.stores(x, v2, m2),
{
    assert(start.ids().to_set().remove(id).insert(id) =~= start.ids().to_set().insert(id));
    assert forall|x: VectorId, v2: Seq<u32>, m2: Option<Metadata>| #[trigger] updated.stores(x, v2, m2) == refilled.stores(x, v2, m2) by {
        if x == id {
            if updated.stores(x, v2, m2) {
                assert(v2 == v && m2 == m);
            }
            if refilled.stores(x, v2, m2) {
                assert(v2 == v && m2 == m);
            }
        } else {
            assert(emptied.stores(x, v2, m2) == start.stores(x, v2, m2));
        }
    }
}

/// The count of an index moves with its ids: one more after inserting a
/// new id, one fewer after deleting an indexed one.
pub proof fn law_count_follows_ids(ids: Set<VectorId>, id: VectorId)
    requires
        ids.finite(),
    ensures
        !ids.contains(id) ==> ids.insert(id).len() == ids.len() + 1,
        ids.contains(id) ==> ids.remove(id).len() == ids.len() - 1,
        ids.contains(id) ==> ids.insert(id).len() == ids.len(),
{
    if ids.contains(id) {
        assert(ids.insert(id) =~= ids);
    }
}

/// A change to an index: an id inserted (with its vector and metadata) or
/// an id deleted.
pub enum IndexChange {
    Insert(VectorId, Seq<u32>, Option<Metadata>),
    Delete(VectorId),
}

/// The ids after `changes`, starting from `ids`.
pub open spec fn ids_after(ids: Set<VectorId>, changes: Seq<IndexChange>) -> Set<VectorId>
    decreases changes.len(),
{
    if changes.len() == 0 {
        ids
    } else {
        match changes.last() {
            IndexChange::Insert(id, _, _) => ids_after(ids, changes.drop_last()).insert(id),
            IndexChange::Delete(id) => ids_after(ids, changes.drop_last()).remove(id),
        }
    }
}

/// `next` is `prev` after `change`, as `insert` and `delete` state it.
pub open spec fn changed(prev: HnswIndex, next: HnswIndex, change: IndexChange) -> bool {
    match change {
        IndexChange::Insert(id, v, m) => inserted(prev, next, id, v, m),
        IndexChange::Delete(id) => deleted(prev, next, id),
    }
}

/// After any run of successful inserts and deletes, the indexed ids are
/// the ids inserted and not deleted since (with those there before), and
/// the count that `stats` reports is their number.
pub proof fn law_count_after_changes(states: Seq<HnswIndex>, changes: Seq<IndexChange>)
    requires
        states.len() == changes.len() + 1,
        forall|i: int| 0 <= i < changes.len() ==> changed(states[i], states[i + 1], #[trigger] changes[i]),
    ensures
        states.last().ids().to_set() == ids_after(states[0].ids().to_set(), changes),
    decreases changes.len(),
{
    if changes.len() > 0 {
        let s2 = states.drop_last();
        let c2 = changes.drop_last();
        assert forall|i: int| 0 <= i < c2.len() implies changed(s2[i], s2[i + 1], #[trigger] c2[i]) by {
            assert(changed(states[i], states[i + 1], changes[i]));
        }
        law_count_after_changes(s2, c2);
        let k = changes.len() - 1;
        assert(changed(states[k], states[k + 1], changes[k]));
        assert(s2.last() == states[k]);
        assert(states.last() == states[k + 1]);
    }
}
} // verus!
