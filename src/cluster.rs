//! Cluster placement: shard routing with replicas, a consistent-hash ring,
//! and node roles and states.
use std::collections::hash_map::DefaultHasher;
use std::hash::Hasher;
use vstd::prelude::*;
use vstd::std_specs::hash::DefaultHasherAdditionalSpecFns;
use vstd::string::StringSliceAdditionalSpecFns;

verus! {

broadcast use vstd::seq_lib::group_to_multiset_ensures;

/// What the process's default hasher gives for a string with these bytes
/// (a string hashes as its bytes followed by the byte 0xff).
pub open spec fn str_hash(bytes: Seq<u8>) -> u64 {
    DefaultHasher::spec_finish(seq![bytes, seq![0xffu8]])
}

/// What the default hasher gives for a UUID (its 16 bytes, most significant first).
pub open spec fn id_hash(id: u128) -> u64 {
    DefaultHasher::spec_finish(seq![crate::bytes::le_bytes(id as nat, 16).reverse()])
}

/// Hashes a string the way `str`'s `Hash` impl feeds the default hasher.
pub fn hash_str_bytes(bytes: &[u8]) -> (r: u64)
    ensures
        r == str_hash(bytes@),
{
    let mut h = DefaultHasher::new();
    h.write(bytes);
    let end: [u8; 1] = [0xffu8];
    h.write(end.as_slice());
    proof {
        assert(end@ =~= seq![0xffu8]);
        assert(h@ =~= seq![bytes@, seq![0xffu8]]);
    }
    h.finish()
}

/// Hashes a vector id the way `Uuid`'s `Hash` impl feeds the default hasher.
pub fn hash_id(id: u128) -> (r: u64)
    ensures
        r == id_hash(id),
{
    let mut le: Vec<u8> = Vec::new();
    proof {
        crate::bytes::lemma_pow256_values();
    }
    crate::bytes::push_le(&mut le, id, 16);
    assert(le@ =~= crate::bytes::le_bytes(id as nat, 16));
    proof {
        crate::bytes::lemma_le_round_trip(id as nat, 16);
    }
    let mut be: Vec<u8> = Vec::new();
    let mut i: usize = 16;
    while i > 0
        invariant
            i <= 16,
            le@.len() == 16,
            be@ =~= le@.subrange(i as int, 16).reverse(),
        decreases i,
    {
        be.push(le[i - 1]);
        i = i - 1;
        assert(be@ =~= le@.subrange(i as int, 16).reverse());
    }
    assert(le@.subrange(0, 16) =~= le@);
    let mut h = DefaultHasher::new();
    h.write(be.as_slice());
    proof {
        assert(h@ =~= seq![crate::bytes::le_bytes(id as nat, 16).reverse()]);
    }
    h.finish()
}

/// Decimal digits of `n` in ASCII, most significant first.
pub open spec fn decimal(n: nat) -> Seq<u8>
    decreases n,
{
    if n < 10 {
        seq![(48 + n) as u8]
    } else {
        decimal(n / 10) + seq![(48 + n % 10) as u8]
    }
}

/// ASCII decimal digits of `n`.
pub fn decimal_digits(n: u64) -> (r: Vec<u8>)
    ensures
        r@ == decimal(n as nat),
    decreases n,
{
    if n < 10 {
        let mut v: Vec<u8> = Vec::new();
        v.push((48 + n) as u8);
        assert(v@ =~= decimal(n as nat));
        v
    } else {
        let mut v = decimal_digits(n / 10);
        v.push((48 + n % 10) as u8);
        v
    }
}

/// How vectors are assigned to shards.
#[derive(Debug, Clone, Copy, PartialEq, Eq, Structural)]
pub enum ShardingMethod {
    /// By a hash of the vector id.
    Hash,
    /// By a hash of a key taken from the payload.
    Custom,
    /// By load; currently the same as `Hash`.
    Auto,
}

#[derive(Debug, Clone, Copy, PartialEq, Eq, Structural)]
pub struct ShardingConfig {
    pub shard_count: usize,
    pub method: ShardingMethod,
    /// Copies of each shard.
    pub replication_factor: usize,
}

#[derive(Debug, Clone, Copy, PartialEq, Eq, Structural)]
pub enum ShardState {
    Active,
    Initializing,
    Migrating,
    Dead,
}

#[derive(Debug, Clone)]
pub struct Shard {
    pub id: usize,
    pub node_id: String,
    pub state: ShardState,
    pub vector_count: usize,
    pub is_active: bool,
}

#[derive(Debug, Clone, Copy, PartialEq, Eq, Structural)]
pub enum MigrationState {
    Pending,
    InProgress,
    Completed,
    Failed,
}

/// The node that holds replica `replica` of shard `shard`: nodes are taken
/// round-robin, starting at the shard's own position.
pub open spec fn replica_node(nodes: Seq<Seq<char>>, shard: int, replica: int) -> Seq<char> {
    nodes[(shard + replica) % (nodes.len() as int)]
}

/// `map` places every shard on its round-robin replicas.
pub open spec fn is_round_robin(
    map: Seq<Seq<Seq<char>>>,
    shard_count: nat,
    replication_factor: nat,
    nodes: Seq<Seq<char>>,
) -> bool {
    &&& map.len() == shard_count
    &&& forall|s: int|
        0 <= s < shard_count ==> (#[trigger] map[s]).len() == replication_factor
    &&& forall|s: int, r: int|
        0 <= s < shard_count && 0 <= r < replication_factor ==> #[trigger] map[s][r]
            == replica_node(nodes, s, r)
}

pub open spec fn strings_view(v: Seq<String>) -> Seq<Seq<char>> {
    Seq::new(v.len(), |i: int| v[i]@)
}

pub open spec fn placement_view(m: Seq<Vec<String>>) -> Seq<Seq<Seq<char>>> {
    Seq::new(m.len(), |i: int| strings_view(m[i]@))
}

/// Routes vectors to shards and shards to nodes.
pub struct ShardRouter {
    config: ShardingConfig,
    /// Entry `s` lists the nodes of shard `s`, primary first.
    shard_map: Vec<Vec<String>>,
}

/// Placement of `shard_count` shards, each on `replication_factor` nodes.
fn build_shard_map(shard_count: usize, replication_factor: usize, node_ids: &Vec<String>) -> (r: Vec<
    Vec<String>,
>)
    requires
        node_ids@.len() > 0 || shard_count == 0 || replication_factor == 0,
        shard_count + replication_factor <= usize::MAX,
    ensures
        is_round_robin(
            placement_view(r@),
            shard_count as nat,
            replication_factor as nat,
            strings_view(node_ids@),
        ),
{
    let mut map: Vec<Vec<String>> = Vec::new();
    let mut shard_id: usize = 0;
    while shard_id < shard_count
        invariant
            shard_id <= shard_count,
            node_ids@.len() > 0 || shard_count == 0 || replication_factor == 0,
            shard_count + replication_factor <= usize::MAX,
            map@.len() == shard_id,
            forall|s: int| 0 <= s < shard_id ==> (#[trigger] map@[s])@.len() == replication_factor,
            forall|s: int, r: int|
                0 <= s < shard_id && 0 <= r < replication_factor ==> (#[trigger] map@[s]@[r])@
                    == replica_node(strings_view(node_ids@), s, r),
        decreases shard_count - shard_id,
    {
        let mut nodes: Vec<String> = Vec::new();
        let mut replica: usize = 0;
        while replica < replication_factor
            invariant
                shard_id < shard_count,
                replica <= replication_factor,
                node_ids@.len() > 0 || replication_factor == 0,
                shard_count + replication_factor <= usize::MAX,
                nodes@.len() == replica,
                forall|r: int|
                    0 <= r < replica ==> (#[trigger] nodes@[r])@ == replica_node(
                        strings_view(node_ids@),
                        shard_id as int,
                        r,
                    ),
            decreases replication_factor - replica,
        {
            let node_idx = (shard_id + replica) % node_ids.len();
            nodes.push(node_ids[node_idx].clone());
            replica = replica + 1;
        }
        map.push(nodes);
        shard_id = shard_id + 1;
    }
    proof {
        let pv = placement_view(map@);
        assert forall|s: int| 0 <= s < shard_count implies (#[trigger] pv[s]).len()
            == replication_factor by {
            assert(map@[s]@.len() == replication_factor);
        }
        assert forall|s: int, r: int|
            0 <= s < shard_count && 0 <= r < replication_factor implies #[trigger] pv[s][r]
                == replica_node(strings_view(node_ids@), s, r) by {
            assert(map@[s]@[r]@ == replica_node(strings_view(node_ids@), s, r));
        }
    }
    map
}

impl ShardRouter {
    pub closed spec fn config_view(&self) -> ShardingConfig {
        self.config
    }

    /// Nodes of each shard, primary first.
    pub closed spec fn placement(&self) -> Seq<Seq<Seq<char>>> {
        placement_view(self.shard_map@)
    }

    /// Places `shard_count` shards, each on `replication_factor` consecutive
    /// nodes of `node_ids` (wrapping around), starting at the shard's index.
    pub fn new(config: ShardingConfig, node_ids: Vec<String>) -> (r: Self)
        requires
            node_ids@.len() > 0 || config.shard_count == 0 || config.replication_factor == 0,
            config.shard_count + config.replication_factor <= usize::MAX,
        ensures
            r.config_view() == config,
            is_round_robin(
                r.placement(),
                config.shard_count as nat,
                config.replication_factor as nat,
                strings_view(node_ids@),
            ),
    {
        let shard_map = build_shard_map(config.shard_count, config.replication_factor, &node_ids);
        ShardRouter { config, shard_map }
    }

    /// The shard of a vector: a hash of its id, or of `shard_key` under the
    /// `Custom` method when one is given, reduced modulo the shard count.
    pub fn get_shard_id(&self, vector_id: crate::types::VectorId, shard_key: Option<&str>) -> (r: usize)
        requires
            self.config_view().shard_count > 0,
        ensures
            r < self.config_view().shard_count,
            match (self.config_view().method, shard_key) {
                (ShardingMethod::Custom, Some(k)) => r == (str_hash(k.spec_bytes()) as usize)
                    % self.config_view().shard_count,
                _ => r == (id_hash(vector_id) as usize) % self.config_view().shard_count,
            },
    {
        let h = match (self.config.method, shard_key) {
            (ShardingMethod::Custom, Some(k)) => hash_str_bytes(k.as_bytes()),
            _ => hash_id(vector_id),
        };
        (h as usize) % self.config.shard_count
    }

    /// The nodes of a shard, primary first; `None` for an unknown shard.
    pub fn get_shard_nodes(&self, shard_id: usize) -> (r: Option<&Vec<String>>)
        ensures
            shard_id < self.placement().len() <==> r.is_some(),
            r matches Some(v) ==> strings_view(v@) == self.placement()[shard_id as int],
    {
        if shard_id < self.shard_map.len() {
            Some(&self.shard_map[shard_id])
        } else {
            None
        }
    }

    /// The first node of a shard.
    pub fn get_primary_node(&self, shard_id: usize) -> (r: Option<&String>)
        ensures
            (shard_id < self.placement().len() && self.placement()[shard_id as int].len() > 0)
                <==> r.is_some(),
            r matches Some(s) ==> s@ == self.placement()[shard_id as int][0],
    {
        if shard_id < self.shard_map.len() && self.shard_map[shard_id].len() > 0 {
            Some(&self.shard_map[shard_id][0])
        } else {
            None
        }
    }

    /// A copy of the nodes of a shard.
    pub fn get_replica_nodes(&self, shard_id: usize) -> (r: Option<Vec<String>>)
        ensures
            shard_id < self.placement().len() <==> r.is_some(),
            r matches Some(v) ==> strings_view(v@) == self.placement()[shard_id as int],
    {
        if shard_id < self.shard_map.len() {
            let src = &self.shard_map[shard_id];
            let mut out: Vec<String> = Vec::new();
            let mut i: usize = 0;
            while i < src.len()
                invariant
                    i <= src@.len(),
                    out@.len() == i,
                    forall|j: int| 0 <= j < i ==> (#[trigger] out@[j])@ == src@[j]@,
                decreases src@.len() - i,
            {
                out.push(src[i].clone());
                i = i + 1;
            }
            assert(strings_view(out@) =~= strings_view(src@));
            Some(out)
        } else {
            None
        }
    }

    /// Recomputes the placement over a new node list.
    pub fn rebalance(&mut self, node_ids: Vec<String>)
        requires
            node_ids@.len() > 0 || old(self).config_view().shard_count == 0
                || old(self).config_view().replication_factor == 0,
            old(self).config_view().shard_count + old(self).config_view().replication_factor
                <= usize::MAX,
        ensures
            final(self).config_view() == old(self).config_view(),
            is_round_robin(
                final(self).placement(),
                old(self).config_view().shard_count as nat,
                old(self).config_view().replication_factor as nat,
                strings_view(node_ids@),
            ),
    {
        self.shard_map = build_shard_map(
            self.config.shard_count,
            self.config.replication_factor,
            &node_ids,
        );
    }

    /// Whether `current_node` no longer holds a copy of a known shard.
    pub fn needs_migration(&self, shard_id: usize, current_node: &str) -> (r: bool)
        ensures
            r == (shard_id < self.placement().len() && !self.placement()[shard_id as int].contains(
                current_node@,
            )),
    {
        if shard_id < self.shard_map.len() {
            let nodes = &self.shard_map[shard_id];
            let current: String = current_node.to_owned();
            assert(self.placement()[shard_id as int] == strings_view(nodes@));
            let mut i: usize = 0;
            while i < nodes.len()
                invariant
                    i <= nodes@.len(),
                    current@ == current_node@,
                    shard_id < self.placement().len(),
                    self.placement()[shard_id as int] == strings_view(nodes@),
                    forall|j: int| 0 <= j < i ==> (#[trigger] nodes@[j])@ != current_node@,
                decreases nodes@.len() - i,
            {
                if nodes[i] == current {
                    assert(self.placement()[shard_id as int] == strings_view(nodes@));
                    assert(strings_view(nodes@)[i as int] == current_node@);
                    return false;
                }
                i = i + 1;
            }
            assert(self.placement()[shard_id as int] == strings_view(nodes@));
            assert(!strings_view(nodes@).contains(current_node@));
            true
        } else {
            false
        }
    }
}


/// The bytes hashed for virtual node `i` of `node`: "<node>:<i>".
pub open spec fn vnode_key(node: Seq<char>, i: nat) -> Seq<u8> {
    vstd::utf8::encode_utf8(node) + seq![58u8] + decimal(i)
}

/// The `k` virtual nodes of one node, as (hash, node) pairs.
pub open spec fn node_vnodes(node: Seq<char>, k: nat) -> Seq<(u64, Seq<char>)> {
    Seq::new(k, |i: int| (str_hash(vnode_key(node, i as nat)), node))
}

/// The virtual nodes of every node, in the order of the node list.
pub open spec fn vnode_list(nodes: Seq<Seq<char>>, k: nat) -> Seq<(u64, Seq<char>)>
    decreases nodes.len(),
{
    if nodes.len() == 0 {
        Seq::empty()
    } else {
        vnode_list(nodes.drop_last(), k) + node_vnodes(nodes.last(), k)
    }
}

pub open spec fn sorted_by_hash(v: Seq<(u64, Seq<char>)>) -> bool {
    forall|i: int, j: int| 0 <= i <= j < v.len() ==> (#[trigger] v[i]).0 <= (#[trigger] v[j]).0
}

/// First position at or after `i` whose hash is at least `h` (`v.len()` if none).
pub open spec fn lower_bound(v: Seq<(u64, Seq<char>)>, h: u64, i: int) -> int
    decreases v.len() - i,
{
    if i >= v.len() {
        v.len() as int
    } else if v[i].0 >= h {
        i
    } else {
        lower_bound(v, h, i + 1)
    }
}

/// Where a lookup of hash `h` starts: the first virtual node whose hash is at
/// least `h`, wrapping around to the first one.
pub open spec fn ring_start(v: Seq<(u64, Seq<char>)>, h: u64) -> int {
    let lb = lower_bound(v, h, 0);
    if lb < v.len() {
        lb
    } else {
        0
    }
}

/// The node names met walking `t` steps round the ring from `start`.
pub open spec fn ring_walk(v: Seq<(u64, Seq<char>)>, start: int, t: nat) -> Seq<Seq<char>> {
    Seq::new(t, |j: int| v[(start + j) % (v.len() as int)].1)
}

/// `s` without repetitions, each name where it first occurs.
pub open spec fn dedup(s: Seq<Seq<char>>) -> Seq<Seq<char>>
    decreases s.len(),
{
    if s.len() == 0 {
        s
    } else {
        let d = dedup(s.drop_last());
        if d.contains(s.last()) {
            d
        } else {
            d.push(s.last())
        }
    }
}

pub open spec fn take_upto(s: Seq<Seq<char>>, n: nat) -> Seq<Seq<char>> {
    if s.len() <= n {
        s
    } else {
        s.take(n as int)
    }
}

pub open spec fn ring_view(v: Seq<(u64, String)>) -> Seq<(u64, Seq<char>)> {
    Seq::new(v.len(), |i: int| (v[i].0, v[i].1@))
}

proof fn lemma_lower_bound(v: Seq<(u64, Seq<char>)>, h: u64, lo: int, i: int)
    requires
        0 <= i <= lo <= v.len(),
        forall|j: int| 0 <= j < lo ==> (#[trigger] v[j]).0 < h,
        lo < v.len() ==> v[lo].0 >= h,
    ensures
        lower_bound(v, h, i) == lo,
    decreases lo - i,
{
    if i < lo {
        lemma_lower_bound(v, h, lo, i + 1);
    }
}

proof fn lemma_dedup_prefix(s: Seq<Seq<char>>, t1: int, t2: int)
    requires
        0 <= t1 <= t2 <= s.len(),
    ensures
        dedup(s.take(t1)).len() <= dedup(s.take(t2)).len(),
        dedup(s.take(t2)).take(dedup(s.take(t1)).len() as int) == dedup(s.take(t1)),
    decreases t2 - t1,
{
    if t1 < t2 {
        lemma_dedup_prefix(s, t1, t2 - 1);
        assert(s.take(t2).drop_last() =~= s.take(t2 - 1));
        let a = dedup(s.take(t1));
        let b = dedup(s.take(t2 - 1));
        let c = dedup(s.take(t2));
        assert(c.take(a.len() as int) =~= b.take(a.len() as int));
    } else {
        let a = dedup(s.take(t1));
        assert(a.take(a.len() as int) =~= a);
    }
}

/// Consistent hashing over virtual nodes, sorted by hash.
pub struct ConsistentHashRing {
    virtual_nodes: Vec<(u64, String)>,
    vnodes_per_node: usize,
}

/// Upper bound: the first position whose hash exceeds `h`.
fn position_after(v: &Vec<(u64, String)>, h: u64) -> (p: usize)
    requires
        sorted_by_hash(ring_view(v@)),
    ensures
        p <= v@.len(),
        forall|j: int| 0 <= j < p ==> (#[trigger] v@[j]).0 <= h,
        forall|j: int| p <= j < v@.len() ==> (#[trigger] v@[j]).0 > h,
{
    let mut lo: usize = 0;
    let mut hi: usize = v.len();
    while lo < hi
        invariant
            lo <= hi <= v@.len(),
            sorted_by_hash(ring_view(v@)),
            forall|j: int| 0 <= j < lo ==> (#[trigger] v@[j]).0 <= h,
            forall|j: int| hi <= j < v@.len() ==> (#[trigger] v@[j]).0 > h,
        decreases hi - lo,
    {
        let mid = lo + (hi - lo) / 2;
        if v[mid].0 <= h {
            assert forall|j: int| 0 <= j < mid + 1 implies (#[trigger] v@[j]).0 <= h by {
                assert(ring_view(v@)[j].0 <= ring_view(v@)[mid as int].0);
            }
            lo = mid + 1;
        } else {
            assert forall|j: int| mid <= j < v@.len() implies (#[trigger] v@[j]).0 > h by {
                assert(ring_view(v@)[mid as int].0 <= ring_view(v@)[j].0);
            }
            hi = mid;
        }
    }
    lo
}

/// Lower bound: the first position whose hash is at least `h`.
fn position_from(v: &Vec<(u64, String)>, h: u64) -> (p: usize)
    requires
        sorted_by_hash(ring_view(v@)),
    ensures
        p as int == lower_bound(ring_view(v@), h, 0),
{
    let mut lo: usize = 0;
    let mut hi: usize = v.len();
    while lo < hi
        invariant
            lo <= hi <= v@.len(),
            sorted_by_hash(ring_view(v@)),
            forall|j: int| 0 <= j < lo ==> (#[trigger] v@[j]).0 < h,
            forall|j: int| hi <= j < v@.len() ==> (#[trigger] v@[j]).0 >= h,
        decreases hi - lo,
    {
        let mid = lo + (hi - lo) / 2;
        if v[mid].0 < h {
            assert forall|j: int| 0 <= j < mid + 1 implies (#[trigger] v@[j]).0 < h by {
                assert(ring_view(v@)[j].0 <= ring_view(v@)[mid as int].0);
            }
            lo = mid + 1;
        } else {
            assert forall|j: int| mid <= j < v@.len() implies (#[trigger] v@[j]).0 >= h by {
                assert(ring_view(v@)[mid as int].0 <= ring_view(v@)[j].0);
            }
            hi = mid;
        }
    }
    proof {
        let rv = ring_view(v@);
        assert forall|j: int| 0 <= j < lo implies (#[trigger] rv[j]).0 < h by {
            assert(v@[j].0 < h);
        }
        if lo < v@.len() {
            assert(v@[lo as int].0 >= h);
        }
        lemma_lower_bound(rv, h, lo as int, 0);
    }
    lo
}

/// The bytes "<node>:<i>".
fn vnode_key_bytes(node: &String, i: usize) -> (r: Vec<u8>)
    ensures
        r@ == vnode_key(node@, i as nat),
{
    let b = node.as_str().as_bytes();
    let mut out: Vec<u8> = Vec::new();
    let mut j: usize = 0;
    while j < b.len()
        invariant
            j <= b@.len(),
            out@ == b@.take(j as int),
        decreases b@.len() - j,
    {
        out.push(b[j]);
        j = j + 1;
        assert(out@ =~= b@.take(j as int));
    }
    assert(b@.take(b@.len() as int) =~= b@);
    out.push(58u8);
    let digits = decimal_digits(i as u64);
    let mut k: usize = 0;
    let ghost base = out@;
    while k < digits.len()
        invariant
            k <= digits@.len(),
            out@ == base + digits@.take(k as int),
        decreases digits@.len() - k,
    {
        out.push(digits[k]);
        k = k + 1;
        assert(out@ =~= base + digits@.take(k as int));
    }
    assert(digits@.take(digits@.len() as int) =~= digits@);
    out
}

impl ConsistentHashRing {
    /// The virtual nodes as (hash, node name) pairs, in ring order.
    pub closed spec fn ring(&self) -> Seq<(u64, Seq<char>)> {
        ring_view(self.virtual_nodes@)
    }

    pub closed spec fn vnodes_per_node_view(&self) -> nat {
        self.vnodes_per_node as nat
    }

    /// Builds the ring: `vnodes_per_node` virtual nodes per node, keyed by the
    /// hash of "<node>:<i>", sorted by hash (equal hashes keep their order).
    pub fn new(nodes: Vec<String>, vnodes_per_node: usize) -> (r: Self)
        ensures
            sorted_by_hash(r.ring()),
            r.ring().to_multiset() == vnode_list(strings_view(nodes@), vnodes_per_node as nat).to_multiset(),
            r.vnodes_per_node_view() == vnodes_per_node,
    {
        let mut virtual_nodes: Vec<(u64, String)> = Vec::new();
        let ghost names = strings_view(nodes@);
        let mut a: usize = 0;
        while a < nodes.len()
            invariant
                a <= nodes@.len(),
                names == strings_view(nodes@),
                sorted_by_hash(ring_view(virtual_nodes@)),
                ring_view(virtual_nodes@).to_multiset() == vnode_list(
                    names.take(a as int),
                    vnodes_per_node as nat,
                ).to_multiset(),
            decreases nodes@.len() - a,
        {
            let node = &nodes[a];
            let ghost before = vnode_list(names.take(a as int), vnodes_per_node as nat);
            let mut i: usize = 0;
            while i < vnodes_per_node
                invariant
                    i <= vnodes_per_node,
                    a < nodes@.len(),
                    node@ == names[a as int],
                    sorted_by_hash(ring_view(virtual_nodes@)),
                    ring_view(virtual_nodes@).to_multiset() == (before + node_vnodes(
                        node@,
                        i as nat,
                    )).to_multiset(),
                decreases vnodes_per_node - i,
            {
                let key = vnode_key_bytes(node, i);
                let h = hash_str_bytes(key.as_slice());
                let p = position_after(&virtual_nodes, h);
                let ghost old_view = ring_view(virtual_nodes@);
                virtual_nodes.insert(p, (h, node.clone()));
                proof {
                    let nv = ring_view(virtual_nodes@);
                    assert(nv =~= old_view.insert(p as int, (h, node@)));
                    assert forall|x: int, y: int| 0 <= x <= y < nv.len() implies (#[trigger] nv[x]).0
                        <= (#[trigger] nv[y]).0 by {
                        if x < p && y > p {
                            assert(old_view[x].0 <= old_view[y - 1].0);
                        } else if x < p && y < p {
                            assert(old_view[x].0 <= old_view[y].0);
                        } else if x > p {
                            assert(old_view[x - 1].0 <= old_view[y - 1].0);
                        }
                    }
                    assert(node_vnodes(node@, (i + 1) as nat) =~= node_vnodes(node@, i as nat).push(
                        (h, node@),
                    ));
                    assert(before + node_vnodes(node@, (i + 1) as nat) =~= (before + node_vnodes(
                        node@,
                        i as nat,
                    )).push((h, node@)));
                }
                i = i + 1;
            }
            proof {
                let t = names.take(a + 1);
                assert(t.drop_last() =~= names.take(a as int));
                assert(t.last() == names[a as int]);
            }
            a = a + 1;
        }
        assert(names.take(nodes@.len() as int) =~= names);
        ConsistentHashRing { virtual_nodes, vnodes_per_node }
    }

    /// The node owning `key`: the first virtual node at or after the key's
    /// hash, wrapping round; `None` on an empty ring.
    pub fn get_node(&self, key: &str) -> (r: Option<&String>)
        requires
            sorted_by_hash(self.ring()),
        ensures
            r.is_some() == (self.ring().len() > 0),
            r matches Some(n) ==> n@ == self.ring()[ring_start(self.ring(), str_hash(key.spec_bytes()))].1,
    {
        if self.virtual_nodes.len() == 0 {
            return None;
        }
        let h = hash_str_bytes(key.as_bytes());
        let lb = position_from(&self.virtual_nodes, h);
        let idx = if lb < self.virtual_nodes.len() {
            lb
        } else {
            0
        };
        Some(&self.virtual_nodes[idx].1)
    }

    /// Up to `count` distinct nodes for `key`, in ring order from where
    /// `get_node` starts, each ring position visited at most once.
    pub fn get_nodes(&self, key: &str, count: usize) -> (r: Vec<String>)
        requires
            sorted_by_hash(self.ring()),
        ensures
            strings_view(r@) == take_upto(
                dedup(
                    ring_walk(
                        self.ring(),
                        ring_start(self.ring(), str_hash(key.spec_bytes())),
                        self.ring().len(),
                    ),
                ),
                count as nat,
            ),
    {
        let ghost rv = self.ring();
        let len = self.virtual_nodes.len();
        if len == 0 {
            let r: Vec<String> = Vec::new();
            proof {
                assert(ring_walk(rv, 0, 0) =~= Seq::<Seq<char>>::empty());
                assert(strings_view(r@) =~= Seq::<Seq<char>>::empty());
            }
            return r;
        }
        let h = hash_str_bytes(key.as_bytes());
        let lb = position_from(&self.virtual_nodes, h);
        let start = if lb < len {
            lb
        } else {
            0
        };
        let ghost full = ring_walk(rv, start as int, len as nat);
        let mut nodes: Vec<String> = Vec::new();
        let mut t: usize = 0;
        while nodes.len() < count && t < len
            invariant
                t <= len,
                len == self.virtual_nodes@.len(),
                rv == self.ring(),
                start < len,
                full == ring_walk(rv, start as int, len as nat),
                strings_view(nodes@) == dedup(full.take(t as int)),
                nodes@.len() <= count,
            decreases len - t,
        {
            let off = len - start;
            let idx = if t < off {
                start + t
            } else {
                t - off
            };
            proof {
                let x = start + t;
                let m = len as int;
                assert(idx as int == x % m) by (nonlinear_arith)
                    requires
                        0 <= x < 2 * m,
                        idx as int == (if x < m { x } else { x - m }),
                ;
            }
            let name = &self.virtual_nodes[idx].1;
            let mut seen = false;
            let mut j: usize = 0;
            while j < nodes.len()
                invariant
                    j <= nodes@.len(),
                    seen == exists|q: int| 0 <= q < j && (#[trigger] nodes@[q])@ == name@,
                decreases nodes@.len() - j,
            {
                if nodes[j] == *name {
                    seen = true;
                }
                j = j + 1;
            }
            proof {
                let ft = full.take(t + 1);
                assert(ft.drop_last() =~= full.take(t as int));
                assert(ft.last() == name@);
                let d = strings_view(nodes@);
                if seen {
                    let q = choose|q: int| 0 <= q < nodes@.len() && (#[trigger] nodes@[q])@ == name@;
                    assert(d[q] == name@);
                } else {
                    assert forall|q: int| 0 <= q < d.len() implies d[q] != name@ by {
                        assert(nodes@[q]@ != name@);
                    }
                }
            }
            if !seen {
                nodes.push(name.clone());
                proof {
                    let ft = full.take(t + 1);
                    assert(strings_view(nodes@) =~= dedup(full.take(t as int)).push(name@));
                }
            }
            t = t + 1;
        }
        proof {
            assert(full.take(len as int) =~= full);
            lemma_dedup_prefix(full, t as int, len as int);
            let d = dedup(full);
            let n = strings_view(nodes@);
            if t < len {
                assert(n.len() == count);
                assert(d.take(count as int) =~= n);
                if d.len() <= count {
                    assert(d =~= n);
                }
            }
        }
        nodes
    }
}

/// Role of a node in the cluster.
#[derive(Debug, Clone, Copy, PartialEq, Eq, Structural)]
pub enum NodeRole {
    Leader,
    Follower,
    Candidate,
    Observer,
}

/// Health state of a node.
#[derive(Debug, Clone, Copy, PartialEq, Eq, Structural)]
pub enum NodeState {
    Starting,
    Healthy,
    Degraded,
    Unhealthy,
    ShuttingDown,
    Disconnected,
}

/// Replication progress of one node.
#[derive(Debug, Clone, Copy, PartialEq, Eq, Structural)]
pub struct ReplicationState {
    pub last_applied_sequence: u64,
    pub last_ack_sequence: u64,
    pub lag_ms: u64,
    pub last_replication_ts: u64,
}

impl ReplicationState {
    /// Nothing replicated yet.
    pub fn new() -> (r: Self)
        ensures
            r.last_applied_sequence == 0,
            r.last_ack_sequence == 0,
            r.lag_ms == 0,
            r.last_replication_ts == 0,
    {
        ReplicationState { last_applied_sequence: 0, last_ack_sequence: 0, lag_ms: 0, last_replication_ts: 0 }
    }
}

/// Checks the health of peer nodes; it holds no state of its own.
#[derive(Debug, Clone, Copy, PartialEq, Eq, Structural)]
pub struct HealthChecker {}

impl HealthChecker {
    pub fn new() -> (r: Self)
        ensures
            r == (HealthChecker {}),
    {
        HealthChecker {}
    }
}


} // verus!
