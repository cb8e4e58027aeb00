//! The storage engine's catalog of collections: which collections exist,
//! with which settings, what each change writes to the log, and how a
//! replayed log changes the catalog.
use crate::codec::{vector_bytes, vectors_view, OperationModel, Vector, WALOperation};
use crate::storage::{encode_batch, vector_records};
use crate::types::{CollectionConfig, ConfigModel, VectorDbError, VectorId};
use vstd::prelude::*;
use vstd::string::StringExecFns;

verus! {

/// The catalog after one logged operation is replayed: a create (re)sets
/// the collection's settings, a delete forgets it, and vector operations
/// leave the catalog as it is.
pub open spec fn replay_step(m: Map<Seq<char>, ConfigModel>, op: OperationModel) -> Map<Seq<char>, ConfigModel> {
    match op {
        OperationModel::CreateCollection(c) => m.insert(c.name, c),
        OperationModel::DeleteCollection(n) => m.remove(n),
        _ => m,
    }
}

/// The catalog after replaying `ops` in order.
pub open spec fn replay_all(m: Map<Seq<char>, ConfigModel>, ops: Seq<OperationModel>) -> Map<Seq<char>, ConfigModel>
    decreases ops.len(),
{
    if ops.len() == 0 {
        m
    } else {
        replay_step(replay_all(m, ops.drop_last()), ops.last())
    }
}

/// Whether some operation of `ops` creates or deletes collection `k`.
pub open spec fn touches(ops: Seq<OperationModel>, k: Seq<char>) -> bool {
    exists|i: int| 0 <= i < ops.len() && touches_op(#[trigger] ops[i], k)
}

pub open spec fn touches_op(op: OperationModel, k: Seq<char>) -> bool {
    match op {
        OperationModel::CreateCollection(c) => c.name == k,
        OperationModel::DeleteCollection(n) => n == k,
        _ => false,
    }
}

/// Collection `k` after `ops` when some operation touches it does not
/// depend on the catalog the replay started from.
proof fn lemma_touched_independent(m1: Map<Seq<char>, ConfigModel>, m2: Map<Seq<char>, ConfigModel>, ops: Seq<OperationModel>, k: Seq<char>)
    requires
        touches(ops, k),
    ensures
        replay_all(m1, ops).contains_key(k) == replay_all(m2, ops).contains_key(k),
        replay_all(m1, ops).contains_key(k) ==> replay_all(m1, ops)[k] == replay_all(m2, ops)[k],
    decreases ops.len(),
{
    let last = ops.last();
    if !touches_op(last, k) {
        let i = choose|i: int| 0 <= i < ops.len() && touches_op(#[trigger] ops[i], k);
        assert(i < ops.len() - 1);
        assert(ops.drop_last()[i] == ops[i]);
        assert(touches(ops.drop_last(), k));
        lemma_touched_independent(m1, m2, ops.drop_last(), k);
    }
}

/// Collection `k` after `ops` when no operation touches it is as it was.
proof fn lemma_untouched_kept(m: Map<Seq<char>, ConfigModel>, ops: Seq<OperationModel>, k: Seq<char>)
    requires
        !touches(ops, k),
    ensures
        replay_all(m, ops).contains_key(k) == m.contains_key(k),
        m.contains_key(k) ==> replay_all(m, ops)[k] == m[k],
    decreases ops.len(),
{
    if ops.len() > 0 {
        assert forall|i: int| 0 <= i < ops.drop_last().len() implies !touches_op(#[trigger] ops.drop_last()[i], k) by {
            assert(ops.drop_last()[i] == ops[i]);
        }
        lemma_untouched_kept(m, ops.drop_last(), k);
        assert(!touches_op(ops.last(), k)) by {
            assert(ops[ops.len() - 1] == ops.last());
        }
    }
}

/// Replaying a log a second time leaves the catalog as the first replay
/// left it.
pub proof fn law_replay_idempotent(m: Map<Seq<char>, ConfigModel>, ops: Seq<OperationModel>)
    ensures
        replay_all(replay_all(m, ops), ops) == replay_all(m, ops),
{
    let once = replay_all(m, ops);
    let twice = replay_all(once, ops);
    assert forall|k: Seq<char>| #[trigger] twice.contains_key(k) == once.contains_key(k) && (twice.contains_key(k) ==> twice[k] == once[k]) by {
        if touches(ops, k) {
            lemma_touched_independent(once, m, ops, k);
        } else {
            lemma_untouched_kept(once, ops, k);
        }
    }
    assert(twice =~= once);
}

/// The collections of an engine, each with its settings.
pub struct Catalog {
    configs: Vec<CollectionConfig>,
}

impl Catalog {
    /// The catalog as a map from collection name to settings.
    pub closed spec fn view_map(&self) -> Map<Seq<char>, ConfigModel> {
        Map::new(
            |k: Seq<char>| exists|i: int| 0 <= i < self.configs@.len() && (#[trigger] self.configs@[i])@.name == k,
            |k: Seq<char>| self.configs@[choose|i: int| 0 <= i < self.configs@.len() && (#[trigger] self.configs@[i])@.name == k]@,
        )
    }

    /// Names are distinct.
    pub closed spec fn wf(&self) -> bool {
        forall|i: int, j: int| 0 <= i < j < self.configs@.len() ==> (#[trigger] self.configs@[i])@.name != (#[trigger] self.configs@[j])@.name
    }

    proof fn lemma_view_at(&self, i: int)
        requires
            self.wf(),
            0 <= i < self.configs@.len(),
        ensures
            self.view_map().contains_key(self.configs@[i]@.name),
            self.view_map()[self.configs@[i]@.name] == self.configs@[i]@,
    {
        let k = self.configs@[i]@.name;
        assert(self.view_map().contains_key(k));
        let j = choose|j: int| 0 <= j < self.configs@.len() && (#[trigger] self.configs@[j])@.name == k;
        if j != i {
            if j < i {
                assert(self.configs@[j]@.name != self.configs@[i]@.name);
            } else {
                assert(self.configs@[i]@.name != self.configs@[j]@.name);
            }
        }
    }

    /// An empty catalog.
    pub fn new() -> (r: Self)
        ensures
            r.wf(),
            r.view_map() == Map::<Seq<char>, ConfigModel>::empty(),
    {
        let r = Catalog { configs: Vec::new() };
        assert(r.view_map() =~= Map::<Seq<char>, ConfigModel>::empty());
        r
    }

    /// The position of collection `name`.
    fn position(&self, name: &str) -> (r: Option<usize>)
        ensures
            match r {
                Some(i) => i < self.configs@.len() && self.configs@[i as int]@.name == name@,
                None => !self.view_map().contains_key(name@),
            },
    {
        let target = String::from_str(name);
        let mut i: usize = 0;
        while i < self.configs.len()
            invariant
                i <= self.configs@.len(),
                target@ == name@,
                forall|j: int| 0 <= j < i ==> (#[trigger] self.configs@[j])@.name != name@,
            decreases self.configs@.len() - i,
        {
            if self.configs[i].name == target {
                return Some(i);
            }
            i = i + 1;
        }
        None
    }

    /// The settings of collection `name`.
    pub fn config_of(&self, name: &str) -> (r: Option<&CollectionConfig>)
        requires
            self.wf(),
        ensures
            r is Some == self.view_map().contains_key(name@),
            r matches Some(c) ==> c@ == self.view_map()[name@],
    {
        match self.position(name) {
            Some(i) => {
                proof {
                    self.lemma_view_at(i as int);
                }
                Some(&self.configs[i])
            },
            None => None,
        }
    }

    /// The names of the collections.
    pub fn list(&self) -> (r: Vec<String>)
        requires
            self.wf(),
        ensures
            forall|k: Seq<char>| self.view_map().contains_key(k) <==> exists|i: int| 0 <= i < r@.len() && (#[trigger] r@[i])@ == k,
            forall|i: int, j: int| 0 <= i < j < r@.len() ==> (#[trigger] r@[i])@ != (#[trigger] r@[j])@,
    {
        let mut out: Vec<String> = Vec::new();
        let mut i: usize = 0;
        while i < self.configs.len()
            invariant
                i <= self.configs@.len(),
                out@.len() == i,
                forall|q: int| 0 <= q < i ==> (#[trigger] out@[q])@ == self.configs@[q]@.name,
                self.wf(),
            decreases self.configs@.len() - i,
        {
            out.push(self.configs[i].name.clone());
            i = i + 1;
        }
        proof {
            assert forall|a: int, b: int| 0 <= a < b < out@.len() implies (#[trigger] out@[a])@ != (#[trigger] out@[b])@ by {
                assert(self.configs@[a]@.name != self.configs@[b]@.name);
            }
            assert forall|k: Seq<char>| self.view_map().contains_key(k) <==> exists|q: int| 0 <= q < out@.len() && (#[trigger] out@[q])@ == k by {
                if self.view_map().contains_key(k) {
                    let q = choose|q: int| 0 <= q < self.configs@.len() && (#[trigger] self.configs@[q])@.name == k;
                    assert(out@[q]@ == k);
                }
                if exists|q: int| 0 <= q < out@.len() && (#[trigger] out@[q])@ == k {
                    let q = choose|q: int| 0 <= q < out@.len() && (#[trigger] out@[q])@ == k;
                    assert(self.configs@[q]@.name == k);
                }
            }
        }
        out
    }

    /// Sets the settings of `config.name`, adding the collection if needed.
    fn put(&mut self, config: CollectionConfig)
        requires
            old(self).wf(),
        ensures
            final(self).wf(),
            final(self).view_map() == old(self).view_map().insert(config@.name, config@),
    {
        let ghost cm = config@;
        match self.position(config.name.as_str()) {
            Some(i) => {
                let ghost before = self.configs@;
                self.configs.set(i, config);
                proof {
                    assert forall|a: int, b: int| 0 <= a < b < self.configs@.len() implies (#[trigger] self.configs@[a])@.name != (#[trigger] self.configs@[b])@.name by {
                        assert(before[a]@.name != before[b]@.name);
                    }
                    let nm = self.view_map();
                    let want = old(self).view_map().insert(cm.name, cm);
                    assert forall|k: Seq<char>| #[trigger] nm.contains_key(k) == want.contains_key(k) && (nm.contains_key(k) ==> nm[k] == want[k]) by {
                        if nm.contains_key(k) {
                            let q = choose|q: int| 0 <= q < self.configs@.len() && (#[trigger] self.configs@[q])@.name == k;
                            self.lemma_view_at(q);
                            if q != i {
                                old(self).lemma_view_at(q);
                            }
                        }
                        if want.contains_key(k) && k != cm.name {
                            let q = choose|q: int| 0 <= q < before.len() && (#[trigger] before[q])@.name == k;
                            assert(self.configs@[q]@.name == k);
                        }
                        if k == cm.name {
                            self.lemma_view_at(i as int);
                        }
                    }
                    assert(nm =~= want);
                }
            },
            None => {
                let ghost before = self.configs@;
                self.configs.push(config);
                proof {
                    assert forall|a: int, b: int| 0 <= a < b < self.configs@.len() implies (#[trigger] self.configs@[a])@.name != (#[trigger] self.configs@[b])@.name by {
                        if b == before.len() {
                            if before[a]@.name == cm.name {
                                assert(old(self).view_map().contains_key(cm.name));
                            }
                        } else {
                            assert(before[a]@.name != before[b]@.name);
                        }
                    }
                    let nm = self.view_map();
                    let want = old(self).view_map().insert(cm.name, cm);
                    assert forall|k: Seq<char>| #[trigger] nm.contains_key(k) == want.contains_key(k) && (nm.contains_key(k) ==> nm[k] == want[k]) by {
                        if nm.contains_key(k) {
                            let q = choose|q: int| 0 <= q < self.configs@.len() && (#[trigger] self.configs@[q])@.name == k;
                            self.lemma_view_at(q);
                            if q < before.len() {
                                old(self).lemma_view_at(q);
                            }
                        }
                        if want.contains_key(k) && k != cm.name {
                            let q = choose|q: int| 0 <= q < before.len() && (#[trigger] before[q])@.name == k;
                            assert(self.configs@[q]@.name == k);
                        }
                        if k == cm.name {
                            self.lemma_view_at(before.len() as int);
                        }
                    }
                    assert(nm =~= want);
                }
            },
        }
    }

    /// Forgets collection `name`; returns whether it existed.
    fn forget(&mut self, name: &str) -> (r: bool)
        requires
            old(self).wf(),
        ensures
            final(self).wf(),
            r == old(self).view_map().contains_key(name@),
            final(self).view_map() == old(self).view_map().remove(name@),
    {
        match self.position(name) {
            Some(i) => {
                let ghost before = self.configs@;
                proof {
                    old(self).lemma_view_at(i as int);
                }
                self.configs.remove(i);
                proof {
                    assert forall|a: int, b: int| 0 <= a < b < self.configs@.len() implies (#[trigger] self.configs@[a])@.name != (#[trigger] self.configs@[b])@.name by {
                        let a2 = if a < i { a } else { a + 1 };
                        let b2 = if b < i { b } else { b + 1 };
                        assert(before[a2]@.name != before[b2]@.name);
                    }
                    let nm = self.view_map();
                    let want = old(self).view_map().remove(name@);
                    assert forall|k: Seq<char>| #[trigger] nm.contains_key(k) == want.contains_key(k) && (nm.contains_key(k) ==> nm[k] == want[k]) by {
                        if nm.contains_key(k) {
                            let q = choose|q: int| 0 <= q < self.configs@.len() && (#[trigger] self.configs@[q])@.name == k;
                            self.lemma_view_at(q);
                            let q2 = if q < i { q } else { q + 1 };
                            assert(before[q2] == self.configs@[q]);
                            old(self).lemma_view_at(q2);
                            assert(before[q2]@.name != before[i as int]@.name);
                        }
                        if want.contains_key(k) {
                            let q = choose|q: int| 0 <= q < before.len() && (#[trigger] before[q])@.name == k;
                            assert(q != i);
                            let q2 = if q < i { q } else { q - 1 };
                            assert(self.configs@[q2]@.name == k);
                        }
                    }
                    assert(nm =~= want);
                }
                true
            },
            None => {
                assert(old(self).view_map().remove(name@) =~= old(self).view_map());
                false
            },
        }
    }

    /// Creates a collection: refused with `CollectionAlreadyExists` when the
    /// name is taken; otherwise the collection is added and the operation to
    /// log is returned.
    pub fn create(&mut self, config: CollectionConfig) -> (r: Result<WALOperation, VectorDbError>)
        requires
            old(self).wf(),
        ensures
            final(self).wf(),
            r is Err <==> old(self).view_map().contains_key(config@.name),
            r matches Err(e) ==> (e matches VectorDbError::CollectionAlreadyExists { name } && name@ == config@.name)
                && final(self).view_map() == old(self).view_map(),
            r matches Ok(op) ==> op@ == OperationModel::CreateCollection(config@)
                && final(self).view_map() == old(self).view_map().insert(config@.name, config@),
    {
        if self.position(config.name.as_str()).is_some() {
            proof {
                let i = choose|i: int| 0 <= i < self.configs@.len() && (#[trigger] self.configs@[i])@.name == config@.name;
                assert(self.view_map().contains_key(config@.name));
            }
            return Err(VectorDbError::CollectionAlreadyExists { name: config.name.clone() });
        }
        let logged = config.clone_config();
        self.put(config);
        Ok(WALOperation::CreateCollection(logged))
    }

    /// Deletes a collection: refused with `CollectionNotFound` when absent;
    /// otherwise it is forgotten and the operation to log is returned.
    pub fn delete(&mut self, name: &str) -> (r: Result<WALOperation, VectorDbError>)
        requires
            old(self).wf(),
        ensures
            final(self).wf(),
            r is Err <==> !old(self).view_map().contains_key(name@),
            r matches Err(e) ==> (e matches VectorDbError::CollectionNotFound { name: n } && n@ == name@),
            final(self).view_map() == old(self).view_map().remove(name@),
            r matches Ok(op) ==> op@ == OperationModel::DeleteCollection(name@),
    {
        if self.forget(name) {
            Ok(WALOperation::DeleteCollection(String::from_str(name)))
        } else {
            Err(VectorDbError::CollectionNotFound { name: String::from_str(name) })
        }
    }

    /// Replays one logged operation as `replay_step` says.
    pub fn apply_replayed(&mut self, op: WALOperation)
        requires
            old(self).wf(),
        ensures
            final(self).wf(),
            final(self).view_map() == replay_step(old(self).view_map(), op@),
    {
        match op {
            WALOperation::CreateCollection(c) => {
                self.put(c);
            },
            WALOperation::DeleteCollection(n) => {
                self.forget(n.as_str());
            },
            _ => {},
        }
    }
}

impl Catalog {
    /// What inserting `vector` into `collection` logs: refused with
    /// `CollectionNotFound` when the collection is absent and with
    /// `InvalidDimension` when the vector's length is not the collection's.
    pub fn prepare_insert(&self, collection: &str, vector: Vector) -> (r: Result<WALOperation, VectorDbError>)
        requires
            self.wf(),
        ensures
            !self.view_map().contains_key(collection@) ==> (r matches Err(VectorDbError::CollectionNotFound { name }) && name@ == collection@),
            self.view_map().contains_key(collection@) && vector@.data.len() != self.view_map()[collection@].dimension ==> r == Err::<WALOperation, VectorDbError>(
                VectorDbError::InvalidDimension {
                    expected: self.view_map()[collection@].dimension,
                    actual: vector@.data.len() as usize,
                },
            ),
            self.view_map().contains_key(collection@) && vector@.data.len() == self.view_map()[collection@].dimension ==> (r matches Ok(op)
                && op@ == OperationModel::InsertVector(collection@, vector@)),
    {
        let dimension = match self.config_of(collection) {
            Some(c) => c.dimension,
            None => {
                return Err(VectorDbError::CollectionNotFound { name: String::from_str(collection) });
            },
        };
        if vector.data.len() != dimension {
            return Err(VectorDbError::InvalidDimension { expected: dimension, actual: vector.data.len() });
        }
        Ok(WALOperation::InsertVector { collection: String::from_str(collection), vector })
    }

    /// What inserting a batch into `collection` appends to its vectors file
    /// and logs. No vectors is a no-op: `Ok(None)`, whatever the collection.
    /// Otherwise the batch is refused with `CollectionNotFound` when the
    /// collection is absent, with `InvalidDimension` naming the first vector
    /// whose length differs, or with `Serialization` when a record is too
    /// long to frame; nothing is written in those cases.
    pub fn prepare_batch(&self, collection: &str, vectors: Vec<Vector>) -> (r: Result<Option<(Vec<u8>, WALOperation)>, VectorDbError>)
        requires
            self.wf(),
        ensures
            vectors@.len() == 0 ==> r == Ok::<Option<(Vec<u8>, WALOperation)>, VectorDbError>(None),
            vectors@.len() > 0 && !self.view_map().contains_key(collection@) ==> (r matches Err(VectorDbError::CollectionNotFound { name }) && name@ == collection@),
            vectors@.len() > 0 && self.view_map().contains_key(collection@) ==> ({
                let d = self.view_map()[collection@].dimension;
                &&& (r matches Ok(Some(_)) <==> forall|i: int| 0 <= i < vectors@.len() ==> (#[trigger] vectors@[i])@.data.len() == d
                    && vector_bytes(vectors@[i]@).len() < 0x1_0000_0000)
                &&& (r matches Err(VectorDbError::InvalidDimension { expected, actual }) <==> exists|i: int|
                    0 <= i < vectors@.len() && (#[trigger] vectors@[i])@.data.len() != d
                    && forall|j: int| 0 <= j < i ==> (#[trigger] vectors@[j])@.data.len() == d)
                &&& (r matches Err(VectorDbError::InvalidDimension { expected, actual }) ==> expected == d && exists|i: int|
                    0 <= i < vectors@.len() && (#[trigger] vectors@[i])@.data.len() == actual && actual != d
                    && forall|j: int| 0 <= j < i ==> (#[trigger] vectors@[j])@.data.len() == d)
                &&& (r is Err ==> (r matches Err(VectorDbError::InvalidDimension { .. }) || r matches Err(VectorDbError::Serialization { .. })))
            }),
            r matches Ok(Some((bytes, op))) ==> bytes@ == vector_records(vectors_view(vectors@)) && op@ == OperationModel::BatchInsert(
                collection@,
                vectors_view(vectors@),
            ),
    {
        if vectors.len() == 0 {
            return Ok(None);
        }
        let dimension = match self.config_of(collection) {
            Some(c) => c.dimension,
            None => {
                return Err(VectorDbError::CollectionNotFound { name: String::from_str(collection) });
            },
        };
        let bytes = match encode_batch(&vectors, dimension) {
            Ok(b) => b,
            Err(e) => {
                return Err(e);
            },
        };
        Ok(Some((bytes, WALOperation::BatchInsert { collection: String::from_str(collection), vectors })))
    }

    /// What deleting vector `id` of `collection` logs: refused with
    /// `CollectionNotFound` when the collection is absent.
    pub fn prepare_delete_vector(&self, collection: &str, id: VectorId) -> (r: Result<WALOperation, VectorDbError>)
        requires
            self.wf(),
        ensures
            !self.view_map().contains_key(collection@) ==> (r matches Err(VectorDbError::CollectionNotFound { name }) && name@ == collection@),
            self.view_map().contains_key(collection@) ==> (r matches Ok(op) && op@ == OperationModel::DeleteVector(collection@, id)),
    {
        match self.config_of(collection) {
            Some(_) => Ok(WALOperation::DeleteVector { collection: String::from_str(collection), id }),
            None => Err(VectorDbError::CollectionNotFound { name: String::from_str(collection) }),
        }
    }
}

impl CollectionConfig {
    /// A copy of the settings.
    pub fn clone_config(&self) -> (r: CollectionConfig)
        ensures
            r@ == self@,
    {
        CollectionConfig {
            name: self.name.clone(),
            dimension: self.dimension,
            distance_metric: self.distance_metric,
            vector_type: self.vector_type,
            index_config: self.index_config,
        }
    }
}

} // verus!
