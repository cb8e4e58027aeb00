//! Crash recovery: which logged operations are replayed, and the names
//! used for soft-deleted and backed-up collection directories.
use crate::codec::{op_collection, OperationModel, WALOperation};
use crate::wal::ops_view;
use vstd::prelude::*;
use vstd::string::{StrSliceExecFns, StringExecFns};

verus! {

/// An operation is valid against the collections that exist at its point
/// in the log: a create needs a new name, everything else an existing one,
/// and a batch may not hold an empty vector.
pub open spec fn op_valid(op: OperationModel, names: Set<Seq<char>>) -> bool {
    match op {
        OperationModel::CreateCollection(c) => !names.contains(c.name),
        OperationModel::BatchInsert(n, vs) => names.contains(n) && forall|i: int|
            0 <= i < vs.len() ==> (#[trigger] vs[i]).data.len() > 0,
        _ => names.contains(op_collection(op)),
    }
}

/// The collections that exist after a valid operation.
pub open spec fn names_after(op: OperationModel, names: Set<Seq<char>>) -> Set<Seq<char>> {
    match op {
        OperationModel::CreateCollection(c) => names.insert(c.name),
        OperationModel::DeleteCollection(n) => names.remove(n),
        _ => names,
    }
}

/// The operations kept, in log order, when each is checked against the
/// collections that the operations kept before it leave.
pub open spec fn validated(ops: Seq<OperationModel>, names: Set<Seq<char>>) -> Seq<OperationModel>
    decreases ops.len(),
{
    if ops.len() == 0 {
        Seq::empty()
    } else if op_valid(ops[0], names) {
        seq![ops[0]] + validated(ops.skip(1), names_after(ops[0], names))
    } else {
        validated(ops.skip(1), names)
    }
}

pub open spec fn name_set(v: Seq<String>) -> Set<Seq<char>> {
    Set::new(|s: Seq<char>| exists|i: int| 0 <= i < v.len() && (#[trigger] v[i])@ == s)
}

pub open spec fn distinct_names(v: Seq<String>) -> bool {
    forall|i: int, j: int| 0 <= i < j < v.len() ==> (#[trigger] v[i])@ != (#[trigger] v[j])@
}

/// The position of `n` among `names`.
fn find_name(names: &Vec<String>, n: &String) -> (r: Option<usize>)
    ensures
        match r {
            Some(i) => i < names@.len() && names@[i as int]@ == n@,
            None => !name_set(names@).contains(n@),
        },
        r.is_some() == name_set(names@).contains(n@),
{
    let mut i: usize = 0;
    while i < names.len()
        invariant
            i <= names@.len(),
            forall|j: int| 0 <= j < i ==> (#[trigger] names@[j])@ != n@,
        decreases names@.len() - i,
    {
        if names[i] == *n {
            assert(name_set(names@).contains(n@));
            return Some(i);
        }
        i = i + 1;
    }
    None
}

fn batch_has_no_empty(vs: &Vec<crate::codec::Vector>) -> (r: bool)
    ensures
        r == forall|i: int| 0 <= i < vs@.len() ==> (#[trigger] vs@[i])@.data.len() > 0,
{
    let mut i: usize = 0;
    while i < vs.len()
        invariant
            i <= vs@.len(),
            forall|j: int| 0 <= j < i ==> (#[trigger] vs@[j])@.data.len() > 0,
        decreases vs@.len() - i,
    {
        if vs[i].data.len() == 0 {
            return false;
        }
        i = i + 1;
    }
    true
}

/// Checks `op` against `names` and, when valid, updates `names` as the
/// operation does.
fn check_and_apply(op: &WALOperation, names: &mut Vec<String>) -> (r: bool)
    requires
        distinct_names(old(names)@),
    ensures
        r == op_valid(op@, name_set(old(names)@)),
        distinct_names(final(names)@),
        r ==> name_set(final(names)@) == names_after(op@, name_set(old(names)@)),
        !r ==> final(names)@ == old(names)@,
{
    match op {
        WALOperation::CreateCollection(c) => {
            match find_name(names, &c.name) {
                Some(_) => false,
                None => {
                    let ghost before = names@;
                    names.push(c.name.clone());
                    proof {
                        assert(name_set(names@) =~= name_set(before).insert(c.name@)) by {
                            assert forall|s: Seq<char>| name_set(names@).contains(s) implies name_set(
                                before,
                            ).insert(c.name@).contains(s) by {
                                let i = choose|i: int| 0 <= i < names@.len() && (#[trigger] names@[i])@ == s;
                                if i < before.len() {
                                    assert(before[i]@ == s);
                                }
                            }
                            assert forall|s: Seq<char>| name_set(before).insert(c.name@).contains(s) implies name_set(names@).contains(s) by {
                                if s == c.name@ {
                                    assert(names@[before.len() as int]@ == s);
                                } else {
                                    let i = choose|i: int| 0 <= i < before.len() && (#[trigger] before[i])@ == s;
                                    assert(names@[i]@ == s);
                                }
                            }
                        }
                        assert forall|i: int, j: int| 0 <= i < j < names@.len() implies (#[trigger] names@[i])@
                            != (#[trigger] names@[j])@ by {
                            if j == before.len() {
                                assert(!name_set(before).contains(c.name@));
                                if names@[i]@ == c.name@ {
                                    assert(before[i]@ == c.name@);
                                }
                            } else {
                                assert(before[i]@ != before[j]@);
                            }
                        }
                    }
                    true
                },
            }
        },
        WALOperation::DeleteCollection(n) => {
            match find_name(names, n) {
                Some(i) => {
                    let ghost before = names@;
                    names.remove(i);
                    proof {
                        assert(name_set(names@) =~= name_set(before).remove(n@)) by {
                            assert forall|s: Seq<char>| name_set(names@).contains(s) implies name_set(
                                before,
                            ).remove(n@).contains(s) by {
                                let k = choose|k: int| 0 <= k < names@.len() && (#[trigger] names@[k])@ == s;
                                if k < i {
                                    assert(before[k]@ == s);
                                    assert(before[k]@ != before[i as int]@);
                                } else {
                                    assert(before[k + 1]@ == s);
                                    assert(before[i as int]@ != before[k + 1]@);
                                }
                            }
                            assert forall|s: Seq<char>| name_set(before).remove(n@).contains(s) implies name_set(names@).contains(s) by {
                                let k = choose|k: int| 0 <= k < before.len() && (#[trigger] before[k])@ == s;
                                if k < i {
                                    assert(names@[k]@ == s);
                                } else {
                                    assert(k != i);
                                    assert(names@[k - 1]@ == s);
                                }
                            }
                        }
                        assert forall|a: int, b: int| 0 <= a < b < names@.len() implies (#[trigger] names@[a])@
                            != (#[trigger] names@[b])@ by {
                            let a2 = if a < i { a } else { a + 1 };
                            let b2 = if b < i { b } else { b + 1 };
                            assert(before[a2]@ != before[b2]@);
                        }
                    }
                    true
                },
                None => false,
            }
        },
        WALOperation::InsertVector { collection, .. } => find_name(names, collection).is_some(),
        WALOperation::BatchInsert { collection, vectors } => {
            let found = find_name(names, collection).is_some();
            let full = batch_has_no_empty(vectors);
            proof {
                let vv = crate::codec::vectors_view(vectors@);
                assert(full == forall|i: int| 0 <= i < vv.len() ==> (#[trigger] vv[i]).data.len() > 0) by {
                    if !full {
                        let i = choose|i: int| 0 <= i < vectors@.len() && !((#[trigger] vectors@[i])@.data.len() > 0);
                        assert(vv[i] == vectors@[i]@);
                    }
                }
            }
            found && full
        },
        WALOperation::DeleteVector { collection, .. } => find_name(names, collection).is_some(),
    }
}

/// The logged operations that recovery replays, given the collection
/// directories found on disk: invalid ones are dropped, the rest kept in
/// order.
pub fn validate_operations(existing: &Vec<String>, ops: Vec<WALOperation>) -> (r: Vec<
    WALOperation,
>)
    ensures
        ops_view(r@) == validated(ops_view(ops@), name_set(existing@)),
{
    let mut names: Vec<String> = Vec::new();
    let mut k: usize = 0;
    while k < existing.len()
        invariant
            k <= existing@.len(),
            distinct_names(names@),
            name_set(names@) == name_set(existing@.take(k as int)),
        decreases existing@.len() - k,
    {
        let ghost before = names@;
        let mut n: Vec<String> = Vec::new();
        n.push(existing[k].clone());
        let op = WALOperation::CreateCollection(
            crate::types::CollectionConfig {
                name: existing[k].clone(),
                dimension: 0,
                distance_metric: crate::types::DistanceMetric::Cosine,
                vector_type: crate::types::VectorType::Float32,
                index_config: crate::types::IndexConfig {
                    max_connections: 0,
                    ef_construction: 0,
                    ef_search: 0,
                    max_layer: 0,
                },
            },
        );
        let added = check_and_apply(&op, &mut names);
        proof {
            let t = existing@.take(k + 1);
            assert(name_set(t) =~= name_set(existing@.take(k as int)).insert(existing@[k as int]@)) by {
                assert forall|s: Seq<char>| name_set(t).contains(s) implies name_set(existing@.take(k as int)).insert(existing@[k as int]@).contains(s) by {
                    let i = choose|i: int| 0 <= i < t.len() && (#[trigger] t[i])@ == s;
                    if i < k {
                        assert(existing@.take(k as int)[i]@ == s);
                    }
                }
                assert forall|s: Seq<char>| name_set(existing@.take(k as int)).insert(existing@[k as int]@).contains(s) implies name_set(t).contains(s) by {
                    if s == existing@[k as int]@ {
                        assert(t[k as int]@ == s);
                    } else {
                        let i = choose|i: int| 0 <= i < k && (#[trigger] existing@.take(k as int)[i])@ == s;
                        assert(t[i]@ == s);
                    }
                }
            }
            if !added {
                assert(name_set(before).contains(existing@[k as int]@));
                assert(name_set(before).insert(existing@[k as int]@) =~= name_set(before));
            }
        }
        k = k + 1;
    }
    assert(existing@.take(existing@.len() as int) =~= existing@);
    let ghost start = name_set(names@);
    let mut kept: Vec<WALOperation> = Vec::new();
    let mut rest = ops;
    assert(ops_view(kept@) + validated(ops_view(rest@), start) =~= validated(ops_view(rest@), start));
    let ghost all = ops_view(rest@);
    while rest.len() > 0
        invariant
            distinct_names(names@),
            ops_view(kept@) + validated(ops_view(rest@), name_set(names@)) == validated(all, start),
        decreases rest@.len(),
    {
        let ghost cur = ops_view(rest@);
        let op = rest.remove(0);
        let ghost tail = ops_view(rest@);
        let ghost before_names = name_set(names@);
        let valid = check_and_apply(&op, &mut names);
        let ghost before_kept = ops_view(kept@);
        let ghost opm = op@;
        if valid {
            kept.push(op);
            proof {
                assert(ops_view(kept@) =~= before_kept.push(opm));
            }
        }
        proof {
            let whole = seq![opm] + tail;
            assert(whole.skip(1) =~= tail);
            assert(whole[0] == opm);
            assert(cur =~= whole);
            if valid {
                assert(before_kept.push(opm) + validated(tail, name_set(names@)) =~= before_kept + (
                seq![opm] + validated(tail, name_set(names@))));
            }
        }
    }
    assert(ops_view(kept@) + Seq::<OperationModel>::empty() =~= ops_view(kept@));
    kept
}


/// `s` is a retention stamp: an underscore, eight digits (the date), an
/// underscore and six digits (the time).
pub open spec fn is_stamp(s: Seq<char>) -> bool {
    &&& s.len() == 16
    &&& s[0] == '_'
    &&& s[9] == '_'
    &&& forall|i: int| 1 <= i < 16 && i != 9 ==> '0' <= #[trigger] s[i] && s[i] <= '9'
}

/// The collection a retained directory holds: its name without the
/// trailing stamp (the whole name when it has none).
pub open spec fn retained_name(dir: Seq<char>) -> Seq<char> {
    if dir.len() >= 16 && is_stamp(dir.subrange(dir.len() - 16, dir.len() as int)) {
        dir.subrange(0, dir.len() - 16)
    } else {
        dir
    }
}

/// A directory of the data directory holds a collection unless it is the
/// log's (`wal`) or hidden (its name starts with a dot, as `.deleted` and
/// `.backups` do).
pub open spec fn is_collection_dir_spec(name: Seq<char>) -> bool {
    name != seq!['w', 'a', 'l'] && !(name.len() > 0 && name[0] == '.')
}

pub fn is_collection_dir(name: &str) -> (r: bool)
    ensures
        r == is_collection_dir_spec(name@),
{
    let cs = crate::text::chars_of(name);
    let is_wal = cs.len() == 3 && cs[0] == 'w' && cs[1] == 'a' && cs[2] == 'l';
    proof {
        if cs@.len() == 3 {
            assert(is_wal == (cs@ =~= seq!['w', 'a', 'l']));
        } else {
            assert(cs@ != seq!['w', 'a', 'l']);
        }
    }
    let hidden = cs.len() > 0 && cs[0] == '.';
    !is_wal && !hidden
}

/// Where a soft-deleted or backed-up collection goes: "<name>_<stamp>".
pub fn retention_dir_name(collection: &str, stamp: &str) -> (r: String)
    ensures
        r@ == collection@ + seq!['_'] + stamp@,
{
    crate::text::underscore_join(collection, stamp)
}

/// The collection a restore creates: the requested name, or else the
/// retained directory's name without its trailing stamp.
pub fn restore_name(dir_name: &str, requested: Option<&str>) -> (r: String)
    ensures
        r@ == match requested {
            Some(n) => n@,
            None => retained_name(dir_name@),
        },
{
    match requested {
        Some(n) => String::from_str(n),
        None => {
            let cs = crate::text::chars_of(dir_name);
            let len = cs.len();
            if len < 16 {
                return String::from_str(dir_name);
            }
            let base = len - 16;
            let mut ok = cs[base] == '_' && cs[base + 9] == '_';
            let mut i: usize = 1;
            while i < 16
                invariant
                    cs@ == dir_name@,
                    len == cs@.len(),
                    len >= 16,
                    base == len - 16,
                    1 <= i <= 16,
                    ok == (cs@[base as int] == '_' && cs@[base + 9] == '_' && forall|q: int|
                        1 <= q < i && q != 9 ==> '0' <= #[trigger] cs@[base + q] && cs@[base + q] <= '9'),
                decreases 16 - i,
            {
                if i != 9 {
                    let c = cs[base + i];
                    if c < '0' || c > '9' {
                        ok = false;
                    }
                }
                i = i + 1;
            }
            proof {
                let t = dir_name@.subrange(base as int, len as int);
                assert forall|q: int| 0 <= q < 16 implies t[q] == cs@[base + q] by {}
                if ok {
                    assert(is_stamp(t));
                } else {
                    if is_stamp(t) {
                        assert(t[0] == cs@[base as int] && t[9] == cs@[base + 9]);
                        assert forall|q: int| 1 <= q < 16 && q != 9 implies '0' <= #[trigger] cs@[base + q] && cs@[base + q] <= '9' by {
                            assert(t[q] == cs@[base + q]);
                        }
                    }
                    assert(!is_stamp(t));
                }
            }
            if ok {
                String::from_str(dir_name.substring_char(0, base))
            } else {
                String::from_str(dir_name)
            }
        },
    }
}

/// Recovery work on one data directory.
pub struct RecoveryManager {
    pub data_dir: String,
}

impl RecoveryManager {
    pub fn new(data_dir: &str) -> (r: Self)
        ensures
            r.data_dir@ == data_dir@,
    {
        RecoveryManager { data_dir: String::from_str(data_dir) }
    }

    /// The logged operations to replay, given the collection directories
    /// found under the data directory.
    pub fn recover_operations(&self, existing: &Vec<String>, ops: Vec<WALOperation>) -> (r: Vec<WALOperation>)
        ensures
            ops_view(r@) == validated(ops_view(ops@), name_set(existing@)),
    {
        validate_operations(existing, ops)
    }
}
} // verus!
