//! Snapshots: names, integrity checksums over the copied files, the order
//! in which they are listed, and which are removed by a cleanup.
use crate::bytes::{le_bytes, pow256, push_le};
use crate::text::{numeral, numeral_string, underscore_join};
use crate::types::VectorDbError;
use std::collections::hash_map::DefaultHasher;
use std::hash::Hasher;
use vstd::prelude::*;
use vstd::std_specs::hash::DefaultHasherAdditionalSpecFns;
use vstd::string::StringExecFns;

verus! {

/// What a snapshot records of itself.
#[derive(Debug, Clone)]
pub struct SnapshotMetadata {
    pub name: String,
    pub collection: String,
    pub created_at: u64,
    pub size_bytes: u64,
    pub vector_count: usize,
    pub checksum: String,
}

/// A file of a snapshot directory, in the order the directory lists it.
#[derive(Debug, Clone)]
pub struct SnapshotFile {
    pub name: String,
    pub contents: Vec<u8>,
}

/// The file that holds a snapshot's own metadata.
pub open spec fn is_metadata_file(name: Seq<char>) -> bool {
    name == seq!['s', 'n', 'a', 'p', 's', 'h', 'o', 't', '.', 'j', 's', 'o', 'n']
}

/// What the checksum hashes: for each file but the metadata file, its
/// length (8 bytes) and then its contents.
pub open spec fn checksum_writes(fs: Seq<SnapshotFile>) -> Seq<Seq<u8>>
    decreases fs.len(),
{
    if fs.len() == 0 {
        Seq::empty()
    } else {
        let rest = checksum_writes(fs.drop_last());
        let f = fs.last();
        if is_metadata_file(f.name@) {
            rest
        } else {
            rest + seq![le_bytes(f.contents@.len(), 8), f.contents@]
        }
    }
}

/// The checksum of a snapshot's files: the default hasher's result over
/// `checksum_writes`, in lower-case hexadecimal.
pub open spec fn checksum_text(fs: Seq<SnapshotFile>) -> Seq<char> {
    numeral(DefaultHasher::spec_finish(checksum_writes(fs)) as nat, 16)
}

fn metadata_file_name() -> (r: String)
    ensures
        is_metadata_file(r@),
{
    proof {
        reveal_strlit("snapshot.json");
        assert("snapshot.json"@ =~= seq!['s', 'n', 'a', 'p', 's', 'h', 'o', 't', '.', 'j', 's', 'o', 'n']);
    }
    String::from_str("snapshot.json")
}

/// The checksum of a snapshot's files.
pub fn snapshot_checksum(files: &Vec<SnapshotFile>) -> (r: String)
    ensures
        r@ == checksum_text(files@),
{
    let skip = metadata_file_name();
    let mut h = DefaultHasher::new();
    let mut i: usize = 0;
    assert(files@.take(0) =~= Seq::<SnapshotFile>::empty());
    while i < files.len()
        invariant
            i <= files@.len(),
            is_metadata_file(skip@),
            h@ == checksum_writes(files@.take(i as int)),
        decreases files@.len() - i,
    {
        proof {
            let t = files@.take(i + 1);
            assert(t.drop_last() =~= files@.take(i as int));
            assert(t.last() == files@[i as int]);
        }
        if files[i].name != skip {
            let mut len_bytes: Vec<u8> = Vec::new();
            proof {
                crate::bytes::lemma_pow256_values();
            }
            push_le(&mut len_bytes, files[i].contents.len() as u128, 8);
            assert(len_bytes@ =~= le_bytes(files@[i as int].contents@.len(), 8));
            h.write(len_bytes.as_slice());
            h.write(files[i].contents.as_slice());
            proof {
                let before = checksum_writes(files@.take(i as int));
                assert(h@ =~= before + seq![le_bytes(files@[i as int].contents@.len(), 8), files@[i as int].contents@]);
            }
        }
        i = i + 1;
    }
    assert(files@.take(files@.len() as int) =~= files@);
    let x = h.finish();
    numeral_string(x, 16)
}

/// Checks a snapshot's files against the checksum it recorded: a mismatch
/// is `Corruption`.
pub fn verify_snapshot(meta: &SnapshotMetadata, files: &Vec<SnapshotFile>) -> (r: Result<(), VectorDbError>)
    ensures
        r is Ok <==> meta.checksum@ == checksum_text(files@),
        r matches Err(e) ==> e is Corruption,
{
    let actual = snapshot_checksum(files);
    if actual == meta.checksum {
        Ok(())
    } else {
        Err(VectorDbError::Corruption { message: String::from_str("snapshot checksum mismatch") })
    }
}

/// The names of the files a restore copies: all but the metadata file.
pub fn files_to_restore(files: &Vec<SnapshotFile>) -> (r: Vec<String>)
    ensures
        forall|i: int| 0 <= i < r@.len() ==> !is_metadata_file((#[trigger] r@[i])@),
        forall|i: int| 0 <= i < files@.len() && !is_metadata_file((#[trigger] files@[i]).name@) ==> exists|j: int|
            0 <= j < r@.len() && r@[j]@ == files@[i].name@,
{
    let skip = metadata_file_name();
    let mut out: Vec<String> = Vec::new();
    let mut i: usize = 0;
    while i < files.len()
        invariant
            i <= files@.len(),
            is_metadata_file(skip@),
            forall|q: int| 0 <= q < out@.len() ==> !is_metadata_file((#[trigger] out@[q])@),
            forall|q: int| 0 <= q < i && !is_metadata_file((#[trigger] files@[q]).name@) ==> exists|j: int|
                0 <= j < out@.len() && out@[j]@ == files@[q].name@,
        decreases files@.len() - i,
    {
        if files[i].name != skip {
            let ghost before = out@;
            out.push(files[i].name.clone());
            proof {
                assert(out@[before.len() as int]@ == files@[i as int].name@);
                assert forall|q: int| 0 <= q < i && !is_metadata_file((#[trigger] files@[q]).name@) implies exists|j: int|
                    0 <= j < out@.len() && out@[j]@ == files@[q].name@ by {
                    let j = choose|j: int| 0 <= j < before.len() && before[j]@ == files@[q].name@;
                    assert(out@[j] == before[j]);
                }
            }
        }
        i = i + 1;
    }
    out
}

/// The directory name of a snapshot of `collection` taken at `timestamp`
/// (unix seconds): "<collection>_<timestamp>".
pub fn snapshot_name(collection: &str, timestamp: u64) -> (r: String)
    ensures
        r@ == collection@ + seq!['_'] + numeral(timestamp as nat, 10),
{
    let ts = numeral_string(timestamp, 10);
    underscore_join(collection, ts.as_str())
}

/// `v` is ordered newest first.
pub open spec fn newest_first(v: Seq<SnapshotMetadata>) -> bool {
    forall|i: int, j: int| 0 <= i <= j < v.len() ==> (#[trigger] v[i]).created_at >= (#[trigger] v[j]).created_at
}

/// Orders snapshots newest first.
pub fn sort_newest_first(v: Vec<SnapshotMetadata>) -> (r: Vec<SnapshotMetadata>)
    ensures
        newest_first(r@),
        r@.to_multiset() == v@.to_multiset(),
{
    let mut out: Vec<SnapshotMetadata> = Vec::new();
    let _len = v.len();
    let mut rest = v;
    let ghost all = rest@;
    assert(all.take(0) =~= Seq::<SnapshotMetadata>::empty());
    let mut done: usize = 0;
    while rest.len() > 0
        invariant
            newest_first(out@),
            rest@ == all.skip(done as int),
            done + rest@.len() == all.len(),
            all.len() <= usize::MAX,
            out@.to_multiset() == all.take(done as int).to_multiset(),
        decreases rest@.len(),
    {
        let item = rest.remove(0);
        proof {
            assert(item == all[done as int]);
        }
        let mut p: usize = 0;
        while p < out.len() && out[p].created_at >= item.created_at
            invariant
                p <= out@.len(),
                newest_first(out@),
                forall|j: int| 0 <= j < p ==> (#[trigger] out@[j]).created_at >= item.created_at,
            decreases out@.len() - p,
        {
            p = p + 1;
        }
        let ghost before = out@;
        let ghost it = item;
        out.insert(p, item);
        proof {
            vstd::seq_lib::to_multiset_insert(before, p as int, it);
            let t = all.take(done + 1);
            assert(t =~= all.take(done as int).push(it));
            vstd::seq_lib::to_multiset_build(all.take(done as int), it);
            assert(all.skip(done + 1) =~= rest@);
            assert forall|i: int, j: int| 0 <= i <= j < out@.len() implies (#[trigger] out@[i]).created_at >= (#[trigger] out@[j]).created_at by {
                if i < p && j > p {
                    assert(before[i].created_at >= before[j - 1].created_at);
                } else if i < p && j < p {
                    assert(before[i].created_at >= before[j].created_at);
                } else if i > p {
                    assert(before[i - 1].created_at >= before[j - 1].created_at);
                } else if i == p && j > p {
                    assert(before[p as int].created_at < it.created_at);
                    assert(before[p as int].created_at >= before[j - 1].created_at);
                } else if i < p && j == p {
                    assert(before[i].created_at >= it.created_at);
                }
            }
        }
        done = done + 1;
    }
    assert(all.take(all.len() as int) =~= all);
    out
}

/// The snapshots a cleanup removes from a newest-first list: all after the
/// first `keep`.
pub fn snapshots_to_delete(sorted: Vec<SnapshotMetadata>, keep: usize) -> (r: Vec<SnapshotMetadata>)
    ensures
        sorted@.len() <= keep ==> r@.len() == 0,
        sorted@.len() > keep ==> r@ == sorted@.skip(keep as int),
{
    let mut s = sorted;
    if s.len() <= keep {
        return Vec::new();
    }
    let r = s.split_off(keep);
    assert(r@ =~= sorted@.skip(keep as int));
    r
}


/// Where the snapshots of a data directory live: its `snapshots` directory.
pub struct SnapshotManager {
    pub snapshots_dir: String,
}

impl SnapshotManager {
    pub fn new(data_dir: &str) -> (r: Self)
        ensures
            r.snapshots_dir@ == data_dir@ + seq!['/', 's', 'n', 'a', 'p', 's', 'h', 'o', 't', 's'],
    {
        let mut dir = String::from_str(data_dir);
        proof {
            reveal_strlit("/snapshots");
            assert("/snapshots"@ =~= seq!['/', 's', 'n', 'a', 'p', 's', 'h', 'o', 't', 's']);
        }
        dir.append("/snapshots");
        SnapshotManager { snapshots_dir: dir }
    }
}
} // verus!
