use vectordb::codec::Vector;
use vectordb::storage::{encode_batch, read_vectors_file, split_records};
use vectordb::types::VectorDbError;

fn vector(id: u128, data: &[f32]) -> Vector {
    Vector { id, data: data.iter().map(|x| x.to_bits()).collect(), metadata: None }
}

#[test]
fn batch_round_trip_through_file_bytes() {
    let vs = vec![vector(1, &[1.0, 2.0]), vector(2, &[3.0, 4.0])];
    let bytes = encode_batch(&vs, 2).unwrap();
    let back = read_vectors_file(&bytes).unwrap();
    assert_eq!(back.len(), 2);
    assert_eq!(back[0].id, 1);
    assert_eq!(back[1].data, vs[1].data);
}

#[test]
fn empty_batch_writes_nothing() {
    assert!(encode_batch(&Vec::new(), 3).unwrap().is_empty());
    assert!(read_vectors_file(&Vec::new()).unwrap().is_empty());
}

#[test]
fn dimension_mismatch_is_reported() {
    let vs = vec![vector(1, &[1.0, 2.0]), vector(2, &[3.0])];
    match encode_batch(&vs, 2) {
        Err(VectorDbError::InvalidDimension { expected, actual }) => {
            assert_eq!(expected, 2);
            assert_eq!(actual, 1);
        }
        _ => panic!("expected InvalidDimension"),
    }
}

#[test]
fn record_cut_short_is_an_error() {
    let bytes = encode_batch(&vec![vector(1, &[1.0])], 1).unwrap();
    let cut = bytes[..bytes.len() - 2].to_vec();
    assert!(matches!(read_vectors_file(&cut), Err(VectorDbError::StorageError { .. })));
    assert!(matches!(split_records(&vec![1, 0]), Err(VectorDbError::StorageError { .. })));
}

#[test]
fn undecodable_record_is_passed_over() {
    let mut bytes = vec![2, 0, 0, 0, 0xff, 0xff];
    bytes.extend(encode_batch(&vec![vector(7, &[1.5])], 1).unwrap());
    let back = read_vectors_file(&bytes).unwrap();
    assert_eq!(back.len(), 1);
    assert_eq!(back[0].id, 7);
    assert_eq!(split_records(&bytes).unwrap().len(), 2);
}
