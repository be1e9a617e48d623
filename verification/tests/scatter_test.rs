use array_scatter::array::Array;
use array_scatter::builder::{Builder, BytesBuilder, ListBuilder, PrimitiveBuilder};
use array_scatter::scatter::ScatterError;

fn primitive_values(a: &Array) -> Vec<u64> {
    match a {
        Array::Primitive(p) => p.values().clone(),
        _ => panic!("expected a primitive array"),
    }
}

fn bytes_data(a: &Array) -> Vec<u8> {
    match a {
        Array::Bytes(b) => b.value_data().clone(),
        _ => panic!("expected a bytes array"),
    }
}

fn packed_booleans(a: &Array) -> Vec<u8> {
    match a {
        Array::Boolean(b) => b.packed_values(),
        _ => panic!("expected a boolean array"),
    }
}

fn list_child_values(a: &Array) -> Vec<u64> {
    match a {
        Array::List(l) => primitive_values(&l.values),
        _ => panic!("expected a list array"),
    }
}

fn utf8_array(texts: &[&str]) -> Array {
    let mut builder = BytesBuilder::with_capacity(texts.len(), 8);
    for t in texts {
        builder.append_value(t.as_bytes());
    }
    Array::Bytes(builder.finish())
}

fn list_of_primitives(groups: &[&[u64]]) -> Array {
    let child = Builder::Primitive(PrimitiveBuilder::with_capacity(0));
    let mut builder = ListBuilder::with_child(child, groups.len());
    for g in groups {
        let source = Array::primitive_from_values(g.to_vec());
        builder.append_range(&source, 0, g.len());
    }
    Array::List(builder.finish())
}

#[test]
fn test_scatter() {
    // A primitive array of 1..=10.
    let df_uint16_array = Array::primitive_from_values((1u64..11).collect());
    // Create the indice array
    let indices: Vec<usize> = vec![1, 2, 3, 1, 3, 2, 0, 3, 1, 0];
    // The number of rows should be equal to the length of indices
    assert_eq!(df_uint16_array.len(), indices.len());

    let array_vec = df_uint16_array.scatter_unchecked(&indices, 4);
    assert_eq!(&[7u64, 10], primitive_values(&array_vec[0]).as_slice());
    assert_eq!(&[1u64, 4, 9], primitive_values(&array_vec[1]).as_slice());
    assert_eq!(&[2u64, 6], primitive_values(&array_vec[2]).as_slice());
    assert_eq!(&[3u64, 5, 8], primitive_values(&array_vec[3]).as_slice());

    // A UTF-8 text array.
    let df_utf8_array = utf8_array(&["a", "b", "c", "d"]);
    let indices: Vec<usize> = vec![1, 0, 1, 1];
    assert_eq!(df_utf8_array.len(), indices.len());

    let array_vec = df_utf8_array.scatter_unchecked(&indices, 2);
    assert_eq!(&"b".as_bytes(), &bytes_data(&array_vec[0]).as_slice());
    assert_eq!(&"acd".as_bytes(), &bytes_data(&array_vec[1]).as_slice());

    // A boolean array.
    let df_bool_array = Array::boolean_from_values(vec![true, false, true, false]);
    let indices: Vec<usize> = vec![1, 0, 0, 1];
    assert_eq!(df_bool_array.len(), indices.len());

    let array_vec = df_bool_array.scatter_unchecked(&indices, 2);
    assert_eq!(&[2], &packed_booleans(&array_vec[0]).as_slice());
    assert_eq!(&[1], &packed_booleans(&array_vec[1]).as_slice());

    // An opaque binary array.
    let mut binary_builder = BytesBuilder::with_capacity(4, 8);
    binary_builder.append_value("12".as_bytes());
    binary_builder.append_value("ab".as_bytes());
    binary_builder.append_value("c".as_bytes());
    binary_builder.append_value("3".as_bytes());
    let df_binary_array = Array::Bytes(binary_builder.finish());
    let indices: Vec<usize> = vec![1, 0, 0, 1];
    let array_vec = df_binary_array.scatter_unchecked(&indices, 2);
    assert_eq!([b'a', b'b', b'c'], bytes_data(&array_vec[0]).as_slice());
    assert_eq!([b'1', b'2', b'3'], bytes_data(&array_vec[1]).as_slice());

    // A list-of-primitives array.
    let df_list = list_of_primitives(&[&[1, 2, 3], &[7, 8, 9], &[10, 11, 12], &[4, 5, 6]]);
    let indices: Vec<usize> = vec![1, 0, 0, 1];
    let array_vec = df_list.scatter_unchecked(&indices, 2);

    let expected1 = vec![7u64, 8, 9, 10, 11, 12];
    let expected2 = vec![1u64, 2, 3, 4, 5, 6];
    assert_eq!(expected1, list_child_values(&array_vec[0]));
    assert_eq!(expected2, list_child_values(&array_vec[1]));
}

#[test]
fn test_scatter_checked_matches_unchecked() {
    let array = Array::primitive_from_values((1u64..11).collect());
    let indices: Vec<usize> = vec![1, 2, 3, 1, 3, 2, 0, 3, 1, 0];
    let out = array.scatter(&indices, 4).unwrap();
    assert_eq!(out.len(), 4);
    assert_eq!(&[7u64, 10], primitive_values(&out[0]).as_slice());
    assert_eq!(&[1u64, 4, 9], primitive_values(&out[1]).as_slice());
    assert_eq!(&[2u64, 6], primitive_values(&out[2]).as_slice());
    assert_eq!(&[3u64, 5, 8], primitive_values(&out[3]).as_slice());
}

#[test]
fn test_scatter_single_partition_is_identity() {
    let array = Array::primitive_from_values(vec![9, 8, 7, 6]);
    let indices: Vec<usize> = vec![0, 0, 0, 0];
    let out = array.scatter(&indices, 1).unwrap();
    assert_eq!(out.len(), 1);
    assert_eq!(vec![9u64, 8, 7, 6], primitive_values(&out[0]));
    assert_eq!(out[0].len(), 4);
    for i in 0..4 {
        assert!(!out[0].is_null(i));
    }
}

#[test]
fn test_scatter_empty_input_yields_empty_arrays() {
    let array = Array::primitive_from_values(Vec::new());
    let indices: Vec<usize> = Vec::new();
    let out = array.scatter(&indices, 3).unwrap();
    assert_eq!(out.len(), 3);
    for a in &out {
        assert_eq!(a.len(), 0);
    }

    // Zero partitions are fine when there is nothing to scatter.
    let out = array.scatter(&indices, 0).unwrap();
    assert_eq!(out.len(), 0);
}

#[test]
fn test_scatter_carries_nulls_through() {
    let mut builder = PrimitiveBuilder::with_capacity(5);
    builder.append_value(1);
    builder.append_null();
    builder.append_value(3);
    builder.append_null();
    builder.append_value(5);
    let array = Array::Primitive(builder.finish());
    let indices: Vec<usize> = vec![0, 1, 0, 1, 0];
    let out = array.scatter(&indices, 2).unwrap();

    assert_eq!(out[0].len(), 3);
    assert!(!out[0].is_null(0));
    assert!(!out[0].is_null(1));
    assert!(!out[0].is_null(2));
    assert_eq!(vec![1u64, 3, 5], primitive_values(&out[0]));

    assert_eq!(out[1].len(), 2);
    assert!(out[1].is_null(0));
    assert!(out[1].is_null(1));
}

#[test]
fn test_scatter_length_mismatch_errors() {
    let array = Array::primitive_from_values(vec![1, 2, 3, 4]);

    let short: Vec<usize> = vec![0, 1];
    let err = array.scatter(&short, 2).map(|_| ()).unwrap_err();
    assert_eq!(err, ScatterError::LengthMismatch { array_len: 4, destinations_len: 2 });

    let long: Vec<usize> = vec![0, 1, 0, 1, 0, 1];
    let err = array.scatter(&long, 2).map(|_| ()).unwrap_err();
    assert_eq!(err, ScatterError::LengthMismatch { array_len: 4, destinations_len: 6 });
}

#[test]
fn test_scatter_invalid_destination_errors() {
    let array = Array::primitive_from_values(vec![1, 2, 3, 4]);
    // A destination equal to the partition count is out of range; the
    // first offending row is reported.
    let indices: Vec<usize> = vec![0, 1, 2, 1];
    let err = array.scatter(&indices, 2).map(|_| ()).unwrap_err();
    assert_eq!(err, ScatterError::InvalidDestination { row: 2, destination: 2 });
}

#[test]
fn test_scatter_zero_partitions_errors() {
    let array = Array::primitive_from_values(vec![1, 2, 3, 4]);
    let indices: Vec<usize> = vec![0, 0, 0, 0];
    let err = array.scatter(&indices, 0).map(|_| ()).unwrap_err();
    assert_eq!(err, ScatterError::ZeroPartitions);
}

#[test]
fn test_scatter_conserves_lengths() {
    let array = Array::primitive_from_values((1u64..11).collect());
    let indices: Vec<usize> = vec![1, 2, 3, 1, 3, 2, 0, 3, 1, 0];
    let out = array.scatter(&indices, 4).unwrap();

    let total: usize = out.iter().map(|a| a.len()).sum();
    assert_eq!(total, array.len());
    for (k, a) in out.iter().enumerate() {
        let expected = indices.iter().filter(|d| **d == k).count();
        assert_eq!(a.len(), expected);
    }
}

#[test]
fn test_scatter_round_trip_is_stable_sort_by_destination() {
    let array = Array::primitive_from_values((1u64..11).collect());
    let indices: Vec<usize> = vec![1, 2, 3, 1, 3, 2, 0, 3, 1, 0];
    let out = array.scatter(&indices, 4).unwrap();

    let mut reassembled: Vec<u64> = Vec::new();
    for a in &out {
        reassembled.extend(primitive_values(a));
    }

    // A stable sort of the input values by their destination id.
    let mut expected: Vec<(usize, u64)> =
        indices.iter().copied().zip(1u64..11).collect();
    expected.sort_by_key(|(d, _)| *d);
    let expected: Vec<u64> = expected.into_iter().map(|(_, v)| v).collect();

    assert_eq!(reassembled, expected);
}

#[test]
fn test_slice_copies_a_sub_array() {
    let array = Array::primitive_from_values((1u64..11).collect());
    let sub = array.slice(3, 4);
    assert_eq!(primitive_values(&sub), vec![4, 5, 6, 7]);

    let texts = utf8_array(&["ab", "cde", "f", "gh"]);
    let sub = texts.slice(1, 2);
    assert_eq!(bytes_data(&sub), b"cdef".to_vec());
    match &sub {
        Array::Bytes(b) => {
            assert_eq!(b.value(0), b"cde".to_vec());
            assert_eq!(b.value(1), b"f".to_vec());
        },
        _ => panic!("expected a bytes array"),
    }
}

#[test]
fn test_packed_values_bit_layout() {
    // Nine values: the first byte packs eight of them least significant
    // bit first, the ninth starts a second byte; trailing bits are zero.
    let values = vec![true, false, true, true, false, false, true, true, true];
    let array = match Array::boolean_from_values(values) {
        Array::Boolean(b) => b,
        _ => unreachable!(),
    };
    assert_eq!(array.packed_values(), vec![0b1100_1101u8, 0b0000_0001u8]);
}

#[test]
fn test_bytes_value_accessor() {
    let array = utf8_array(&["hello", "", "world"]);
    let bytes = match &array {
        Array::Bytes(b) => b,
        _ => unreachable!(),
    };
    assert_eq!(bytes.value(0), b"hello".to_vec());
    assert_eq!(bytes.value(1), Vec::<u8>::new());
    assert_eq!(bytes.value(2), b"world".to_vec());
}

#[test]
fn test_scatter_strings_with_nulls() {
    let mut builder = BytesBuilder::with_capacity(4, 8);
    builder.append_value("ab".as_bytes());
    builder.append_null();
    builder.append_value("cd".as_bytes());
    builder.append_null();
    let array = Array::Bytes(builder.finish());
    let indices: Vec<usize> = vec![1, 0, 1, 1];
    let out = array.scatter(&indices, 2).unwrap();

    assert_eq!(out[0].len(), 1);
    assert!(out[0].is_null(0));
    assert_eq!(bytes_data(&out[0]), Vec::<u8>::new());

    assert_eq!(out[1].len(), 3);
    assert!(!out[1].is_null(0));
    assert!(!out[1].is_null(1));
    assert!(out[1].is_null(2));
    assert_eq!(bytes_data(&out[1]), b"abcd".to_vec());
}

#[test]
fn test_scatter_lists_with_nulls() {
    let child = Builder::Primitive(PrimitiveBuilder::with_capacity(0));
    let mut builder = ListBuilder::with_child(child, 3);
    let g1 = Array::primitive_from_values(vec![1, 2]);
    let g2 = Array::primitive_from_values(vec![3, 4, 5]);
    builder.append_range(&g1, 0, 2);
    builder.append_null();
    builder.append_range(&g2, 0, 3);
    let array = Array::List(builder.finish());

    let indices: Vec<usize> = vec![0, 1, 0];
    let out = array.scatter(&indices, 2).unwrap();

    assert_eq!(out[0].len(), 2);
    assert!(!out[0].is_null(0));
    assert!(!out[0].is_null(1));
    assert_eq!(list_child_values(&out[0]), vec![1, 2, 3, 4, 5]);
    match &out[0] {
        Array::List(l) => assert_eq!(l.offsets, vec![0, 2, 5]),
        _ => panic!("expected a list array"),
    }

    assert_eq!(out[1].len(), 1);
    assert!(out[1].is_null(0));
    assert_eq!(list_child_values(&out[1]), Vec::<u64>::new());
}

#[test]
fn test_boolean_values_survive_scatter() {
    let mut builder = array_scatter::builder::BooleanBuilder::with_capacity(4);
    builder.append_value(true);
    builder.append_null();
    builder.append_value(false);
    builder.append_value(true);
    let array = Array::Boolean(builder.finish());
    let indices: Vec<usize> = vec![1, 0, 1, 1];
    let out = array.scatter(&indices, 2).unwrap();

    match (&out[0], &out[1]) {
        (Array::Boolean(a), Array::Boolean(b)) => {
            assert!(!a.value(0));
            assert!(a.validity == vec![false]);
            assert!(b.value(0));
            assert!(!b.value(1));
            assert!(b.value(2));
            assert!(b.validity == vec![true, true, true]);
        },
        _ => panic!("expected boolean arrays"),
    }
}

#[test]
fn test_scatter_nested_lists_keep_groups_whole() {
    // Lists of lists: the outer scatter moves whole outer elements; the
    // inner grouping survives untouched.
    let inner = list_of_primitives(&[&[1, 2], &[3], &[4, 5], &[6]]);
    let child = Builder::Primitive(PrimitiveBuilder::with_capacity(0));
    let inner_builder = ListBuilder::with_child(child, 0);
    let mut outer_builder = ListBuilder::with_child(Builder::List(inner_builder), 2);
    // Outer element 0 holds inner groups [1,2] and [3]; element 1 holds
    // [4,5] and [6].
    outer_builder.append_range(&inner, 0, 2);
    outer_builder.append_range(&inner, 2, 2);
    let outer = Array::List(outer_builder.finish());

    let indices: Vec<usize> = vec![1, 0];
    let out = outer.scatter_unchecked(&indices, 2);

    match (&out[0], &out[1]) {
        (Array::List(a), Array::List(b)) => {
            assert_eq!(a.offsets, vec![0, 2]);
            assert_eq!(b.offsets, vec![0, 2]);
            match (&*a.values, &*b.values) {
                (Array::List(ia), Array::List(ib)) => {
                    assert_eq!(ia.offsets, vec![0, 2, 3]);
                    assert_eq!(ib.offsets, vec![0, 2, 3]);
                    assert_eq!(primitive_values(&ia.values), vec![4, 5, 6]);
                    assert_eq!(primitive_values(&ib.values), vec![1, 2, 3]);
                },
                _ => panic!("expected inner list arrays"),
            }
        },
        _ => panic!("expected list arrays"),
    }
}
