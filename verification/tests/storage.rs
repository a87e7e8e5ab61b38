use transformer_cpu::row::slice;
use transformer_cpu::tensor::byte_len;
use transformer_cpu::{tensor, DataType, Shape};

#[test]
fn sizes_of_types() {
    assert_eq!(DataType::U32.size(), 4);
    assert_eq!(DataType::F16.size(), 2);
    assert_eq!(DataType::BF16.size(), 2);
    assert_eq!(DataType::F32.size(), 4);
}

#[test]
fn tensor_is_stored_exactly() {
    let t = tensor(DataType::F16, &[3, 5, 7]);
    assert_eq!(t.data_type, DataType::F16);
    assert_eq!(t.shape.as_slice(), &[3, 5, 7]);
    assert_eq!(t.bytes, 210);
}

#[test]
fn tensor_without_axes_has_one_element() {
    assert_eq!(tensor(DataType::U32, &[]).bytes, 4);
    assert_eq!(tensor(DataType::U32, &[4, 0]).bytes, 0);
}

#[test]
fn too_many_elements_cannot_be_stored() {
    assert_eq!(byte_len(DataType::F16, &[65536, 65535]), Some(8589803520));
    assert_eq!(byte_len(DataType::F16, &[65536, 65536]), None);
    assert_eq!(byte_len(DataType::F16, &[65536, 65536, 0]), None);
    assert_eq!(byte_len(DataType::F16, &[0, 65536, 65536]), Some(0));
}

#[test]
fn shape_holds_more_axes_than_fit_inline() {
    let shape = Shape::from_slice(&[1, 2, 3, 4, 5, 6]);
    assert_eq!(shape.as_slice(), &[1, 2, 3, 4, 5, 6]);
}

#[test]
fn rows_of_a_table() {
    let table = [1, 2, 3, 4, 5, 6];
    assert_eq!(slice(&table, 2, 0), &[1, 2]);
    assert_eq!(slice(&table, 2, 2), &[5, 6]);
    assert_eq!(slice(&table, 6, 0), &table);
    assert_eq!(slice(&table, 0, 9), &[] as &[i32]);
}

#[test]
fn items_stand_in_their_rows() {
    let table = [1, 2, 3, 4, 5, 6];
    for at in 0..6 {
        assert_eq!(slice(&table, 3, at / 3)[at % 3], table[at]);
    }
}
