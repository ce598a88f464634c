use tsp_engine::{shift_left, shift_right, swap};

#[test]
fn test_swap() {
    let mut arr1 = [1, 2, 3, 4];
    swap(&mut arr1, 1, 2);
    assert_eq!(arr1, [1, 3, 2, 4]);
}

#[test]
fn test_shift() {
    let arr1 = [1, 2, 3, 4];
    let arr2 = shift_right(&arr1);
    assert_eq!(arr2, [4, 1, 2, 3]);
    let arr3 = shift_left(&arr2);
    assert_eq!(arr3, arr1);
}
