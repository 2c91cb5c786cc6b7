use ordered_tree::matrix::Matrix;

#[test]
fn test() {
    let x = Matrix::new(2, 3, &[-2, -1, 0, 1, 2, 3]);
    let y = Matrix::new(2, 3, &[1, 2, 3, 4, 5, 6]);
    assert_eq!(x.add(&y).sub(&y), x);
    assert_eq!(x.to_display_string(), "-2 -1 0\n1 2 3\n");
}

#[test]
fn size_and_data() {
    let m = Matrix::new(2, 2, &[1, 2, 3, 4]);
    assert_eq!(m.size(), (2, 2));
    assert_eq!(m.data(), &vec![1, 2, 3, 4]);
}

#[test]
fn empty_matrix_starts_blank() {
    let mut m = Matrix::new_empty(2, 2);
    assert_eq!(m.size(), (2, 2));
    assert_eq!(m.data().len(), 0);
    let d = m.mut_data();
    d.push(5);
    d.push(6);
    d.push(7);
    d.push(8);
    assert_eq!(m.data(), &vec![5, 6, 7, 8]);
    assert_eq!(m.to_display_string(), "5 6\n7 8\n");
}

#[test]
fn addition_and_subtraction_entrywise() {
    let x = Matrix::new(2, 2, &[1, 2, 3, 4]);
    let y = Matrix::new(2, 2, &[10, 20, 30, 40]);
    assert_eq!(x.add(&y), Matrix::new(2, 2, &[11, 22, 33, 44]));
    assert_eq!(y.sub(&x), Matrix::new(2, 2, &[9, 18, 27, 36]));
}

#[test]
fn multiplication_two_by_two() {
    let x = Matrix::new(2, 2, &[1, 2, 3, 4]);
    let y = Matrix::new(2, 2, &[5, 6, 7, 8]);
    assert_eq!(x.mul(&y), Matrix::new(2, 2, &[19, 22, 43, 50]));
}

#[test]
fn multiplication_rectangular() {
    let x = Matrix::new(2, 3, &[1, 2, 3, 4, 5, 6]);
    let y = Matrix::new(3, 1, &[7, 8, 9]);
    assert_eq!(x.mul(&y), Matrix::new(2, 1, &[50, 122]));
}

#[test]
fn display_negative_and_single_row() {
    let m = Matrix::new(1, 3, &[-10, 0, 250]);
    assert_eq!(m.to_display_string(), "-10 0 250\n");
}

#[test]
fn matrices_compare_by_contents() {
    let a = Matrix::new(2, 2, &[1, 2, 3, 4]);
    let b = Matrix::new(2, 2, &[1, 2, 3, 4]);
    let c = Matrix::new(1, 4, &[1, 2, 3, 4]);
    assert_eq!(a, b);
    assert_ne!(a, c);
}
