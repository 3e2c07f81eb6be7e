use mathion::field::GaloisField;
use mathion::matrix::{Matrix, MatrixRing};

#[test]
fn matrix_keeps_rows_and_dimensions() {
    let rows = vec![
        vec![GaloisField::from(1), GaloisField::from(2), GaloisField::from(3)],
        vec![GaloisField::from(1), GaloisField::from(2), GaloisField::from(3)],
    ];
    let m: Matrix<GaloisField> = Matrix::new(rows, 2, 3);
    assert_eq!(m.row(), 2);
    assert_eq!(m.column(), 3);
    assert_eq!(m.height(), 2);
    assert_eq!(m.get_row(1)[2].val, 3);
    let n: MatrixRing<u8> = MatrixRing::new(Vec::new(), 4, 5);
    assert_eq!(n.row(), 4);
    assert_eq!(n.column(), 5);
    assert_eq!(n.height(), 0);
}
