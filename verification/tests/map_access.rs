//! The validated ridge-map container and the plain data records.

use bioguard::grid::RidgeMapError;
use bioguard::models::{Credential, User};
use bioguard::ridge_map::BinaryRidgeMap;

fn zeros(h: usize, w: usize) -> Vec<Vec<u8>> {
    vec![vec![0u8; w]; h]
}

#[test]
fn undersized_and_ragged_and_nonbinary_grids_are_invalid() {
    assert!(matches!(
        BinaryRidgeMap::new(zeros(2, 5)),
        Err(RidgeMapError::InvalidInput)
    ));
    assert!(matches!(
        BinaryRidgeMap::new(zeros(5, 2)),
        Err(RidgeMapError::InvalidInput)
    ));
    let mut ragged = zeros(4, 4);
    ragged[2].push(0);
    assert!(matches!(
        BinaryRidgeMap::new(ragged),
        Err(RidgeMapError::InvalidInput)
    ));
    let mut nonbinary = zeros(4, 4);
    nonbinary[1][1] = 2;
    assert!(matches!(
        BinaryRidgeMap::new(nonbinary),
        Err(RidgeMapError::InvalidInput)
    ));
}

#[test]
fn get_set_and_dimensions_work_within_bounds() {
    let mut m = BinaryRidgeMap::new(zeros(4, 6)).unwrap();
    assert_eq!(m.dimensions(), (4, 6));
    assert_eq!(m.get(2, 5), Ok(0));
    assert_eq!(m.set(2, 5, 1), Ok(()));
    assert_eq!(m.get(2, 5), Ok(1));
    assert_eq!(m.get(4, 0), Err(RidgeMapError::OutOfBounds));
    assert_eq!(m.get(0, 6), Err(RidgeMapError::OutOfBounds));
    assert_eq!(m.set(9, 9, 0), Err(RidgeMapError::OutOfBounds));
    let cells = m.into_cells();
    assert_eq!(cells[2][5], 1);
}

#[test]
fn neighbor_access_is_interior_only() {
    let mut cells = zeros(5, 5);
    cells[1][2] = 1; // north of (2,2)
    cells[3][1] = 1; // south-west of (2,2)
    let m = BinaryRidgeMap::new(cells).unwrap();
    assert_eq!(m.neighbors(2, 2), Ok(vec![1, 0, 0, 0, 0, 1, 0, 0]));
    assert_eq!(m.neighbors(0, 2), Err(RidgeMapError::OutOfBounds));
    assert_eq!(m.neighbors(2, 4), Err(RidgeMapError::OutOfBounds));
    assert_eq!(m.neighbors(7, 7), Err(RidgeMapError::OutOfBounds));
}

#[test]
fn data_records_hold_their_fields() {
    let user = User {
        id: 7,
        username: String::from("ada"),
        fingerprint_image: vec![0, 1, 1, 0],
    };
    assert_eq!(user.fingerprint_image.len(), 4);
    let cred = Credential {
        id: 1,
        username: String::from("ada"),
        site: String::from("example.org"),
        site_username: String::from("ada@example.org"),
        site_password: String::from("pw"),
    };
    let copy = cred.clone();
    assert_eq!(cred, copy);
}
