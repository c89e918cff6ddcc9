use irr::errors::BorrowingError;

#[test]
fn generic_error_keeps_its_message() {
    match BorrowingError::generic("no loan in common") {
        BorrowingError::Generic(m) => assert_eq!(m, "no loan in common"),
        _ => panic!("wrong variant"),
    }
}
