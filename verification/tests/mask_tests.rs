use bitchess::mask_for_square::for_file;
use bitchess::mask_for_square::for_rank;
use bitchess::mask_for_square::for_square;

#[test]
fn calculates_last_file() {
    assert!(for_file(7) == 0x8080808080808080);
}

#[test]
fn calculates_second_to_last_file() {
    assert!(for_file(6) == 0x4040404040404040);
}

#[test]
fn calculates_first_file() {
    assert!(for_file(0) == 0x101010101010101);
}

#[test]
fn calculates_last_rank() {
    assert!(for_rank(7) == 0xFF00000000000000);
}

#[test]
fn calculates_second_to_last_rank() {
    assert!(for_rank(6) == 0xFF000000000000);
}

#[test]
fn calculates_first_rank() {
    assert!(for_rank(0) == 0xFF);
}

#[test]
fn calculates_last_square() {
    assert!(for_square(63) == 0xFF80808080808080);
}

#[test]
fn calculates_first_square() {
    assert!(for_square(0) == 0x1010101010101FF);
}

#[test]
fn calculates_square_43() {
    assert!(for_square(43) == 0x0808FF0808080808);
}
