//! Ids as texts.

use repodeck::ids::{read_id, write_id};

#[test]
fn an_id_is_written_in_its_hyphenated_form() {
    assert_eq!(
        write_id(0x0123_4567_89ab_cdef_0011_2233_4455_6677),
        "01234567-89ab-cdef-0011-223344556677"
    );
    assert_eq!(write_id(1), "00000000-0000-0000-0000-000000000001");
}

#[test]
fn an_id_is_read_again() {
    for id in [0, 1, 0x0123_4567_89ab_cdef_0011_2233_4455_6677, u128::MAX] {
        assert_eq!(read_id(&write_id(id)), Some(id));
    }
    assert_eq!(read_id("0123456789ABCDEF0011223344556677"), read_id("01234567-89ab-cdef-0011-223344556677"));
}

#[test]
fn other_texts_are_no_ids() {
    assert_eq!(read_id(""), None);
    assert_eq!(read_id("SET-1"), None);
    assert_eq!(read_id("01234567-89ab-cdef-0011-22334455667"), None);
}
