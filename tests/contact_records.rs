use address_book::{Contact, ParseError};

fn ada() -> Contact {
    Contact::new(
        "Ada".to_string(),
        "Lovelace".to_string(),
        "London".to_string(),
        "555-0100".to_string(),
        0,
    )
}

#[test]
fn new_contact_follows_last_assigned_id() {
    let c = Contact::new("A".to_string(), "B".to_string(), "C".to_string(), "D".to_string(), 41);
    assert_eq!(c.get_id(), 42);
}

#[test]
fn full_name_joins_with_a_space() {
    assert_eq!(ada().get_full_name(), "Ada Lovelace");
}

#[test]
fn phone_number_is_returned() {
    assert_eq!(ada().get_phone_number(), "555-0100");
}

#[test]
fn encode_writes_five_tab_separated_fields() {
    assert_eq!(ada().to_tsv_string(), "1\tAda\tLovelace\tLondon\t555-0100");
}

#[test]
fn encode_writes_large_ids_in_decimal() {
    let c = Contact::new("a".to_string(), "b".to_string(), "c".to_string(), "d".to_string(), 1233);
    assert_eq!(c.to_tsv_string(), "1234\ta\tb\tc\td");
    let m = Contact::new("a".to_string(), "b".to_string(), "c".to_string(), "d".to_string(), usize::MAX - 1);
    assert_eq!(m.to_tsv_string(), format!("{}\ta\tb\tc\td", usize::MAX));
}

#[test]
fn decode_reads_encoded_contact_back() {
    let c = ada();
    assert_eq!(Contact::from_tsv_string(&c.to_tsv_string()), Ok(c));
}

#[test]
fn decode_round_trip_of_largest_id() {
    let c = Contact::new("Ünïcode".to_string(), "x y".to_string(), "".to_string(), "7".to_string(), usize::MAX - 1);
    assert_eq!(Contact::from_tsv_string(&c.to_tsv_string()), Ok(c));
}

#[test]
fn decode_reads_fields_in_order() {
    let c = Contact::from_tsv_string("2\tC\tD\tAddr\t222").unwrap();
    let expected = Contact::new("C".to_string(), "D".to_string(), "Addr".to_string(), "222".to_string(), 1);
    assert_eq!(c, expected);
}

#[test]
fn decode_keeps_white_space_in_text_fields() {
    let c = Contact::from_tsv_string("3\t A\tB \tC\tD \r").unwrap();
    assert_eq!(c.get_id(), 3);
    assert_eq!(c.get_full_name(), " A B ");
    assert_eq!(c.get_phone_number(), "D \r");
}

#[test]
fn decode_refuses_white_space_around_id() {
    assert_eq!(Contact::from_tsv_string("  3\tA\tB\tC\tD"), Err(ParseError::InvalidId));
    assert_eq!(Contact::from_tsv_string("3 \tA\tB\tC\tD"), Err(ParseError::InvalidId));
}

#[test]
fn decode_accepts_plus_sign_on_id() {
    let c = Contact::from_tsv_string("+7\tA\tB\tC\tD").unwrap();
    assert_eq!(c.get_id(), 7);
}

#[test]
fn decode_keeps_empty_inner_fields() {
    let c = Contact::from_tsv_string("4\t\t\t\tD").unwrap();
    assert_eq!(c.get_full_name(), " ");
    assert_eq!(c.to_tsv_string(), "4\t\t\t\tD");
}

#[test]
fn decode_refuses_too_few_fields() {
    let r = Contact::from_tsv_string("1\tA\tB\tAddr");
    assert!(matches!(r, Err(ParseError::InvalidData(_))));
}

#[test]
fn decode_refuses_too_many_fields() {
    let r = Contact::from_tsv_string("1\tA\tB\tAddr\t111\textra");
    assert!(matches!(r, Err(ParseError::InvalidData(_))));
}

#[test]
fn decode_refuses_empty_line() {
    assert!(matches!(Contact::from_tsv_string(""), Err(ParseError::InvalidData(_))));
}

#[test]
fn decode_accepts_empty_phone() {
    let c = Contact::from_tsv_string("1\tA\tB\tAddr\t").unwrap();
    assert_eq!(c.get_phone_number(), "");
    assert_eq!(c.get_full_name(), "A B");
}

#[test]
fn empty_phone_round_trips() {
    let c = Contact::new("A".to_string(), "B".to_string(), "C".to_string(), "".to_string(), 0);
    assert_eq!(Contact::from_tsv_string(&c.to_tsv_string()), Ok(c));
}

#[test]
fn phone_ending_in_white_space_round_trips() {
    let c = Contact::new("A".to_string(), "B".to_string(), "C".to_string(), "555 ".to_string(), 0);
    assert_eq!(Contact::from_tsv_string(&c.to_tsv_string()), Ok(c));
}

#[test]
fn decode_refuses_trailing_tab_after_five_fields() {
    let r = Contact::from_tsv_string("1\tA\tB\tC\tD\t");
    assert!(matches!(r, Err(ParseError::InvalidData(_))));
}

#[test]
fn decode_refuses_non_numeric_id() {
    assert_eq!(Contact::from_tsv_string("x\tA\tB\tAddr\t111"), Err(ParseError::InvalidId));
}

#[test]
fn decode_refuses_negative_id() {
    assert_eq!(Contact::from_tsv_string("-1\tA\tB\tAddr\t111"), Err(ParseError::InvalidId));
}

#[test]
fn decode_refuses_empty_id() {
    assert_eq!(Contact::from_tsv_string("\tA\tB\tAddr\t111"), Err(ParseError::InvalidId));
}

#[test]
fn decode_refuses_bare_plus_id() {
    assert_eq!(Contact::from_tsv_string("+\tA\tB\tC\tD"), Err(ParseError::InvalidId));
}

#[test]
fn decode_refuses_id_too_large() {
    let line = "18446744073709551616000\tA\tB\tAddr\t111";
    assert_eq!(Contact::from_tsv_string(line), Err(ParseError::InvalidId));
}
