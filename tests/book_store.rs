use address_book::{AddressBook, Contact, ParseError};

fn contact(first: &str, last: &str, address: &str, phone: &str, last_id: usize) -> Contact {
    Contact::new(first.to_string(), last.to_string(), address.to_string(), phone.to_string(), last_id)
}

fn add_new(book: &mut AddressBook, first: &str, last: &str, address: &str, phone: &str) -> Contact {
    let c = contact(first, last, address, phone, book.last_assigned_id());
    book.add_contact(c.clone());
    c
}

#[test]
fn empty_book_finds_nothing() {
    let book = AddressBook::new();
    assert_eq!(book.last_assigned_id(), 0);
    assert_eq!(book.get_contact_by_id(&1), None);
    assert!(book.get_contacts_by_name("Ada Lovelace").is_empty());
    assert!(book.get_contacts_by_phone_number("555-0100").is_empty());
    assert!(book.all_contacts().is_empty());
}

#[test]
fn add_one_contact_and_look_it_up() {
    let mut book = AddressBook::new();
    let ada = add_new(&mut book, "Ada", "Lovelace", "London", "555-0100");
    assert_eq!(ada.get_id(), 1);
    assert_eq!(book.last_assigned_id(), 1);
    assert_eq!(book.get_contact_by_id(&1), Some(&ada));
    assert_eq!(book.get_contacts_by_name("Ada Lovelace"), vec![&ada]);
    assert_eq!(book.get_contacts_by_phone_number("555-0100"), vec![&ada]);
    assert!(book.get_contacts_by_phone_number("555-0199").is_empty());
    assert!(book.get_contacts_by_name("Ada").is_empty());
}

#[test]
fn shared_phone_lists_both_in_insertion_order() {
    let mut book = AddressBook::new();
    let a = add_new(&mut book, "Ada", "Lovelace", "London", "555-0100");
    let b = add_new(&mut book, "Charles", "Babbage", "London", "555-0100");
    assert_eq!(book.get_contacts_by_phone_number("555-0100"), vec![&a, &b]);
    assert_eq!(book.get_contacts_by_name("Charles Babbage"), vec![&b]);
}

#[test]
fn shared_name_lists_both_in_insertion_order() {
    let mut book = AddressBook::new();
    let a = add_new(&mut book, "John", "Smith", "X", "1");
    let b = add_new(&mut book, "John", "Smith", "Y", "2");
    assert_eq!(book.get_contacts_by_name("John Smith"), vec![&a, &b]);
}

#[test]
fn ids_follow_insertion_order() {
    let mut book = AddressBook::new();
    for n in 1..=5usize {
        let c = add_new(&mut book, "F", "L", "A", &n.to_string());
        assert_eq!(c.get_id(), n);
    }
    assert_eq!(book.last_assigned_id(), 5);
}

#[test]
fn each_added_contact_found_by_id() {
    let mut book = AddressBook::new();
    let added: Vec<Contact> = (0..4usize)
        .map(|k| contact("F", &k.to_string(), "A", "P", 10 * k))
        .collect();
    for c in &added {
        book.add_contact(c.clone());
    }
    for c in &added {
        assert_eq!(book.get_contact_by_id(&c.get_id()), Some(c));
    }
    assert_eq!(book.all_contacts().len(), 4);
}

#[test]
fn last_assigned_id_never_goes_down() {
    let mut book = AddressBook::new();
    book.add_contact(contact("A", "B", "C", "D", 9));
    book.add_contact(contact("E", "F", "G", "H", 2));
    assert_eq!(book.last_assigned_id(), 10);
    book.update_last_assigned_id(4);
    assert_eq!(book.last_assigned_id(), 10);
    book.update_last_assigned_id(12);
    assert_eq!(book.last_assigned_id(), 12);
}

#[test]
fn delete_removes_from_every_lookup() {
    let mut book = AddressBook::new();
    let ada = add_new(&mut book, "Ada", "Lovelace", "London", "555-0100");
    assert_eq!(book.delete_contact_by_id(1), Some(ada));
    assert_eq!(book.get_contact_by_id(&1), None);
    assert!(book.get_contacts_by_name("Ada Lovelace").is_empty());
    assert!(book.get_contacts_by_phone_number("555-0100").is_empty());
    assert!(book.all_contacts().is_empty());
    assert_eq!(book.last_assigned_id(), 1);
}

#[test]
fn delete_twice_is_a_no_op() {
    let mut book = AddressBook::new();
    add_new(&mut book, "Ada", "Lovelace", "London", "555-0100");
    assert!(book.delete_contact_by_id(1).is_some());
    assert_eq!(book.delete_contact_by_id(1), None);
    assert_eq!(book.delete_contact_by_id(99), None);
}

#[test]
fn delete_keeps_others_under_same_keys() {
    let mut book = AddressBook::new();
    let _a = add_new(&mut book, "John", "Smith", "X", "555");
    let b = add_new(&mut book, "John", "Smith", "Y", "555");
    book.delete_contact_by_id(1);
    assert_eq!(book.get_contacts_by_name("John Smith"), vec![&b]);
    assert_eq!(book.get_contacts_by_phone_number("555"), vec![&b]);
}

#[test]
fn deleted_ids_are_not_reused() {
    let mut book = AddressBook::new();
    add_new(&mut book, "A", "B", "C", "D");
    book.delete_contact_by_id(1);
    let next = add_new(&mut book, "E", "F", "G", "H");
    assert_eq!(next.get_id(), 2);
}

#[test]
fn re_adding_an_id_replaces_the_contact() {
    let mut book = AddressBook::new();
    book.add_contact(contact("Ada", "Lovelace", "London", "1", 0));
    let bob = contact("Bob", "Jones", "Leeds", "2", 0);
    book.add_contact(bob.clone());
    assert_eq!(book.get_contact_by_id(&1), Some(&bob));
    assert_eq!(book.get_contacts_by_name("Bob Jones"), vec![&bob]);
    assert_eq!(book.all_contacts().len(), 1);
}

#[test]
fn re_adding_same_contact_files_it_twice() {
    let mut book = AddressBook::new();
    let c = contact("Ada", "Lovelace", "London", "1", 0);
    book.add_contact(c.clone());
    book.add_contact(c.clone());
    assert_eq!(book.get_contacts_by_name("Ada Lovelace"), vec![&c, &c]);
}

#[test]
fn stale_entries_after_replace_and_delete_find_nothing() {
    let mut book = AddressBook::new();
    book.add_contact(contact("Ada", "Lovelace", "London", "1", 0));
    book.add_contact(contact("Bob", "Jones", "Leeds", "2", 0));
    book.delete_contact_by_id(1);
    assert!(book.get_contacts_by_name("Ada Lovelace").is_empty());
    assert!(book.get_contacts_by_phone_number("1").is_empty());
}

#[test]
fn load_two_lines() {
    let lines = vec!["1\tA\tB\tAddr\t111".to_string(), "2\tC\tD\tAddr\t222".to_string()];
    let book = AddressBook::from_tsv_lines(&lines).unwrap();
    assert_eq!(book.all_contacts().len(), 2);
    assert_eq!(book.last_assigned_id(), 2);
    let second = contact("C", "D", "Addr", "222", 1);
    assert_eq!(book.get_contact_by_id(&2), Some(&second));
    assert_eq!(book.get_contacts_by_phone_number("111")[0].get_full_name(), "A B");
}

#[test]
fn load_nothing_gives_empty_book() {
    let book = AddressBook::from_tsv_lines(&Vec::new()).unwrap();
    assert_eq!(book.last_assigned_id(), 0);
    assert!(book.all_contacts().is_empty());
}

#[test]
fn load_stops_at_bad_field_count() {
    let lines = vec!["1\tA\tB\tAddr\t111".to_string(), "2\tC\tD".to_string(), "x".to_string()];
    assert!(matches!(AddressBook::from_tsv_lines(&lines), Err(ParseError::InvalidData(_))));
}

#[test]
fn load_stops_at_bad_id() {
    let lines = vec!["one\tA\tB\tAddr\t111".to_string(), "2\tC\tD".to_string()];
    assert!(matches!(AddressBook::from_tsv_lines(&lines), Err(ParseError::InvalidId)));
}

#[test]
fn load_refuses_blank_line() {
    let lines = vec!["1\tA\tB\tAddr\t111".to_string(), "".to_string()];
    assert!(matches!(AddressBook::from_tsv_lines(&lines), Err(ParseError::InvalidData(_))));
}

#[test]
fn saved_lines_load_back() {
    let mut book = AddressBook::new();
    let a = add_new(&mut book, "Ada", "Lovelace", "London", "555-0100");
    let b = add_new(&mut book, "Grace", "Hopper", "New York", "555-0200");
    let lines = vec![a.to_tsv_string(), b.to_tsv_string()];
    let loaded = AddressBook::from_tsv_lines(&lines).unwrap();
    assert_eq!(loaded.get_contact_by_id(&1), Some(&a));
    assert_eq!(loaded.get_contact_by_id(&2), Some(&b));
    assert_eq!(loaded.last_assigned_id(), 2);
}

#[test]
fn empty_phone_contact_reloads() {
    let mut book = AddressBook::new();
    let a = add_new(&mut book, "A", "B", "C", "");
    let lines = vec![a.to_tsv_string()];
    let loaded = AddressBook::from_tsv_lines(&lines).unwrap();
    assert_eq!(loaded.get_contact_by_id(&1), Some(&a));
    assert_eq!(loaded.get_contacts_by_phone_number(""), vec![&a]);
}

#[test]
fn deleted_id_leaves_no_entry_in_old_buckets() {
    let mut book = AddressBook::new();
    book.add_contact(contact("Ada", "Lovelace", "London", "111", 0));
    book.add_contact(contact("Bob", "Jones", "Leeds", "222", 0));
    book.delete_contact_by_id(1);
    let carl = contact("Carl", "X", "York", "333", 0);
    book.add_contact(carl.clone());
    assert!(book.get_contacts_by_name("Ada Lovelace").is_empty());
    assert!(book.get_contacts_by_phone_number("111").is_empty());
    assert!(book.get_contacts_by_name("Bob Jones").is_empty());
    assert!(book.get_contacts_by_phone_number("222").is_empty());
    assert_eq!(book.get_contacts_by_name("Carl X"), vec![&carl]);
    assert_eq!(book.get_contacts_by_phone_number("333"), vec![&carl]);
}

#[test]
fn adding_new_id_changes_only_its_own_lookups() {
    let mut book = AddressBook::new();
    let a = add_new(&mut book, "Ada", "Lovelace", "London", "111");
    let b = add_new(&mut book, "Bob", "Jones", "Leeds", "111");
    let c = add_new(&mut book, "Ada", "Lovelace", "Paris", "333");
    assert_eq!(book.get_contacts_by_name("Ada Lovelace"), vec![&a, &c]);
    assert_eq!(book.get_contacts_by_name("Bob Jones"), vec![&b]);
    assert_eq!(book.get_contacts_by_phone_number("111"), vec![&a, &b]);
    assert_eq!(book.get_contacts_by_phone_number("333"), vec![&c]);
}
