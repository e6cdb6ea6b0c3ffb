use crate::tsv::{
    decimal, decimal_text, is_digit, lemma_decimal_parses, lemma_split_tabs_join,
    lemma_split_tabs_no_tab, parse_id, parse_usize, split_on_tabs, split_tabs, TAB,
};
use vstd::prelude::*;

verus! {

/// The mathematical value of a [`Contact`].
pub ghost struct ContactView {
    pub id: usize,
    pub first_name: Seq<char>,
    pub last_name: Seq<char>,
    pub address: Seq<char>,
    pub phone_number: Seq<char>,
}

impl ContactView {
    /// First and last name joined by a single space.
    pub open spec fn full_name(self) -> Seq<char> {
        self.first_name + seq![' '] + self.last_name
    }
}

/// One address-book record: an identifier and four free-form text fields.
#[derive(Debug, Clone, PartialEq, Default)]
pub struct Contact {
    id: usize,
    first_name: String,
    last_name: String,
    address: String,
    phone_number: String,
}

impl View for Contact {
    type V = ContactView;

    closed spec fn view(&self) -> ContactView {
        ContactView {
            id: self.id,
            first_name: self.first_name@,
            last_name: self.last_name@,
            address: self.address@,
            phone_number: self.phone_number@,
        }
    }
}

impl Contact {
    /// A new contact whose identifier follows `last_assigned_id`.
    pub fn new(
        first_name: String,
        last_name: String,
        address: String,
        phone_number: String,
        last_assigned_id: usize,
    ) -> (r: Self)
        requires
            last_assigned_id < usize::MAX,
        ensures
            r@.id == last_assigned_id + 1,
            r@.first_name == first_name@,
            r@.last_name == last_name@,
            r@.address == address@,
            r@.phone_number == phone_number@,
    {
        Contact { id: last_assigned_id + 1, first_name, last_name, address, phone_number }
    }

    pub fn get_id(&self) -> (r: usize)
        ensures
            r == self@.id,
    {
        self.id
    }

    /// First name, a space, and last name.
    pub fn get_full_name(&self) -> (r: String)
        ensures
            r@ == self@.full_name(),
    {
        let first = self.first_name.clone();
        let with_space = first.concat(" ");
        proof {
            reveal_strlit(" ");
        }
        with_space.concat(self.last_name.as_str())
    }

    pub fn get_phone_number(&self) -> (r: String)
        ensures
            r@ == self@.phone_number,
    {
        self.phone_number.clone()
    }
}

/// Why a record line could not be read.
#[derive(Debug, PartialEq)]
pub enum ParseError {
    /// The line does not hold exactly five tab-separated fields.
    InvalidData(String),
    /// The first field is not a non-negative integer that fits in `usize`.
    InvalidId,
}

/// The record line of `c`: id, first name, last name, address and phone
/// number, separated by tabs.
pub open spec fn encode(c: ContactView) -> Seq<char> {
    decimal(c.id as nat) + seq![TAB] + c.first_name + seq![TAB] + c.last_name + seq![TAB]
        + c.address + seq![TAB] + c.phone_number
}

/// The tab-separated fields of a record line.
pub open spec fn line_fields(line: Seq<char>) -> Seq<Seq<char>> {
    split_tabs(line)
}

pub open spec fn has_five_fields(line: Seq<char>) -> bool {
    line_fields(line).len() == 5
}

/// The contact that a well-formed record line describes.
pub open spec fn decode(line: Seq<char>) -> Option<ContactView> {
    let f = line_fields(line);
    if f.len() == 5 {
        match parse_usize(f[0]) {
            Some(id) => Some(
                ContactView {
                    id,
                    first_name: f[1],
                    last_name: f[2],
                    address: f[3],
                    phone_number: f[4],
                },
            ),
            None => None,
        }
    } else {
        None
    }
}

/// A text field that a record line can carry unchanged.
pub open spec fn tab_free(s: Seq<char>) -> bool {
    !s.contains(TAB)
}

/// Decoding the record line of a contact gives the contact back, when its
/// text fields hold no tab.
pub proof fn lemma_decode_encode(c: ContactView)
    requires
        tab_free(c.first_name),
        tab_free(c.last_name),
        tab_free(c.address),
        tab_free(c.phone_number),
    ensures
        decode(encode(c)) == Some(c),
{
    let d = decimal(c.id as nat);
    let t = seq![TAB];
    lemma_decimal_parses(c.id as nat);
    let s = encode(c);
    assert(!d.contains(TAB)) by {
        if d.contains(TAB) {
            let i = choose|i: int| 0 <= i < d.len() && d[i] == TAB;
            assert(is_digit(d[i]));
        }
    }
    lemma_split_tabs_no_tab(d);
    lemma_split_tabs_no_tab(c.first_name);
    lemma_split_tabs_no_tab(c.last_name);
    lemma_split_tabs_no_tab(c.address);
    lemma_split_tabs_no_tab(c.phone_number);
    let a1 = d + t + c.first_name;
    let a2 = a1 + t + c.last_name;
    let a3 = a2 + t + c.address;
    lemma_split_tabs_join(d, c.first_name);
    lemma_split_tabs_join(a1, c.last_name);
    lemma_split_tabs_join(a2, c.address);
    lemma_split_tabs_join(a3, c.phone_number);
    let f = split_tabs(s);
    assert(f =~= seq![d, c.first_name, c.last_name, c.address, c.phone_number]);
    assert(d[0] != '+');
    assert(parse_usize(d) == Some(c.id));
}

/// A line that is not five tab-separated fields does not decode, nor does a
/// line of five fields whose first is not a number.
pub proof fn lemma_decode_refuses(line: Seq<char>)
    ensures
        split_tabs(line).len() != 5 ==> decode(line) is None,
        has_five_fields(line) && parse_usize(line_fields(line)[0]) is None ==> decode(line) is None,
{
}

impl Contact {
    /// The record line of this contact.
    pub fn to_tsv_string(&self) -> (r: String)
        ensures
            r@ == encode(self@),
    {
        proof {
            reveal_strlit("\t");
        }
        decimal_text(self.id).concat("\t").concat(self.first_name.as_str()).concat("\t").concat(
            self.last_name.as_str(),
        ).concat("\t").concat(self.address.as_str()).concat("\t").concat(
            self.phone_number.as_str(),
        )
    }

    /// Reads a record line, which must be five tab-separated fields whose
    /// first is the identifier.
    pub fn from_tsv_string(tsv_string: &str) -> (r: Result<Self, ParseError>)
        ensures
            !has_five_fields(tsv_string@) ==> r matches Err(ParseError::InvalidData(_)),
            has_five_fields(tsv_string@) && parse_usize(line_fields(tsv_string@)[0]) is None
                ==> r matches Err(ParseError::InvalidId),
            decode(tsv_string@) is Some ==> (r matches Ok(c) && Some(c@) == decode(
                tsv_string@,
            )),
    {
        let fields = split_on_tabs(tsv_string);
        let ghost f = fields@.map_values(|f: &str| f@);
        if fields.len() != 5 {
            return Err(ParseError::InvalidData(String::from_str("Invalid number of fields")));
        }
        assert(f[0] == fields@[0]@ && f[1] == fields@[1]@ && f[2] == fields@[2]@ && f[3]
            == fields@[3]@ && f[4] == fields@[4]@);
        let id = match parse_id(fields[0]) {
            Some(id) => id,
            None => {
                return Err(ParseError::InvalidId);
            },
        };
        Ok(
            Contact {
                id,
                first_name: String::from_str(fields[1]),
                last_name: String::from_str(fields[2]),
                address: String::from_str(fields[3]),
                phone_number: String::from_str(fields[4]),
            },
        )
    }
}

} // verus!
