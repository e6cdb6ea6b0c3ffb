//! The address book: contacts by identifier, with indexes by full name and by
//! phone number.
use crate::contact::{
    decode, encode, has_five_fields, lemma_decode_encode, tab_free, Contact, ContactView,
    ParseError,
};
use crate::key_index::{bucket, lemma_without_id_excludes, without_id, KeyIndex};
use std::collections::HashMap;
use vstd::std_specs::iter::IteratorSpec;
use vstd::prelude::*;

verus! {

broadcast use vstd::std_specs::hash::group_hash_axioms;

/// `m` with `id` taken out of every bucket.
pub open spec fn unfiled(m: Map<Seq<char>, Seq<usize>>, id: usize) -> Map<Seq<char>, Seq<usize>> {
    m.map_values(|ids: Seq<usize>| without_id(ids, id))
}

/// The mathematical value of an [`AddressBook`].
pub ghost struct BookView {
    pub last_assigned_id: usize,
    pub contacts: Map<usize, ContactView>,
    pub names: Map<Seq<char>, Seq<usize>>,
    pub phones: Map<Seq<char>, Seq<usize>>,
}

impl BookView {
    pub open spec fn empty() -> BookView {
        BookView {
            last_assigned_id: 0,
            contacts: Map::empty(),
            names: Map::empty(),
            phones: Map::empty(),
        }
    }

    /// The book after `c` is added: stored under its id (replacing what was
    /// there), its id filed last under its full name and its phone number,
    /// and the last assigned id raised to its id.
    pub open spec fn add(self, c: ContactView) -> BookView {
        BookView {
            last_assigned_id: if c.id > self.last_assigned_id {
                c.id
            } else {
                self.last_assigned_id
            },
            contacts: self.contacts.insert(c.id, c),
            names: self.names.insert(c.full_name(), bucket(self.names, c.full_name()).push(c.id)),
            phones: self.phones.insert(
                c.phone_number,
                bucket(self.phones, c.phone_number).push(c.id),
            ),
        }
    }

    /// The book after the contact with `id`, if any, is deleted: from the
    /// contacts, and every occurrence of `id` from every bucket.
    pub open spec fn delete(self, id: usize) -> BookView {
        if self.contacts.contains_key(id) {
            BookView {
                last_assigned_id: self.last_assigned_id,
                contacts: self.contacts.remove(id),
                names: unfiled(self.names, id),
                phones: unfiled(self.phones, id),
            }
        } else {
            self
        }
    }

    /// The stored contacts of the identifiers `ids`, in order; identifiers
    /// without a contact are passed over.
    pub open spec fn resolve(self, ids: Seq<usize>) -> Seq<ContactView>
        decreases ids.len(),
    {
        if ids.len() == 0 {
            Seq::empty()
        } else if self.contacts.contains_key(ids.last()) {
            self.resolve(ids.drop_last()).push(self.contacts[ids.last()])
        } else {
            self.resolve(ids.drop_last())
        }
    }

    pub open spec fn by_name(self, name: Seq<char>) -> Seq<ContactView> {
        self.resolve(bucket(self.names, name))
    }

    pub open spec fn by_phone(self, phone: Seq<char>) -> Seq<ContactView> {
        self.resolve(bucket(self.phones, phone))
    }

    /// Every id filed in `index` has a stored contact.
    pub open spec fn only_stored_ids(self, index: Map<Seq<char>, Seq<usize>>) -> bool {
        forall|k: Seq<char>, x: usize|
            index.contains_key(k) && #[trigger] index[k].contains(x) ==> self.contacts.contains_key(
                x,
            )
    }

    /// Each contact is stored under its own id, is filed under its full name
    /// and its phone number, and has an id no greater than the last assigned;
    /// every id filed in either index has a stored contact.
    pub open spec fn inv(self) -> bool {
        &&& forall|id: usize| #[trigger]
            self.contacts.contains_key(id) ==> {
                let c = self.contacts[id];
                &&& c.id == id
                &&& bucket(self.names, c.full_name()).contains(id)
                &&& bucket(self.phones, c.phone_number).contains(id)
                &&& id <= self.last_assigned_id
            }
        &&& self.only_stored_ids(self.names)
        &&& self.only_stored_ids(self.phones)
    }
}

proof fn lemma_filed_stored(
    b: BookView,
    index: Map<Seq<char>, Seq<usize>>,
    key: Seq<char>,
    c: ContactView,
)
    requires
        b.only_stored_ids(index),
    ensures
        b.add(c).only_stored_ids(index.insert(key, bucket(index, key).push(c.id))),
{
    let n = index.insert(key, bucket(index, key).push(c.id));
    assert forall|k: Seq<char>, x: usize| n.contains_key(k) && #[trigger] n[k].contains(
        x,
    ) implies b.add(c).contacts.contains_key(x) by {
        if k == key && x != c.id {
            let old_ids = bucket(index, key);
            let i = choose|i: int| 0 <= i < n[k].len() && n[k][i] == x;
            assert(i < old_ids.len());
            assert(old_ids[i] == x);
            assert(index.contains_key(key));
            assert(index[key].contains(x));
        } else if k != key {
            assert(index[k].contains(x));
        }
    }
}

/// Adding a contact keeps the book's invariant.
pub proof fn lemma_add_keeps_inv(b: BookView, c: ContactView)
    requires
        b.inv(),
    ensures
        b.add(c).inv(),
{
    let a = b.add(c);
    lemma_filed_stored(b, b.names, c.full_name(), c);
    lemma_filed_stored(b, b.phones, c.phone_number, c);
    assert forall|id: usize| #[trigger] a.contacts.contains_key(id) implies {
        let d = a.contacts[id];
        &&& d.id == id
        &&& bucket(a.names, d.full_name()).contains(id)
        &&& bucket(a.phones, d.phone_number).contains(id)
        &&& id <= a.last_assigned_id
    } by {
        let d = a.contacts[id];
        let nb = bucket(b.names, c.full_name()).push(c.id);
        let pb = bucket(b.phones, c.phone_number).push(c.id);
        assert(nb.last() == c.id);
        assert(pb.last() == c.id);
        if id != c.id {
            assert(b.contacts.contains_key(id));
            let bn = bucket(b.names, d.full_name());
            let bp = bucket(b.phones, d.phone_number);
            assert(bn.contains(id));
            assert(bp.contains(id));
            if d.full_name() == c.full_name() {
                let i = choose|i: int| 0 <= i < bn.len() && bn[i] == id;
                assert(nb[i] == id);
            }
            if d.phone_number == c.phone_number {
                let i = choose|i: int| 0 <= i < bp.len() && bp[i] == id;
                assert(pb[i] == id);
            }
        } else {
            assert(nb[nb.len() - 1] == id);
            assert(pb[pb.len() - 1] == id);
        }
    }
}

proof fn lemma_unfiled_stored(b: BookView, index: Map<Seq<char>, Seq<usize>>, id: usize)
    requires
        b.only_stored_ids(index),
    ensures
        b.delete(id).only_stored_ids(unfiled(index, id)),
{
    let u = unfiled(index, id);
    assert forall|k: Seq<char>, x: usize| u.contains_key(k) && #[trigger] u[k].contains(
        x,
    ) implies b.delete(id).contacts.contains_key(x) by {
        lemma_without_id_excludes(index[k], id);
        assert(index[k].contains(x));
    }
}

proof fn lemma_unfiled_keeps(index: Map<Seq<char>, Seq<usize>>, k: Seq<char>, x: usize, id: usize)
    requires
        bucket(index, k).contains(x),
        x != id,
    ensures
        bucket(unfiled(index, id), k).contains(x),
{
    lemma_without_id_excludes(index[k], id);
}

/// Deleting a contact keeps the book's invariant.
pub proof fn lemma_delete_keeps_inv(b: BookView, id: usize)
    requires
        b.inv(),
    ensures
        b.delete(id).inv(),
{
    if b.contacts.contains_key(id) {
        let a = b.delete(id);
        assert forall|x: usize| #[trigger] a.contacts.contains_key(x) implies {
            let d = a.contacts[x];
            &&& d.id == x
            &&& bucket(a.names, d.full_name()).contains(x)
            &&& bucket(a.phones, d.phone_number).contains(x)
            &&& x <= a.last_assigned_id
        } by {
            assert(b.contacts.contains_key(x));
            let d = b.contacts[x];
            lemma_unfiled_keeps(b.names, d.full_name(), x, id);
            lemma_unfiled_keeps(b.phones, d.phone_number, x, id);
        }
        lemma_unfiled_stored(b, b.names, id);
        lemma_unfiled_stored(b, b.phones, id);
    }
}

/// The book that adding `cs`, in order, to an empty book gives.
pub open spec fn book_of(cs: Seq<ContactView>) -> BookView
    decreases cs.len(),
{
    if cs.len() == 0 {
        BookView::empty()
    } else {
        book_of(cs.drop_last()).add(cs.last())
    }
}

/// After contacts with distinct ids are added one after another to an empty
/// book, each is stored under its id, unchanged.
pub proof fn lemma_added_contacts_found(cs: Seq<ContactView>)
    requires
        forall|i: int, j: int| 0 <= i < j < cs.len() ==> cs[i].id != cs[j].id,
    ensures
        forall|i: int|
            0 <= i < cs.len() ==> book_of(cs).contacts.contains_key(#[trigger] cs[i].id)
                && book_of(cs).contacts[cs[i].id] == cs[i],
    decreases cs.len(),
{
    if cs.len() > 0 {
        let p = cs.drop_last();
        lemma_added_contacts_found(p);
        assert forall|i: int| 0 <= i < cs.len() implies book_of(cs).contacts.contains_key(
            #[trigger] cs[i].id,
        ) && book_of(cs).contacts[cs[i].id] == cs[i] by {
            if i < cs.len() - 1 {
                assert(p[i] == cs[i]);
                assert(cs[i].id != cs.last().id);
            }
        }
    }
}

/// After a contact is added, looking up its full name and looking up its
/// phone number both find it.
pub proof fn lemma_added_contact_indexed(b: BookView, c: ContactView)
    ensures
        b.add(c).by_name(c.full_name()).contains(c),
        b.add(c).by_phone(c.phone_number).contains(c),
{
    let a = b.add(c);
    let nb = bucket(b.names, c.full_name());
    let pb = bucket(b.phones, c.phone_number);
    assert(nb.push(c.id).drop_last() =~= nb);
    assert(pb.push(c.id).drop_last() =~= pb);
    let rn = a.by_name(c.full_name());
    let rp = a.by_phone(c.phone_number);
    assert(rn[rn.len() - 1] == c);
    assert(rp[rp.len() - 1] == c);
}

proof fn lemma_resolve_without_new_id(b: BookView, c: ContactView, ids: Seq<usize>)
    requires
        !ids.contains(c.id),
    ensures
        b.add(c).resolve(ids) == b.resolve(ids),
    decreases ids.len(),
{
    if ids.len() > 0 {
        assert(!ids.drop_last().contains(c.id)) by {
            if ids.drop_last().contains(c.id) {
                let i = choose|i: int| 0 <= i < ids.len() - 1 && ids.drop_last()[i] == c.id;
                assert(ids[i] == c.id);
            }
        }
        assert(ids[ids.len() - 1] != c.id);
        lemma_resolve_without_new_id(b, c, ids.drop_last());
    }
}

/// Adding a contact whose id is not stored yet changes only the lookups of
/// its own full name and phone number, and those only by the new contact at
/// the end.
pub proof fn lemma_add_changes_own_lookups(
    b: BookView,
    c: ContactView,
    name: Seq<char>,
    phone: Seq<char>,
)
    requires
        b.inv(),
        !b.contacts.contains_key(c.id),
    ensures
        b.add(c).by_name(name) == (if name == c.full_name() {
            b.by_name(name).push(c)
        } else {
            b.by_name(name)
        }),
        b.add(c).by_phone(phone) == (if phone == c.phone_number {
            b.by_phone(phone).push(c)
        } else {
            b.by_phone(phone)
        }),
{
    let nb = bucket(b.names, name);
    let pb = bucket(b.phones, phone);
    assert(!nb.contains(c.id)) by {
        if nb.contains(c.id) {
            assert(b.names.contains_key(name) && b.names[name].contains(c.id));
        }
    }
    assert(!pb.contains(c.id)) by {
        if pb.contains(c.id) {
            assert(b.phones.contains_key(phone) && b.phones[phone].contains(c.id));
        }
    }
    lemma_resolve_without_new_id(b, c, nb);
    lemma_resolve_without_new_id(b, c, pb);
    assert(nb.push(c.id).drop_last() =~= nb);
    assert(pb.push(c.id).drop_last() =~= pb);
}

/// After the contact with `id` is deleted none is stored under `id`, and
/// deleting it a second time changes nothing.
pub proof fn lemma_delete_idempotent(b: BookView, id: usize)
    ensures
        !b.delete(id).contacts.contains_key(id),
        b.delete(id).delete(id) == b.delete(id),
{
}

/// Contacts made from the book's last assigned id (as `Contact::new` makes
/// them) and added one after another to an empty book get the ids 1, 2, 3,
/// ... in order, and after n of them the last assigned id is n.
pub proof fn lemma_ids_follow_insertion_order(cs: Seq<ContactView>)
    requires
        forall|k: int|
            0 <= k < cs.len() ==> #[trigger] cs[k].id == book_of(cs.take(k)).last_assigned_id + 1,
    ensures
        book_of(cs).last_assigned_id == cs.len(),
        forall|k: int| 0 <= k < cs.len() ==> #[trigger] cs[k].id == k + 1,
    decreases cs.len(),
{
    if cs.len() > 0 {
        let p = cs.drop_last();
        assert forall|k: int| 0 <= k < p.len() implies #[trigger] p[k].id == book_of(
            p.take(k),
        ).last_assigned_id + 1 by {
            assert(p.take(k) =~= cs.take(k));
            assert(cs[k] == p[k]);
        }
        lemma_ids_follow_insertion_order(p);
        assert(cs.take(cs.len() - 1) =~= p);
        assert(cs[cs.len() - 1].id == book_of(cs.take(cs.len() - 1)).last_assigned_id + 1);
        assert forall|k: int| 0 <= k < cs.len() implies #[trigger] cs[k].id == k + 1 by {
            if k < cs.len() - 1 {
                assert(cs[k] == p[k]);
            }
        }
    }
}

/// The contacts that every line of `lines` decodes to, in order.
pub open spec fn decoded_lines(lines: Seq<Seq<char>>) -> Seq<ContactView> {
    lines.map_values(|l: Seq<char>| decode(l)->0)
}

pub open spec fn all_decode(lines: Seq<Seq<char>>) -> bool {
    forall|i: int| 0 <= i < lines.len() ==> decode(#[trigger] lines[i]) is Some
}

/// The record lines of contacts whose text fields hold no tab all decode,
/// and give those contacts back in order; so loading the lines gives the
/// book that adding the contacts gives.
pub proof fn lemma_saved_lines_reload(cs: Seq<ContactView>)
    requires
        forall|i: int|
            0 <= i < cs.len() ==> {
                &&& tab_free(#[trigger] cs[i].first_name)
                &&& tab_free(cs[i].last_name)
                &&& tab_free(cs[i].address)
                &&& tab_free(cs[i].phone_number)
            },
    ensures
        all_decode(cs.map_values(|c: ContactView| encode(c))),
        decoded_lines(cs.map_values(|c: ContactView| encode(c))) == cs,
{
    let lines = cs.map_values(|c: ContactView| encode(c));
    assert forall|i: int| 0 <= i < lines.len() implies decode(#[trigger] lines[i]) == Some(
        cs[i],
    ) by {
        assert(tab_free(cs[i].first_name));
        lemma_decode_encode(cs[i]);
    }
    assert(decoded_lines(lines) =~= cs);
}

/// The contacts, indexed by identifier, full name and phone number.
#[derive(Debug)]
pub struct AddressBook {
    last_assigned_id: usize,
    contacts_map: HashMap<usize, Contact>,
    name_index: KeyIndex,
    phone_index: KeyIndex,
}

impl View for AddressBook {
    type V = BookView;

    closed spec fn view(&self) -> BookView {
        BookView {
            last_assigned_id: self.last_assigned_id,
            contacts: self.contacts_map@.map_values(|c: Contact| c@),
            names: self.name_index@,
            phones: self.phone_index@,
        }
    }
}

impl AddressBook {
    pub closed spec fn indexes_wf(&self) -> bool {
        &&& self.name_index.wf()
        &&& self.phone_index.wf()
    }

    pub closed spec fn wf(&self) -> bool {
        &&& self.indexes_wf()
        &&& self@.inv()
    }

    /// A well-formed book keeps its view's invariant: each contact stored
    /// under its own id and filed under its name and number, no id above the
    /// last assigned.
    pub proof fn lemma_wf_inv(&self)
        requires
            self.wf(),
        ensures
            self@.inv(),
    {
    }

    /// An empty book.
    pub fn new() -> (r: Self)
        ensures
            r.wf(),
            r@ == BookView::empty(),
    {
        let r = AddressBook {
            last_assigned_id: 0,
            contacts_map: HashMap::new(),
            name_index: KeyIndex::new(),
            phone_index: KeyIndex::new(),
        };
        assert(r@.contacts =~= Map::empty());
        r
    }

    /// The highest identifier issued so far.
    pub fn last_assigned_id(&self) -> (r: usize)
        ensures
            r == self@.last_assigned_id,
    {
        self.last_assigned_id
    }

    /// Adds `contact` under its id, and files it under its full name and its
    /// phone number. No duplicate is detected: an id already present has its
    /// contact replaced, and is filed once more.
    pub fn add_contact(&mut self, contact: Contact)
        requires
            old(self).wf(),
        ensures
            final(self).wf(),
            final(self)@ == old(self)@.add(contact@),
    {
        let ghost before = self@;
        let contact_id = contact.get_id();
        let full_name = contact.get_full_name();
        let phone_number = contact.get_phone_number();
        self.contacts_map.insert(contact_id, contact);
        self.update_all_indexes(full_name, phone_number, contact_id);
        self.update_last_assigned_id(contact_id);
        proof {
            lemma_add_keeps_inv(before, contact@);
            assert(self@.contacts =~= before.add(contact@).contacts);
        }
    }

    /// Raises the last assigned id to `last_assigned_id`; it never goes down.
    pub fn update_last_assigned_id(&mut self, last_assigned_id: usize)
        ensures
            final(self)@ == (BookView {
                last_assigned_id: if last_assigned_id > old(self)@.last_assigned_id {
                    last_assigned_id
                } else {
                    old(self)@.last_assigned_id
                },
                ..old(self)@
            }),
            final(self).indexes_wf() == old(self).indexes_wf(),
            old(self).wf() ==> final(self).wf(),
    {
        if last_assigned_id > self.last_assigned_id {
            self.last_assigned_id = last_assigned_id;
        }
    }

    fn update_all_indexes(&mut self, full_name: String, phone_number: String, contact_id: usize)
        requires
            old(self).name_index.wf(),
            old(self).phone_index.wf(),
        ensures
            final(self).name_index.wf(),
            final(self).phone_index.wf(),
            final(self)@.names == old(self)@.names.insert(
                full_name@,
                bucket(old(self)@.names, full_name@).push(contact_id),
            ),
            final(self)@.phones == old(self)@.phones.insert(
                phone_number@,
                bucket(old(self)@.phones, phone_number@).push(contact_id),
            ),
            final(self).contacts_map == old(self).contacts_map,
            final(self).last_assigned_id == old(self).last_assigned_id,
    {
        self.update_name_index(full_name, contact_id);
        self.update_phone_index(phone_number, contact_id);
    }

    fn update_name_index(&mut self, full_name: String, contact_id: usize)
        requires
            old(self).name_index.wf(),
        ensures
            final(self).name_index.wf(),
            final(self)@.names == old(self)@.names.insert(
                full_name@,
                bucket(old(self)@.names, full_name@).push(contact_id),
            ),
            final(self).contacts_map == old(self).contacts_map,
            final(self).phone_index == old(self).phone_index,
            final(self).last_assigned_id == old(self).last_assigned_id,
    {
        self.name_index.insert_id(full_name, contact_id);
    }

    fn update_phone_index(&mut self, phone_number: String, contact_id: usize)
        requires
            old(self).phone_index.wf(),
        ensures
            final(self).phone_index.wf(),
            final(self)@.phones == old(self)@.phones.insert(
                phone_number@,
                bucket(old(self)@.phones, phone_number@).push(contact_id),
            ),
            final(self).contacts_map == old(self).contacts_map,
            final(self).name_index == old(self).name_index,
            final(self).last_assigned_id == old(self).last_assigned_id,
    {
        self.phone_index.insert_id(phone_number, contact_id);
    }

    /// The contact stored under `contact_id`, if any.
    pub fn get_contact_by_id(&self, contact_id: &usize) -> (r: Option<&Contact>)
        ensures
            match r {
                Some(c) => self@.contacts.contains_key(*contact_id) && c@ == self@.contacts[*contact_id],
                None => !self@.contacts.contains_key(*contact_id),
            },
    {
        self.contacts_map.get(contact_id)
    }

    /// The stored contacts of `ids`, in order, passing over ids without one.
    fn resolve_ids(&self, ids: &Vec<usize>) -> (r: Vec<&Contact>)
        ensures
            r@.map_values(|c: &Contact| c@) == self@.resolve(ids@),
    {
        let mut found: Vec<&Contact> = Vec::new();
        let mut i: usize = 0;
        assert(ids@.take(0) =~= Seq::<usize>::empty());
        assert(found@.map_values(|c: &Contact| c@) =~= Seq::<ContactView>::empty());
        while i < ids.len()
            invariant
                i <= ids@.len(),
                found@.map_values(|c: &Contact| c@) == self@.resolve(ids@.take(i as int)),
            decreases ids@.len() - i,
        {
            let ghost prev = found@.map_values(|c: &Contact| c@);
            assert(ids@.take(i + 1).drop_last() =~= ids@.take(i as int));
            assert(ids@.take(i + 1).last() == ids@[i as int]);
            match self.get_contact_by_id(&ids[i]) {
                Some(c) => {
                    found.push(c);
                    assert(found@.map_values(|c: &Contact| c@) =~= prev.push(c@));
                },
                None => {},
            }
            i = i + 1;
        }
        assert(ids@.take(ids@.len() as int) =~= ids@);
        found
    }

    /// Every stored contact once, in no particular order.
    pub fn all_contacts(&self) -> (r: Vec<&Contact>)
        ensures
            r@.len() == self@.contacts.dom().len(),
            r@.map_values(|c: &Contact| c@).to_set() == self@.contacts.values(),
    {
        let mut all: Vec<&Contact> = Vec::new();
        let ghost items = IteratorSpec::remaining(&self.contacts_map.values());
        for c in it: self.contacts_map.values()
            invariant
                it.seq() == items,
                all@ == items.take(it.index() as int),
        {
            proof {
                assert(it.seq().take(it.index() + 1) =~= all@.push(c));
            }
            all.push(c);
        }
        assert(all@ =~= items);
        proof {
            let m = self.contacts_map@;
            let vs = items.unref();
            assert(vs.to_set() == m.values());
            assert(self@.contacts.dom() =~= m.dom());
            let seen = all@.map_values(|c: &Contact| c@);
            assert forall|x: ContactView| seen.to_set().contains(x) implies self@.contacts.values().contains(x) by {
                let i = choose|i: int| 0 <= i < seen.len() && seen[i] == x;
                assert(vs[i] == *items[i]);
                assert(vs.to_set().contains(vs[i]));
                let k = choose|k: usize| m.contains_key(k) && m[k] == vs[i];
                assert(self@.contacts[k] == x);
            }
            assert forall|x: ContactView| self@.contacts.values().contains(x) implies seen.to_set().contains(x) by {
                let k = choose|k: usize| self@.contacts.contains_key(k) && self@.contacts[k] == x;
                assert(m.values().contains(m[k]));
                assert(vs.contains(m[k]));
                let i = choose|i: int| 0 <= i < vs.len() && vs[i] == m[k];
                assert(seen[i] == x);
            }
            assert(seen.to_set() =~= self@.contacts.values());
        }
        all
    }

    /// The contacts filed under the full name `name`, in the order they were
    /// added; none if the name is not filed.
    pub fn get_contacts_by_name(&self, name: &str) -> (r: Vec<&Contact>)
        requires
            self.wf(),
        ensures
            r@.map_values(|c: &Contact| c@) == self@.by_name(name@),
    {
        match self.name_index.ids_of(name) {
            Some(ids) => self.resolve_ids(ids),
            None => {
                let r: Vec<&Contact> = Vec::new();
                assert(r@.map_values(|c: &Contact| c@) =~= self@.by_name(name@));
                r
            },
        }
    }

    /// The contacts filed under `phone_number`, in the order they were added;
    /// none if the number is not filed.
    pub fn get_contacts_by_phone_number(&self, phone_number: &str) -> (r: Vec<&Contact>)
        requires
            self.wf(),
        ensures
            r@.map_values(|c: &Contact| c@) == self@.by_phone(phone_number@),
    {
        match self.phone_index.ids_of(phone_number) {
            Some(ids) => self.resolve_ids(ids),
            None => {
                let r: Vec<&Contact> = Vec::new();
                assert(r@.map_values(|c: &Contact| c@) =~= self@.by_phone(phone_number@));
                r
            },
        }
    }

    /// Removes the contact stored under `contact_id`, and every occurrence of
    /// its id from both indexes, and returns it; does nothing and returns
    /// `None` if there is none.
    pub fn delete_contact_by_id(&mut self, contact_id: usize) -> (r: Option<Contact>)
        requires
            old(self).wf(),
        ensures
            final(self).wf(),
            final(self)@ == old(self)@.delete(contact_id),
            match r {
                Some(c) => old(self)@.contacts.contains_key(contact_id) && c@ == old(
                    self,
                )@.contacts[contact_id],
                None => !old(self)@.contacts.contains_key(contact_id),
            },
    {
        let ghost before = self@;
        match self.contacts_map.remove(&contact_id) {
            Some(contact) => {
                self.name_index.remove_id_everywhere(contact_id);
                self.phone_index.remove_id_everywhere(contact_id);
                proof {
                    lemma_delete_keeps_inv(before, contact_id);
                    assert(self@.contacts =~= before.delete(contact_id).contacts);
                }
                Some(contact)
            },
            None => {
                assert(self@.contacts =~= before.contacts);
                None
            },
        }
    }

    /// A book holding the contacts of record lines, added in order. A line
    /// that does not decode stops the load, and its error is returned.
    pub fn from_tsv_lines(lines: &Vec<String>) -> (r: Result<AddressBook, ParseError>)
        ensures
            r is Ok <==> all_decode(lines@.map_values(|l: String| l@)),
            all_decode(lines@.map_values(|l: String| l@)) ==> (r matches Ok(b) && b.wf() && b@
                == book_of(decoded_lines(lines@.map_values(|l: String| l@)))),
            r matches Err(e) ==> exists|i: int|
                0 <= i < lines@.len() && decode(#[trigger] lines@[i]@) is None && all_decode(
                    lines@.map_values(|l: String| l@).take(i),
                ) && (e matches ParseError::InvalidData(_) <==> !has_five_fields(lines@[i]@)),
    {
        let ghost views = lines@.map_values(|l: String| l@);
        let mut book = AddressBook::new();
        let mut i: usize = 0;
        assert(views.take(0) =~= Seq::<Seq<char>>::empty());
        assert(decoded_lines(views.take(0)) =~= Seq::<ContactView>::empty());
        while i < lines.len()
            invariant
                views == lines@.map_values(|l: String| l@),
                i <= lines@.len(),
                book.wf(),
                all_decode(views.take(i as int)),
                book@ == book_of(decoded_lines(views.take(i as int))),
            decreases lines@.len() - i,
        {
            assert(views[i as int] == lines@[i as int]@);
            match Contact::from_tsv_string(lines[i].as_str()) {
                Ok(contact) => {
                    let ghost before = views.take(i as int);
                    assert(views.take(i + 1) =~= before.push(views[i as int]));
                    assert(decoded_lines(views.take(i + 1)).drop_last() =~= decoded_lines(before));
                    book.add_contact(contact);
                    i = i + 1;
                },
                Err(e) => {
                    assert(decode(lines@[i as int]@) is None);
                    return Err(e);
                },
            }
        }
        assert(views.take(i as int) =~= views);
        Ok(book)
    }
}

} // verus!
