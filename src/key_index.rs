//! A secondary index from text keys (a full name, a phone number) to the
//! identifiers filed under them, in the order they were filed.
use vstd::prelude::*;

verus! {

/// The identifiers filed under `key`, or none.
pub open spec fn bucket(m: Map<Seq<char>, Seq<usize>>, key: Seq<char>) -> Seq<usize> {
    if m.contains_key(key) {
        m[key]
    } else {
        Seq::empty()
    }
}

/// `ids` with every occurrence of `id` taken out, the rest in order.
pub open spec fn without_id(ids: Seq<usize>, id: usize) -> Seq<usize>
    decreases ids.len(),
{
    if ids.len() == 0 {
        ids
    } else if ids.last() == id {
        without_id(ids.drop_last(), id)
    } else {
        without_id(ids.drop_last(), id).push(ids.last())
    }
}

pub proof fn lemma_without_id_excludes(ids: Seq<usize>, id: usize)
    ensures
        !without_id(ids, id).contains(id),
        forall|x: usize| x != id && ids.contains(x) ==> without_id(ids, id).contains(x),
        forall|x: usize| without_id(ids, id).contains(x) ==> ids.contains(x),
    decreases ids.len(),
{
    if ids.len() > 0 {
        let p = ids.drop_last();
        lemma_without_id_excludes(p, id);
        assert forall|x: usize| without_id(ids, id).contains(x) implies ids.contains(x) by {
            let w = without_id(ids, id);
            let j = choose|j: int| 0 <= j < w.len() && w[j] == x;
            if j < without_id(p, id).len() {
                if ids.last() != id {
                    assert(w == without_id(p, id).push(ids.last()));
                }
                assert(w[j] == without_id(p, id)[j]);
                assert(without_id(p, id).contains(x));
                assert(p.contains(x));
                let i = choose|i: int| 0 <= i < p.len() && p[i] == x;
                assert(ids[i] == x);
            } else {
                assert(ids[ids.len() - 1] == x);
            }
        }
        assert forall|x: usize| x != id && ids.contains(x) implies without_id(
            ids,
            id,
        ).contains(x) by {
            let i = choose|i: int| 0 <= i < ids.len() && ids[i] == x;
            if i < ids.len() - 1 {
                assert(p[i] == x);
                assert(p.contains(x));
                assert(without_id(p, id).contains(x));
                let j = choose|j: int| 0 <= j < without_id(p, id).len() && without_id(p, id)[j] == x;
                if ids.last() != id {
                    assert(without_id(ids, id)[j] == x);
                }
            } else {
                assert(without_id(ids, id).last() == x);
            }
        }
        if ids.last() != id {
            assert forall|j: int| 0 <= j < without_id(ids, id).len() implies without_id(ids, id)[j]
                != id by {
                if j < without_id(p, id).len() {
                    assert(without_id(ids, id)[j] == without_id(p, id)[j]);
                }
            }
        }
    }
}

/// The identifiers filed under one key.
#[derive(Debug)]
struct Bucket {
    key: String,
    ids: Vec<usize>,
}

/// Keys with the identifiers filed under each; each key has one bucket.
#[derive(Debug)]
pub struct KeyIndex {
    buckets: Vec<Bucket>,
}

spec fn buckets_map(b: Seq<Bucket>) -> Map<Seq<char>, Seq<usize>>
    decreases b.len(),
{
    if b.len() == 0 {
        Map::empty()
    } else {
        buckets_map(b.drop_last()).insert(b.last().key@, b.last().ids@)
    }
}

spec fn keys_unique(b: Seq<Bucket>) -> bool {
    forall|i: int, j: int| 0 <= i < j < b.len() ==> b[i].key@ != b[j].key@
}

proof fn lemma_buckets_map_absent(b: Seq<Bucket>, k: Seq<char>)
    requires
        forall|i: int| 0 <= i < b.len() ==> b[i].key@ != k,
    ensures
        !buckets_map(b).contains_key(k),
    decreases b.len(),
{
    if b.len() > 0 {
        lemma_buckets_map_absent(b.drop_last(), k);
    }
}

proof fn lemma_buckets_map_at(b: Seq<Bucket>, i: int)
    requires
        keys_unique(b),
        0 <= i < b.len(),
    ensures
        buckets_map(b).contains_key(b[i].key@),
        buckets_map(b)[b[i].key@] == b[i].ids@,
    decreases b.len(),
{
    if i < b.len() - 1 {
        lemma_buckets_map_at(b.drop_last(), i);
    }
}

proof fn lemma_buckets_map_update(b: Seq<Bucket>, i: int, nb: Bucket)
    requires
        keys_unique(b),
        0 <= i < b.len(),
        nb.key@ == b[i].key@,
    ensures
        keys_unique(b.update(i, nb)),
        buckets_map(b.update(i, nb)) == buckets_map(b).insert(nb.key@, nb.ids@),
    decreases b.len(),
{
    let u = b.update(i, nb);
    if i == b.len() - 1 {
        assert(u.drop_last() =~= b.drop_last());
        assert(buckets_map(u) =~= buckets_map(b).insert(nb.key@, nb.ids@));
    } else {
        assert(u.drop_last() =~= b.drop_last().update(i, nb));
        lemma_buckets_map_update(b.drop_last(), i, nb);
        assert(b.last().key@ != nb.key@);
        assert(buckets_map(u) =~= buckets_map(b).insert(nb.key@, nb.ids@));
    }
}

impl View for KeyIndex {
    type V = Map<Seq<char>, Seq<usize>>;

    closed spec fn view(&self) -> Map<Seq<char>, Seq<usize>> {
        buckets_map(self.buckets@)
    }
}

impl KeyIndex {
    pub closed spec fn wf(&self) -> bool {
        keys_unique(self.buckets@)
    }

    pub fn new() -> (r: Self)
        ensures
            r.wf(),
            r@ == Map::<Seq<char>, Seq<usize>>::empty(),
    {
        KeyIndex { buckets: Vec::new() }
    }

    /// Where the bucket of `key` stands, if there is one.
    fn position(&self, key: &String) -> (r: Option<usize>)
        requires
            self.wf(),
        ensures
            match r {
                Some(i) => i < self.buckets@.len() && self.buckets@[i as int].key@ == key@,
                None => !self@.contains_key(key@),
            },
    {
        let mut i: usize = 0;
        while i < self.buckets.len()
            invariant
                i <= self.buckets@.len(),
                forall|j: int| 0 <= j < i ==> self.buckets@[j].key@ != key@,
            decreases self.buckets@.len() - i,
        {
            if self.buckets[i].key == *key {
                return Some(i);
            }
            i = i + 1;
        }
        proof {
            lemma_buckets_map_absent(self.buckets@, key@);
        }
        None
    }

    /// The identifiers filed under `key`, in filing order.
    pub fn ids_of(&self, key: &str) -> (r: Option<&Vec<usize>>)
        requires
            self.wf(),
        ensures
            match r {
                Some(v) => self@.contains_key(key@) && v@ == self@[key@],
                None => !self@.contains_key(key@),
            },
    {
        let k = String::from_str(key);
        match self.position(&k) {
            Some(i) => {
                proof {
                    lemma_buckets_map_at(self.buckets@, i as int);
                }
                Some(&self.buckets[i].ids)
            },
            None => None,
        }
    }

    /// Files `id` under `key`, after the identifiers already there.
    pub fn insert_id(&mut self, key: String, id: usize)
        requires
            old(self).wf(),
        ensures
            final(self).wf(),
            final(self)@ == old(self)@.insert(key@, bucket(old(self)@, key@).push(id)),
    {
        match self.position(&key) {
            Some(i) => {
                proof {
                    lemma_buckets_map_at(self.buckets@, i as int);
                }
                let ghost before = self.buckets@;
                self.buckets[i].ids.push(id);
                proof {
                    lemma_buckets_map_update(before, i as int, self.buckets@[i as int]);
                    assert(self.buckets@ =~= before.update(i as int, self.buckets@[i as int]));
                }
            },
            None => {
                let ghost before = self.buckets@;
                let ghost k = key@;
                let mut ids: Vec<usize> = Vec::new();
                ids.push(id);
                self.buckets.push(Bucket { key, ids });
                proof {
                    assert(self.buckets@.drop_last() =~= before);
                    assert(forall|j: int| 0 <= j < before.len() ==> before[j].key@ != k) by {
                        if exists|j: int| 0 <= j < before.len() && before[j].key@ == k {
                            let j = choose|j: int| 0 <= j < before.len() && before[j].key@ == k;
                            lemma_buckets_map_at(before, j);
                        }
                    }
                    assert(ids@ =~= bucket(buckets_map(before), k).push(id));
                }
            },
        }
    }

    /// Takes every occurrence of `id` out of every bucket; an emptied bucket
    /// stays, and looks up as no identifiers.
    pub fn remove_id_everywhere(&mut self, id: usize)
        requires
            old(self).wf(),
        ensures
            final(self).wf(),
            final(self)@ == old(self)@.map_values(|ids: Seq<usize>| without_id(ids, id)),
    {
        let ghost before = self.buckets@;
        let n = self.buckets.len();
        let mut i: usize = 0;
        while i < n
            invariant
                n == before.len(),
                self.buckets@.len() == n,
                i <= n,
                keys_unique(before),
                forall|j: int| 0 <= j < n ==> (#[trigger] self.buckets@[j]).key@ == before[j].key@,
                forall|j: int|
                    0 <= j < i ==> (#[trigger] self.buckets@[j]).ids@ == without_id(
                        before[j].ids@,
                        id,
                    ),
                forall|j: int| i <= j < n ==> (#[trigger] self.buckets@[j]).ids@ == before[j].ids@,
            decreases n - i,
        {
            let kept = without(&self.buckets[i].ids, id);
            self.buckets[i].ids = kept;
            i = i + 1;
        }
        proof {
            let after = self.buckets@;
            assert(keys_unique(after));
            let m = before_map_filtered(before, id);
            assert forall|k: Seq<char>| #[trigger] buckets_map(after).contains_key(k)
                == m.contains_key(k) by {
                if buckets_map(after).contains_key(k) {
                    if forall|j: int| 0 <= j < after.len() ==> after[j].key@ != k {
                        lemma_buckets_map_absent(after, k);
                    }
                    let j = choose|j: int| 0 <= j < after.len() && after[j].key@ == k;
                    lemma_buckets_map_at(before, j);
                }
                if buckets_map(before).contains_key(k) {
                    if forall|j: int| 0 <= j < before.len() ==> before[j].key@ != k {
                        lemma_buckets_map_absent(before, k);
                    }
                    let j = choose|j: int| 0 <= j < before.len() && before[j].key@ == k;
                    lemma_buckets_map_at(after, j);
                }
            }
            assert forall|k: Seq<char>| #[trigger] buckets_map(after).contains_key(k) implies
                buckets_map(after)[k] == m[k] by {
                if forall|j: int| 0 <= j < after.len() ==> after[j].key@ != k {
                    lemma_buckets_map_absent(after, k);
                }
                let j = choose|j: int| 0 <= j < after.len() && after[j].key@ == k;
                lemma_buckets_map_at(after, j);
                lemma_buckets_map_at(before, j);
            }
            assert(buckets_map(after) =~= m);
        }
    }
}

spec fn before_map_filtered(b: Seq<Bucket>, id: usize) -> Map<Seq<char>, Seq<usize>> {
    buckets_map(b).map_values(|ids: Seq<usize>| without_id(ids, id))
}

/// `ids` with every occurrence of `id` taken out, the rest in order.
fn without(ids: &Vec<usize>, id: usize) -> (r: Vec<usize>)
    ensures
        r@ == without_id(ids@, id),
{
    let mut kept: Vec<usize> = Vec::new();
    let mut j: usize = 0;
    let n = ids.len();
    while j < n
        invariant
            n == ids@.len(),
            j <= n,
            kept@ == without_id(ids@.take(j as int), id),
        decreases n - j,
    {
        let x = ids[j];
        assert(ids@.take(j + 1).drop_last() =~= ids@.take(j as int));
        if x != id {
            kept.push(x);
        }
        j = j + 1;
    }
    assert(ids@.take(n as int) =~= ids@);
    kept
}

} // verus!
