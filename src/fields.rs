//! A small string-to-string table with unique keys, kept in insertion order.
//! Headers and query parameters are held in it.
use vstd::prelude::*;

verus! {

/// No key occurs twice.
pub open spec fn keys_unique(e: Seq<(Seq<char>, Seq<char>)>) -> bool {
    forall|i: int, j: int|
        0 <= i < e.len() && 0 <= j < e.len() && i != j ==> #[trigger] e[i].0 != #[trigger] e[j].0
}

pub open spec fn has_key(e: Seq<(Seq<char>, Seq<char>)>, k: Seq<char>) -> bool {
    exists|i: int| 0 <= i < e.len() && #[trigger] e[i].0 == k
}

/// The value stored under `k`, if any.
pub open spec fn lookup(e: Seq<(Seq<char>, Seq<char>)>, k: Seq<char>) -> Option<Seq<char>> {
    if has_key(e, k) {
        Some(e[choose|i: int| 0 <= i < e.len() && #[trigger] e[i].0 == k].1)
    } else {
        None
    }
}

/// `e` with `k` bound to `v`: an existing entry for `k` keeps its place and
/// takes the new value; otherwise the pair goes at the end.
pub open spec fn upsert(e: Seq<(Seq<char>, Seq<char>)>, k: Seq<char>, v: Seq<char>) -> Seq<
    (Seq<char>, Seq<char>),
> {
    if has_key(e, k) {
        e.update(choose|i: int| 0 <= i < e.len() && #[trigger] e[i].0 == k, (k, v))
    } else {
        e.push((k, v))
    }
}

pub proof fn lemma_lookup_at(e: Seq<(Seq<char>, Seq<char>)>, i: int)
    requires
        keys_unique(e),
        0 <= i < e.len(),
    ensures
        lookup(e, e[i].0) == Some(e[i].1),
{
    let k = e[i].0;
    assert(has_key(e, k));
    let j = choose|j: int| 0 <= j < e.len() && #[trigger] e[j].0 == k;
    assert(j == i);
}

pub proof fn lemma_upsert(e: Seq<(Seq<char>, Seq<char>)>, k: Seq<char>, v: Seq<char>)
    requires
        keys_unique(e),
    ensures
        keys_unique(upsert(e, k, v)),
        lookup(upsert(e, k, v), k) == Some(v),
        forall|k2: Seq<char>| k2 != k ==> lookup(upsert(e, k, v), k2) == lookup(e, k2),
{
    let u = upsert(e, k, v);
    if has_key(e, k) {
        let i = choose|i: int| 0 <= i < e.len() && #[trigger] e[i].0 == k;
        assert(u[i] == (k, v));
        lemma_lookup_at(u, i);
        assert forall|k2: Seq<char>| k2 != k implies lookup(u, k2) == lookup(e, k2) by {
            if has_key(e, k2) {
                let j = choose|j: int| 0 <= j < e.len() && #[trigger] e[j].0 == k2;
                assert(u[j] == e[j]);
                lemma_lookup_at(e, j);
                lemma_lookup_at(u, j);
            } else {
                assert forall|j: int| 0 <= j < u.len() implies #[trigger] u[j].0 != k2 by {
                    if j != i {
                        assert(u[j] == e[j]);
                    }
                }
            }
        }
    } else {
        let n = e.len() as int;
        assert(u[n] == (k, v));
        assert forall|a: int, b: int|
            0 <= a < u.len() && 0 <= b < u.len() && a != b implies #[trigger] u[a].0
            != #[trigger] u[b].0 by {
            if a < n && b < n {
                assert(u[a] == e[a] && u[b] == e[b]);
            } else if a < n {
                assert(u[a] == e[a]);
            } else {
                assert(u[b] == e[b]);
            }
        }
        lemma_lookup_at(u, n);
        assert forall|k2: Seq<char>| k2 != k implies lookup(u, k2) == lookup(e, k2) by {
            if has_key(e, k2) {
                let j = choose|j: int| 0 <= j < e.len() && #[trigger] e[j].0 == k2;
                assert(u[j] == e[j]);
                lemma_lookup_at(e, j);
                lemma_lookup_at(u, j);
            } else {
                assert forall|j: int| 0 <= j < u.len() implies #[trigger] u[j].0 != k2 by {
                    if j < n {
                        assert(u[j] == e[j]);
                    }
                }
            }
        }
    }
}

/// String keys mapped to string values; a later insert of a key replaces the
/// earlier value.
pub struct Fields {
    entries: Vec<(String, String)>,
}

impl View for Fields {
    type V = Seq<(Seq<char>, Seq<char>)>;

    closed spec fn view(&self) -> Seq<(Seq<char>, Seq<char>)> {
        self.entries@.map_values(|e: (String, String)| (e.0@, e.1@))
    }
}

impl Fields {
    #[verifier::type_invariant]
    spec fn unique(&self) -> bool {
        keys_unique(self@)
    }

    pub fn new() -> (r: Fields)
        ensures
            r@ == Seq::<(Seq<char>, Seq<char>)>::empty(),
    {
        let r = Fields { entries: Vec::new() };
        assert(r@ =~= Seq::<(Seq<char>, Seq<char>)>::empty());
        r
    }

    pub fn len(&self) -> (r: usize)
        ensures
            r == self@.len(),
    {
        self.entries.len()
    }

    /// The key and the value of the `i`-th entry.
    pub fn entry(&self, i: usize) -> (r: (&String, &String))
        requires
            i < self@.len(),
        ensures
            (r.0@, r.1@) == self@[i as int],
    {
        let e = &self.entries[i];
        (&e.0, &e.1)
    }

    /// Position of the entry for `key`, if any.
    fn position(&self, key: &String) -> (r: Option<usize>)
        ensures
            match r {
                Some(i) => i < self@.len() && self@[i as int].0 == key@,
                None => !has_key(self@, key@),
            },
    {
        let mut i: usize = 0;
        while i < self.entries.len()
            invariant
                i <= self.entries.len(),
                forall|j: int| 0 <= j < i ==> #[trigger] self@[j].0 != key@,
            decreases self.entries.len() - i,
        {
            if self.entries[i].0 == *key {
                return Some(i);
            }
            i = i + 1;
        }
        None
    }

    /// Binds `key` to `value`, replacing an earlier value of `key`.
    pub fn insert(&mut self, key: String, value: String)
        ensures
            final(self)@ == upsert(old(self)@, key@, value@),
    {
        proof {
            use_type_invariant(&*self);
            lemma_upsert(self@, key@, value@);
        }
        let ghost e = self@;
        let ghost k = key@;
        let ghost v = value@;
        let found = self.position(&key);
        let mut entries: Vec<(String, String)> = Vec::new();
        std::mem::swap(&mut entries, &mut self.entries);
        match found {
            Some(i) => {
                entries.set(i, (key, value));
                proof {
                    let c = choose|j: int| 0 <= j < e.len() && #[trigger] e[j].0 == k;
                    assert(c == i as int);
                    assert(entries@.map_values(|e: (String, String)| (e.0@, e.1@)) =~= e.update(
                        i as int,
                        (k, v),
                    ));
                }
            },
            None => {
                entries.push((key, value));
                assert(entries@.map_values(|e: (String, String)| (e.0@, e.1@)) =~= e.push(
                    (k, v),
                ));
            },
        }
        self.entries = entries;
    }

    /// The value stored under `key`.
    pub fn get(&self, key: &str) -> (r: Option<&String>)
        ensures
            match r {
                Some(v) => lookup(self@, key@) == Some(v@),
                None => lookup(self@, key@) is None,
            },
    {
        proof {
            use_type_invariant(self);
        }
        let k = key.to_owned();
        match self.position(&k) {
            Some(i) => {
                proof {
                    lemma_lookup_at(self@, i as int);
                }
                Some(&self.entries[i].1)
            },
            None => None,
        }
    }
}

} // verus!
