//! A map from texts to texts.

use vstd::prelude::*;

use crate::text::{chars_of, same};

verus! {

/// Texts under names, each name at most once.
#[derive(Debug)]
pub struct TextMap {
    entries: Vec<(String, String)>,
}

/// Where `key` stands among the entries.
spec fn place(entries: Seq<(String, String)>, key: Seq<char>) -> int {
    choose|i: int| 0 <= i < entries.len() && (#[trigger] entries[i]).0@ == key
}

spec fn holds(entries: Seq<(String, String)>, key: Seq<char>) -> bool {
    exists|i: int| 0 <= i < entries.len() && (#[trigger] entries[i]).0@ == key
}

spec fn distinct(entries: Seq<(String, String)>) -> bool {
    forall|i: int, j: int|
        0 <= i < entries.len() && 0 <= j < entries.len() && (#[trigger] entries[i]).0@ == (
        #[trigger] entries[j]).0@ ==> i == j
}

spec fn as_map(entries: Seq<(String, String)>) -> Map<Seq<char>, Seq<char>> {
    Map::new(|k: Seq<char>| holds(entries, k), |k: Seq<char>| entries[place(entries, k)].1@)
}

impl View for TextMap {
    type V = Map<Seq<char>, Seq<char>>;

    closed spec fn view(&self) -> Map<Seq<char>, Seq<char>> {
        as_map(self.entries@)
    }
}

impl TextMap {
    #[verifier::type_invariant]
    spec fn well_formed(self) -> bool {
        distinct(self.entries@)
    }

    /// A map without entries.
    pub fn new() -> (r: Self)
        ensures
            r@ == Map::<Seq<char>, Seq<char>>::empty(),
    {
        let r = TextMap { entries: Vec::new() };
        proof {
            assert(r@ =~= Map::<Seq<char>, Seq<char>>::empty());
        }
        r
    }

    /// The position of `key` among the entries.
    fn position(&self, key: &str) -> (r: Option<usize>)
        ensures
            match r {
                Some(i) => i < self.entries@.len() && self.entries@[i as int].0@ == key@,
                None => !holds(self.entries@, key@),
            },
    {
        for i in 0..self.entries.len()
            invariant
                forall|j: int| 0 <= j < i ==> (#[trigger] self.entries@[j]).0@ != key@,
        {
            if same(chars_of(self.entries[i].0.as_str()).as_slice(), key) {
                return Some(i);
            }
        }
        None
    }

    /// The text under `key`.
    pub fn get(&self, key: &str) -> (r: Option<&String>)
        ensures
            match r {
                Some(text) => self@.contains_key(key@) && self@[key@] == text@,
                None => !self@.contains_key(key@),
            },
    {
        proof {
            use_type_invariant(self);
        }
        match self.position(key) {
            Some(i) => {
                proof {
                    let j = place(self.entries@, key@);
                    assert(self.entries@[i as int].0@ == self.entries@[j].0@);
                }
                Some(&self.entries[i].1)
            },
            None => None,
        }
    }

    /// Puts `text` under `key`, in place of what stood there.
    pub fn insert(&mut self, key: String, text: String)
        ensures
            final(self)@ == old(self)@.insert(key@, text@),
    {
        proof {
            use_type_invariant(&*self);
        }
        let found: Option<usize> = self.position(key.as_str());
        let mut entries: Vec<(String, String)> = Vec::new();
        std::mem::swap(&mut self.entries, &mut entries);
        let ghost before = entries@;
        match found {
            Some(i) => {
                entries.set(i, (key, text));
                proof {
                    lemma_replaced(before, i as int, entries@[i as int]);
                }
            },
            None => {
                entries.push((key, text));
                proof {
                    lemma_added(before, entries@.last());
                }
            },
        }
        self.entries = entries;
    }

    /// Takes `key` and its text out, if they are there.
    pub fn remove(&mut self, key: &str)
        ensures
            final(self)@ == old(self)@.remove(key@),
    {
        proof {
            use_type_invariant(&*self);
        }
        let found: Option<usize> = self.position(key);
        let mut entries: Vec<(String, String)> = Vec::new();
        std::mem::swap(&mut self.entries, &mut entries);
        let ghost before = entries@;
        match found {
            Some(i) => {
                entries.remove(i);
                proof {
                    lemma_removed(before, i as int);
                }
            },
            None => {
                proof {
                    assert(as_map(before).remove(key@) =~= as_map(before));
                }
            },
        }
        self.entries = entries;
    }
}

impl Clone for TextMap {
    fn clone(&self) -> (r: Self)
        ensures
            r@ == self@,
    {
        proof {
            use_type_invariant(self);
        }
        let mut entries: Vec<(String, String)> = Vec::new();
        for i in 0..self.entries.len()
            invariant
                entries@.len() == i,
                forall|j: int|
                    0 <= j < i ==> (#[trigger] entries@[j]).0@ == self.entries@[j].0@
                        && entries@[j].1@ == self.entries@[j].1@,
        {
            entries.push((self.entries[i].0.clone(), self.entries[i].1.clone()));
        }
        proof {
            lemma_copied(self.entries@, entries@);
        }
        TextMap { entries }
    }
}

proof fn lemma_copied(e: Seq<(String, String)>, f: Seq<(String, String)>)
    requires
        distinct(e),
        f.len() == e.len(),
        forall|j: int|
            0 <= j < f.len() ==> (#[trigger] f[j]).0@ == e[j].0@ && f[j].1@ == e[j].1@,
    ensures
        distinct(f),
        as_map(f) == as_map(e),
{
    assert(distinct(f)) by {
        assert forall|a: int, b: int|
            0 <= a < f.len() && 0 <= b < f.len() && (#[trigger] f[a]).0@ == (
            #[trigger] f[b]).0@ implies a == b by {
            assert(e[a].0@ == e[b].0@);
        }
    }
    assert forall|k: Seq<char>| holds(f, k) == holds(e, k) by {
        if holds(e, k) {
            let j = place(e, k);
            assert(f[j].0@ == k);
        }
        if holds(f, k) {
            let j = place(f, k);
            assert(e[j].0@ == k);
        }
    }
    assert forall|k: Seq<char>| holds(f, k) implies #[trigger] as_map(f)[k] == as_map(e)[k] by {
        let j = place(f, k);
        let m = place(e, k);
        assert(f[j].0@ == k);
        assert(holds(e, k));
        assert(e[j].0@ == e[m].0@);
    }
    assert(as_map(f) =~= as_map(e));
}

proof fn lemma_replaced(e: Seq<(String, String)>, i: int, x: (String, String))
    requires
        distinct(e),
        0 <= i < e.len(),
        e[i].0@ == x.0@,
    ensures
        distinct(e.update(i, x)),
        as_map(e.update(i, x)) == as_map(e).insert(x.0@, x.1@),
{
    let f = e.update(i, x);
    assert forall|k: Seq<char>| holds(f, k) == (holds(e, k) || k == x.0@) by {
        if holds(e, k) {
            let j = place(e, k);
            assert(f[j].0@ == k);
        }
        if holds(f, k) {
            let j = place(f, k);
            assert(e[j].0@ == k);
        }
        assert(f[i].0@ == x.0@);
    }
    assert(distinct(f)) by {
        assert forall|a: int, b: int|
            0 <= a < f.len() && 0 <= b < f.len() && (#[trigger] f[a]).0@ == (
            #[trigger] f[b]).0@ implies a == b by {
            assert(e[a].0@ == e[b].0@);
        }
    }
    assert forall|k: Seq<char>| holds(f, k) implies #[trigger] as_map(f)[k] == as_map(e).insert(
        x.0@,
        x.1@,
    )[k] by {
        let j = place(f, k);
        assert(f[j].0@ == k);
        if k == x.0@ {
            assert(f[i].0@ == f[j].0@);
        } else {
            let m = place(e, k);
            assert(holds(e, k));
            assert(e[m].0@ == e[j].0@);
        }
    }
    assert(as_map(f) =~= as_map(e).insert(x.0@, x.1@));
}

proof fn lemma_added(e: Seq<(String, String)>, x: (String, String))
    requires
        distinct(e),
        !holds(e, x.0@),
    ensures
        distinct(e.push(x)),
        as_map(e.push(x)) == as_map(e).insert(x.0@, x.1@),
{
    let f = e.push(x);
    let n = e.len() as int;
    assert forall|k: Seq<char>| holds(f, k) == (holds(e, k) || k == x.0@) by {
        if holds(e, k) {
            let j = place(e, k);
            assert(f[j].0@ == k);
        }
        if holds(f, k) {
            let j = place(f, k);
            if j < n {
                assert(e[j].0@ == k);
            }
        }
        assert(f[n].0@ == x.0@);
    }
    assert(distinct(f)) by {
        assert forall|a: int, b: int|
            0 <= a < f.len() && 0 <= b < f.len() && (#[trigger] f[a]).0@ == (
            #[trigger] f[b]).0@ implies a == b by {
            if a < n && b < n {
                assert(e[a].0@ == e[b].0@);
            } else if a < n {
                assert(e[a].0@ == x.0@);
            } else if b < n {
                assert(e[b].0@ == x.0@);
            }
        }
    }
    assert forall|k: Seq<char>| holds(f, k) implies #[trigger] as_map(f)[k] == as_map(e).insert(
        x.0@,
        x.1@,
    )[k] by {
        let j = place(f, k);
        assert(f[j].0@ == k);
        if k == x.0@ {
            assert(f[n].0@ == f[j].0@);
        } else {
            let m = place(e, k);
            assert(holds(e, k));
            assert(f[m].0@ == f[j].0@);
        }
    }
    assert(as_map(f) =~= as_map(e).insert(x.0@, x.1@));
}

proof fn lemma_removed(e: Seq<(String, String)>, i: int)
    requires
        distinct(e),
        0 <= i < e.len(),
    ensures
        distinct(e.remove(i)),
        as_map(e.remove(i)) == as_map(e).remove(e[i].0@),
{
    let f = e.remove(i);
    let x = e[i];
    assert forall|k: Seq<char>| holds(f, k) == (holds(e, k) && k != x.0@) by {
        if holds(e, k) && k != x.0@ {
            let j = place(e, k);
            assert(e[j].0@ == k);
            if j < i {
                assert(f[j].0@ == k);
            } else {
                assert(f[j - 1].0@ == k);
            }
        }
        if holds(f, k) {
            let j = place(f, k);
            let m = if j < i {
                j
            } else {
                j + 1
            };
            assert(e[m].0@ == k);
        }
    }
    assert(distinct(f)) by {
        assert forall|a: int, b: int|
            0 <= a < f.len() && 0 <= b < f.len() && (#[trigger] f[a]).0@ == (
            #[trigger] f[b]).0@ implies a == b by {
            let m = if a < i {
                a
            } else {
                a + 1
            };
            let n = if b < i {
                b
            } else {
                b + 1
            };
            assert(e[m].0@ == e[n].0@);
        }
    }
    assert forall|k: Seq<char>| holds(f, k) implies #[trigger] as_map(f)[k] == as_map(e).remove(
        x.0@,
    )[k] by {
        let j = place(f, k);
        assert(f[j].0@ == k);
        let m = if j < i {
            j
        } else {
            j + 1
        };
        let n = place(e, k);
        assert(holds(e, k));
        assert(e[m].0@ == e[n].0@);
    }
    assert(as_map(f) =~= as_map(e).remove(x.0@));
}

} // verus!
