//! Immutable lookup tables, built once by the dictionary loader and then
//! only read. Each table is a list of key/value pairs whose abstract value
//! is the map obtained by inserting the pairs in order, so a later pair
//! with the same key overrides an earlier one.

use vstd::prelude::*;

verus! {

/// The map denoted by a pair list: pairs are inserted in order, so the
/// last pair with a given key wins.
pub open spec fn char_pairs_map(entries: Seq<(char, char)>) -> Map<char, char>
    decreases entries.len(),
{
    if entries.len() == 0 {
        Map::empty()
    } else {
        char_pairs_map(entries.drop_last()).insert(entries.last().0, entries.last().1)
    }
}

/// The map denoted by a pair list of character sequences, last write wins.
pub open spec fn word_pairs_map(entries: Seq<(Seq<char>, Seq<char>)>) -> Map<Seq<char>, Seq<char>>
    decreases entries.len(),
{
    if entries.len() == 0 {
        Map::empty()
    } else {
        word_pairs_map(entries.drop_last()).insert(entries.last().0, entries.last().1)
    }
}

/// A table from a single code point to a single code point.
pub struct CharTable {
    entries: Vec<(char, char)>,
}

impl View for CharTable {
    type V = Map<char, char>;

    closed spec fn view(&self) -> Map<char, char> {
        char_pairs_map(self.entries@)
    }
}

impl CharTable {
    /// An empty table.
    pub(crate) fn new() -> (t: CharTable)
        ensures
            t@ == Map::<char, char>::empty(),
    {
        CharTable { entries: Vec::new() }
    }

    /// Adds a pair; a pair added later overrides an earlier one with the
    /// same key.
    pub(crate) fn insert(&mut self, k: char, v: char)
        ensures
            final(self)@ == old(self)@.insert(k, v),
    {
        self.entries.push((k, v));
        proof {
            assert(self.entries@.drop_last() =~= old(self).entries@);
        }
    }

    /// Looks a key up; `None` means no substitution is defined for it.
    pub fn get(&self, k: char) -> (r: Option<char>)
        ensures
            match r {
                Some(v) => self@.contains_key(k) && self@[k] == v,
                None => !self@.contains_key(k),
            },
    {
        let n: usize = self.entries.len();
        let mut i: usize = 0;
        let mut found: Option<char> = None;
        while i < n
            invariant
                n == self.entries.len(),
                i <= n,
                match found {
                    Some(v) => char_pairs_map(self.entries@.take(i as int)).contains_key(k)
                        && char_pairs_map(self.entries@.take(i as int))[k] == v,
                    None => !char_pairs_map(self.entries@.take(i as int)).contains_key(k),
                },
            decreases n - i,
        {
            proof {
                assert(self.entries@.take(i + 1).drop_last() =~= self.entries@.take(i as int));
                assert(self.entries@.take(i + 1).last() == self.entries@[i as int]);
            }
            let (ek, ev) = self.entries[i];
            if ek == k {
                found = Some(ev);
            }
            i = i + 1;
        }
        proof {
            assert(self.entries@.take(n as int) =~= self.entries@);
        }
        found
    }
}

/// A table from a character sequence to a character sequence.
pub struct WordTable {
    entries: Vec<(Vec<char>, Vec<char>)>,
}

impl View for WordTable {
    type V = Map<Seq<char>, Seq<char>>;

    closed spec fn view(&self) -> Map<Seq<char>, Seq<char>> {
        word_pairs_map(self.entries@.map_values(|e: (Vec<char>, Vec<char>)| (e.0@, e.1@)))
    }
}

/// Whether two character vectors hold the same characters.
fn chars_eq(a: &Vec<char>, b: &Vec<char>) -> (r: bool)
    ensures
        r == (a@ == b@),
{
    let n: usize = a.len();
    if n != b.len() {
        proof {
            assert(a@ != b@);
        }
        return false;
    }
    let mut i: usize = 0;
    while i < n
        invariant
            n == a.len() && n == b.len(),
            i <= n,
            forall|j: int| 0 <= j < i ==> a@[j] == b@[j],
        decreases n - i,
    {
        if a[i] != b[i] {
            proof {
                assert(a@[i as int] != b@[i as int]);
            }
            return false;
        }
        i = i + 1;
    }
    proof {
        assert(a@ =~= b@);
    }
    true
}

impl WordTable {
    /// An empty table.
    pub(crate) fn new() -> (t: WordTable)
        ensures
            t@ == Map::<Seq<char>, Seq<char>>::empty(),
    {
        let t = WordTable { entries: Vec::new() };
        proof {
            assert(t.entries@.map_values(|e: (Vec<char>, Vec<char>)| (e.0@, e.1@)) =~= Seq::<(
                Seq<char>,
                Seq<char>,
            )>::empty());
        }
        t
    }

    /// Adds a pair; a pair added later overrides an earlier one with the
    /// same key.
    pub(crate) fn insert(&mut self, k: Vec<char>, v: Vec<char>)
        ensures
            final(self)@ == old(self)@.insert(k@, v@),
    {
        let ghost gk = k@;
        let ghost gv = v@;
        self.entries.push((k, v));
        proof {
            let f = |e: (Vec<char>, Vec<char>)| (e.0@, e.1@);
            let mapped = self.entries@.map_values(f);
            assert(mapped.drop_last() =~= old(self).entries@.map_values(f));
            assert(mapped.last() == (gk, gv));
        }
    }

    /// Looks a key up; `None` means no substitution is defined for it.
    pub fn get<'a>(&'a self, k: &Vec<char>) -> (r: Option<&'a Vec<char>>)
        ensures
            match r {
                Some(v) => self@.contains_key(k@) && self@[k@] == v@,
                None => !self@.contains_key(k@),
            },
    {
        let ghost f = |e: (Vec<char>, Vec<char>)| (e.0@, e.1@);
        let n: usize = self.entries.len();
        let mut i: usize = 0;
        let mut found: Option<&'a Vec<char>> = None;
        while i < n
            invariant
                n == self.entries.len(),
                i <= n,
                f == (|e: (Vec<char>, Vec<char>)| (e.0@, e.1@)),
                match found {
                    Some(v) => word_pairs_map(self.entries@.take(i as int).map_values(f))
                        .contains_key(k@) && word_pairs_map(
                        self.entries@.take(i as int).map_values(f),
                    )[k@] == v@,
                    None => !word_pairs_map(self.entries@.take(i as int).map_values(f))
                        .contains_key(k@),
                },
            decreases n - i,
        {
            proof {
                assert(self.entries@.take(i + 1).map_values(f).drop_last() =~= self.entries@.take(
                    i as int,
                ).map_values(f));
                assert(self.entries@.take(i + 1).map_values(f).last() == f(
                    self.entries@[i as int],
                ));
            }
            let e = &self.entries[i];
            if chars_eq(&e.0, k) {
                found = Some(&e.1);
            }
            i = i + 1;
        }
        proof {
            assert(self.entries@.take(n as int).map_values(f) =~= self.entries@.map_values(f));
        }
        found
    }
}

} // verus!
