//! A map from names to texts, kept in the order of its names.
use vstd::prelude::*;
use vstd::string::*;

use crate::text::{before, lemma_lex_total, lemma_lex_trans, lex_lt, same};

verus! {

/// A map from names to texts. No name is there twice, and entries come in the order of their names.
#[derive(Debug, PartialEq, Eq)]
pub struct Props {
    entries: Vec<(String, String)>,
}

/// Whether names ascend.
pub open spec fn ascending(entries: Seq<(Seq<char>, Seq<char>)>) -> bool {
    forall|i: int, j: int|
        0 <= i < j < entries.len() ==> lex_lt(
            (#[trigger] entries[i]).0,
            (#[trigger] entries[j]).0,
        )
}

/// Whether the `i`th entry is that of a name.
pub open spec fn entry_at(entries: Seq<(Seq<char>, Seq<char>)>, key: Seq<char>, i: int) -> bool {
    0 <= i < entries.len() && entries[i].0 == key
}

/// The map that entries make up.
pub open spec fn map_of(entries: Seq<(Seq<char>, Seq<char>)>) -> Map<Seq<char>, Seq<char>> {
    Map::new(
        |key: Seq<char>| exists|i: int| entry_at(entries, key, i),
        |key: Seq<char>| entries[choose|i: int| entry_at(entries, key, i)].1,
    )
}

/// Each entry gives the map the text of its name.
pub proof fn lemma_entry(entries: Seq<(Seq<char>, Seq<char>)>, i: int)
    requires
        ascending(entries),
        0 <= i < entries.len(),
    ensures
        map_of(entries).contains_key(entries[i].0),
        map_of(entries)[entries[i].0] == entries[i].1,
{
    let key = entries[i].0;
    assert(entry_at(entries, key, i));
    let k = choose|k: int| entry_at(entries, key, k);
    lemma_lex_total(key, key);
    if k < i {
        assert(lex_lt(entries[k].0, entries[i].0));
    } else if i < k {
        assert(lex_lt(entries[i].0, entries[k].0));
    }
}

impl View for Props {
    type V = Map<Seq<char>, Seq<char>>;

    closed spec fn view(&self) -> Map<Seq<char>, Seq<char>> {
        map_of(self.entries.deep_view())
    }
}

impl Default for Props {
    /// An empty map.
    fn default() -> (r: Self)
        ensures
            r@ == Map::<Seq<char>, Seq<char>>::empty(),
    {
        Props::new()
    }
}

impl Clone for Props {
    fn clone(&self) -> (r: Self)
        ensures
            r@ == self@,
    {
        proof {
            use_type_invariant(self);
        }
        let mut entries: Vec<(String, String)> = Vec::new();
        let n: usize = self.entries.len();
        let ghost all = self.entries.deep_view();
        let mut i: usize = 0;
        while i < n
            invariant
                i <= n,
                n == self.entries@.len(),
                all == self.entries.deep_view(),
                entries.deep_view() == all.take(i as int),
            decreases n - i,
        {
            let ghost was = entries.deep_view();
            entries.push((self.entries[i].0.clone(), self.entries[i].1.clone()));
            assert(entries.deep_view() =~= was.push(all[i as int]));
            i = i + 1;
        }
        assert(all.take(n as int) =~= all);
        Props { entries }
    }
}

impl Props {
    #[verifier::type_invariant]
    spec fn inv(self) -> bool {
        ascending(self.entries.deep_view())
    }

    /// An empty map.
    pub fn new() -> (r: Self)
        ensures
            r@ == Map::<Seq<char>, Seq<char>>::empty(),
    {
        let entries: Vec<(String, String)> = Vec::new();
        let r = Props { entries };
        assert(r@ =~= Map::<Seq<char>, Seq<char>>::empty());
        r
    }

    /// The entries, in the order of their names.
    pub fn entries(&self) -> (r: &Vec<(String, String)>)
        ensures
            ascending(r.deep_view()),
            self@ == map_of(r.deep_view()),
    {
        proof {
            use_type_invariant(self);
        }
        &self.entries
    }

    /// Where a name is, or where it would have to be.
    fn seek(entries: &Vec<(String, String)>, key: &str) -> (r: (usize, bool))
        requires
            ascending(entries.deep_view()),
        ensures
            r.0 <= entries@.len(),
            forall|k: int| 0 <= k < r.0 ==> lex_lt((#[trigger] entries.deep_view()[k]).0, key@),
            forall|k: int|
                r.0 <= k < entries@.len() && (k > r.0 || !r.1) ==> lex_lt(
                    key@,
                    (#[trigger] entries.deep_view()[k]).0,
                ),
            r.1 ==> r.0 < entries@.len() && entries.deep_view()[r.0 as int].0 == key@,
            map_of(entries.deep_view()).contains_key(key@) == r.1,
            r.1 ==> map_of(entries.deep_view())[key@] == entries.deep_view()[r.0 as int].1,
    {
        let n: usize = entries.len();
        let ghost all = entries.deep_view();
        let mut i: usize = 0;
        while i < n && before(entries[i].0.as_str(), key)
            invariant
                i <= n,
                n == entries@.len(),
                all == entries.deep_view(),
                forall|k: int| 0 <= k < i ==> lex_lt((#[trigger] all[k]).0, key@),
            decreases n - i,
        {
            assert(all[i as int].0 == entries@[i as int].0@);
            i = i + 1;
        }
        let there = i < n && same(entries[i].0.as_str(), key);
        proof {
            if i < n {
                assert(all[i as int].0 == entries@[i as int].0@);
                lemma_lex_total(all[i as int].0, key@);
            }
            assert forall|k: int| i <= k < n && (k > i || !there) implies lex_lt(
                key@,
                (#[trigger] all[k]).0,
            ) by {
                if k > i {
                    assert(lex_lt(all[i as int].0, all[k].0));
                    if !there {
                        lemma_lex_trans(key@, all[i as int].0, all[k].0);
                    }
                }
            }
            if there {
                lemma_entry(all, i as int);
            } else if map_of(all).contains_key(key@) {
                let k = choose|k: int| entry_at(all, key@, k);
                lemma_lex_total(key@, key@);
                assert(all[k].0 == key@);
            }
        }
        (i, there)
    }

    /// The text of a name.
    pub fn get(&self, key: &str) -> (r: Option<&String>)
        ensures
            match r {
                Some(value) => self@.contains_key(key@) && value@ == self@[key@],
                None => !self@.contains_key(key@),
            },
    {
        proof {
            use_type_invariant(self);
        }
        let (i, there) = Props::seek(&self.entries, key);
        if there {
            assert(self.entries.deep_view()[i as int].1 == self.entries@[i as int].1@);
            Some(&self.entries[i].1)
        } else {
            None
        }
    }

    /// Give a name a text, in place of the one it may have had.
    pub fn insert(&mut self, key: String, value: String)
        ensures
            final(self)@ == old(self)@.insert(key@, value@),
    {
        proof {
            use_type_invariant(&*self);
        }
        let ghost old_map = self@;
        let mut entries: Vec<(String, String)> = Vec::new();
        assert(entries.deep_view() =~= Seq::<(Seq<char>, Seq<char>)>::empty());
        std::mem::swap(&mut entries, &mut self.entries);
        let ghost was = entries.deep_view();
        let (i, there) = Props::seek(&entries, key.as_str());
        let ghost k = key@;
        let ghost v = value@;
        if there {
            entries[i] = (key, value);
            assert(entries.deep_view() =~= was.update(i as int, (k, v)));
        } else {
            entries.insert(i, (key, value));
            assert(entries.deep_view() =~= was.insert(i as int, (k, v)));
        }
        let ghost now = entries.deep_view();
        proof {
            assert(now[i as int] == (k, v));
            assert forall|a: int, b: int| 0 <= a < b < now.len() implies lex_lt(
                (#[trigger] now[a]).0,
                (#[trigger] now[b]).0,
            ) by {
                if there {
                    assert(now[a].0 == was[a].0);
                    assert(now[b].0 == was[b].0);
                } else {
                    if a < i {
                        assert(now[a] == was[a]);
                    } else if a > i {
                        assert(now[a] == was[a - 1]);
                    }
                    if b < i {
                        assert(now[b] == was[b]);
                    } else if b > i {
                        assert(now[b] == was[b - 1]);
                    }
                }
            }
            assert forall|q: Seq<char>| #[trigger]
                map_of(now).contains_key(q) <==> q == k || map_of(was).contains_key(q) by {
                if map_of(now).contains_key(q) {
                    let m = choose|m: int| entry_at(now, q, m);
                    if m < i {
                        assert(entry_at(was, q, m));
                    } else if m > i {
                        assert(entry_at(was, q, if there { m } else { m - 1 }));
                    }
                }
                if map_of(was).contains_key(q) && q != k {
                    let m = choose|m: int| entry_at(was, q, m);
                    assert(entry_at(now, q, if there || m < i { m } else { m + 1 }));
                }
                assert(entry_at(now, k, i as int));
            }
            assert forall|q: Seq<char>| map_of(was).contains_key(q) && q != k implies #[trigger]
                map_of(now)[q] == map_of(was)[q] by {
                let m = choose|m: int| entry_at(was, q, m);
                lemma_entry(was, m);
                lemma_entry(now, if there || m < i { m } else { m + 1 });
            }
            lemma_entry(now, i as int);
            assert(map_of(now) =~= map_of(was).insert(k, v));
        }
        self.entries = entries;
    }
}

/// Entries in order come each before those behind it; and what the map that they make up holds is exactly
/// what they hold.
pub proof fn law_entries_make_up_the_map(
    entries: Seq<(Seq<char>, Seq<char>)>,
    i: int,
    j: int,
    key: Seq<char>,
)
    requires
        ascending(entries),
        0 <= i < j < entries.len(),
    ensures
        lex_lt(entries[i].0, entries[j].0),
        map_of(entries)[entries[i].0] == entries[i].1,
        map_of(entries)[entries[j].0] == entries[j].1,
        map_of(entries).contains_key(key) <==> exists|k: int|
            0 <= k < entries.len() && (#[trigger] entries[k]).0 == key,
{
    lemma_entry(entries, i);
    lemma_entry(entries, j);
    if exists|k: int| 0 <= k < entries.len() && (#[trigger] entries[k]).0 == key {
        let k = choose|k: int| 0 <= k < entries.len() && (#[trigger] entries[k]).0 == key;
        assert(entry_at(entries, key, k));
    }
    if map_of(entries).contains_key(key) {
        let k = choose|k: int| entry_at(entries, key, k);
        assert(entries[k].0 == key);
    }
}

} // verus!
