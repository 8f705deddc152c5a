//! The declaration table: a mapping from declaration names to pattern text,
//! stored as a vector of pairs with pairwise-distinct names and viewed as a
//! `Map` from name to value.
use vstd::prelude::*;

verus! {

/// The views of a sequence of owned name/value pairs.
pub open spec fn entry_views(s: Seq<(String, String)>) -> Seq<(Seq<char>, Seq<char>)> {
    s.map_values(|p: (String, String)| (p.0@, p.1@))
}

/// The mapping described by an association sequence; a later pair with the
/// same name overwrites an earlier one.
pub open spec fn assoc_map(s: Seq<(Seq<char>, Seq<char>)>) -> Map<Seq<char>, Seq<char>>
    decreases s.len(),
{
    if s.len() == 0 {
        Map::empty()
    } else {
        assoc_map(s.drop_last()).insert(s.last().0, s.last().1)
    }
}

/// Pairwise-distinct names in an association sequence.
pub open spec fn keys_distinct(s: Seq<(Seq<char>, Seq<char>)>) -> bool {
    forall|i: int, j: int| 0 <= i < j < s.len() ==> s[i].0 != s[j].0
}

pub proof fn lemma_assoc_map_dom(s: Seq<(Seq<char>, Seq<char>)>)
    ensures
        assoc_map(s).dom().finite(),
        assoc_map(s).dom().len() <= s.len(),
        forall|k: Seq<char>|
            assoc_map(s).dom().contains(k) <==> exists|i: int| 0 <= i < s.len() && s[i].0 == k,
    decreases s.len(),
{
    if s.len() == 0 {
    } else {
        lemma_assoc_map_dom(s.drop_last());
        assert forall|k: Seq<char>| assoc_map(s).dom().contains(k) implies exists|i: int|
            0 <= i < s.len() && s[i].0 == k by {
            if k == s.last().0 {
                assert(s[s.len() - 1].0 == k);
            } else {
                let i = choose|i: int| 0 <= i < s.drop_last().len() && s.drop_last()[i].0 == k;
                assert(s[i].0 == k);
            }
        }
        assert forall|k: Seq<char>| (exists|i: int| 0 <= i < s.len() && s[i].0 == k) implies
            assoc_map(s).dom().contains(k) by {
            let i = choose|i: int| 0 <= i < s.len() && s[i].0 == k;
            if i < s.len() - 1 {
                assert(s.drop_last()[i].0 == k);
            }
        }
    }
}

pub proof fn lemma_assoc_map_lookup(s: Seq<(Seq<char>, Seq<char>)>, i: int)
    requires
        keys_distinct(s),
        0 <= i < s.len(),
    ensures
        assoc_map(s).contains_key(s[i].0),
        assoc_map(s)[s[i].0] == s[i].1,
    decreases s.len(),
{
    if i == s.len() - 1 {
    } else {
        assert(keys_distinct(s.drop_last()));
        assert(s.drop_last()[i] == s[i]);
        lemma_assoc_map_lookup(s.drop_last(), i);
        assert(s[i].0 != s.last().0);
    }
}

pub proof fn lemma_assoc_map_absent(s: Seq<(Seq<char>, Seq<char>)>, k: Seq<char>)
    requires
        forall|i: int| 0 <= i < s.len() ==> s[i].0 != k,
    ensures
        !assoc_map(s).dom().contains(k),
    decreases s.len(),
{
    if s.len() == 0 {
    } else {
        assert(forall|i: int|
            0 <= i < s.drop_last().len() ==> #[trigger] s.drop_last()[i].0 != k);
        lemma_assoc_map_absent(s.drop_last(), k);
        assert(s[s.len() - 1].0 != k);
    }
}

pub proof fn lemma_assoc_map_update(s: Seq<(Seq<char>, Seq<char>)>, i: int, v: Seq<char>)
    requires
        keys_distinct(s),
        0 <= i < s.len(),
    ensures
        assoc_map(s.update(i, (s[i].0, v))) == assoc_map(s).insert(s[i].0, v),
    decreases s.len(),
{
    let s2 = s.update(i, (s[i].0, v));
    if i == s.len() - 1 {
        assert(s2.drop_last() =~= s.drop_last());
        assert(assoc_map(s2) =~= assoc_map(s).insert(s[i].0, v));
    } else {
        assert(keys_distinct(s.drop_last()));
        assert(s.drop_last()[i] == s[i]);
        lemma_assoc_map_update(s.drop_last(), i, v);
        assert(s2.drop_last() =~= s.drop_last().update(i, (s[i].0, v)));
        assert(s2.last() == s.last());
        assert(s[i].0 != s.last().0);
        assert(assoc_map(s2) =~= assoc_map(s).insert(s[i].0, v));
    }
}

/// The table of declarations; `@` is the mapping from each declared name to
/// the text stored for it.
pub struct DeclTable {
    entries: Vec<(String, String)>,
}

impl View for DeclTable {
    type V = Map<Seq<char>, Seq<char>>;

    open spec fn view(&self) -> Map<Seq<char>, Seq<char>> {
        assoc_map(self.entry_seq())
    }
}

impl DeclTable {
    /// The stored name/value pairs, in insertion order.
    pub closed spec fn entry_seq(&self) -> Seq<(Seq<char>, Seq<char>)> {
        entry_views(self.entries@)
    }

    /// Names are pairwise distinct; every operation of the table keeps this.
    pub open spec fn wf(&self) -> bool {
        keys_distinct(self.entry_seq())
    }

    pub proof fn lemma_view_finite(&self)
        ensures
            self@.dom().finite(),
    {
        lemma_assoc_map_dom(self.entry_seq());
    }

    pub fn new() -> (t: DeclTable)
        ensures
            t.wf(),
            t@ == Map::<Seq<char>, Seq<char>>::empty(),
            t.entry_seq() == Seq::<(Seq<char>, Seq<char>)>::empty(),
    {
        let t = DeclTable { entries: Vec::new() };
        proof {
            assert(t.entry_seq() =~= Seq::<(Seq<char>, Seq<char>)>::empty());
        }
        t
    }

    fn find(&self, name: &String) -> (r: Option<usize>)
        ensures
            match r {
                Some(i) => i < self.entry_seq().len() && self.entry_seq()[i as int].0 == name@,
                None => forall|i: int|
                    0 <= i < self.entry_seq().len() ==> #[trigger] self.entry_seq()[i].0 != name@,
            },
    {
        let n = self.entries.len();
        let mut i: usize = 0;
        while i < n
            invariant
                n == self.entries@.len(),
                i <= n,
                forall|k: int| 0 <= k < i ==> #[trigger] self.entry_seq()[k].0 != name@,
            decreases n - i,
        {
            proof {
                assert(self.entry_seq()[i as int] == (self.entries@[i as int].0@,
                    self.entries@[i as int].1@));
            }
            if self.entries[i].0 == *name {
                return Some(i);
            }
            i = i + 1;
        }
        None
    }

    /// Looks a name up: the stored value, or `None` for an undeclared name.
    pub fn get(&self, name: &String) -> (r: Option<&String>)
        requires
            self.wf(),
        ensures
            match r {
                Some(v) => self@.contains_key(name@) && v@ == self@[name@],
                None => !self@.dom().contains(name@),
            },
    {
        match self.find(name) {
            Some(i) => {
                proof {
                    lemma_assoc_map_lookup(self.entry_seq(), i as int);
                }
                Some(&self.entries[i].1)
            },
            None => {
                proof {
                    lemma_assoc_map_absent(self.entry_seq(), name@);
                }
                None
            },
        }
    }

    /// The stored name/value pairs, cloned, in insertion order.
    pub fn items(&self) -> (r: Vec<(String, String)>)
        ensures
            entry_views(r@) == self.entry_seq(),
    {
        let mut r: Vec<(String, String)> = Vec::new();
        let n = self.entries.len();
        let mut i: usize = 0;
        proof {
            assert(entry_views(r@) =~= self.entry_seq().subrange(0, 0));
        }
        while i < n
            invariant
                n == self.entries@.len(),
                i <= n,
                entry_views(r@) == self.entry_seq().subrange(0, i as int),
            decreases n - i,
        {
            let pair = (self.entries[i].0.clone(), self.entries[i].1.clone());
            let ghost old_r = r@;
            r.push(pair);
            proof {
                assert(entry_views(old_r).len() == old_r.len());
                assert(old_r.len() == i as int);
                assert(r@ == old_r.push(pair));
                assert forall|k: int| 0 <= k < i + 1 implies entry_views(r@)[k]
                    == self.entry_seq().subrange(0, i + 1)[k] by {
                    if k < i {
                        assert(r@[k] == old_r[k]);
                        assert(entry_views(old_r)[k] == self.entry_seq().subrange(0, i as int)[k]);
                    } else {
                        assert(r@[k] == pair);
                        assert(self.entry_seq()[k] == (self.entries@[k].0@, self.entries@[k].1@));
                    }
                }
                assert(entry_views(r@) =~= self.entry_seq().subrange(0, i + 1));
            }
            i = i + 1;
        }
        proof {
            assert(self.entry_seq().subrange(0, n as int) =~= self.entry_seq());
        }
        r
    }

    /// Inserts or overwrites a declaration; a later insertion under the same
    /// name wins.
    pub fn insert(&mut self, name: String, value: String)
        requires
            old(self).wf(),
        ensures
            final(self).wf(),
            final(self)@ == old(self)@.insert(name@, value@),
    {
        let ghost old_seq = self.entry_seq();
        match self.find(&name) {
            Some(i) => {
                proof {
                    lemma_assoc_map_update(old_seq, i as int, value@);
                }
                self.entries[i] = (name, value);
                proof {
                    assert(self.entry_seq() =~= old_seq.update(
                        i as int,
                        (old_seq[i as int].0, value@),
                    ));
                    assert(keys_distinct(self.entry_seq()));
                    assert(self@ == old(self)@.insert(name@, value@));
                }
            },
            None => {
                self.entries.push((name, value));
                proof {
                    assert(self.entry_seq().drop_last() =~= old_seq);
                    assert(self.entry_seq().last() == (name@, value@));
                    assert(self@ =~= assoc_map(old_seq).insert(name@, value@));
                    let s2 = self.entry_seq();
                    assert forall|i: int, j: int| 0 <= i < j < s2.len() implies s2[i].0
                        != s2[j].0 by {
                        assert(s2.drop_last()[i] == s2[i]);
                        if j < s2.len() - 1 {
                            assert(s2.drop_last()[j] == s2[j]);
                        } else {
                            assert(s2[j] == (name@, value@));
                            assert(old_seq[i].0 != name@);
                        }
                    }
                    assert(keys_distinct(s2));
                }
            },
        }
    }
}

} // verus!
