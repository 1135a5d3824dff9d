//! The header mapping of a parsed message: borrowed key/value byte slices
//! with unique keys, viewed as a map from key bytes to value bytes.

use vstd::prelude::*;

use crate::model::lemma_last_duplicate_wins;
use crate::model::lemma_map_of_pairs_contains;
use crate::model::lemma_map_of_pairs_len;
use crate::model::lemma_map_of_pairs_update;
use crate::model::map_of_pairs;
use crate::model::unique_keys;
use crate::scan::bytes_eq;

verus! {

/// The contents of a pair vector, as byte sequences.
pub open spec fn pairs_view(ps: Seq<(&[u8], &[u8])>) -> Seq<(Seq<u8>, Seq<u8>)>
    decreases ps.len(),
{
    if ps.len() == 0 {
        Seq::empty()
    } else {
        pairs_view(ps.drop_last()).push((ps.last().0@, ps.last().1@))
    }
}

/// `pairs_view` maps the vector element for element.
pub proof fn lemma_pairs_view(ps: Seq<(&[u8], &[u8])>)
    ensures
        pairs_view(ps).len() == ps.len(),
        forall|i: int| 0 <= i < ps.len()
            ==> #[trigger] pairs_view(ps)[i] == (ps[i].0@, ps[i].1@),
    decreases ps.len(),
{
    if ps.len() > 0 {
        lemma_pairs_view(ps.drop_last());
        assert forall|i: int| 0 <= i < ps.len()
            implies #[trigger] pairs_view(ps)[i] == (ps[i].0@, ps[i].1@) by {
            if i < ps.len() - 1 {
                assert(ps.drop_last()[i] == ps[i]);
            }
        }
    }
}

/// A header mapping: key/value pairs borrowed from the parsed buffer, no
/// key occurring twice.
pub struct Headers<'a> {
    /// The pairs, in the order the keys first occur in the buffer.
    pub pairs: Vec<(&'a [u8], &'a [u8])>,
}

impl<'a> View for Headers<'a> {
    type V = Map<Seq<u8>, Seq<u8>>;

    open spec fn view(&self) -> Map<Seq<u8>, Seq<u8>> {
        map_of_pairs(pairs_view(self.pairs@))
    }
}

impl<'a> Headers<'a> {
    /// Well-formed: no two pairs share a key.
    pub open spec fn wf(&self) -> bool {
        unique_keys(pairs_view(self.pairs@))
    }

    /// An empty mapping.
    pub fn new() -> (h: Headers<'a>)
        ensures
            h@ == Map::<Seq<u8>, Seq<u8>>::empty(),
            h.wf(),
    {
        Headers { pairs: Vec::new() }
    }

    /// Index of the pair that holds `key`, if any.
    fn find_key(&self, key: &[u8]) -> (r: Option<usize>)
        ensures
            r matches Some(i) ==> i < self.pairs@.len() && self.pairs@[i as int].0@ == key@,
            r is None ==> forall|i: int| 0 <= i < self.pairs@.len()
                ==> self.pairs@[i].0@ != key@,
    {
        let mut i: usize = 0;
        while i < self.pairs.len()
            invariant
                i <= self.pairs@.len(),
                forall|j: int| 0 <= j < i ==> self.pairs@[j].0@ != key@,
            decreases self.pairs@.len() - i,
        {
            if bytes_eq(self.pairs[i].0, key) {
                return Some(i);
            }
            i = i + 1;
        }
        None
    }

    /// Puts `value` under `key`, overwriting the value of an earlier pair
    /// with that key rather than adding a second one.
    pub fn insert(&mut self, key: &'a [u8], value: &'a [u8])
        requires
            old(self).wf(),
        ensures
            final(self)@ == old(self)@.insert(key@, value@),
            final(self).wf(),
    {
        proof {
            lemma_pairs_view(self.pairs@);
        }
        match self.find_key(key) {
            Some(i) => {
                self.pairs.set(i, (key, value));
                proof {
                    let ps = pairs_view(old(self).pairs@);
                    lemma_pairs_view(self.pairs@);
                    assert(pairs_view(self.pairs@) =~= ps.update(i as int, (ps[i as int].0, value@)));
                    lemma_map_of_pairs_update(ps, i as int, value@);
                    assert(ps[i as int].0 == key@);
                    assert forall|a: int, b: int| 0 <= a < b < pairs_view(self.pairs@).len()
                        implies pairs_view(self.pairs@)[a].0 != pairs_view(self.pairs@)[b].0 by {
                        assert(ps[a].0 != ps[b].0);
                    }
                }
            },
            None => {
                self.pairs.push((key, value));
                proof {
                    let ps = pairs_view(old(self).pairs@);
                    lemma_pairs_view(self.pairs@);
                    assert(pairs_view(self.pairs@).drop_last() =~= ps);
                    assert(pairs_view(self.pairs@).last() == (key@, value@));
                    assert forall|a: int, b: int| 0 <= a < b < pairs_view(self.pairs@).len()
                        implies pairs_view(self.pairs@)[a].0 != pairs_view(self.pairs@)[b].0 by {
                        if b < ps.len() {
                            assert(ps[a].0 != ps[b].0);
                        } else {
                            assert(ps[a].0 == old(self).pairs@[a].0@);
                        }
                    }
                }
            },
        }
    }

    /// The value under `key`, if the mapping holds that key.
    pub fn get(&self, key: &[u8]) -> (r: Option<&'a [u8]>)
        ensures
            r is Some <==> self@.contains_key(key@),
            r matches Some(v) ==> v@ == self@[key@],
    {
        proof {
            lemma_pairs_view(self.pairs@);
            lemma_map_of_pairs_contains(pairs_view(self.pairs@));
        }
        let mut i: usize = self.pairs.len();
        while i > 0
            invariant
                i <= self.pairs@.len(),
                forall|j: int| i <= j < self.pairs@.len() ==> self.pairs@[j].0@ != key@,
            decreases i,
        {
            i = i - 1;
            if bytes_eq(self.pairs[i].0, key) {
                proof {
                    lemma_pairs_view(self.pairs@);
                    let ps = pairs_view(self.pairs@);
                    assert forall|j: int| i < j < ps.len() implies ps[j].0 != ps[i as int].0 by {
                        assert(self.pairs@[j].0@ != key@);
                    }
                    lemma_last_duplicate_wins(ps, i as int);
                }
                return Some(self.pairs[i].1);
            }
        }
        proof {
            let ps = pairs_view(self.pairs@);
            if self@.contains_key(key@) {
                let j = choose|j: int| 0 <= j < ps.len() && ps[j].0 == key@;
                assert(self.pairs@[j].0@ == key@);
            }
        }
        None
    }

    /// How many keys the mapping holds.
    pub fn len(&self) -> (n: usize)
        requires
            self.wf(),
        ensures
            n == self@.dom().len(),
    {
        proof {
            lemma_map_of_pairs_len(pairs_view(self.pairs@));
            lemma_pairs_view(self.pairs@);
        }
        self.pairs.len()
    }
}

} // verus!
