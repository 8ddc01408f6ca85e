//! The index of a box: which draw each note lies in.

use crate::id::ID;
use crate::lex::{
    lemma_lex_irreflexive, lemma_lex_total, lemma_lex_transitive, lex_lt, strict_total,
};
use crate::numeral::char_lt;
use crate::order::{lemma_char_lt_strict_total, text_before};
use crate::text::chars_of;
use vstd::prelude::*;

verus! {

/// One line of the index.
#[derive(Debug, PartialEq)]
pub struct Entry {
    pub id: ID,
    pub draw: u32,
}

/// Maps note IDs to draw numbers. An ID is known by its text.
///
/// The entries are kept in the order of their texts, each text once.
#[derive(Debug, PartialEq)]
pub struct Index {
    entries: Vec<Entry>,
}

/// `s` has an entry for the text `t`.
pub open spec fn has_entry(s: Seq<Entry>, t: Seq<char>) -> bool {
    exists|i: int| 0 <= i < s.len() && (#[trigger] s[i]).id@ == t
}

/// The position of an entry for the text `t`.
pub open spec fn entry_at(s: Seq<Entry>, t: Seq<char>) -> int {
    choose|i: int| 0 <= i < s.len() && (#[trigger] s[i]).id@ == t
}

/// The map that a list of entries spells out.
pub open spec fn entry_map(s: Seq<Entry>) -> Map<Seq<char>, u32> {
    Map::new(|t: Seq<char>| has_entry(s, t), |t: Seq<char>| s[entry_at(s, t)].draw)
}

/// The texts of the entries rise strictly.
pub open spec fn rising(s: Seq<Entry>) -> bool {
    forall|i: int, j: int|
        0 <= i < j < s.len() ==> lex_lt((#[trigger] s[i]).id@, (#[trigger] s[j]).id@, char_lt())
}

impl View for Index {
    type V = Map<Seq<char>, u32>;

    closed spec fn view(&self) -> Map<Seq<char>, u32> {
        entry_map(self.entries@)
    }
}

/// No text occurs twice among rising entries.
pub proof fn lemma_entry_unique(s: Seq<Entry>, i: int, j: int)
    requires
        rising(s),
        0 <= i < s.len(),
        0 <= j < s.len(),
        s[i].id@ == s[j].id@,
    ensures
        i == j,
{
    lemma_lex_irreflexive(s[i].id@, char_lt());
    if i < j {
        assert(lex_lt(s[i].id@, s[j].id@, char_lt()));
    } else if j < i {
        assert(lex_lt(s[j].id@, s[i].id@, char_lt()));
    }
}

/// What the map says of the entry at `i`.
pub proof fn lemma_entry_map(s: Seq<Entry>, i: int)
    requires
        rising(s),
        0 <= i < s.len(),
    ensures
        entry_map(s).contains_key(s[i].id@),
        entry_map(s)[s[i].id@] == s[i].draw,
{
    let t = s[i].id@;
    assert(has_entry(s, t));
    lemma_entry_unique(s, entry_at(s, t), i);
}

impl Index {
    /// The entries, which `Index` keeps to itself.
    pub closed spec fn list(&self) -> Seq<Entry> {
        self.entries@
    }

    /// The entries rise.
    pub closed spec fn wf(&self) -> bool {
        rising(self.entries@)
    }

    /// What the entries and the map have to do with each other.
    pub proof fn lemma_list(&self)
        requires
            self.wf(),
        ensures
            rising(self.list()),
            self@ == entry_map(self.list()),
    {
    }

    /// An index of nothing.
    pub fn new() -> (r: Index)
        ensures
            r.wf(),
            r@ == Map::<Seq<char>, u32>::empty(),
    {
        let r = Index { entries: Vec::new() };
        assert(r@ =~= Map::<Seq<char>, u32>::empty());
        r
    }

    /// The number of entries.
    pub fn len(&self) -> (r: usize)
        ensures
            r == self.list().len(),
    {
        self.entries.len()
    }

    /// All entries, each ID once, in the order of their texts.
    pub fn entries(&self) -> (r: &Vec<Entry>)
        ensures
            r@ == self.list(),
    {
        &self.entries
    }

    /// The first position whose text does not come before that of `id`.
    fn lower_bound(&self, id: &ID) -> (r: usize)
        requires
            self.wf(),
        ensures
            r <= self.entries@.len(),
            forall|i: int| 0 <= i < r ==> lex_lt((#[trigger] self.entries@[i]).id@, id@, char_lt()),
            forall|i: int|
                r <= i < self.entries@.len() ==> !lex_lt((#[trigger] self.entries@[i]).id@, id@, char_lt()),
    {
        let t = chars_of(id.as_str());
        let mut lo: usize = 0;
        let mut hi: usize = self.entries.len();
        proof {
            lemma_char_lt_strict_total();
        }
        while lo < hi
            invariant
                t@ == id@,
                rising(self.entries@),
                strict_total(char_lt()),
                lo <= hi <= self.entries@.len(),
                forall|i: int| 0 <= i < lo ==> lex_lt((#[trigger] self.entries@[i]).id@, id@, char_lt()),
                forall|i: int|
                    hi <= i < self.entries@.len() ==> !lex_lt(
                        (#[trigger] self.entries@[i]).id@,
                        id@,
                        char_lt(),
                    ),
            decreases hi - lo,
        {
            let mid = lo + (hi - lo) / 2;
            let m = chars_of(self.entries[mid].id.as_str());
            if text_before(&m, &t) {
                proof {
                    assert forall|i: int| 0 <= i < mid + 1 implies lex_lt(
                        (#[trigger] self.entries@[i]).id@,
                        id@,
                        char_lt(),
                    ) by {
                        if i < mid {
                            assert(lex_lt(self.entries@[i].id@, self.entries@[mid as int].id@, char_lt()));
                            lemma_lex_transitive(
                                self.entries@[i].id@,
                                self.entries@[mid as int].id@,
                                id@,
                                char_lt(),
                            );
                        }
                    }
                }
                lo = mid + 1;
            } else {
                proof {
                    assert forall|i: int| mid <= i < self.entries@.len() implies !lex_lt(
                        (#[trigger] self.entries@[i]).id@,
                        id@,
                        char_lt(),
                    ) by {
                        if mid < i && lex_lt(self.entries@[i].id@, id@, char_lt()) {
                            assert(lex_lt(self.entries@[mid as int].id@, self.entries@[i].id@, char_lt()));
                            lemma_lex_transitive(
                                self.entries@[mid as int].id@,
                                self.entries@[i].id@,
                                id@,
                                char_lt(),
                            );
                        }
                    }
                }
                hi = mid;
            }
        }
        lo
    }

    /// The draw that `id` lies in.
    pub fn get(&self, id: &ID) -> (r: Option<u32>)
        requires
            self.wf(),
        ensures
            r == (if self@.contains_key(id@) {
                Some(self@[id@])
            } else {
                None
            }),
    {
        let p = self.lower_bound(id);
        proof {
            lemma_lex_irreflexive(id@, char_lt());
        }
        if p < self.entries.len() && self.entries[p].id == *id {
            proof {
                lemma_entry_map(self.entries@, p as int);
            }
            Some(self.entries[p].draw)
        } else {
            proof {
                if has_entry(self.entries@, id@) {
                    let i = entry_at(self.entries@, id@);
                    if p < i {
                        assert(lex_lt(self.entries@[p as int].id@, self.entries@[i].id@, char_lt()));
                    }
                }
            }
            None
        }
    }

    /// Whether `id` has an entry.
    pub fn contains_key(&self, id: &ID) -> (r: bool)
        requires
            self.wf(),
        ensures
            r == self@.contains_key(id@),
    {
        match self.get(id) {
            Some(_) => true,
            None => false,
        }
    }

    /// Maps `id` to `draw`, whatever it was mapped to before.
    pub fn insert(&mut self, id: ID, draw: u32)
        requires
            old(self).wf(),
        ensures
            final(self).wf(),
            final(self)@ == old(self)@.insert(id@, draw),
            final(self).list().len() <= old(self).list().len() + 1,
    {
        let p = self.lower_bound(&id);
        let ghost before = self.entries@;
        proof {
            lemma_char_lt_strict_total();
            lemma_lex_irreflexive(id@, char_lt());
        }
        let replace = p < self.entries.len() && self.entries[p].id == id;
        if replace {
            self.entries.remove(p);
        }
        let ghost rest = self.entries@;
        assert forall|i: int| p <= i < rest.len() implies lex_lt(id@, (#[trigger] rest[i]).id@, char_lt()) by {
            if replace {
                assert(rest[i] == before[i + 1]);
                assert(lex_lt(before[p as int].id@, before[i + 1].id@, char_lt()));
            } else {
                assert(rest[i] == before[i]);
                lemma_lex_total(before[i].id@, id@, char_lt());
                if before[i].id@ == id@ {
                    if p < i {
                        assert(lex_lt(before[p as int].id@, before[i].id@, char_lt()));
                    }
                }
            }
        }
        let ghost t = id@;
        self.entries.insert(p, Entry { id, draw });
        proof {
            let after = self.entries@;
            assert(after =~= rest.insert(p as int, after[p as int]));
            assert(rising(after)) by {
                assert forall|i: int, j: int| 0 <= i < j < after.len() implies lex_lt(
                    (#[trigger] after[i]).id@,
                    (#[trigger] after[j]).id@,
                    char_lt(),
                ) by {
                    let skip = |k: int| if k < p { k } else if replace { k } else { k - 1 };
                    if i < p {
                        assert(after[i] == before[i]);
                        if j > p {
                            assert(after[j] == before[skip(j)]);
                            assert(lex_lt(before[i].id@, before[skip(j)].id@, char_lt()));
                        } else if j < p {
                            assert(after[j] == before[j]);
                        }
                    } else if i == p {
                        assert(after[j] == rest[j - 1]);
                    } else {
                        assert(after[i] == before[skip(i)]);
                        assert(after[j] == before[skip(j)]);
                        assert(lex_lt(before[skip(i)].id@, before[skip(j)].id@, char_lt()));
                    }
                }
            }
            let m = entry_map(after);
            let w = entry_map(before).insert(t, draw);
            lemma_entry_map(after, p as int);
            assert forall|u: Seq<char>|
                #![trigger m.dom().contains(u)]
                #![trigger w.dom().contains(u)]
                #![trigger m[u]]
                m.dom().contains(u) == w.dom().contains(u) && (m.dom().contains(u) ==> m[u] == w[u]) by {
                if u != t {
                    if has_entry(after, u) {
                        let i = entry_at(after, u);
                        let j = if i < p { i } else if replace { i } else { i - 1 };
                        assert(after[i] == before[j]);
                        lemma_entry_map(after, i);
                        lemma_entry_map(before, j);
                    }
                    if has_entry(before, u) {
                        let j = entry_at(before, u);
                        let i = if j < p { j } else if replace { j } else { j + 1 };
                        assert(after[i] == before[j]);
                        lemma_entry_map(after, i);
                        lemma_entry_map(before, j);
                    }
                }
            }
            assert(m.dom() =~= w.dom());
            assert(m =~= w);
        }
    }
}

} // verus!
