//! The term table: every indexed term, kept in lexicographic order, with
//! its postings (for each entry that holds the term, the positions at which
//! it stands there).
use vstd::prelude::*;
use std::collections::HashMap;
use crate::order::{lex_lt, strictly_sorted, compare_chars, starts_with_chars, Order};
use crate::order::{lemma_lex_irreflexive, lemma_lex_total, lemma_lex_transitive};
use crate::order::{lemma_prefix_not_after, lemma_prefix_interval};
use crate::text::str_views;

verus! {

broadcast use vstd::std_specs::hash::group_hash_axioms;

/// Postings: for each entry number, the positions at which a term stands.
pub type PostingMap = HashMap<usize, Vec<usize>>;

/// The view of postings: entry number to positions.
pub open spec fn postings_view(p: PostingMap) -> Map<usize, Seq<usize>> {
    p@.map_values(|v: Vec<usize>| v@)
}

/// One term and its postings.
#[derive(Debug, Clone)]
pub struct TermEntry {
    term: String,
    chars: Vec<char>,
    postings: PostingMap,
}

/// The indexed terms in strictly increasing order, each with its postings.
#[derive(Debug, Clone)]
pub struct TermTable {
    entries: Vec<TermEntry>,
}

/// `post` with `pos` appended to the positions of entry `doc`.
pub open spec fn with_position(post: Map<usize, Seq<usize>>, doc: usize, pos: usize) -> Map<
    usize,
    Seq<usize>,
> {
    post.insert(doc, (if post.contains_key(doc) { post[doc] } else { seq![] }).push(pos))
}

/// `post` with the last position of entry `doc` dropped, and the entry
/// dropped once it has no position left.
pub open spec fn without_last_position(post: Map<usize, Seq<usize>>, doc: usize) -> Map<
    usize,
    Seq<usize>,
> {
    if post[doc].len() <= 1 {
        post.remove(doc)
    } else {
        post.insert(doc, post[doc].drop_last())
    }
}

impl TermTable {
    /// The terms, in the order in which the table keeps them.
    pub closed spec fn keys(&self) -> Seq<Seq<char>> {
        self.entries@.map_values(|e: TermEntry| e.chars@)
    }

    /// The table is well formed: its terms strictly increase, and each
    /// entry's string and characters agree.
    pub closed spec fn wf(&self) -> bool {
        &&& strictly_sorted(self.keys())
        &&& forall|i: int|
            0 <= i < self.entries@.len() ==> (#[trigger] self.entries@[i]).term@
                == self.entries@[i].chars@
    }

    /// The postings of the term at index `i`.
    closed spec fn postings_at(&self, i: int) -> Map<usize, Seq<usize>> {
        postings_view(self.entries@[i].postings)
    }

    /// An index lookup of a term in the key sequence.
    proof fn lemma_index_of(&self, i: int)
        requires
            self.wf(),
            0 <= i < self.keys().len(),
        ensures
            self.keys().contains(self.keys()[i]),
            self.keys().index_of(self.keys()[i]) == i,
    {
        let keys = self.keys();
        assert(keys[i] == keys[i]);
        let j = keys.index_of(keys[i]);
        assert(0 <= j < keys.len() && keys[j] == keys[i]);
        if j < i {
            assert(lex_lt(keys[j], keys[i]));
            lemma_lex_irreflexive(keys[i]);
        } else if i < j {
            assert(lex_lt(keys[i], keys[j]));
            lemma_lex_irreflexive(keys[i]);
        }
    }
}

impl View for TermTable {
    type V = Map<Seq<char>, Map<usize, Seq<usize>>>;

    /// Each term to its postings.
    closed spec fn view(&self) -> Map<Seq<char>, Map<usize, Seq<usize>>> {
        Map::new(
            |t: Seq<char>| self.keys().contains(t),
            |t: Seq<char>| self.postings_at(self.keys().index_of(t)),
        )
    }
}

/// A copy of a character slice.
fn copy_chars(t: &[char]) -> (r: Vec<char>)
    ensures
        r@ == t@,
{
    let mut r: Vec<char> = Vec::new();
    let mut i: usize = 0;
    while i < t.len()
        invariant
            i <= t.len(),
            r@ == t@.take(i as int),
        decreases t.len() - i,
    {
        r.push(t[i]);
        i = i + 1;
        assert(r@ =~= t@.take(i as int));
    }
    assert(r@ =~= t@);
    r
}

impl TermTable {
    /// The terms of the table are those of its view, in increasing order.
    pub proof fn lemma_keys(&self)
        requires
            self.wf(),
        ensures
            strictly_sorted(self.keys()),
            forall|t: Seq<char>| #[trigger] self@.contains_key(t) <==> self.keys().contains(t),
    {
    }

    /// Creates an empty table.
    pub fn new() -> (r: Self)
        ensures
            r.wf(),
            r@ == Map::<Seq<char>, Map<usize, Seq<usize>>>::empty(),
    {
        let r = TermTable { entries: Vec::new() };
        assert(r.keys() =~= Seq::<Seq<char>>::empty());
        assert(r@ =~= Map::<Seq<char>, Map<usize, Seq<usize>>>::empty());
        r
    }

    /// Removes every term.
    pub fn clear(&mut self)
        ensures
            final(self).wf(),
            final(self)@ == Map::<Seq<char>, Map<usize, Seq<usize>>>::empty(),
    {
        self.entries.clear();
        assert(self.keys() =~= Seq::<Seq<char>>::empty());
        assert(self@ =~= Map::<Seq<char>, Map<usize, Seq<usize>>>::empty());
    }

    /// The number of terms.
    pub fn len(&self) -> (r: usize)
        requires
            self.wf(),
        ensures
            r == self.keys().len(),
    {
        self.entries.len()
    }

    /// The term at index `i` in increasing order.
    pub fn term_at(&self, i: usize) -> (r: &str)
        requires
            self.wf(),
            i < self.keys().len(),
        ensures
            r@ == self.keys()[i as int],
    {
        self.entries[i].term.as_str()
    }

    /// The first index whose term does not come before `t`, and whether the
    /// term there is `t`.
    fn lower_bound(&self, t: &[char]) -> (r: (bool, usize))
        requires
            self.wf(),
        ensures
            r.1 <= self.keys().len(),
            forall|i: int| 0 <= i < r.1 ==> lex_lt(#[trigger] self.keys()[i], t@),
            forall|i: int| r.1 <= i < self.keys().len() ==> !lex_lt(#[trigger] self.keys()[i], t@),
            r.0 == (r.1 < self.keys().len() && self.keys()[r.1 as int] == t@),
            r.0 == self.keys().contains(t@),
    {
        let ghost keys = self.keys();
        let mut lo: usize = 0;
        let mut hi: usize = self.entries.len();
        while lo < hi
            invariant
                self.wf(),
                keys == self.keys(),
                lo <= hi <= keys.len(),
                forall|i: int| 0 <= i < lo ==> lex_lt(#[trigger] keys[i], t@),
                forall|i: int| hi <= i < keys.len() ==> !lex_lt(#[trigger] keys[i], t@),
            decreases hi - lo,
        {
            let mid = lo + (hi - lo) / 2;
            let c = compare_chars(self.entries[mid].chars.as_slice(), t);
            assert(keys[mid as int] == self.entries@[mid as int].chars@);
            if c == Order::Less {
                proof {
                    assert forall|i: int| 0 <= i < mid + 1 implies lex_lt(#[trigger] keys[i], t@) by {
                        if i < mid {
                            lemma_lex_transitive(keys[i], keys[mid as int], t@);
                        }
                    }
                }
                lo = mid + 1;
            } else {
                proof {
                    assert forall|i: int| mid <= i < keys.len() implies !lex_lt(
                        #[trigger] keys[i],
                        t@,
                    ) by {
                        if i > mid {
                            lemma_lex_total(keys[i], t@);
                            lemma_lex_total(keys[mid as int], t@);
                            if lex_lt(keys[i], t@) {
                                lemma_lex_transitive(keys[mid as int], keys[i], t@);
                                if keys[mid as int] == t@ {
                                    lemma_lex_irreflexive(t@);
                                }
                            }
                        }
                    }
                }
                hi = mid;
            }
        }
        if lo < self.entries.len() {
            let c = compare_chars(self.entries[lo].chars.as_slice(), t);
            proof {
                assert(keys[lo as int] == self.entries@[lo as int].chars@);
                if keys.contains(t@) {
                    let j = choose|j: int| 0 <= j < keys.len() && keys[j] == t@;
                    lemma_lex_irreflexive(t@);
                    if j > lo {
                        lemma_lex_total(keys[lo as int], t@);
                        assert(lex_lt(keys[lo as int], keys[j]));
                    }
                }
            }
            (c == Order::Equal, lo)
        } else {
            proof {
                if keys.contains(t@) {
                    let j = choose|j: int| 0 <= j < keys.len() && keys[j] == t@;
                    lemma_lex_irreflexive(t@);
                }
            }
            (false, lo)
        }
    }

    /// Appends position `pos` of entry `doc` to the postings of term `t`,
    /// adding the term in its place in the order if the table lacks it.
    pub fn add_position(&mut self, term: &str, t: &[char], doc: usize, pos: usize)
        requires
            old(self).wf(),
            term@ == t@,
        ensures
            final(self).wf(),
            final(self)@ == old(self)@.insert(
                t@,
                with_position(
                    if old(self)@.contains_key(t@) {
                        old(self)@[t@]
                    } else {
                        Map::empty()
                    },
                    doc,
                    pos,
                ),
            ),
    {
        let ghost old_keys = self.keys();
        let ghost old_view = self@;
        let (found, i) = self.lower_bound(t);
        if found {
            proof {
                self.lemma_index_of(i as int);
            }
            let ghost old_entries = self.entries@;
            let entry = &mut self.entries[i];
            let mut v = match entry.postings.remove(&doc) {
                Some(v) => v,
                None => Vec::new(),
            };
            v.push(pos);
            entry.postings.insert(doc, v);
            proof {
                assert(self.entries@.len() == old_entries.len());
                assert forall|j: int| 0 <= j < old_entries.len() && j != i implies self.entries@[j]
                    == old_entries[j] by {}
                assert(self.keys() =~= old_keys);
                assert(postings_view(self.entries@[i as int].postings) =~= with_position(
                    old_view[t@],
                    doc,
                    pos,
                ));
                assert forall|s: Seq<char>| #[trigger] self.keys().contains(s) implies self@[s]
                    == old_view.insert(t@, with_position(old_view[t@], doc, pos))[s] by {
                    let m = choose|m: int| 0 <= m < self.keys().len() && self.keys()[m] == s;
                    self.lemma_index_of(m);
                }
                assert(self@ =~= old_view.insert(t@, with_position(old_view[t@], doc, pos)));
            }
        } else {
            let mut postings: PostingMap = HashMap::new();
            let mut v: Vec<usize> = Vec::new();
            v.push(pos);
            postings.insert(doc, v);
            let ghost new_post = postings_view(postings);
            let entry = TermEntry { term: term.to_owned(), chars: copy_chars(t), postings };
            self.entries.insert(i, entry);
            proof {
                assert(new_post =~= with_position(Map::empty(), doc, pos));
                assert(self.keys() =~= old_keys.insert(i as int, t@));
                let keys = self.keys();
                assert forall|a: int, b: int| 0 <= a < b < keys.len() implies lex_lt(
                    #[trigger] keys[a],
                    #[trigger] keys[b],
                ) by {
                    if b == i {
                        assert(keys[a] == old_keys[a]);
                    } else if a == i {
                        assert(keys[b] == old_keys[b - 1]);
                        lemma_lex_total(old_keys[b - 1], t@);
                    } else if a < i && b < i {
                        assert(keys[a] == old_keys[a] && keys[b] == old_keys[b]);
                    } else if a < i {
                        assert(keys[a] == old_keys[a] && keys[b] == old_keys[b - 1]);
                    } else {
                        assert(keys[a] == old_keys[a - 1] && keys[b] == old_keys[b - 1]);
                    }
                }
                assert forall|s: Seq<char>| #[trigger] self.keys().contains(s) implies self@[s]
                    == old_view.insert(t@, new_post)[s] && old_view.insert(t@, new_post).contains_key(s) by {
                    let m = choose|m: int| 0 <= m < self.keys().len() && self.keys()[m] == s;
                    self.lemma_index_of(m);
                    if m < i {
                        assert(old_keys[m] == s);
                        old(self).lemma_index_of(m);
                    } else if m > i {
                        assert(old_keys[m - 1] == s);
                        old(self).lemma_index_of(m - 1);
                    }
                }
                assert forall|s: Seq<char>| old_view.insert(t@, new_post).contains_key(s) implies #[trigger] self.keys().contains(s) by {
                    if s == t@ {
                        assert(keys[i as int] == t@);
                    } else {
                        let m = choose|m: int| 0 <= m < old_keys.len() && old_keys[m] == s;
                        if m < i {
                            assert(keys[m] == s);
                        } else {
                            assert(keys[m + 1] == s);
                        }
                    }
                }
                assert(self@ =~= old_view.insert(t@, new_post));
            }
        }
    }

    /// Drops the last position of entry `doc` from the postings of term
    /// `t`, then the entry if it has no position left, then the term if no
    /// entry is left.
    pub fn pop_position(&mut self, t: &[char], doc: usize)
        requires
            old(self).wf(),
            old(self)@.contains_key(t@),
            old(self)@[t@].contains_key(doc),
            old(self)@[t@][doc].len() > 0,
        ensures
            final(self).wf(),
            final(self)@ == (if without_last_position(old(self)@[t@], doc).is_empty() {
                old(self)@.remove(t@)
            } else {
                old(self)@.insert(t@, without_last_position(old(self)@[t@], doc))
            }),
    {
        let ghost old_keys = self.keys();
        let ghost old_view = self@;
        let ghost q = without_last_position(old_view[t@], doc);
        let (found, i) = self.lower_bound(t);
        proof {
            self.lemma_index_of(i as int);
        }
        let ghost old_entries = self.entries@;
        let entry = &mut self.entries[i];
        let removed = entry.postings.remove(&doc);
        let mut v = match removed {
            Some(v) => v,
            None => Vec::new(),
        };
        v.pop();
        if !v.is_empty() {
            entry.postings.insert(doc, v);
        }
        let now_empty = entry.postings.is_empty();
        proof {
            assert(postings_view(self.entries@[i as int].postings) =~= q);
            assert(now_empty == q.is_empty()) by {
                if !now_empty {
                    let d = choose|d: usize| self.entries@[i as int].postings@.contains_key(d);
                    assert(q.contains_key(d));
                }
            }
            assert forall|j: int| 0 <= j < old_entries.len() && j != i implies self.entries@[j]
                == old_entries[j] by {}
            assert(self.keys() =~= old_keys);
        }
        if now_empty {
            self.entries.remove(i);
            proof {
                assert(self.keys() =~= old_keys.remove(i as int));
                let keys = self.keys();
                assert forall|a: int, b: int| 0 <= a < b < keys.len() implies lex_lt(
                    #[trigger] keys[a],
                    #[trigger] keys[b],
                ) by {
                    if b < i {
                        assert(keys[a] == old_keys[a] && keys[b] == old_keys[b]);
                    } else if a < i {
                        assert(keys[a] == old_keys[a] && keys[b] == old_keys[b + 1]);
                    } else {
                        assert(keys[a] == old_keys[a + 1] && keys[b] == old_keys[b + 1]);
                    }
                }
                assert forall|s: Seq<char>| #[trigger] self.keys().contains(s) implies self@[s]
                    == old_view.remove(t@)[s] && old_view.remove(t@).contains_key(s) by {
                    let m = choose|m: int| 0 <= m < self.keys().len() && self.keys()[m] == s;
                    self.lemma_index_of(m);
                    if m < i {
                        assert(old_keys[m] == s);
                        old(self).lemma_index_of(m);
                    } else {
                        assert(old_keys[m + 1] == s);
                        old(self).lemma_index_of(m + 1);
                    }
                    lemma_lex_irreflexive(s);
                }
                assert forall|s: Seq<char>| old_view.remove(t@).contains_key(s) implies #[trigger] self.keys().contains(s) by {
                    let m = choose|m: int| 0 <= m < old_keys.len() && old_keys[m] == s;
                    if m < i {
                        assert(keys[m] == s);
                    } else {
                        assert(keys[m - 1] == s);
                    }
                }
                assert(self@ =~= old_view.remove(t@));
            }
        } else {
            proof {
                assert forall|s: Seq<char>| #[trigger] self.keys().contains(s) implies self@[s]
                    == old_view.insert(t@, q)[s] by {
                    let m = choose|m: int| 0 <= m < self.keys().len() && self.keys()[m] == s;
                    self.lemma_index_of(m);
                }
                assert(self@ =~= old_view.insert(t@, q));
            }
        }
    }

    /// The terms that start with `prefix`, in increasing order; none for an
    /// empty prefix.
    pub fn prefix_terms<'a>(&'a self, prefix: &[char]) -> (r: Vec<&'a str>)
        requires
            self.wf(),
        ensures
            prefix@.len() == 0 ==> r@.len() == 0,
            prefix@.len() > 0 ==> strictly_sorted(str_views(r@)),
            prefix@.len() > 0 ==> forall|s: Seq<char>|
                #[trigger] str_views(r@).contains(s) <==> (self@.contains_key(s)
                    && prefix@.is_prefix_of(s)),
    {
        let mut r: Vec<&'a str> = Vec::new();
        if prefix.len() == 0 {
            return r;
        }
        let ghost keys = self.keys();
        let (_, lo) = self.lower_bound(prefix);
        let mut j: usize = lo;
        while j < self.entries.len()
            invariant_except_break
                self.wf(),
                keys == self.keys(),
                lo <= j <= keys.len(),
                str_views(r@) == keys.subrange(lo as int, j as int),
                forall|m: int| lo <= m < j ==> prefix@.is_prefix_of(#[trigger] keys[m]),
            ensures
                self.wf(),
                keys == self.keys(),
                lo <= j <= keys.len(),
                str_views(r@) == keys.subrange(lo as int, j as int),
                forall|m: int| lo <= m < j ==> prefix@.is_prefix_of(#[trigger] keys[m]),
                j < keys.len() ==> !prefix@.is_prefix_of(keys[j as int]),
            decreases keys.len() - j,
        {
            let entry = &self.entries[j];
            assert(keys[j as int] == entry.chars@);
            if !starts_with_chars(entry.chars.as_slice(), prefix) {
                break;
            }
            let ghost before = str_views(r@);
            let term = entry.term.as_str();
            assert(term@ == keys[j as int]);
            r.push(term);
            j = j + 1;
            assert(str_views(r@) =~= before.push(term@));
            proof {
                assert(str_views(r@) =~= keys.subrange(lo as int, j as int));
            }
        }
        proof {
            let rv = str_views(r@);
            assert forall|a: int, b: int| 0 <= a < b < rv.len() implies lex_lt(
                #[trigger] rv[a],
                #[trigger] rv[b],
            ) by {
                assert(rv[a] == keys[lo + a] && rv[b] == keys[lo + b]);
            }
            assert forall|s: Seq<char>| #[trigger] rv.contains(s) <==> (self@.contains_key(s)
                && prefix@.is_prefix_of(s)) by {
                if rv.contains(s) {
                    let a = choose|a: int| 0 <= a < rv.len() && rv[a] == s;
                    assert(keys[lo + a] == s);
                }
                if self@.contains_key(s) && prefix@.is_prefix_of(s) {
                    let m = choose|m: int| 0 <= m < keys.len() && keys[m] == s;
                    if m < lo {
                        lemma_prefix_not_after(prefix@, s);
                    } else if m >= j {
                        if m > j {
                            lemma_prefix_interval(prefix@, keys[j as int], s);
                        }
                    } else {
                        assert(rv[m - lo] == s);
                    }
                }
            }
        }
        r
    }

    /// The postings of `t`, if it is a term of the table.
    pub fn get(&self, t: &[char]) -> (r: Option<&PostingMap>)
        requires
            self.wf(),
        ensures
            r is Some <==> self@.contains_key(t@),
            r matches Some(p) ==> postings_view(*p) == self@[t@],
    {
        let (found, i) = self.lower_bound(t);
        if found {
            proof {
                self.lemma_index_of(i as int);
            }
            Some(&self.entries[i].postings)
        } else {
            None
        }
    }
}

} // verus!
