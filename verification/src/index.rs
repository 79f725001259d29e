//! The search index: entries with their tokens, and the term table that
//! maps each term to the entries and positions at which it stands.
use vstd::prelude::*;
use std::collections::HashMap;
use std::hash::Hash;
use vstd::std_specs::hash::obeys_key_model;
use crate::options::{Options, OptionsView};
use crate::terms::{TermTable, PostingMap, postings_view, with_position};
use crate::model::{postings_model, lemma_model_push, lemma_model_nonempty};
use crate::model::{lemma_model_empty_entry, lemma_without_last_undoes};
use crate::text::{views, str_views, split_tokens, lowercase_spec, split_into, to_lowercase, chars_of};
use crate::order::strictly_sorted;

verus! {

broadcast use vstd::std_specs::hash::group_hash_axioms;

/// The contract of `Eq + Clone + Hash` on entry IDs: hashing is
/// deterministic, `==` is equality, and a clone equals what it was cloned from.
pub open spec fn id_model<Id: Clone>() -> bool {
    &&& obeys_key_model::<Id>()
    &&& forall|a: Id, b: Id| #[trigger] cloned::<Id>(a, b) ==> a == b
}

/// The tokens of one part: its case folded unless the options are case
/// sensitive, then split at whitespace and the extra separators.
pub open spec fn tokenize_part(o: OptionsView, part: Seq<char>) -> Seq<Seq<char>> {
    split_tokens(
        if o.case_sensitive {
            part
        } else {
            lowercase_spec(part)
        },
        o.extra_separators,
    )
}

/// The tokens of several parts: those of each part, in order.
pub open spec fn tokenize_parts(o: OptionsView, parts: Seq<Seq<char>>) -> Seq<Seq<char>>
    decreases parts.len(),
{
    if parts.len() == 0 {
        seq![]
    } else {
        tokenize_parts(o, parts.drop_last()) + tokenize_part(o, parts.last())
    }
}

/// An in-memory fuzzy search index.
#[derive(Debug, Clone)]
pub struct Index<Id: Eq + Clone + Hash> {
    options: Options,
    id_num_counter: usize,
    ids_map: HashMap<Id, usize>,
    reverse_ids_map: HashMap<usize, Id>,
    forward_map: HashMap<usize, Vec<String>>,
    terms: TermTable,
}

impl<Id: Eq + Clone + Hash> Index<Id> {
    /// The number that each entry's ID stands for inside the index; numbers
    /// follow the order in which IDs were first inserted.
    pub closed spec fn id_nums(&self) -> Map<Id, usize> {
        self.ids_map@
    }

    /// The tokens of each entry, by entry number.
    pub closed spec fn documents(&self) -> Map<usize, Seq<Seq<char>>> {
        self.forward_map@.map_values(|v: Vec<String>| views(v@))
    }

    /// The number that the next new ID will get.
    pub closed spec fn next_id_num(&self) -> usize {
        self.id_num_counter
    }

    /// The options the index was made with.
    pub closed spec fn options_view(&self) -> OptionsView {
        self.options@
    }

    /// The term table: each indexed term to its postings.
    pub closed spec fn term_view(&self) -> Map<Seq<char>, Map<usize, Seq<usize>>> {
        self.terms@
    }

    /// The indexed terms in increasing order.
    pub closed spec fn term_keys(&self) -> Seq<Seq<char>> {
        self.terms.keys()
    }

    /// The tokens of each entry, by ID.
    pub open spec fn entries(&self) -> Map<Id, Seq<Seq<char>>> {
        Map::new(
            |id: Id| self.id_nums().contains_key(id),
            |id: Id| self.documents()[self.id_nums()[id]],
        )
    }

    /// The index is consistent: IDs and entry numbers correspond one to
    /// one, every entry number is below the next one, and the term table
    /// is the one that the entries call for.
    pub closed spec fn wf(&self) -> bool {
        &&& self.terms.wf()
        &&& self.terms@ == postings_model(self.documents())
        &&& forall|id: Id| #[trigger]
            self.ids_map@.contains_key(id) ==> self.reverse_ids_map@.contains_key(self.ids_map@[id])
                && self.reverse_ids_map@[self.ids_map@[id]] == id
        &&& forall|n: usize| #[trigger]
            self.reverse_ids_map@.contains_key(n) ==> self.ids_map@.contains_key(
                self.reverse_ids_map@[n],
            ) && self.ids_map@[self.reverse_ids_map@[n]] == n
        &&& self.forward_map@.dom() == self.reverse_ids_map@.dom()
        &&& forall|n: usize| #[trigger] self.forward_map@.contains_key(n) ==> n < self.id_num_counter
        &&& forall|n: usize| #[trigger]
            self.forward_map@.contains_key(n) ==> self.forward_map@[n]@.len() <= usize::MAX
    }

    /// An entry has no more tokens than a vector can hold.
    pub proof fn lemma_document_len(&self, n: usize)
        requires
            self.wf(),
            self.documents().contains_key(n),
        ensures
            self.documents()[n].len() <= usize::MAX,
    {
    }

    /// What a consistent index guarantees: each ID has its own entry
    /// number, below the next one; the entry numbers in use are exactly
    /// those of the IDs; the term table is the one the entries call for,
    /// and its terms strictly increase.
    pub proof fn lemma_consistent(&self)
        requires
            self.wf(),
        ensures
            forall|a: Id, b: Id|
                #![trigger self.id_nums()[a], self.id_nums()[b]]
                self.id_nums().contains_key(a) && self.id_nums().contains_key(b) && a != b
                    ==> self.id_nums()[a] != self.id_nums()[b],
            forall|id: Id| #[trigger]
                self.id_nums().contains_key(id) ==> self.id_nums()[id] < self.next_id_num()
                    && self.documents().contains_key(self.id_nums()[id]),
            forall|n: usize| #[trigger]
                self.documents().contains_key(n) ==> exists|id: Id| #[trigger]
                    self.id_nums().contains_key(id) && self.id_nums()[id] == n,
            self.term_view() == postings_model(self.documents()),
            strictly_sorted(self.term_keys()),
            forall|t: Seq<char>| #[trigger]
                self.term_view().contains_key(t) <==> self.term_keys().contains(t),
    {
        self.terms.lemma_keys();
        assert forall|n: usize| #[trigger] self.documents().contains_key(n) implies exists|id: Id| #[trigger]
            self.id_nums().contains_key(id) && self.id_nums()[id] == n by {
            assert(self.reverse_ids_map@.contains_key(n));
            let id = self.reverse_ids_map@[n];
            assert(self.id_nums().contains_key(id));
        }
    }
}

impl<Id: Eq + Clone + Hash> Index<Id> {
    /// Creates an index with default options.
    pub fn new() -> (r: Self)
        ensures
            r.wf(),
            r.options_view() == crate::options::default_options(),
            r.id_nums() == Map::<Id, usize>::empty(),
            r.documents() == Map::<usize, Seq<Seq<char>>>::empty(),
            r.next_id_num() == 0,
    {
        Self::with_options(Options::new())
    }

    /// Creates an index with custom options.
    pub fn with_options(options: Options) -> (r: Self)
        ensures
            r.wf(),
            r.options_view() == options@,
            r.id_nums() == Map::<Id, usize>::empty(),
            r.documents() == Map::<usize, Seq<Seq<char>>>::empty(),
            r.next_id_num() == 0,
    {
        let r = Index {
            options,
            id_num_counter: 0,
            ids_map: HashMap::new(),
            reverse_ids_map: HashMap::new(),
            forward_map: HashMap::new(),
            terms: TermTable::new(),
        };
        proof {
            assert(r.documents() =~= Map::<usize, Seq<Seq<char>>>::empty());
            assert(postings_model(r.documents()) =~= Map::<Seq<char>, Map<usize, Seq<usize>>>::empty());
        }
        r
    }

    /// The tokens of `parts`: each part case folded unless the index is
    /// case sensitive, then split at whitespace and at the extra
    /// separators, without empty tokens.
    pub fn tokenize(&self, parts: &[&str]) -> (r: Vec<String>)
        ensures
            views(r@) == tokenize_parts(self.options_view(), str_views(parts@)),
    {
        let mut tokens: Vec<String> = Vec::new();
        let extra = self.options.extra_separators();
        let case_sensitive = self.options.is_case_sensitive();
        let ghost o = self.options_view();
        let mut i: usize = 0;
        proof {
            assert(views(tokens@) =~= Seq::<Seq<char>>::empty());
            assert(str_views(parts@).take(0) =~= Seq::<Seq<char>>::empty());
        }
        while i < parts.len()
            invariant
                i <= parts.len(),
                extra@ == o.extra_separators,
                case_sensitive == o.case_sensitive,
                o == self.options_view(),
                views(tokens@) == tokenize_parts(o, str_views(parts@).take(i as int)),
            decreases parts.len() - i,
        {
            let part = parts[i];
            if case_sensitive {
                split_into(part, extra, &mut tokens);
            } else {
                let lower = to_lowercase(part);
                split_into(lower.as_str(), extra, &mut tokens);
            }
            proof {
                let pv = str_views(parts@);
                assert(pv.take(i + 1).drop_last() =~= pv.take(i as int));
                assert(pv.take(i + 1).last() == part@);
            }
            i = i + 1;
        }
        proof {
            assert(str_views(parts@).take(parts@.len() as int) =~= str_views(parts@));
        }
        tokens
    }

    /// Takes entry `id_num` out of the forward map and its positions out of
    /// the term table, dropping terms that no entry holds any more.
    fn remove_indexed_tokens(&mut self, id_num: usize)
        requires
            old(self).terms.wf(),
            old(self).terms@ == postings_model(old(self).documents()),
            forall|n: usize| #[trigger]
                old(self).forward_map@.contains_key(n) ==> old(self).forward_map@[n]@.len()
                    <= usize::MAX,
        ensures
            final(self).terms.wf(),
            final(self).forward_map@ == old(self).forward_map@.remove(id_num),
            final(self).terms@ == postings_model(old(self).documents().remove(id_num)),
            final(self).options == old(self).options,
            final(self).id_num_counter == old(self).id_num_counter,
            final(self).ids_map == old(self).ids_map,
            final(self).reverse_ids_map == old(self).reverse_ids_map,
    {
        let ghost docs = self.documents();
        let ghost rest = docs.remove(id_num);
        let removed = self.forward_map.remove(&id_num);
        proof {
            assert(self.documents() =~= rest);
        }
        match removed {
            Some(tokens) => {
                let ghost toks = views(tokens@);
                proof {
                    assert(docs.contains_key(id_num) && docs[id_num] == toks);
                    assert(toks.take(tokens@.len() as int) =~= toks);
                    assert(rest.insert(id_num, toks) =~= docs);
                }
                let mut k: usize = tokens.len();
                let ghost fm = self.forward_map@;
                while k > 0
                    invariant
                        self.forward_map@ == fm,
                        fm == old(self).forward_map@.remove(id_num),
                        self.options == old(self).options,
                        self.id_num_counter == old(self).id_num_counter,
                        self.ids_map == old(self).ids_map,
                        self.reverse_ids_map == old(self).reverse_ids_map,
                        k <= tokens@.len(),
                        toks == views(tokens@),
                        toks.len() <= usize::MAX,
                        self.terms.wf(),
                        self.terms@ == postings_model(rest.insert(id_num, toks.take(k as int))),
                        forall|n: usize| #[trigger]
                            rest.contains_key(n) ==> rest[n].len() <= usize::MAX + 1,
                    decreases k,
                {
                    k = k - 1;
                    let chars = chars_of(tokens[k].as_str());
                    let ghost s = toks[k as int];
                    let ghost before = toks.take(k as int);
                    let ghost m0 = postings_model(rest.insert(id_num, before));
                    proof {
                        assert(chars@ == s);
                        assert(before.push(s) =~= toks.take(k + 1));
                        lemma_model_push(rest, id_num, before, s);
                        if m0.contains_key(s) {
                            lemma_model_nonempty(rest.insert(id_num, before), s);
                        }
                    }
                    self.terms.pop_position(chars.as_slice(), id_num);
                    proof {
                        let x = if m0.contains_key(s) {
                            m0[s]
                        } else {
                            Map::empty()
                        };
                        lemma_without_last_undoes(x, id_num, k);
                        if m0.contains_key(s) {
                            assert(!x.is_empty());
                            assert(m0.insert(s, x) =~= m0);
                        } else {
                            assert(x.is_empty());
                            assert(m0.insert(s, with_position(x, id_num, k)).remove(s) =~= m0);
                        }
                    }
                }
                proof {
                    assert(toks.take(0) =~= Seq::<Seq<char>>::empty());
                    lemma_model_empty_entry(rest, id_num);
                    assert(rest.remove(id_num) =~= rest);
                }
            },
            None => {
                proof {
                    assert(docs =~= rest);
                }
            },
        }
    }
}

impl<Id: Eq + Clone + Hash> Index<Id> {
    /// The entry number that inserting `id` uses: its own if the index
    /// holds it, the next one otherwise.
    pub open spec fn num_for(&self, id: Id) -> usize {
        if self.id_nums().contains_key(id) {
            self.id_nums()[id]
        } else {
            self.next_id_num()
        }
    }

    /// Inserting `id` with these tokens: the ID keeps its number or takes
    /// the next one, and its entry's tokens become `tokens`; nothing else
    /// changes.
    pub open spec fn inserted(&self, after: &Self, id: Id, tokens: Seq<Seq<char>>) -> bool {
        let num = self.num_for(id);
        &&& after.wf()
        &&& after.options_view() == self.options_view()
        &&& after.id_nums() == self.id_nums().insert(id, num)
        &&& after.documents() == self.documents().insert(num, tokens)
        &&& after.next_id_num() == (if self.id_nums().contains_key(id) {
            self.next_id_num()
        } else {
            (self.next_id_num() + 1) as usize
        })
    }

    /// Indexes `tokens` as the entry of `id`, replacing what the entry held.
    fn insert_normalized_tokens(&mut self, id: Id, tokens: Vec<String>)
        requires
            old(self).wf(),
            id_model::<Id>(),
            !old(self).id_nums().contains_key(id) ==> old(self).next_id_num() < usize::MAX,
        ensures
            old(self).inserted(final(self), id, views(tokens@)),
    {
        let ghost docs0 = self.documents();
        let found = match self.ids_map.get(&id) {
            Some(n) => Some(*n),
            None => None,
        };
        let id_num = match found {
            Some(n) => {
                self.remove_indexed_tokens(n);
                n
            },
            None => {
                let n = self.id_num_counter;
                let key = id.clone();
                assert(cloned::<Id>(id, key));
                self.ids_map.insert(key, n);
                self.reverse_ids_map.insert(n, id);
                self.id_num_counter = n + 1;
                proof {
                    assert(!self.forward_map@.contains_key(n));
                    assert(docs0.remove(n) =~= docs0);
                }
                n
            },
        };
        let ghost base = docs0.remove(id_num);
        let ghost toks = views(tokens@);
        proof {
            assert(self.documents() =~= base);
            lemma_model_empty_entry(base, id_num);
            assert(base.remove(id_num) =~= base);
            assert(toks.take(0) =~= Seq::<Seq<char>>::empty());
        }
        let mut k: usize = 0;
        let ghost fm = self.forward_map@;
        let ghost ids = self.ids_map@;
        let ghost rev = self.reverse_ids_map@;
        let ghost counter = self.id_num_counter;
        while k < tokens.len()
            invariant
                k <= tokens@.len(),
                toks == views(tokens@),
                self.terms.wf(),
                self.terms@ == postings_model(base.insert(id_num, toks.take(k as int))),
                forall|n: usize| #[trigger] base.contains_key(n) ==> base[n].len() <= usize::MAX + 1,
                self.forward_map@ == fm,
                self.ids_map@ == ids,
                self.reverse_ids_map@ == rev,
                self.id_num_counter == counter,
                self.options == old(self).options,
            decreases tokens@.len() - k,
        {
            let token = tokens[k].as_str();
            let chars = chars_of(token);
            proof {
                assert(toks.take(k as int).push(toks[k as int]) =~= toks.take(k + 1));
                lemma_model_push(base, id_num, toks.take(k as int), toks[k as int]);
            }
            self.terms.add_position(token, chars.as_slice(), id_num, k);
            k = k + 1;
        }
        proof {
            assert(toks.take(tokens@.len() as int) =~= toks);
        }
        self.forward_map.insert(id_num, tokens);
        proof {
            assert(self.documents() =~= base.insert(id_num, toks));
            assert(base.insert(id_num, toks) =~= docs0.insert(id_num, toks));
            assert(self.forward_map@.dom() =~= self.reverse_ids_map@.dom());
            assert(self.ids_map@ == old(self).id_nums().insert(id, id_num));
        }
    }

    /// Inserts an entry into the index.
    ///
    /// The content is tokenized according to the index options. By default,
    /// `char::is_whitespace` characters are treated as separators; use
    /// `Options` to add more separators.
    ///
    /// Inserting an existing ID updates its content.
    ///
    /// The ID itself is not searchable. Include it in the content if you
    /// want searches to match it.
    pub fn insert(&mut self, id: Id, content: &str)
        requires
            old(self).wf(),
            id_model::<Id>(),
            !old(self).id_nums().contains_key(id) ==> old(self).next_id_num() < usize::MAX,
        ensures
            old(self).inserted(
                final(self),
                id,
                tokenize_parts(old(self).options_view(), seq![content@]),
            ),
    {
        let parts = [content];
        let tokens = self.tokenize(parts.as_slice());
        proof {
            assert(str_views(parts@) =~= seq![content@]);
        }
        self.insert_normalized_tokens(id, tokens)
    }

    /// Inserts an entry with multiple searchable parts into the index.
    ///
    /// Each part is tokenized with the same built-in tokenizer used by
    /// `Index::insert`. This is useful when an item has several searchable
    /// parts, such as a title, author, tags, or aliases.
    ///
    /// Inserting an existing ID updates its content.
    ///
    /// The ID itself is not searchable. Include it in the content if you
    /// want searches to match it.
    pub fn insert_parts(&mut self, id: Id, parts: &[&str])
        requires
            old(self).wf(),
            id_model::<Id>(),
            !old(self).id_nums().contains_key(id) ==> old(self).next_id_num() < usize::MAX,
        ensures
            old(self).inserted(
                final(self),
                id,
                tokenize_parts(old(self).options_view(), str_views(parts@)),
            ),
    {
        let tokens = self.tokenize(parts);
        self.insert_normalized_tokens(id, tokens)
    }

    /// Removing `id`: its number and entry are gone, if it had any;
    /// nothing else changes.
    pub open spec fn removed(&self, after: &Self, id: Id) -> bool {
        &&& after.wf()
        &&& after.options_view() == self.options_view()
        &&& after.next_id_num() == self.next_id_num()
        &&& after.id_nums() == self.id_nums().remove(id)
        &&& after.documents() == (if self.id_nums().contains_key(id) {
            self.documents().remove(self.id_nums()[id])
        } else {
            self.documents()
        })
    }

    /// Removes an entry by ID.
    pub fn remove(&mut self, id: &Id)
        requires
            old(self).wf(),
            id_model::<Id>(),
        ensures
            old(self).removed(final(self), *id),
    {
        let ghost docs0 = self.documents();
        let removed = self.ids_map.remove(id);
        match removed {
            Some(id_num) => {
                self.remove_indexed_tokens(id_num);
                self.reverse_ids_map.remove(&id_num);
                proof {
                    assert(self.documents() =~= docs0.remove(id_num));
                    assert(self.forward_map@.dom() =~= self.reverse_ids_map@.dom());
                }
            },
            None => {
                proof {
                    assert(self.ids_map@ =~= old(self).ids_map@.remove(*id));
                }
            },
        }
    }

    /// Clears all entries.
    pub fn clear(&mut self)
        ensures
            final(self).wf(),
            final(self).options_view() == old(self).options_view(),
            final(self).id_nums() == Map::<Id, usize>::empty(),
            final(self).documents() == Map::<usize, Seq<Seq<char>>>::empty(),
            final(self).next_id_num() == 0,
    {
        self.id_num_counter = 0;
        self.ids_map.clear();
        self.reverse_ids_map.clear();
        self.forward_map.clear();
        self.terms.clear();
        proof {
            assert(self.documents() =~= Map::<usize, Seq<Seq<char>>>::empty());
            assert(postings_model(self.documents()) =~= Map::<Seq<char>, Map<usize, Seq<usize>>>::empty());
        }
    }
}

impl<Id: Eq + Clone + Hash> Index<Id> {
    /// The options the index was made with.
    pub fn options(&self) -> (r: &Options)
        ensures
            r@ == self.options_view(),
    {
        &self.options
    }

    /// The postings of `term`: each entry that holds it, to the positions
    /// at which it stands there; `None` if no entry holds it.
    pub fn postings(&self, term: &str) -> (r: Option<&PostingMap>)
        requires
            self.wf(),
        ensures
            r is Some <==> self.term_view().contains_key(term@),
            r matches Some(p) ==> postings_view(*p) == self.term_view()[term@],
    {
        let chars = chars_of(term);
        self.terms.get(chars.as_slice())
    }

    /// The number of indexed terms.
    pub fn term_count(&self) -> (r: usize)
        requires
            self.wf(),
        ensures
            r == self.term_keys().len(),
    {
        self.terms.len()
    }

    /// The indexed term at index `i` in increasing order.
    pub fn term_at(&self, i: usize) -> (r: &str)
        requires
            self.wf(),
            i < self.term_keys().len(),
        ensures
            r@ == self.term_keys()[i as int],
    {
        self.terms.term_at(i)
    }

    /// The indexed terms that start with `prefix`, in increasing order;
    /// none for an empty prefix.
    pub fn prefix_terms(&self, prefix: &str) -> (r: Vec<&str>)
        requires
            self.wf(),
        ensures
            prefix@.len() == 0 ==> r@.len() == 0,
            prefix@.len() > 0 ==> strictly_sorted(str_views(r@)),
            prefix@.len() > 0 ==> forall|s: Seq<char>| #[trigger]
                str_views(r@).contains(s) <==> (self.term_view().contains_key(s)
                    && prefix@.is_prefix_of(s)),
    {
        let chars = chars_of(prefix);
        self.terms.prefix_terms(chars.as_slice())
    }

    /// The number of tokens of entry `id_num`, if there is such an entry.
    pub fn document_len(&self, id_num: usize) -> (r: Option<usize>)
        requires
            self.wf(),
        ensures
            r == (if self.documents().contains_key(id_num) {
                Some(self.documents()[id_num].len() as usize)
            } else {
                None
            }),
    {
        match self.forward_map.get(&id_num) {
            Some(tokens) => Some(tokens.len()),
            None => None,
        }
    }

    /// The tokens of entry `id_num`, if there is such an entry.
    pub fn document_tokens(&self, id_num: usize) -> (r: Option<&Vec<String>>)
        requires
            self.wf(),
        ensures
            r is Some <==> self.documents().contains_key(id_num),
            r matches Some(tokens) ==> views(tokens@) == self.documents()[id_num],
    {
        self.forward_map.get(&id_num)
    }

    /// The number that the next new ID will get; every entry number in use
    /// is below it.
    pub fn next_id(&self) -> (r: usize)
        ensures
            r == self.next_id_num(),
    {
        self.id_num_counter
    }

    /// The ID of entry `id_num`, if there is such an entry.
    pub fn id_of(&self, id_num: usize) -> (r: Option<&Id>)
        requires
            self.wf(),
        ensures
            r is Some <==> self.documents().contains_key(id_num),
            r matches Some(id) ==> self.id_nums().contains_key(*id) && self.id_nums()[*id]
                == id_num,
    {
        self.reverse_ids_map.get(&id_num)
    }
}

impl<Id: Eq + Clone + Hash> Default for Index<Id> {
    fn default() -> (r: Self)
        ensures
            r.wf(),
            r.options_view() == crate::options::default_options(),
            r.id_nums() == Map::<Id, usize>::empty(),
            r.documents() == Map::<usize, Seq<Seq<char>>>::empty(),
            r.next_id_num() == 0,
    {
        Index::new()
    }
}

} // verus!
