//! Collecting the matches of a query: for each entry, every position at
//! which a candidate term of a query token stands.
use vstd::prelude::*;
use std::collections::HashMap;
use std::hash::Hash;
use crate::index::Index;
use crate::model::lemma_model_nonempty;
use crate::terms::{postings_view, PostingMap};
use vstd::std_specs::hash::spec_hash_map_iter;
use vstd::std_specs::iter::IteratorSpec;
use crate::text::views;

verus! {

broadcast use vstd::std_specs::hash::group_hash_axioms;

/// A place where a candidate term of a query token stands in an entry.
#[derive(Debug, Clone, Copy)]
pub struct MatchSite {
    /// The index of the query token.
    pub query_index: usize,
    /// The index of the candidate term among those of the query token.
    pub candidate_index: usize,
    /// The position of the term in the entry.
    pub doc_index: usize,
}

/// The views of the candidate terms of each query token.
pub open spec fn candidate_views(candidates: Seq<Vec<String>>) -> Seq<Seq<Seq<char>>> {
    candidates.map_values(|v: Vec<String>| views(v@))
}

/// The places at the positions that `post` gives for entry `n`, as
/// candidate `c` of query token `q`.
pub open spec fn posting_sites(post: Map<usize, Seq<usize>>, q: usize, c: usize, n: usize) -> Seq<
    MatchSite,
> {
    if post.contains_key(n) {
        post[n].map_values(|p: usize| MatchSite { query_index: q, candidate_index: c, doc_index: p })
    } else {
        seq![]
    }
}

/// The places where `term`, candidate `c` of query token `q`, stands in
/// entry `n`, in increasing order.
pub open spec fn term_sites(
    table: Map<Seq<char>, Map<usize, Seq<usize>>>,
    term: Seq<char>,
    q: usize,
    c: usize,
    n: usize,
) -> Seq<MatchSite> {
    if table.contains_key(term) {
        posting_sites(table[term], q, c, n)
    } else {
        seq![]
    }
}

/// The places in entry `n` of the first `k` candidates of query token `q`.
pub open spec fn query_sites(
    table: Map<Seq<char>, Map<usize, Seq<usize>>>,
    terms: Seq<Seq<char>>,
    q: usize,
    n: usize,
    k: int,
) -> Seq<MatchSite>
    decreases k,
{
    if k <= 0 {
        seq![]
    } else {
        query_sites(table, terms, q, n, k - 1) + term_sites(table, terms[k - 1], q, (k - 1) as usize, n)
    }
}

/// The places in entry `n` of the candidates of the first `k` query tokens:
/// by query token, then by candidate, then by position.
pub open spec fn entry_sites(
    table: Map<Seq<char>, Map<usize, Seq<usize>>>,
    candidates: Seq<Seq<Seq<char>>>,
    n: usize,
    k: int,
) -> Seq<MatchSite>
    decreases k,
{
    if k <= 0 {
        seq![]
    } else {
        entry_sites(table, candidates, n, k - 1) + query_sites(
            table,
            candidates[k - 1],
            (k - 1) as usize,
            n,
            candidates[k - 1].len() as int,
        )
    }
}

/// A map from entries to their places agrees with `target`: it holds the
/// entries with at least one place, each to its places.
pub open spec fn collects(r: Map<usize, Vec<MatchSite>>, target: spec_fn(usize) -> Seq<MatchSite>) -> bool {
    &&& forall|n: usize| #[trigger] r.contains_key(n) <==> target(n).len() > 0
    &&& forall|n: usize| #[trigger] r.contains_key(n) ==> r[n]@ == target(n)
}

/// Appends to each entry's places those that `postings` gives it.
fn add_sites(
    postings: &PostingMap,
    q: usize,
    c: usize,
    result: &mut HashMap<usize, Vec<MatchSite>>,
    Ghost(base): Ghost<spec_fn(usize) -> Seq<MatchSite>>,
)
    requires
        forall|n: usize| #[trigger]
            postings_view(*postings).contains_key(n) ==> postings_view(*postings)[n].len() > 0,
        collects(old(result)@, base),
    ensures
        collects(
            final(result)@,
            |n: usize| base(n) + posting_sites(postings_view(*postings), q, c, n),
        ),
{
    let ghost pv = postings_view(*postings);
    let ghost target = |n: usize| base(n) + posting_sites(pv, q, c, n);
    let ghost entries = spec_hash_map_iter(postings).remaining();
    for item in it: postings.iter()
        invariant
            pv == postings_view(*postings),
            forall|n: usize| #[trigger] pv.contains_key(n) ==> pv[n].len() > 0,
            it.seq() == entries,
            entries.no_duplicates(),
            collects(
                result@,
                |n: usize|
                    base(n) + if exists|i: int| 0 <= i < it.index() && *entries[i].0 == n {
                        posting_sites(pv, q, c, n)
                    } else {
                        seq![]
                    },
            ),
    {
        let ghost k = it.index();
        let ghost old_result = result@;
        let (id_num, positions) = item;
        let n = *id_num;
        proof {
            assert(item == entries[k]);
            assert(postings@.contains_key(n) && postings@[n] == *positions);
            assert(pv[n] == positions@);
            assert forall|i: int| 0 <= i < k implies *entries[i].0 != n by {
                if *entries[i].0 == n {
                    assert(entries[i] == entries[k]);
                }
            }
        }
        let mut sites = match result.remove(&n) {
            Some(v) => v,
            None => Vec::new(),
        };
        proof {
            if !old_result.contains_key(n) {
                assert(base(n) =~= Seq::<MatchSite>::empty());
            }
            assert(positions@.take(0).map_values(
                |p: usize| MatchSite { query_index: q, candidate_index: c, doc_index: p },
            ) =~= Seq::<MatchSite>::empty());
            assert(sites@ =~= base(n) + positions@.take(0).map_values(
                |p: usize| MatchSite { query_index: q, candidate_index: c, doc_index: p },
            ));
        }
        let mut i: usize = 0;
        while i < positions.len()
            invariant
                i <= positions@.len(),
                sites@ == base(n) + positions@.take(i as int).map_values(
                    |p: usize| MatchSite { query_index: q, candidate_index: c, doc_index: p },
                ),
            decreases positions@.len() - i,
        {
            sites.push(MatchSite { query_index: q, candidate_index: c, doc_index: positions[i] });
            i = i + 1;
            proof {
                assert(sites@ =~= base(n) + positions@.take(i as int).map_values(
                    |p: usize| MatchSite { query_index: q, candidate_index: c, doc_index: p },
                ));
            }
        }
        proof {
            assert(positions@.take(i as int) =~= positions@);
            assert(sites@ == base(n) + posting_sites(pv, q, c, n));
        }
        result.insert(n, sites);
        proof {
            let visited = |m: usize| exists|i: int| 0 <= i < k + 1 && *entries[i].0 == m;
            assert(visited(n));
            assert forall|m: usize| m != n implies (#[trigger] visited(m) <==> exists|i: int|
                0 <= i < k && *entries[i].0 == m) by {
                if visited(m) {
                    let i = choose|i: int| 0 <= i < k + 1 && *entries[i].0 == m;
                    assert(i != k);
                }
            }
        }
    }
}

impl<Id: Eq + Clone + Hash> Index<Id> {
    /// Each term of the table has, in each of its entries, at least one
    /// position.
    proof fn lemma_nonempty_positions(&self, t: Seq<char>)
        requires
            self.wf(),
            self.term_view().contains_key(t),
        ensures
            forall|n: usize| #[trigger]
                self.term_view()[t].contains_key(n) ==> self.term_view()[t][n].len() > 0,
    {
        self.lemma_consistent();
        assert forall|n: usize| #[trigger] self.documents().contains_key(n) implies self.documents()[n].len() <= usize::MAX + 1 by {
            self.lemma_document_len(n);
        }
        lemma_model_nonempty(self.documents(), t);
    }

    /// For each entry, the places where candidate terms of the query tokens
    /// stand, where `candidates[q]` are the candidate terms of query token
    /// `q`: by query token, then by candidate, then by position. Entries
    /// without any place are left out.
    pub fn collect_matches(&self, candidates: &[Vec<String>]) -> (r: HashMap<usize, Vec<MatchSite>>)
        requires
            self.wf(),
        ensures
            collects(
                r@,
                |n: usize|
                    entry_sites(
                        self.term_view(),
                        candidate_views(candidates@),
                        n,
                        candidates@.len() as int,
                    ),
            ),
    {
        let ghost table = self.term_view();
        let ghost cv = candidate_views(candidates@);
        let mut result: HashMap<usize, Vec<MatchSite>> = HashMap::new();
        let mut q: usize = 0;
        while q < candidates.len()
            invariant
                self.wf(),
                table == self.term_view(),
                cv == candidate_views(candidates@),
                q <= candidates@.len(),
                collects(result@, |n: usize| entry_sites(table, cv, n, q as int)),
            decreases candidates@.len() - q,
        {
            let terms = &candidates[q];
            let ghost tv = views(terms@);
            assert(tv == cv[q as int]);
            let mut c: usize = 0;
            while c < terms.len()
                invariant
                    self.wf(),
                    table == self.term_view(),
                    cv == candidate_views(candidates@),
                    q < candidates@.len(),
                    tv == cv[q as int],
                    tv == views(terms@),
                    c <= terms@.len(),
                    collects(
                        result@,
                        |n: usize|
                            entry_sites(table, cv, n, q as int) + query_sites(
                                table,
                                tv,
                                q,
                                n,
                                c as int,
                            ),
                    ),
                decreases terms@.len() - c,
            {
                let ghost before = result@;
                let ghost term = tv[c as int];
                let ghost base = |n: usize|
                    entry_sites(table, cv, n, q as int) + query_sites(table, tv, q, n, c as int);
                let ghost next = |n: usize|
                    entry_sites(table, cv, n, q as int) + query_sites(table, tv, q, n, c + 1);
                proof {
                    assert forall|n: usize| #[trigger] next(n) == base(n) + term_sites(table, term, q, c, n) by {
                        assert(query_sites(table, tv, q, n, c + 1) == query_sites(table, tv, q, n, c as int)
                            + term_sites(table, tv[c as int], q, c, n));
                    }
                }
                match self.postings(terms[c].as_str()) {
                    Some(postings) => {
                        proof {
                            self.lemma_nonempty_positions(term);
                        }
                        add_sites(postings, q, c, &mut result, Ghost(base));
                        proof {
                            assert forall|n: usize| #[trigger] next(n) == base(n) + posting_sites(
                                postings_view(*postings),
                                q,
                                c,
                                n,
                            ) by {}
                        }
                    },
                    None => {
                        proof {
                            assert forall|n: usize| #[trigger] next(n) == base(n) by {
                                assert(term_sites(table, term, q, c, n) =~= Seq::<MatchSite>::empty());
                                assert(base(n) + Seq::<MatchSite>::empty() =~= base(n));
                            }
                        }
                    },
                }
                c = c + 1;
            }
            proof {
                assert forall|n: usize| #[trigger] entry_sites(table, cv, n, q + 1) == entry_sites(table, cv, n, q as int)
                    + query_sites(table, tv, q, n, tv.len() as int) by {}
            }
            q = q + 1;
        }
        result
    }
}

} // verus!
