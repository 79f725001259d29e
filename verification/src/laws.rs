//! Laws of the index: what holds across its operations.
use vstd::prelude::*;
use std::hash::Hash;
use crate::index::{Index, tokenize_part, tokenize_parts};
use crate::model::{holds_term, positions_of, lemma_positions_of};
use crate::options::OptionsView;
use crate::text::{is_whitespace_spec, is_separator, separator_free, lowercase_spec};
use crate::text::{law_tokens_are_clean, law_tokens_keep_all_other_chars};
use crate::matches::{MatchSite, entry_sites, query_sites, term_sites};

verus! {

/// Inserting sets the entry of the ID to the inserted tokens and leaves
/// every other entry as it was.
pub proof fn law_insert_sets_entry<Id: Eq + Clone + Hash>(
    before: &Index<Id>,
    after: &Index<Id>,
    id: Id,
    tokens: Seq<Seq<char>>,
)
    requires
        before.wf(),
        before.inserted(after, id, tokens),
    ensures
        after.entries() == before.entries().insert(id, tokens),
{
    before.lemma_consistent();
    let num = before.num_for(id);
    assert forall|k: Id| #[trigger] after.entries().contains_key(k) implies after.entries()[k]
        == before.entries().insert(id, tokens)[k] by {
        if k != id {
            assert(before.id_nums().contains_key(k));
            assert(before.id_nums()[k] != num);
        }
    }
    assert(after.entries() =~= before.entries().insert(id, tokens));
}

/// Removing takes the entry of the ID out and leaves every other entry as
/// it was.
pub proof fn law_remove_drops_entry<Id: Eq + Clone + Hash>(
    before: &Index<Id>,
    after: &Index<Id>,
    id: Id,
)
    requires
        before.wf(),
        before.removed(after, id),
    ensures
        after.entries() == before.entries().remove(id),
{
    before.lemma_consistent();
    assert forall|k: Id| #[trigger] after.entries().contains_key(k) implies after.entries()[k]
        == before.entries().remove(id)[k] by {
        assert(before.id_nums().contains_key(k));
        if before.id_nums().contains_key(id) {
            assert(before.id_nums()[k] != before.id_nums()[id]);
        }
    }
    assert(after.entries() =~= before.entries().remove(id));
}

/// Removing an ID that was just inserted for the first time gives back
/// the entries, their numbers and the term table from before the insert.
pub proof fn law_remove_undoes_insert<Id: Eq + Clone + Hash>(
    before: &Index<Id>,
    middle: &Index<Id>,
    after: &Index<Id>,
    id: Id,
    tokens: Seq<Seq<char>>,
)
    requires
        before.wf(),
        !before.id_nums().contains_key(id),
        before.inserted(middle, id, tokens),
        middle.removed(after, id),
    ensures
        after.id_nums() == before.id_nums(),
        after.documents() == before.documents(),
        after.entries() == before.entries(),
        after.term_view() == before.term_view(),
{
    before.lemma_consistent();
    after.lemma_consistent();
    let num = before.next_id_num();
    assert(!before.documents().contains_key(num)) by {
        if before.documents().contains_key(num) {
            let k = choose|k: Id| #[trigger]
                before.id_nums().contains_key(k) && before.id_nums()[k] == num;
        }
    }
    assert(after.id_nums() =~= before.id_nums());
    assert(after.documents() =~= before.documents());
    assert(after.entries() =~= before.entries());
}

/// The last insert of an ID wins: inserting it twice is inserting the
/// second content once.
pub proof fn law_last_insert_wins<Id: Eq + Clone + Hash>(
    first: &Index<Id>,
    second: &Index<Id>,
    third: &Index<Id>,
    id: Id,
    tokens1: Seq<Seq<char>>,
    tokens2: Seq<Seq<char>>,
)
    requires
        first.wf(),
        first.inserted(second, id, tokens1),
        second.inserted(third, id, tokens2),
    ensures
        first.inserted(third, id, tokens2),
{
    assert(third.id_nums() =~= first.id_nums().insert(id, first.num_for(id)));
    assert(third.documents() =~= first.documents().insert(first.num_for(id), tokens2));
}

/// Entries are numbered in insertion order: a new ID gets a number above
/// those of all the IDs already there, which keep theirs.
pub proof fn law_insertion_order<Id: Eq + Clone + Hash>(
    before: &Index<Id>,
    after: &Index<Id>,
    id: Id,
    tokens: Seq<Seq<char>>,
)
    requires
        before.wf(),
        !before.id_nums().contains_key(id),
        before.inserted(after, id, tokens),
    ensures
        forall|k: Id| #[trigger]
            before.id_nums().contains_key(k) ==> after.id_nums()[k] == before.id_nums()[k]
                && after.id_nums()[k] < after.id_nums()[id],
{
    before.lemma_consistent();
}

/// After a removal no posting mentions the removed entry, and a term stays
/// in the table only while a remaining entry holds it.
pub proof fn law_remove_prunes_postings<Id: Eq + Clone + Hash>(
    before: &Index<Id>,
    after: &Index<Id>,
    id: Id,
)
    requires
        before.wf(),
        before.id_nums().contains_key(id),
        before.removed(after, id),
    ensures
        forall|t: Seq<char>| #[trigger]
            after.term_view().contains_key(t) ==> !after.term_view()[t].contains_key(
                before.id_nums()[id],
            ),
        forall|t: Seq<char>| #[trigger]
            after.term_view().contains_key(t) <==> holds_term(after.documents(), t),
{
    after.lemma_consistent();
}

/// The postings of a term in an entry are exactly the positions at which
/// the term stands in the entry's tokens, in increasing order; a term is in
/// the table exactly when some entry holds it.
pub proof fn law_postings_are_positions<Id: Eq + Clone + Hash>(
    index: &Index<Id>,
    t: Seq<char>,
    n: usize,
)
    requires
        index.wf(),
    ensures
        index.term_view().contains_key(t) <==> holds_term(index.documents(), t),
        index.term_view().contains_key(t) ==> (index.term_view()[t].contains_key(n) <==> (
        index.documents().contains_key(n) && index.documents()[n].contains(t))),
        index.term_view().contains_key(t) && index.term_view()[t].contains_key(n) ==> {
            let ps = index.term_view()[t][n];
            let toks = index.documents()[n];
            &&& ps.len() > 0
            &&& forall|i: int| 0 <= i < ps.len() ==> #[trigger] ps[i] < toks.len() && toks[ps[i] as int] == t
            &&& forall|i: int, j: int| 0 <= i < j < ps.len() ==> #[trigger] ps[i] < #[trigger] ps[j]
            &&& forall|p: int| 0 <= p < toks.len() && #[trigger] toks[p] == t ==> ps.contains(p as usize)
        },
{
    index.lemma_consistent();
    if index.term_view().contains_key(t) && index.term_view()[t].contains_key(n) {
        index.lemma_document_len(n);
        lemma_positions_of(index.documents()[n], t);
        assert(index.term_view()[t][n] == positions_of(index.documents()[n], t));
    }
}

/// Parts are tokenized one after another: the tokens of several parts are
/// the tokens of each, in order, and a single part is tokenized as `insert`
/// tokenizes its content.
pub proof fn law_tokenize_concat(o: OptionsView, a: Seq<Seq<char>>, b: Seq<Seq<char>>)
    ensures
        tokenize_parts(o, a + b) == tokenize_parts(o, a) + tokenize_parts(o, b),
    decreases b.len(),
{
    if b.len() == 0 {
        assert(a + b =~= a);
        assert(tokenize_parts(o, a) + tokenize_parts(o, b) =~= tokenize_parts(o, a));
    } else {
        assert((a + b).drop_last() =~= a + b.drop_last());
        law_tokenize_concat(o, a, b.drop_last());
        assert(tokenize_parts(o, a + b) =~= tokenize_parts(o, a) + tokenize_parts(o, b));
    }
}

/// A single part is tokenized on its own.
pub proof fn law_tokenize_single(o: OptionsView, part: Seq<char>)
    ensures
        tokenize_parts(o, seq![part]) == tokenize_part(o, part),
{
    let parts = seq![part];
    assert(parts.drop_last() =~= Seq::<Seq<char>>::empty());
    assert(parts.last() == part);
    assert(tokenize_parts(o, parts.drop_last()) == Seq::<Seq<char>>::empty());
    assert(tokenize_parts(o, parts) =~= tokenize_part(o, part));
}

/// A site names an occurrence of candidate `c` of query token `q` in entry
/// `n`.
pub open spec fn is_occurrence(
    docs: Map<usize, Seq<Seq<char>>>,
    candidates: Seq<Seq<Seq<char>>>,
    n: usize,
    s: MatchSite,
) -> bool {
    &&& s.query_index < candidates.len()
    &&& s.candidate_index < candidates[s.query_index as int].len()
    &&& docs.contains_key(n)
    &&& s.doc_index < docs[n].len()
    &&& docs[n][s.doc_index as int] == candidates[s.query_index as int][s.candidate_index as int]
}

proof fn lemma_term_sites<Id: Eq + Clone + Hash>(
    index: &Index<Id>,
    candidates: Seq<Seq<Seq<char>>>,
    q: int,
    c: int,
    n: usize,
)
    requires
        index.wf(),
        0 <= q < candidates.len() <= usize::MAX,
        0 <= c < candidates[q].len() <= usize::MAX,
    ensures
        forall|i: int|
            0 <= i < term_sites(index.term_view(), candidates[q][c], q as usize, c as usize, n).len()
                ==> {
                let s = #[trigger] term_sites(
                    index.term_view(),
                    candidates[q][c],
                    q as usize,
                    c as usize,
                    n,
                )[i];
                &&& s.query_index == q
                &&& s.candidate_index == c
                &&& is_occurrence(index.documents(), candidates, n, s)
            },
        forall|p: int|
            #![trigger index.documents()[n][p]]
            index.documents().contains_key(n) && 0 <= p < index.documents()[n].len()
                && index.documents()[n][p] == candidates[q][c] ==> term_sites(
                index.term_view(),
                candidates[q][c],
                q as usize,
                c as usize,
                n,
            ).contains(MatchSite { query_index: q as usize, candidate_index: c as usize, doc_index: p as usize }),
{
    let t = candidates[q][c];
    law_postings_are_positions(index, t, n);
    let docs = index.documents();
    if docs.contains_key(n) && docs[n].contains(t) {
        assert(holds_term(docs, t));
        let ps = index.term_view()[t][n];
        let sites = term_sites(index.term_view(), t, q as usize, c as usize, n);
        assert forall|i: int| 0 <= i < sites.len() implies {
            let s = #[trigger] sites[i];
            &&& s.query_index == q
            &&& s.candidate_index == c
            &&& is_occurrence(index.documents(), candidates, n, s)
        } by {
            assert(sites[i].doc_index == ps[i]);
        }
        assert forall|p: int|
            #![trigger index.documents()[n][p]]
            0 <= p < docs[n].len() && docs[n][p] == t implies sites.contains(
            MatchSite { query_index: q as usize, candidate_index: c as usize, doc_index: p as usize },
        ) by {
            let k = choose|k: int| 0 <= k < ps.len() && ps[k] == p as usize;
            assert(sites[k] == MatchSite {
                query_index: q as usize,
                candidate_index: c as usize,
                doc_index: p as usize,
            });
        }
    } else {
        assert(term_sites(index.term_view(), t, q as usize, c as usize, n).len() == 0);
        assert forall|p: int|
            #![trigger index.documents()[n][p]]
            docs.contains_key(n) && 0 <= p < docs[n].len() && docs[n][p] == t implies false by {
            assert(docs[n].contains(t));
        }
    }
}

proof fn lemma_query_sites<Id: Eq + Clone + Hash>(
    index: &Index<Id>,
    candidates: Seq<Seq<Seq<char>>>,
    q: int,
    n: usize,
    k: int,
)
    requires
        index.wf(),
        0 <= q < candidates.len() <= usize::MAX,
        0 <= k <= candidates[q].len() <= usize::MAX,
    ensures
        forall|i: int|
            0 <= i < query_sites(index.term_view(), candidates[q], q as usize, n, k).len() ==> {
                let s = #[trigger] query_sites(index.term_view(), candidates[q], q as usize, n, k)[i];
                &&& s.query_index == q
                &&& s.candidate_index < k
                &&& is_occurrence(index.documents(), candidates, n, s)
            },
        forall|c: int, p: int|
            #![trigger candidates[q][c], index.documents()[n][p]]
            0 <= c < k && index.documents().contains_key(n) && 0 <= p < index.documents()[n].len()
                && index.documents()[n][p] == candidates[q][c] ==> query_sites(
                index.term_view(),
                candidates[q],
                q as usize,
                n,
                k,
            ).contains(MatchSite { query_index: q as usize, candidate_index: c as usize, doc_index: p as usize }),
    decreases k,
{
    if k > 0 {
        lemma_query_sites(index, candidates, q, n, k - 1);
        lemma_term_sites(index, candidates, q, k - 1, n);
        let a = query_sites(index.term_view(), candidates[q], q as usize, n, k - 1);
        let b = term_sites(index.term_view(), candidates[q][k - 1], q as usize, (k - 1) as usize, n);
        assert(query_sites(index.term_view(), candidates[q], q as usize, n, k) == a + b);
        assert forall|i: int| 0 <= i < (a + b).len() implies {
            let s = #[trigger] (a + b)[i];
            &&& s.query_index == q
            &&& s.candidate_index < k
            &&& is_occurrence(index.documents(), candidates, n, s)
        } by {
            if i >= a.len() {
                assert((a + b)[i] == b[i - a.len()]);
            } else {
                assert((a + b)[i] == a[i]);
            }
        }
        assert forall|c: int, p: int|
            #![trigger candidates[q][c], index.documents()[n][p]]
            0 <= c < k && index.documents().contains_key(n) && 0 <= p < index.documents()[n].len()
                && index.documents()[n][p] == candidates[q][c] implies (a + b).contains(
            MatchSite { query_index: q as usize, candidate_index: c as usize, doc_index: p as usize },
        ) by {
            let site = MatchSite { query_index: q as usize, candidate_index: c as usize, doc_index: p as usize };
            if c < k - 1 {
                assert(a.contains(site));
                let j = choose|j: int| 0 <= j < a.len() && a[j] == site;
                assert((a + b)[j] == site);
            } else {
                assert(b.contains(site));
                let j = choose|j: int| 0 <= j < b.len() && b[j] == site;
                assert((a + b)[a.len() + j] == site);
            }
        }
    }
}

proof fn lemma_entry_sites<Id: Eq + Clone + Hash>(
    index: &Index<Id>,
    candidates: Seq<Seq<Seq<char>>>,
    n: usize,
    k: int,
)
    requires
        index.wf(),
        0 <= k <= candidates.len() <= usize::MAX,
        forall|q: int| 0 <= q < candidates.len() ==> #[trigger] candidates[q].len() <= usize::MAX,
    ensures
        forall|i: int|
            0 <= i < entry_sites(index.term_view(), candidates, n, k).len() ==> {
                let s = #[trigger] entry_sites(index.term_view(), candidates, n, k)[i];
                &&& s.query_index < k
                &&& is_occurrence(index.documents(), candidates, n, s)
            },
        forall|q: int, c: int, p: int|
            #![trigger candidates[q][c], index.documents()[n][p]]
            0 <= q < k && 0 <= c < candidates[q].len() && index.documents().contains_key(n) && 0 <= p
                < index.documents()[n].len() && index.documents()[n][p] == candidates[q][c]
                ==> entry_sites(index.term_view(), candidates, n, k).contains(
                MatchSite { query_index: q as usize, candidate_index: c as usize, doc_index: p as usize },
            ),
    decreases k,
{
    if k > 0 {
        lemma_entry_sites(index, candidates, n, k - 1);
        lemma_query_sites(index, candidates, k - 1, n, candidates[k - 1].len() as int);
        let a = entry_sites(index.term_view(), candidates, n, k - 1);
        let b = query_sites(
            index.term_view(),
            candidates[k - 1],
            (k - 1) as usize,
            n,
            candidates[k - 1].len() as int,
        );
        assert(entry_sites(index.term_view(), candidates, n, k) == a + b);
        assert forall|i: int| 0 <= i < (a + b).len() implies {
            let s = #[trigger] (a + b)[i];
            &&& s.query_index < k
            &&& is_occurrence(index.documents(), candidates, n, s)
        } by {
            if i >= a.len() {
                assert((a + b)[i] == b[i - a.len()]);
            } else {
                assert((a + b)[i] == a[i]);
            }
        }
        assert forall|q: int, c: int, p: int|
            #![trigger candidates[q][c], index.documents()[n][p]]
            0 <= q < k && 0 <= c < candidates[q].len() && index.documents().contains_key(n) && 0 <= p
                < index.documents()[n].len() && index.documents()[n][p] == candidates[q][c]
                implies (a + b).contains(
            MatchSite { query_index: q as usize, candidate_index: c as usize, doc_index: p as usize },
        ) by {
            let site = MatchSite { query_index: q as usize, candidate_index: c as usize, doc_index: p as usize };
            if q < k - 1 {
                assert(a.contains(site));
                let j = choose|j: int| 0 <= j < a.len() && a[j] == site;
                assert((a + b)[j] == site);
            } else {
                assert(b.contains(site));
                let j = choose|j: int| 0 <= j < b.len() && b[j] == site;
                assert((a + b)[a.len() + j] == site);
            }
        }
    }
}

/// The matches collected for an entry are exactly the occurrences in it of
/// the candidate terms: each names a position at which its candidate term
/// stands in the entry, and every such position is named.
pub proof fn law_matches_are_occurrences<Id: Eq + Clone + Hash>(
    index: &Index<Id>,
    candidates: Seq<Seq<Seq<char>>>,
    n: usize,
)
    requires
        index.wf(),
        candidates.len() <= usize::MAX,
        forall|q: int| 0 <= q < candidates.len() ==> #[trigger] candidates[q].len() <= usize::MAX,
    ensures
        forall|i: int|
            0 <= i < entry_sites(index.term_view(), candidates, n, candidates.len() as int).len()
                ==> is_occurrence(
                index.documents(),
                candidates,
                n,
                #[trigger] entry_sites(index.term_view(), candidates, n, candidates.len() as int)[i],
            ),
        forall|q: int, c: int, p: int|
            #![trigger candidates[q][c], index.documents()[n][p]]
            0 <= q < candidates.len() && 0 <= c < candidates[q].len() && index.documents().contains_key(n)
                && 0 <= p < index.documents()[n].len() && index.documents()[n][p] == candidates[q][c]
                ==> entry_sites(index.term_view(), candidates, n, candidates.len() as int).contains(
                MatchSite { query_index: q as usize, candidate_index: c as usize, doc_index: p as usize },
            ),
{
    lemma_entry_sites(index, candidates, n, candidates.len() as int);
}

/// How one part is tokenized, for every choice of options: the text is the
/// part, case folded unless the options are case sensitive; every token is
/// nonempty and holds neither whitespace nor any of the options' extra
/// separators, in either case mode; joined, the tokens are the text with
/// exactly those characters left out, so no other character is dropped;
/// and case-insensitive tokens are the case-sensitive tokens of the case
/// folded part, split at the same separators.
pub proof fn law_tokenize_part(o: OptionsView, part: Seq<char>)
    ensures
        ({
            let text = if o.case_sensitive {
                part
            } else {
                lowercase_spec(part)
            };
            let toks = tokenize_part(o, part);
            &&& forall|i: int| 0 <= i < toks.len() ==> (#[trigger] toks[i]).len() > 0
            &&& forall|i: int, j: int|
                0 <= i < toks.len() && 0 <= j < toks[i].len() ==> !is_whitespace_spec(
                    #[trigger] toks[i][j],
                ) && !o.extra_separators.contains(toks[i][j])
            &&& toks.flatten() == text.filter(
                |c: char| !(is_whitespace_spec(c) || o.extra_separators.contains(c)),
            )
        }),
        !o.case_sensitive ==> tokenize_part(o, part) == tokenize_part(
            OptionsView { case_sensitive: true, ..o },
            lowercase_spec(part),
        ),
{
    let text = if o.case_sensitive {
        part
    } else {
        lowercase_spec(part)
    };
    law_tokens_are_clean(text, o.extra_separators);
    law_tokens_keep_all_other_chars(text, o.extra_separators);
    let toks = tokenize_part(o, part);
    assert forall|i: int, j: int|
        0 <= i < toks.len() && 0 <= j < toks[i].len() implies !is_whitespace_spec(
        #[trigger] toks[i][j],
    ) && !o.extra_separators.contains(toks[i][j]) by {
        assert(separator_free(o.extra_separators, toks[i]));
        assert(!is_separator(o.extra_separators, toks[i][j]));
    }
}

/// Site `a` comes before site `b`: by query token, then by candidate, then
/// by position.
pub open spec fn site_before(a: MatchSite, b: MatchSite) -> bool {
    ||| a.query_index < b.query_index
    ||| a.query_index == b.query_index && a.candidate_index < b.candidate_index
    ||| a.query_index == b.query_index && a.candidate_index == b.candidate_index && a.doc_index
        < b.doc_index
}

/// Each element of `s` comes strictly before every later one.
pub open spec fn sites_in_order(s: Seq<MatchSite>) -> bool {
    forall|i: int, j: int| 0 <= i < j < s.len() ==> site_before(#[trigger] s[i], #[trigger] s[j])
}

proof fn lemma_term_sites_in_order<Id: Eq + Clone + Hash>(
    index: &Index<Id>,
    t: Seq<char>,
    q: usize,
    c: usize,
    n: usize,
)
    requires
        index.wf(),
    ensures
        sites_in_order(term_sites(index.term_view(), t, q, c, n)),
{
    law_postings_are_positions(index, t, n);
    let sites = term_sites(index.term_view(), t, q, c, n);
    if index.term_view().contains_key(t) && index.term_view()[t].contains_key(n) {
        let ps = index.term_view()[t][n];
        assert forall|i: int, j: int| 0 <= i < j < sites.len() implies site_before(
            #[trigger] sites[i],
            #[trigger] sites[j],
        ) by {
            assert(sites[i].doc_index == ps[i] && sites[j].doc_index == ps[j]);
            assert(ps[i] < ps[j]);
        }
    }
}

proof fn lemma_query_sites_in_order<Id: Eq + Clone + Hash>(
    index: &Index<Id>,
    candidates: Seq<Seq<Seq<char>>>,
    q: int,
    n: usize,
    k: int,
)
    requires
        index.wf(),
        0 <= q < candidates.len() <= usize::MAX,
        0 <= k <= candidates[q].len() <= usize::MAX,
    ensures
        sites_in_order(query_sites(index.term_view(), candidates[q], q as usize, n, k)),
    decreases k,
{
    if k > 0 {
        lemma_query_sites_in_order(index, candidates, q, n, k - 1);
        lemma_query_sites(index, candidates, q, n, k - 1);
        lemma_term_sites(index, candidates, q, k - 1, n);
        lemma_term_sites_in_order(index, candidates[q][k - 1], q as usize, (k - 1) as usize, n);
        let a = query_sites(index.term_view(), candidates[q], q as usize, n, k - 1);
        let b = term_sites(index.term_view(), candidates[q][k - 1], q as usize, (k - 1) as usize, n);
        assert(query_sites(index.term_view(), candidates[q], q as usize, n, k) == a + b);
        assert forall|i: int, j: int| 0 <= i < j < (a + b).len() implies site_before(
            #[trigger] (a + b)[i],
            #[trigger] (a + b)[j],
        ) by {
            if j < a.len() {
                assert((a + b)[i] == a[i] && (a + b)[j] == a[j]);
            } else if i >= a.len() {
                assert((a + b)[i] == b[i - a.len()] && (a + b)[j] == b[j - a.len()]);
            } else {
                assert((a + b)[i] == a[i] && (a + b)[j] == b[j - a.len()]);
                assert(a[i].candidate_index < k - 1);
                assert(b[j - a.len()].candidate_index == k - 1);
            }
        }
    }
}

proof fn lemma_entry_sites_in_order<Id: Eq + Clone + Hash>(
    index: &Index<Id>,
    candidates: Seq<Seq<Seq<char>>>,
    n: usize,
    k: int,
)
    requires
        index.wf(),
        0 <= k <= candidates.len() <= usize::MAX,
        forall|q: int| 0 <= q < candidates.len() ==> #[trigger] candidates[q].len() <= usize::MAX,
    ensures
        sites_in_order(entry_sites(index.term_view(), candidates, n, k)),
    decreases k,
{
    if k > 0 {
        lemma_entry_sites_in_order(index, candidates, n, k - 1);
        lemma_entry_sites(index, candidates, n, k - 1);
        let kq = candidates[k - 1].len() as int;
        lemma_query_sites(index, candidates, k - 1, n, kq);
        lemma_query_sites_in_order(index, candidates, k - 1, n, kq);
        let a = entry_sites(index.term_view(), candidates, n, k - 1);
        let b = query_sites(index.term_view(), candidates[k - 1], (k - 1) as usize, n, kq);
        assert(entry_sites(index.term_view(), candidates, n, k) == a + b);
        assert forall|i: int, j: int| 0 <= i < j < (a + b).len() implies site_before(
            #[trigger] (a + b)[i],
            #[trigger] (a + b)[j],
        ) by {
            if j < a.len() {
                assert((a + b)[i] == a[i] && (a + b)[j] == a[j]);
            } else if i >= a.len() {
                assert((a + b)[i] == b[i - a.len()] && (a + b)[j] == b[j - a.len()]);
            } else {
                assert((a + b)[i] == a[i] && (a + b)[j] == b[j - a.len()]);
                assert(a[i].query_index < k - 1);
                assert(b[j - a.len()].query_index == k - 1);
            }
        }
    }
}

/// The matches collected for an entry come in order, by query token, then
/// by candidate, then by position, each just once: with
/// `law_matches_are_occurrences`, every occurrence of a candidate term in
/// the entry is listed exactly once.
pub proof fn law_matches_in_order<Id: Eq + Clone + Hash>(
    index: &Index<Id>,
    candidates: Seq<Seq<Seq<char>>>,
    n: usize,
)
    requires
        index.wf(),
        candidates.len() <= usize::MAX,
        forall|q: int| 0 <= q < candidates.len() ==> #[trigger] candidates[q].len() <= usize::MAX,
    ensures
        ({
            let sites = entry_sites(index.term_view(), candidates, n, candidates.len() as int);
            &&& forall|i: int, j: int|
                0 <= i < j < sites.len() ==> site_before(#[trigger] sites[i], #[trigger] sites[j])
            &&& sites.no_duplicates()
        }),
{
    lemma_entry_sites_in_order(index, candidates, n, candidates.len() as int);
    let sites = entry_sites(index.term_view(), candidates, n, candidates.len() as int);
    assert forall|i: int, j: int| 0 <= i < sites.len() && 0 <= j < sites.len() && i != j implies sites[i]
        != sites[j] by {
        if i < j {
            assert(site_before(sites[i], sites[j]));
        } else {
            assert(site_before(sites[j], sites[i]));
        }
    }
}

} // verus!
