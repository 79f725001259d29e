//! What the term table of an index must hold, as a function of the indexed
//! entries, and how it changes when an entry gains or loses its last token.
use vstd::prelude::*;
use crate::terms::{with_position, without_last_position};

verus! {

/// The positions at which `t` stands in `tokens`, in increasing order.
pub open spec fn positions_of(tokens: Seq<Seq<char>>, t: Seq<char>) -> Seq<usize>
    decreases tokens.len(),
{
    if tokens.len() == 0 {
        seq![]
    } else {
        let rest = positions_of(tokens.drop_last(), t);
        if tokens.last() == t {
            rest.push((tokens.len() - 1) as usize)
        } else {
            rest
        }
    }
}

/// Whether some entry holds the term `t`.
pub open spec fn holds_term(docs: Map<usize, Seq<Seq<char>>>, t: Seq<char>) -> bool {
    exists|n: usize| #[trigger] docs.contains_key(n) && docs[n].contains(t)
}

/// The postings of `t`: each entry that holds it, to the positions at
/// which it stands there.
pub open spec fn term_postings(docs: Map<usize, Seq<Seq<char>>>, t: Seq<char>) -> Map<
    usize,
    Seq<usize>,
> {
    Map::new(
        |n: usize| docs.contains_key(n) && docs[n].contains(t),
        |n: usize| positions_of(docs[n], t),
    )
}

/// The term table that the entries `docs` call for: every term that some
/// entry holds, to its postings.
pub open spec fn postings_model(docs: Map<usize, Seq<Seq<char>>>) -> Map<
    Seq<char>,
    Map<usize, Seq<usize>>,
> {
    Map::new(|t: Seq<char>| holds_term(docs, t), |t: Seq<char>| term_postings(docs, t))
}

/// The positions of `t` are the indices at which it stands, in strictly
/// increasing order, and there is one exactly when `tokens` holds `t`.
pub proof fn lemma_positions_of(tokens: Seq<Seq<char>>, t: Seq<char>)
    requires
        tokens.len() <= usize::MAX + 1,
    ensures
        tokens.contains(t) <==> positions_of(tokens, t).len() > 0,
        forall|i: int|
            0 <= i < positions_of(tokens, t).len() ==> {
                let p = #[trigger] positions_of(tokens, t)[i];
                p < tokens.len() && tokens[p as int] == t
            },
        forall|i: int, j: int|
            0 <= i < j < positions_of(tokens, t).len() ==> #[trigger] positions_of(tokens, t)[i]
                < #[trigger] positions_of(tokens, t)[j],
        forall|p: int|
            0 <= p < tokens.len() && #[trigger] tokens[p] == t ==> positions_of(tokens, t).contains(
                p as usize,
            ),
    decreases tokens.len(),
{
    if tokens.len() > 0 {
        let init = tokens.drop_last();
        lemma_positions_of(init, t);
        assert forall|p: int|
            0 <= p < tokens.len() && #[trigger] tokens[p] == t implies positions_of(tokens, t).contains(
                p as usize,
            ) by {
            let ps = positions_of(tokens, t);
            if p == tokens.len() - 1 {
                assert(ps[ps.len() - 1] == p as usize);
            } else {
                assert(init[p] == t);
                let k = choose|k: int| 0 <= k < positions_of(init, t).len() && positions_of(init, t)[k] == p as usize;
                assert(ps[k] == p as usize);
            }
        }
        if tokens.last() == t {
            assert(tokens[tokens.len() - 1] == t);
        } else if tokens.contains(t) {
            let k = choose|k: int| 0 <= k < tokens.len() && tokens[k] == t;
            assert(init[k] == t);
        }
        if init.contains(t) {
            let k = choose|k: int| 0 <= k < init.len() && init[k] == t;
            assert(tokens[k] == t);
        }
    }
}

/// Appending a token to a token sequence appends its index to its own
/// positions and leaves those of the other terms alone.
pub proof fn lemma_positions_push(tokens: Seq<Seq<char>>, s: Seq<char>, t: Seq<char>)
    ensures
        positions_of(tokens.push(s), t) == (if s == t {
            positions_of(tokens, t).push(tokens.len() as usize)
        } else {
            positions_of(tokens, t)
        }),
{
    assert(tokens.push(s).drop_last() =~= tokens);
}

/// In the table that entries call for, each term has at least one entry,
/// and each of its entries at least one position.
pub proof fn lemma_model_nonempty(docs: Map<usize, Seq<Seq<char>>>, t: Seq<char>)
    requires
        forall|n: usize| #[trigger] docs.contains_key(n) ==> docs[n].len() <= usize::MAX + 1,
        postings_model(docs).contains_key(t),
    ensures
        !postings_model(docs)[t].is_empty(),
        forall|n: usize| #[trigger]
            postings_model(docs)[t].contains_key(n) ==> postings_model(docs)[t][n].len() > 0,
{
    let n = choose|n: usize| #[trigger] docs.contains_key(n) && docs[n].contains(t);
    assert(postings_model(docs)[t].contains_key(n));
    assert forall|m: usize| #[trigger]
        postings_model(docs)[t].contains_key(m) implies postings_model(docs)[t][m].len() > 0 by {
        lemma_positions_of(docs[m], t);
    }
}

/// An entry without tokens adds nothing to the table.
pub proof fn lemma_model_empty_entry(docs: Map<usize, Seq<Seq<char>>>, n: usize)
    ensures
        postings_model(docs.insert(n, seq![])) == postings_model(docs.remove(n)),
{
    let a = docs.insert(n, seq![]);
    let b = docs.remove(n);
    assert forall|t: Seq<char>| holds_term(a, t) == holds_term(b, t) by {
        if holds_term(a, t) {
            let m = choose|m: usize| #[trigger] a.contains_key(m) && a[m].contains(t);
            assert(b.contains_key(m) && b[m].contains(t));
        }
        if holds_term(b, t) {
            let m = choose|m: usize| #[trigger] b.contains_key(m) && b[m].contains(t);
            assert(a.contains_key(m) && a[m].contains(t));
        }
    }
    assert forall|t: Seq<char>| #[trigger] holds_term(a, t) implies term_postings(a, t) =~= term_postings(b, t) by {}
    assert(postings_model(a) =~= postings_model(b));
}

/// Appending token `s` to entry `n` appends its index to the postings of
/// `s` and leaves the rest of the table alone.
pub proof fn lemma_model_push(
    docs: Map<usize, Seq<Seq<char>>>,
    n: usize,
    tokens: Seq<Seq<char>>,
    s: Seq<char>,
)
    requires
        tokens.len() < usize::MAX,
        forall|m: usize| #[trigger] docs.contains_key(m) ==> docs[m].len() <= usize::MAX + 1,
    ensures
        postings_model(docs.insert(n, tokens.push(s))) == postings_model(docs.insert(n, tokens)).insert(
            s,
            with_position(
                if postings_model(docs.insert(n, tokens)).contains_key(s) {
                    postings_model(docs.insert(n, tokens))[s]
                } else {
                    Map::empty()
                },
                n,
                tokens.len() as usize,
            ),
        ),
{
    let d0 = docs.insert(n, tokens);
    let d1 = docs.insert(n, tokens.push(s));
    let m0 = postings_model(d0);
    let x = if m0.contains_key(s) {
        m0[s]
    } else {
        Map::empty()
    };
    let rhs = m0.insert(s, with_position(x, n, tokens.len() as usize));
    lemma_positions_of(tokens, s);
    assert(tokens.push(s)[tokens.len() as int] == s);
    assert(holds_term(d1, s)) by {
        assert(d1.contains_key(n) && d1[n].contains(s));
    }
    assert forall|t: Seq<char>| t != s implies holds_term(d1, t) == holds_term(d0, t) by {
        assert forall|m: usize| #[trigger] d1.contains_key(m) implies d1[m].contains(t)
            == d0[m].contains(t) by {
            if m == n {
                if tokens.push(s).contains(t) {
                    let k = choose|k: int| 0 <= k < tokens.push(s).len() && tokens.push(s)[k] == t;
                    assert(tokens[k] == t);
                }
                if tokens.contains(t) {
                    let k = choose|k: int| 0 <= k < tokens.len() && tokens[k] == t;
                    assert(tokens.push(s)[k] == t);
                }
            }
        }
        if holds_term(d1, t) {
            let m = choose|m: usize| #[trigger] d1.contains_key(m) && d1[m].contains(t);
            assert(d0.contains_key(m));
        }
        if holds_term(d0, t) {
            let m = choose|m: usize| #[trigger] d0.contains_key(m) && d0[m].contains(t);
            assert(d1.contains_key(m));
        }
    }
    assert forall|t: Seq<char>| #[trigger] holds_term(d1, t) implies term_postings(d1, t) == rhs[t] by {
        assert forall|m: usize| #[trigger] d1.contains_key(m) && m != n implies d1[m] == d0[m] by {}
        lemma_positions_push(tokens, s, t);
        if t == s {
            assert(d1[n].contains(s));
            assert(m0.contains_key(s) == holds_term(d0, s));
            assert(d0.contains_key(n) && d0[n] == tokens);
            let w = with_position(x, n, tokens.len() as usize);
            assert(x.contains_key(n) == tokens.contains(s));
            if !tokens.contains(s) {
                assert(positions_of(tokens, s) =~= seq![]);
            }
            assert(w[n] == positions_of(tokens.push(s), s));
            assert forall|m: usize| #[trigger] d1.contains_key(m) && m != n implies
                (d1[m].contains(s) == x.contains_key(m)) by {
                assert(d0.contains_key(m));
            }
            assert forall|m: usize| #[trigger] x.contains_key(m) && m != n implies
                positions_of(d1[m], s) == x[m] by {
                assert(d0.contains_key(m));
            }
            assert forall|m: usize| #[trigger] x.contains_key(m) implies d1.contains_key(m) by {
                assert(d0.contains_key(m));
            }
            assert(term_postings(d1, t) =~= w);
        } else {
            assert forall|m: usize| #[trigger] d1.contains_key(m) implies d1[m].contains(t)
                == d0[m].contains(t) by {
                if m == n {
                    if tokens.push(s).contains(t) {
                        let k = choose|k: int| 0 <= k < tokens.push(s).len() && tokens.push(s)[k] == t;
                        assert(tokens[k] == t);
                    }
                    if tokens.contains(t) {
                        let k = choose|k: int| 0 <= k < tokens.len() && tokens[k] == t;
                        assert(tokens.push(s)[k] == t);
                    }
                }
            }
            assert(term_postings(d1, t) =~= term_postings(d0, t));
        }
    }
    assert(postings_model(d1) =~= rhs);
}

/// Dropping the last position of an entry undoes appending it.
pub proof fn lemma_without_last_undoes(post: Map<usize, Seq<usize>>, n: usize, p: usize)
    requires
        post.contains_key(n) ==> post[n].len() > 0,
    ensures
        without_last_position(with_position(post, n, p), n) == post,
{
    let w = with_position(post, n, p);
    if post.contains_key(n) {
        assert(w[n].drop_last() =~= post[n]);
        assert(without_last_position(w, n) =~= post);
    } else {
        assert(without_last_position(w, n) =~= post);
    }
}

} // verus!
