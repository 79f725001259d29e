//! Character-level text handling: whitespace, case folding and splitting a
//! text into tokens.
use vstd::prelude::*;

verus! {

/// The characters with the Unicode `White_Space` property, the ones for which
/// `char::is_whitespace` holds.
pub open spec fn is_whitespace_spec(c: char) -> bool {
    ||| ('\u{9}' <= c && c <= '\u{d}')
    ||| c == ' '
    ||| c == '\u{85}'
    ||| c == '\u{a0}'
    ||| c == '\u{1680}'
    ||| ('\u{2000}' <= c && c <= '\u{200a}')
    ||| c == '\u{2028}'
    ||| c == '\u{2029}'
    ||| c == '\u{202f}'
    ||| c == '\u{205f}'
    ||| c == '\u{3000}'
}

/// Calls `char::is_whitespace`, which holds exactly of the characters with
/// the Unicode `White_Space` property.
#[verifier::external_body]
pub(crate) fn is_whitespace(c: char) -> (r: bool)
    ensures
        r == is_whitespace_spec(c),
{
    c.is_whitespace()
}

/// What `str::to_lowercase` makes of a text: Unicode's full lowercase
/// mapping, with the contextual rule for a final sigma.
pub uninterp spec fn lowercase_spec(s: Seq<char>) -> Seq<char>;

/// Calls `str::to_lowercase`. Its result is named `lowercase_spec` of the
/// argument; which characters it maps and how is left to Unicode's tables.
#[verifier::external_body]
pub(crate) fn to_lowercase(s: &str) -> (r: String)
    ensures
        r@ == lowercase_spec(s@),
{
    s.to_lowercase()
}

/// Calls `String::push`, which appends one character.
#[verifier::external_body]
pub(crate) fn push_char(s: &mut String, c: char)
    ensures
        final(s)@ == old(s)@.push(c),
{
    s.push(c)
}

/// The characters of a text, in order.
pub fn chars_of(s: &str) -> (r: Vec<char>)
    ensures
        r@ == s@,
{
    let mut r: Vec<char> = Vec::new();
    for c in it: s.chars()
        invariant
            r@ == it.seq().take(it.index() as int),
            it.seq() == s@,
    {
        r.push(c);
    }
    r
}

/// The views of a sequence of strings.
pub open spec fn views(v: Seq<String>) -> Seq<Seq<char>> {
    v.map_values(|t: String| t@)
}

/// The views of a sequence of string slices.
pub open spec fn str_views(v: Seq<&str>) -> Seq<Seq<char>> {
    v.map_values(|t: &str| t@)
}

/// Whether `c` separates tokens: whitespace always does, and so does any of
/// the extra separators.
pub open spec fn is_separator(extra: Seq<char>, c: char) -> bool {
    is_whitespace_spec(c) || extra.contains(c)
}

/// The token under construction, as a list of zero or one token.
pub open spec fn flush(cur: Seq<char>) -> Seq<Seq<char>> {
    if cur.len() == 0 {
        seq![]
    } else {
        seq![cur]
    }
}

/// The tokens of `s` when `cur` has already been read into the current
/// token: the maximal runs of characters that are not separators, the
/// empty ones left out.
pub open spec fn split_from(s: Seq<char>, extra: Seq<char>, cur: Seq<char>) -> Seq<Seq<char>>
    decreases s.len(),
{
    if s.len() == 0 {
        flush(cur)
    } else if is_separator(extra, s[0]) {
        flush(cur) + split_from(s.drop_first(), extra, seq![])
    } else {
        split_from(s.drop_first(), extra, cur.push(s[0]))
    }
}

/// The tokens of `s`: its maximal nonempty runs of characters that are not
/// separators, in order.
pub open spec fn split_tokens(s: Seq<char>, extra: Seq<char>) -> Seq<Seq<char>> {
    split_from(s, extra, seq![])
}

/// No character of `t` is a separator.
pub open spec fn separator_free(extra: Seq<char>, t: Seq<char>) -> bool {
    forall|j: int| 0 <= j < t.len() ==> !is_separator(extra, #[trigger] t[j])
}

proof fn lemma_split_from_clean(s: Seq<char>, extra: Seq<char>, cur: Seq<char>)
    requires
        separator_free(extra, cur),
    ensures
        forall|i: int|
            0 <= i < split_from(s, extra, cur).len() ==> (#[trigger] split_from(s, extra, cur)[i]).len()
                > 0 && separator_free(extra, split_from(s, extra, cur)[i]),
    decreases s.len(),
{
    if s.len() > 0 {
        if is_separator(extra, s[0]) {
            lemma_split_from_clean(s.drop_first(), extra, seq![]);
            let r = split_from(s.drop_first(), extra, seq![]);
            assert(split_from(s, extra, cur) == flush(cur) + r);
            assert forall|i: int| 0 <= i < (flush(cur) + r).len() implies (#[trigger] (flush(cur)
                + r)[i]).len() > 0 && separator_free(extra, (flush(cur) + r)[i]) by {
                if i >= flush(cur).len() {
                    assert((flush(cur) + r)[i] == r[i - flush(cur).len()]);
                } else {
                    assert((flush(cur) + r)[i] == cur);
                }
            }
        } else {
            assert(separator_free(extra, cur.push(s[0]))) by {
                assert forall|j: int| 0 <= j < cur.push(s[0]).len() implies !is_separator(
                    extra,
                    #[trigger] cur.push(s[0])[j],
                ) by {
                    if j < cur.len() {
                        assert(cur.push(s[0])[j] == cur[j]);
                    }
                }
            }
            lemma_split_from_clean(s.drop_first(), extra, cur.push(s[0]));
            assert(split_from(s, extra, cur) == split_from(s.drop_first(), extra, cur.push(s[0])));
        }
    } else if cur.len() > 0 {
        assert(flush(cur)[0] == cur);
    }
}

/// Tokens are never empty and never hold a separator: whitespace and the
/// extra separators only ever split.
pub proof fn law_tokens_are_clean(s: Seq<char>, extra: Seq<char>)
    ensures
        forall|i: int|
            0 <= i < split_tokens(s, extra).len() ==> (#[trigger] split_tokens(s, extra)[i]).len() > 0
                && separator_free(extra, split_tokens(s, extra)[i]),
{
    lemma_split_from_clean(s, extra, seq![]);
}

/// The characters of `s` that are not separators, in order.
pub open spec fn kept_chars(s: Seq<char>, extra: Seq<char>) -> Seq<char> {
    s.filter(|c: char| !(is_whitespace_spec(c) || extra.contains(c)))
}

proof fn lemma_split_from_flatten(s: Seq<char>, extra: Seq<char>, cur: Seq<char>)
    ensures
        split_from(s, extra, cur).flatten() == cur + kept_chars(s, extra),
    decreases s.len(),
{
    let pred = |c: char| !(is_whitespace_spec(c) || extra.contains(c));
    if s.len() == 0 {
        reveal(Seq::filter);
        assert(kept_chars(s, extra) =~= Seq::<char>::empty());
        if cur.len() == 0 {
            assert(cur + kept_chars(s, extra) =~= Seq::<char>::empty());
        } else {
            assert(flush(cur).first() == cur);
            assert(flush(cur).drop_first() =~= Seq::<Seq<char>>::empty());
            assert(Seq::<Seq<char>>::empty().flatten() =~= Seq::<char>::empty());
            assert(flush(cur).drop_first().flatten() =~= Seq::<char>::empty());
            assert(cur + kept_chars(s, extra) =~= cur);
            assert(flush(cur).flatten() =~= cur);
        }
    } else {
        let rest = s.drop_first();
        assert(s =~= seq![s[0]] + rest);
        rest.lemma_filter_prepend(s[0], pred);
        assert(kept_chars(s, extra) == (seq![s[0]] + rest).filter(pred));
        if is_separator(extra, s[0]) {
            lemma_split_from_flatten(rest, extra, seq![]);
            let r = split_from(rest, extra, seq![]);
            assert(split_from(s, extra, cur) == flush(cur) + r);
            assert(kept_chars(s, extra) == kept_chars(rest, extra));
            assert(Seq::<char>::empty() + kept_chars(rest, extra) =~= kept_chars(rest, extra));
            if cur.len() == 0 {
                assert(flush(cur) + r =~= r);
                assert(cur + kept_chars(s, extra) =~= kept_chars(rest, extra));
            } else {
                assert((flush(cur) + r).first() == cur);
                assert((flush(cur) + r).drop_first() =~= r);
            }
        } else {
            lemma_split_from_flatten(rest, extra, cur.push(s[0]));
            assert(split_from(s, extra, cur) == split_from(rest, extra, cur.push(s[0])));
            assert(kept_chars(s, extra) == seq![s[0]] + kept_chars(rest, extra));
            assert(cur.push(s[0]) + kept_chars(rest, extra) =~= cur + (seq![s[0]] + kept_chars(
                rest,
                extra,
            )));
        }
    }
}

/// No character is lost or added between a text and its tokens: the tokens,
/// joined, are the text with its separator characters left out.
pub proof fn law_tokens_keep_all_other_chars(s: Seq<char>, extra: Seq<char>)
    ensures
        split_tokens(s, extra).flatten() == kept_chars(s, extra),
{
    lemma_split_from_flatten(s, extra, seq![]);
    assert(Seq::<char>::empty() + kept_chars(s, extra) =~= kept_chars(s, extra));
}

proof fn lemma_split_from_word(s: Seq<char>, extra: Seq<char>, cur: Seq<char>)
    requires
        separator_free(extra, s),
    ensures
        split_from(s, extra, cur) == flush(cur + s),
    decreases s.len(),
{
    if s.len() > 0 {
        assert(separator_free(extra, s.drop_first())) by {
            assert forall|j: int| 0 <= j < s.drop_first().len() implies !is_separator(
                extra,
                #[trigger] s.drop_first()[j],
            ) by {
                assert(s.drop_first()[j] == s[j + 1]);
            }
        }
        assert(!is_separator(extra, s[0]));
        lemma_split_from_word(s.drop_first(), extra, cur.push(s[0]));
        assert(cur.push(s[0]) + s.drop_first() =~= cur + s);
    } else {
        assert(cur + s =~= cur);
    }
}

/// A text without separators is one token, or none if it is empty.
pub proof fn law_word_is_one_token(s: Seq<char>, extra: Seq<char>)
    requires
        separator_free(extra, s),
    ensures
        split_tokens(s, extra) == flush(s),
{
    lemma_split_from_word(s, extra, seq![]);
    assert(Seq::<char>::empty() + s =~= s);
}

/// Whether `c` is one of `extra`.
fn contains_char(extra: &[char], c: char) -> (r: bool)
    ensures
        r == extra@.contains(c),
{
    let mut i: usize = 0;
    while i < extra.len()
        invariant
            i <= extra.len(),
            forall|j: int| 0 <= j < i ==> extra@[j] != c,
        decreases extra.len() - i,
    {
        if extra[i] == c {
            return true;
        }
        i = i + 1;
    }
    false
}

/// Appends the tokens of `s` to `out`, splitting at whitespace and at the
/// extra separators and leaving out empty tokens.
pub fn split_into(s: &str, extra: &[char], out: &mut Vec<String>)
    ensures
        views(final(out)@) == views(old(out)@) + split_tokens(s@, extra@),
{
    let ghost start = views(out@);
    let mut cur = String::new();
    proof {
        assert(s@.skip(0) =~= s@);
        assert(start + split_from(s@.skip(0), extra@, cur@) =~= start + split_tokens(s@, extra@));
    }
    for c in it: s.chars()
        invariant
            it.seq() == s@,
            views(out@) + split_from(s@.skip(it.index() as int), extra@, cur@) == start
                + split_tokens(s@, extra@),
    {
        let ghost i = it.index() as int;
        let ghost rest = s@.skip(i);
        proof {
            assert(rest[0] == c);
            assert(rest.drop_first() =~= s@.skip(i + 1));
        }
        let sep = is_whitespace(c) || contains_char(extra, c);
        if sep {
            if !cur.as_str().is_empty() {
                let ghost before = views(out@);
                let mut token = String::new();
                std::mem::swap(&mut token, &mut cur);
                out.push(token);
                proof {
                    assert(views(out@) =~= before + flush(token@));
                    assert(views(out@) + split_from(s@.skip(i + 1), extra@, cur@) =~= before + (
                    flush(token@) + split_from(s@.skip(i + 1), extra@, seq![])));
                }
            } else {
                proof {
                    assert(flush(cur@) =~= Seq::<Seq<char>>::empty());
                    assert(cur@ =~= Seq::<char>::empty());
                    assert(flush(cur@) + split_from(s@.skip(i + 1), extra@, seq![]) =~= split_from(
                        s@.skip(i + 1),
                        extra@,
                        cur@,
                    ));
                }
            }
        } else {
            push_char(&mut cur, c);
        }
    }
    proof {
        assert(s@.skip(s@.len() as int) =~= Seq::<char>::empty());
    }
    if !cur.as_str().is_empty() {
        let ghost before = views(out@);
        out.push(cur);
        proof {
            assert(views(out@) =~= before + flush(cur@));
        }
    } else {
        proof {
            assert(views(out@) + flush(cur@) =~= views(out@));
        }
    }
}

/// The shortest prefix length tried when matching a query token of
/// `pattern_len` characters against the start of a term with typos.
pub open spec fn typo_prefix_min(pattern_len: int) -> int {
    if pattern_len - 1 > 1 {
        pattern_len - 1
    } else {
        1
    }
}

/// The longest prefix length tried: two characters past the query token,
/// at most the whole term.
pub open spec fn typo_prefix_max(pattern_len: int, term_len: int) -> int {
    if pattern_len + 2 < term_len {
        pattern_len + 2
    } else {
        term_len
    }
}

/// The window of prefix lengths for a query token of `n` characters and a
/// term of `t`: the shortest prefix compared has `n - 1` characters when
/// `n` is at least two and one character otherwise; the longest has
/// `n + 2` characters, or the whole term when that is shorter.
pub proof fn law_typo_prefix_window(n: int, t: int)
    requires
        n >= 1,
        t >= 0,
    ensures
        n >= 2 ==> typo_prefix_min(n) == n - 1,
        n == 1 ==> typo_prefix_min(n) == 1,
        n + 2 <= t ==> typo_prefix_max(n, t) == n + 2,
        t <= n + 2 ==> typo_prefix_max(n, t) == t,
{
}

/// The prefixes of `term` that a query token `pattern` is compared with
/// when matching the start of a term with typos: those whose length is
/// between one less than the token's (at least one) and two more than it
/// (at most the term's), shortest first; none for an empty token.
pub fn typo_prefixes(pattern: &str, term: &str) -> (r: Vec<String>)
    ensures
        pattern@.len() == 0 ==> r@.len() == 0,
        pattern@.len() > 0 ==> {
            let lo = typo_prefix_min(pattern@.len() as int);
            let hi = typo_prefix_max(pattern@.len() as int, term@.len() as int);
            &&& r@.len() == (if hi >= lo { hi - lo + 1 } else { 0 })
            &&& forall|i: int| 0 <= i < r@.len() ==> #[trigger] r@[i]@ == term@.take(lo + i)
        },
        pattern@.len() >= 2 ==> forall|i: int|
            0 <= i < r@.len() ==> #[trigger] r@[i]@ == term@.take(pattern@.len() - 1 + i),
        pattern@.len() == 1 ==> forall|i: int|
            0 <= i < r@.len() ==> #[trigger] r@[i]@ == term@.take(1 + i),
        pattern@.len() > 0 && pattern@.len() + 2 <= term@.len() ==> r@.len() == (if pattern@.len()
            >= 2 {
            4int
        } else {
            3int
        }),
        pattern@.len() > 0 && pattern@.len() + 2 > term@.len() ==> r@.len() == (if pattern@.len()
            >= 2 {
            if term@.len() >= pattern@.len() - 1 {
                term@.len() - pattern@.len() + 2
            } else {
                0int
            }
        } else {
            term@.len() as int
        }),
{
    proof {
        if pattern@.len() > 0 {
            law_typo_prefix_window(pattern@.len() as int, term@.len() as int);
        }
    }
    let mut prefixes: Vec<String> = Vec::new();
    let pattern_len = chars_of(pattern).len();
    if pattern_len == 0 {
        return prefixes;
    }
    let chars = chars_of(term);
    let term_len = chars.len();
    let lo: usize = if pattern_len - 1 > 1 {
        pattern_len - 1
    } else {
        1
    };
    let hi: usize = if pattern_len < term_len && term_len - pattern_len > 2 {
        pattern_len + 2
    } else {
        term_len
    };
    assert(hi == typo_prefix_max(pattern_len as int, term_len as int));
    let mut prefix = String::new();
    let mut len: usize = 0;
    while len < hi
        invariant
            len <= hi <= term_len,
            chars@ == term@,
            term_len == chars@.len(),
            1 <= lo,
            prefix@ == term@.take(len as int),
            prefixes@.len() == (if len >= lo { len - lo + 1 } else { 0 }),
            forall|i: int| 0 <= i < prefixes@.len() ==> #[trigger] prefixes@[i]@ == term@.take(lo + i),
        decreases hi - len,
    {
        push_char(&mut prefix, chars[len]);
        len = len + 1;
        proof {
            assert(prefix@ =~= term@.take(len as int));
        }
        if len >= lo {
            prefixes.push(prefix.clone());
        }
    }
    prefixes
}

} // verus!
