//! The search engine's query side: normalization of a raw tag/text
//! query into prefix-match tokens, the full-text expression those
//! tokens print as, and the matching rule an index entry is held to.

use vstd::prelude::*;

use crate::text::{tokenize, tokens, views};

verus! {

/// Whether a character counts as alphanumeric, by Unicode's
/// definition: a function of the character alone, named here and left
/// uninterpreted.
pub uninterp spec fn alnum_char(c: char) -> bool;

/// Relies on `char::is_alphanumeric`: true exactly for characters in
/// the Unicode general categories of letters and numbers — a function
/// of the character alone.
pub assume_specification[ char::is_alphanumeric ](c: char) -> (r: bool)
    ensures
        r == alnum_char(c),
;

/// A character a query token keeps: alphanumeric, underscore or
/// hyphen.
pub open spec fn keep_char(c: char) -> bool {
    alnum_char(c) || c == '_' || c == '-'
}

/// A token with every other character stripped.
pub open spec fn sanitize_spec(t: Seq<char>) -> Seq<char> {
    t.filter(|c: char| keep_char(c))
}

/// Strips every character that is not alphanumeric, underscore or
/// hyphen from a query token.
pub fn sanitize_fts_token(token: &str) -> (r: String)
    ensures
        r@ == sanitize_spec(token@),
{
    let n = token.unicode_len();
    let mut r = String::new();
    let mut i: usize = 0;
    proof {
        reveal(Seq::filter);
        assert(token@.take(0) =~= Seq::<char>::empty());
        assert(r@ =~= sanitize_spec(token@.take(0)));
    }
    while i < n
        invariant
            0 <= i <= n,
            n == token@.len(),
            r@ == sanitize_spec(token@.take(i as int)),
        decreases n - i,
    {
        let c = token.get_char(i);
        proof {
            reveal(Seq::filter);
            let s1 = token@.take(i as int + 1);
            assert(s1.drop_last() =~= token@.take(i as int));
            assert(s1.last() == c);
        }
        if c.is_alphanumeric() || c == '_' || c == '-' {
            r.push(c);
        }
        i += 1;
    }
    proof {
        assert(token@.take(n as int) =~= token@);
    }
    r
}

/// The normalized tokens of a raw query: split on whitespace,
/// sanitized, empty leavings dropped.  Each surviving token is a
/// prefix-match term; together they are an implicit conjunction.
pub open spec fn query_tokens(q: Seq<char>) -> Seq<Seq<char>> {
    tokens(q).map_values(|t: Seq<char>| sanitize_spec(t)).filter(|t: Seq<char>| t.len() > 0)
}

/// Normalizes a raw query into its prefix-match tokens.
pub fn normalize_query(q: &str) -> (r: Vec<String>)
    ensures
        views(r@) == query_tokens(q@),
{
    let raw = tokenize(q);
    let ghost mapped = tokens(q@).map_values(|t: Seq<char>| sanitize_spec(t));
    let mut r: Vec<String> = Vec::new();
    let mut i: usize = 0;
    proof {
        reveal(Seq::filter);
        assert(mapped.take(0) =~= Seq::<Seq<char>>::empty());
        assert(views(r@) =~= mapped.take(0).filter(|t: Seq<char>| t.len() > 0));
    }
    while i < raw.len()
        invariant
            0 <= i <= raw.len(),
            views(raw@) == tokens(q@),
            mapped == tokens(q@).map_values(|t: Seq<char>| sanitize_spec(t)),
            views(r@) == mapped.take(i as int).filter(|t: Seq<char>| t.len() > 0),
        decreases raw.len() - i,
    {
        let s = sanitize_fts_token(raw[i].as_str());
        proof {
            reveal(Seq::filter);
            assert(raw@[i as int]@ == tokens(q@)[i as int]);
            assert(mapped[i as int] == s@);
            let m1 = mapped.take(i as int + 1);
            assert(m1.drop_last() =~= mapped.take(i as int));
            assert(m1.last() == s@);
            if s@.len() > 0 {
                assert(views(r@.push(s)) =~= views(r@).push(s@));
            }
        }
        if s.unicode_len() > 0 {
            r.push(s);
        }
        i += 1;
    }
    proof {
        assert(mapped.take(raw@.len() as int) =~= mapped);
    }
    r
}

/// The combined full-text expression the normalized query prints as:
/// each token with a trailing prefix-wildcard marker, joined by single
/// spaces.
pub open spec fn fts_expr(ts: Seq<Seq<char>>) -> Seq<char>
    decreases ts.len(),
{
    if ts.len() == 0 {
        Seq::empty()
    } else if ts.len() == 1 {
        ts[0] + seq!['*']
    } else {
        fts_expr(ts.drop_last()) + seq![' '] + ts.last() + seq!['*']
    }
}

/// Prints the normalized query as one full-text expression, `tok*`
/// terms joined by single spaces; the empty query prints as the empty
/// expression.
pub fn fts_expression(q: &str) -> (r: String)
    ensures
        r@ == fts_expr(query_tokens(q@)),
{
    let qts = normalize_query(q);
    let mut r = String::new();
    let mut i: usize = 0;
    while i < qts.len()
        invariant
            0 <= i <= qts.len(),
            views(qts@) == query_tokens(q@),
            r@ == fts_expr(views(qts@).take(i as int)),
        decreases qts.len() - i,
    {
        if i > 0 {
            r.append(" ");
        }
        r.append(qts[i].as_str());
        r.append("*");
        proof {
            reveal_strlit(" ");
            reveal_strlit("*");
            assert(" "@ =~= seq![' ']);
            assert("*"@ =~= seq!['*']);
            let t1 = views(qts@).take(i as int + 1);
            assert(t1.drop_last() =~= views(qts@).take(i as int));
            assert(t1.last() == qts@[i as int]@);
            if i == 0 {
                assert(r@ =~= fts_expr(t1));
            } else {
                assert(r@ =~= fts_expr(t1));
            }
        }
        i += 1;
    }
    proof {
        assert(views(qts@).take(qts@.len() as int) =~= views(qts@));
    }
    r
}

/// Whether `p` is a prefix of `t`, character by character.
pub fn str_is_prefix(p: &str, t: &str) -> (r: bool)
    ensures
        r == p@.is_prefix_of(t@),
{
    let np = p.unicode_len();
    let nt = t.unicode_len();
    if np > nt {
        return false;
    }
    let mut i: usize = 0;
    while i < np
        invariant
            0 <= i <= np,
            np == p@.len(),
            nt == t@.len(),
            np <= nt,
            forall|k: int| 0 <= k < i ==> p@[k] == t@[k],
        decreases np - i,
    {
        if p.get_char(i) != t.get_char(i) {
            proof {
                assert(t@.subrange(0, np as int)[i as int] == t@[i as int]);
            }
            return false;
        }
        i += 1;
    }
    proof {
        assert(p@ =~= t@.subrange(0, np as int));
    }
    true
}

/// Whether the query token `q` prefix-matches some whitespace-delimited
/// token of the indexed text.
pub open spec fn matches_some_token(text: Seq<char>, q: Seq<char>) -> bool {
    exists|j: int| 0 <= j < tokens(text).len() && q.is_prefix_of(#[trigger] tokens(text)[j])
}

/// Whether an indexed text satisfies the whole normalized query: every
/// query token prefix-matches some token of the text.
pub open spec fn entry_matches(text: Seq<char>, qts: Seq<Seq<char>>) -> bool {
    forall|i: int| 0 <= i < qts.len() ==> matches_some_token(text, #[trigger] qts[i])
}

/// Decides [`entry_matches`] for a stored search text against
/// normalized query tokens.
pub fn matches_query(text: &str, qts: &Vec<String>) -> (r: bool)
    ensures
        r == entry_matches(text@, views(qts@)),
{
    let toks = tokenize(text);
    let mut i: usize = 0;
    while i < qts.len()
        invariant
            0 <= i <= qts.len(),
            views(toks@) == tokens(text@),
            forall|k: int| 0 <= k < i ==> matches_some_token(text@, #[trigger] views(qts@)[k]),
        decreases qts.len() - i,
    {
        let q = &qts[i];
        let mut j: usize = 0;
        let mut found = false;
        while j < toks.len() && !found
            invariant
                0 <= j <= toks.len(),
                views(toks@) == tokens(text@),
                q@ == qts@[i as int]@,
                found ==> matches_some_token(text@, q@),
                !found ==> forall|m: int|
                    0 <= m < j ==> !q@.is_prefix_of(#[trigger] tokens(text@)[m]),
            decreases toks.len() - j,
        {
            proof {
                assert(tokens(text@)[j as int] == toks@[j as int]@);
            }
            if str_is_prefix(q.as_str(), toks[j].as_str()) {
                found = true;
            }
            j += 1;
        }
        if !found {
            proof {
                assert(views(qts@)[i as int] == q@);
                assert(!matches_some_token(text@, q@));
            }
            return false;
        }
        proof {
            assert(views(qts@)[i as int] == q@);
        }
        i += 1;
    }
    true
}

} // verus!
