//! Whitespace-delimited text: the model of the search-text field.
//!
//! A search-text field is a plain string; its tags are the
//! whitespace-delimited tokens of that string.  This module defines the
//! whitespace predicate, trimming, and tokenization, both as
//! specification functions and as verified executable code.

use vstd::prelude::*;

verus! {

/// A whitespace character, exactly as Unicode's `White_Space` property
/// defines the set (the same set `str::trim` and `str::split_whitespace`
/// go by).
pub open spec fn is_white(c: char) -> bool {
    ||| c == ' '
    ||| ('\u{0009}' <= c && c <= '\u{000D}')
    ||| c == '\u{0085}'
    ||| c == '\u{00A0}'
    ||| c == '\u{1680}'
    ||| ('\u{2000}' <= c && c <= '\u{200A}')
    ||| c == '\u{2028}'
    ||| c == '\u{2029}'
    ||| c == '\u{202F}'
    ||| c == '\u{205F}'
    ||| c == '\u{3000}'
}

/// Runtime check for [`is_white`].
pub fn white_char(c: char) -> (r: bool)
    ensures
        r == is_white(c),
{
    c == ' ' || ('\u{0009}' <= c && c <= '\u{000D}') || c == '\u{0085}' || c == '\u{00A0}'
        || c == '\u{1680}' || ('\u{2000}' <= c && c <= '\u{200A}') || c == '\u{2028}'
        || c == '\u{2029}' || c == '\u{202F}' || c == '\u{205F}' || c == '\u{3000}'
}

/// The longest prefix of `s` that holds no whitespace character.
pub open spec fn take_token(s: Seq<char>) -> Seq<char>
    decreases s.len(),
{
    if s.len() == 0 || is_white(s[0]) {
        Seq::empty()
    } else {
        seq![s[0]] + take_token(s.drop_first())
    }
}

pub proof fn lemma_take_token_bounds(s: Seq<char>)
    ensures
        take_token(s).len() <= s.len(),
        s.len() > 0 && !is_white(s[0]) ==> take_token(s).len() >= 1,
    decreases s.len(),
{
    if s.len() > 0 && !is_white(s[0]) {
        lemma_take_token_bounds(s.drop_first());
    }
}

/// The whitespace-delimited tokens of `s`, in order of appearance,
/// duplicates kept.
pub open spec fn tokens(s: Seq<char>) -> Seq<Seq<char>>
    decreases s.len(),
    via tokens_decreases
{
    if s.len() == 0 {
        Seq::empty()
    } else if is_white(s[0]) {
        tokens(s.drop_first())
    } else {
        seq![take_token(s)] + tokens(s.skip(take_token(s).len() as int))
    }
}

#[via_fn]
proof fn tokens_decreases(s: Seq<char>) {
    if s.len() > 0 && !is_white(s[0]) {
        lemma_take_token_bounds(s);
    }
}

/// The set of tokens of `s`: what a search-text field holds, seen as a
/// bag of tags.
pub open spec fn token_set(s: Seq<char>) -> Set<Seq<char>> {
    tokens(s).to_set()
}

/// If the first `m` characters of `s` are not whitespace and the token
/// ends there (end of string or a whitespace character), the longest
/// non-white prefix is exactly those `m` characters.
pub proof fn lemma_take_token_exact(s: Seq<char>, m: int)
    requires
        0 <= m <= s.len(),
        forall|k: int| 0 <= k < m ==> !is_white(s[k]),
        m == s.len() || is_white(s[m]),
    ensures
        take_token(s) == s.subrange(0, m),
    decreases m,
{
    if m == 0 {
        assert(take_token(s) == s.subrange(0, 0));
    } else {
        let t = s.drop_first();
        lemma_take_token_exact(t, m - 1);
        assert(take_token(s) == seq![s[0]] + take_token(t));
        assert(seq![s[0]] + t.subrange(0, m - 1) =~= s.subrange(0, m));
    }
}

/// A non-empty string without whitespace is one token.
pub proof fn lemma_tokens_single(t: Seq<char>)
    requires
        t.len() > 0,
        forall|k: int| 0 <= k < t.len() ==> !is_white(t[k]),
    ensures
        tokens(t) == seq![t],
{
    lemma_take_token_exact(t, t.len() as int);
    assert(t.subrange(0, t.len() as int) =~= t);
    assert(take_token(t) == t);
    assert(t.skip(t.len() as int) =~= Seq::<char>::empty());
    assert(tokens(t.skip(t.len() as int)) == Seq::<Seq<char>>::empty());
    assert(tokens(t) == seq![t] + Seq::<Seq<char>>::empty());
    assert(seq![t] + Seq::<Seq<char>>::empty() =~= seq![t]);
}

/// A whitespace character never stands inside the longest non-white
/// prefix: reading past a separator never changes it.
pub proof fn lemma_take_token_sep(a: Seq<char>, w: char, b: Seq<char>)
    requires
        is_white(w),
    ensures
        take_token(a + seq![w] + b) == take_token(a),
    decreases a.len(),
{
    let s = a + seq![w] + b;
    if a.len() == 0 {
        assert(s[0] == w);
    } else if is_white(a[0]) {
        assert(s[0] == a[0]);
    } else {
        assert(s[0] == a[0]);
        lemma_take_token_sep(a.drop_first(), w, b);
        assert(s.drop_first() =~= a.drop_first() + seq![w] + b);
        assert(take_token(s) == seq![s[0]] + take_token(s.drop_first()));
        assert(take_token(a) == seq![a[0]] + take_token(a.drop_first()));
    }
}

/// Splitting at a whitespace separator splits the token list: the
/// tokens of `a ++ w ++ b` are the tokens of `a` followed by those of
/// `b`.
pub proof fn lemma_tokens_sep(a: Seq<char>, w: char, b: Seq<char>)
    requires
        is_white(w),
    ensures
        tokens(a + seq![w] + b) == tokens(a) + tokens(b),
    decreases a.len(),
{
    let s = a + seq![w] + b;
    if a.len() == 0 {
        assert(s[0] == w);
        assert(s.drop_first() =~= b);
        assert(tokens(a) + tokens(b) =~= tokens(b));
    } else if is_white(a[0]) {
        assert(s[0] == a[0]);
        lemma_tokens_sep(a.drop_first(), w, b);
        assert(s.drop_first() =~= a.drop_first() + seq![w] + b);
    } else {
        assert(s[0] == a[0]);
        lemma_take_token_sep(a, w, b);
        let l = take_token(a).len() as int;
        lemma_take_token_bounds(a);
        assert(tokens(s) == seq![take_token(s)] + tokens(s.skip(l)));
        assert(tokens(a) == seq![take_token(a)] + tokens(a.skip(l)));
        assert(s.skip(l) =~= a.skip(l) + seq![w] + b);
        lemma_tokens_sep(a.skip(l), w, b);
        assert(seq![take_token(s)] + (tokens(a.skip(l)) + tokens(b)) =~= (seq![take_token(a)]
            + tokens(a.skip(l))) + tokens(b));
    }
}

/// The views of a sequence of owned strings.
pub open spec fn views(v: Seq<String>) -> Seq<Seq<char>> {
    v.map_values(|x: String| x@)
}

/// Skipping one leading whitespace character leaves the tokens as they
/// are.
pub proof fn lemma_tokens_skip_white(s: Seq<char>, i: int)
    requires
        0 <= i < s.len(),
        is_white(s[i]),
    ensures
        tokens(s.skip(i)) == tokens(s.skip(i + 1)),
{
    let rest = s.skip(i);
    assert(rest[0] == s[i]);
    assert(rest.drop_first() =~= s.skip(i + 1));
}

/// A maximal non-white run `[i, j)` is the next token of `s.skip(i)`.
pub proof fn lemma_tokens_skip_token(s: Seq<char>, i: int, j: int)
    requires
        0 <= i < j <= s.len(),
        forall|k: int| i <= k < j ==> !is_white(s[k]),
        j == s.len() || is_white(s[j]),
    ensures
        tokens(s.skip(i)) == seq![s.subrange(i, j)] + tokens(s.skip(j)),
{
    let rest = s.skip(i);
    assert forall|k: int| 0 <= k < j - i implies !is_white(rest[k]) by {
        assert(rest[k] == s[k + i]);
    }
    if j - i < rest.len() {
        assert(rest[j - i] == s[j]);
    }
    lemma_take_token_exact(rest, j - i);
    assert(rest.subrange(0, j - i) =~= s.subrange(i, j));
    assert(!is_white(rest[0]));
    assert(tokens(rest) == seq![take_token(rest)] + tokens(rest.skip(j - i)));
    assert(rest.skip(j - i) =~= s.skip(j));
}

/// `str::split_whitespace`, collected: the whitespace-delimited tokens
/// of `s`, in order, duplicates kept.
pub fn tokenize(s: &str) -> (r: Vec<String>)
    ensures
        views(r@) == tokens(s@),
{
    let n = s.unicode_len();
    let mut r: Vec<String> = Vec::new();
    let mut i: usize = 0;
    proof {
        assert(s@.skip(0) =~= s@);
        assert(views(r@) =~= Seq::<Seq<char>>::empty());
    }
    while i < n
        invariant
            0 <= i <= n,
            n == s@.len(),
            views(r@) + tokens(s@.skip(i as int)) == tokens(s@),
        decreases n - i,
    {
        if white_char(s.get_char(i)) {
            proof {
                lemma_tokens_skip_white(s@, i as int);
            }
            i += 1;
        } else {
            let mut j = i + 1;
            while j < n && !white_char(s.get_char(j))
                invariant
                    i < j <= n,
                    n == s@.len(),
                    forall|k: int| i <= k < j ==> !is_white(s@[k]),
                decreases n - j,
            {
                j += 1;
            }
            let tok = s.substring_char(i, j).to_owned();
            proof {
                lemma_tokens_skip_token(s@, i as int, j as int);
                assert(views(r@.push(tok)) =~= views(r@).push(tok@));
                assert(views(r@).push(tok@) + tokens(s@.skip(j as int)) =~= views(r@) + tokens(
                    s@.skip(i as int),
                ));
            }
            r.push(tok);
            i = j;
        }
    }
    proof {
        assert(s@.skip(n as int) =~= Seq::<char>::empty());
        assert(tokens(s@.skip(n as int)) == Seq::<Seq<char>>::empty());
        assert(views(r@) + Seq::<Seq<char>>::empty() =~= views(r@));
    }
    r
}

/// Whether `tok` occurs among the whitespace-delimited tokens of
/// `text`.
pub fn contains_token(text: &str, tok: &str) -> (r: bool)
    ensures
        r == tokens(text@).contains(tok@),
{
    let toks = tokenize(text);
    let needle = String::from_str(tok);
    let mut k: usize = 0;
    while k < toks.len()
        invariant
            0 <= k <= toks.len(),
            needle@ == tok@,
            views(toks@) == tokens(text@),
            forall|m: int| 0 <= m < k ==> tokens(text@)[m] != tok@,
        decreases toks.len() - k,
    {
        if toks[k] == needle {
            proof {
                assert(tokens(text@)[k as int] == toks@[k as int]@);
            }
            return true;
        }
        proof {
            assert(tokens(text@)[k as int] == toks@[k as int]@);
        }
        k += 1;
    }
    false
}

/// Relies on `String::push`: appends the given character to the end of
/// the string.
pub assume_specification[ String::push ](s: &mut String, ch: char)
    ensures
        final(s)@ == old(s)@.push(ch),
;

/// The index of the last occurrence of `c` in `s`, or `-1` where none
/// occurs.
pub open spec fn last_index_of(s: Seq<char>, c: char) -> int
    decreases s.len(),
{
    if s.len() == 0 {
        -1
    } else if s.last() == c {
        s.len() - 1
    } else {
        last_index_of(s.drop_last(), c)
    }
}

pub proof fn lemma_last_index_of(s: Seq<char>, c: char, i: int)
    requires
        0 <= i <= s.len(),
        forall|k: int| i <= k < s.len() ==> s[k] != c,
        i > 0 ==> s[i - 1] == c,
    ensures
        last_index_of(s, c) == i - 1,
    decreases s.len(),
{
    if s.len() == 0 {
    } else if i == s.len() {
        assert(s.last() == c);
    } else {
        assert(s.last() != c);
        assert forall|k: int| i <= k < s.drop_last().len() implies s.drop_last()[k] != c by {
            assert(s.drop_last()[k] == s[k]);
        }
        if i > 0 {
            assert(s.drop_last()[i - 1] == s[i - 1]);
        }
        lemma_last_index_of(s.drop_last(), c, i);
    }
}

/// The index just past the last occurrence of `c` in `s` — `0` where
/// none occurs.
pub fn after_last(s: &str, c: char) -> (r: usize)
    ensures
        r as int == last_index_of(s@, c) + 1,
        r <= s@.len(),
{
    let n = s.unicode_len();
    let mut i: usize = n;
    while i > 0
        invariant
            0 <= i <= n,
            n == s@.len(),
            forall|k: int| i <= k < n ==> s@[k] != c,
        decreases i,
    {
        if s.get_char(i - 1) == c {
            proof {
                lemma_last_index_of(s@, c, i as int);
            }
            return i;
        }
        i -= 1;
    }
    proof {
        lemma_last_index_of(s@, c, 0);
    }
    0
}

/// The element set of a concatenation is the union of the element
/// sets.
pub proof fn lemma_concat_to_set(a: Seq<Seq<char>>, b: Seq<Seq<char>>)
    ensures
        (a + b).to_set() == a.to_set().union(b.to_set()),
{
    assert forall|t: Seq<char>| (a + b).to_set().contains(t) implies a.to_set().union(
        b.to_set(),
    ).contains(t) by {
        let w = choose|w: int| 0 <= w < (a + b).len() && (a + b)[w] == t;
        if w < a.len() {
            assert(a[w] == t);
        } else {
            assert(b[w - a.len()] == t);
        }
    }
    assert forall|t: Seq<char>| a.to_set().union(b.to_set()).contains(t) implies (a + b).to_set()
        .contains(t) by {
        if a.to_set().contains(t) {
            let w = choose|w: int| 0 <= w < a.len() && a[w] == t;
            assert((a + b)[w] == t);
        } else {
            let w = choose|w: int| 0 <= w < b.len() && b[w] == t;
            assert((a + b)[w + a.len()] == t);
        }
    }
    assert((a + b).to_set() =~= a.to_set().union(b.to_set()));
}

/// Dropping leading whitespace.
pub open spec fn trim_front(s: Seq<char>) -> Seq<char>
    decreases s.len(),
{
    if s.len() > 0 && is_white(s[0]) {
        trim_front(s.drop_first())
    } else {
        s
    }
}

/// Dropping trailing whitespace.
pub open spec fn trim_back(s: Seq<char>) -> Seq<char>
    decreases s.len(),
{
    if s.len() > 0 && is_white(s[s.len() - 1]) {
        trim_back(s.drop_last())
    } else {
        s
    }
}

/// What `str::trim` leaves: `s` without leading and trailing
/// whitespace.
pub open spec fn trim_spec(s: Seq<char>) -> Seq<char> {
    trim_back(trim_front(s))
}

/// `str::trim`, verified against [`trim_spec`].
pub fn trim_str(s: &str) -> (r: &str)
    ensures
        r@ == trim_spec(s@),
{
    let n = s.unicode_len();
    let mut start: usize = 0;
    proof {
        assert(s@.skip(0) =~= s@);
    }
    while start < n && white_char(s.get_char(start))
        invariant
            0 <= start <= n,
            n == s@.len(),
            trim_front(s@) == trim_front(s@.skip(start as int)),
            forall|k: int| 0 <= k < start ==> is_white(s@[k]),
        decreases n - start,
    {
        proof {
            let rest = s@.skip(start as int);
            assert(rest[0] == s@[start as int]);
            assert(rest.drop_first() =~= s@.skip(start as int + 1));
        }
        start += 1;
    }
    proof {
        let rest = s@.skip(start as int);
        if start < n {
            assert(rest[0] == s@[start as int]);
        }
        assert(trim_front(s@) == rest);
        assert(s@.skip(start as int) =~= s@.subrange(start as int, n as int));
        if start == n {
            assert(s@.subrange(start as int, n as int) =~= Seq::<char>::empty());
        }
    }
    let mut end: usize = n;
    while start < end && white_char(s.get_char(end - 1))
        invariant
            start <= end <= n,
            n == s@.len(),
            trim_front(s@) == s@.skip(start as int),
            start < end ==> trim_back(trim_front(s@)) == trim_back(
                s@.subrange(start as int, end as int),
            ),
            start == end ==> trim_back(trim_front(s@)) == Seq::<char>::empty(),
        decreases end,
    {
        proof {
            let cur = s@.subrange(start as int, end as int);
            assert(cur[cur.len() - 1] == s@[end - 1]);
            assert(cur.drop_last() =~= s@.subrange(start as int, end as int - 1));
            if start == end - 1 {
                assert(s@.subrange(start as int, start as int) =~= Seq::<char>::empty());
                assert(trim_back(Seq::<char>::empty()) == Seq::<char>::empty());
            }
        }
        end -= 1;
    }
    proof {
        if start < end {
            let cur = s@.subrange(start as int, end as int);
            assert(cur[cur.len() - 1] == s@[end - 1]);
            assert(trim_back(cur) == cur);
        } else {
            assert(s@.subrange(start as int, end as int) =~= Seq::<char>::empty());
        }
        assert(s@.skip(start as int) =~= s@.subrange(start as int, n as int));
        if start == n {
            assert(trim_front(s@) =~= Seq::<char>::empty());
            assert(trim_back(trim_front(s@)) == trim_front(s@));
        }
    }
    s.substring_char(start, end)
}

} // verus!
