//! Lexicographic order on strings by code point — the order tags are
//! listed in — with a verified sorted, deduplicated insertion.

use vstd::prelude::*;

use crate::text::views;

verus! {

/// Strict lexicographic order on character sequences, by code point.
/// For valid Unicode this coincides with the byte order of the UTF-8
/// encodings, the order `String`s sort in.
pub open spec fn lex_lt(a: Seq<char>, b: Seq<char>) -> bool
    decreases a.len(),
{
    if b.len() == 0 {
        false
    } else if a.len() == 0 {
        true
    } else if a[0] != b[0] {
        (a[0] as u32) < (b[0] as u32)
    } else {
        lex_lt(a.drop_first(), b.drop_first())
    }
}

/// The order is connected: two unordered sequences are equal.
pub proof fn lemma_lex_connected(a: Seq<char>, b: Seq<char>)
    requires
        !lex_lt(a, b),
        !lex_lt(b, a),
    ensures
        a == b,
    decreases a.len(),
{
    if a.len() == 0 || b.len() == 0 {
        assert(a =~= b);
    } else if a[0] != b[0] {
        vstd::utf8::char_u32_cast(a[0], a[0] as u32);
        vstd::utf8::char_u32_cast(b[0], b[0] as u32);
        assert((a[0] as u32) != (b[0] as u32));
    } else {
        lemma_lex_connected(a.drop_first(), b.drop_first());
        assert(a =~= seq![a[0]] + a.drop_first());
        assert(b =~= seq![b[0]] + b.drop_first());
    }
}

/// Strictly ascending, adjacent pair by adjacent pair: sorted with no
/// duplicates.
pub open spec fn strictly_sorted(v: Seq<Seq<char>>) -> bool {
    forall|k: int| 0 <= k < v.len() - 1 ==> lex_lt(#[trigger] v[k], v[k + 1])
}

/// Runtime comparison, verified against [`lex_lt`].
pub fn str_lt(a: &str, b: &str) -> (r: bool)
    ensures
        r == lex_lt(a@, b@),
{
    let na = a.unicode_len();
    let nb = b.unicode_len();
    let mut i: usize = 0;
    proof {
        assert(a@.skip(0) =~= a@);
        assert(b@.skip(0) =~= b@);
    }
    while i < na && i < nb
        invariant
            0 <= i <= na,
            0 <= i <= nb,
            na == a@.len(),
            nb == b@.len(),
            lex_lt(a@, b@) == lex_lt(a@.skip(i as int), b@.skip(i as int)),
        decreases na - i,
    {
        let ca = a.get_char(i);
        let cb = b.get_char(i);
        proof {
            let ra = a@.skip(i as int);
            let rb = b@.skip(i as int);
            assert(ra[0] == a@[i as int]);
            assert(rb[0] == b@[i as int]);
            assert(ra.drop_first() =~= a@.skip(i as int + 1));
            assert(rb.drop_first() =~= b@.skip(i as int + 1));
        }
        if ca != cb {
            return (ca as u32) < (cb as u32);
        }
        i += 1;
    }
    proof {
        let ra = a@.skip(i as int);
        let rb = b@.skip(i as int);
        assert(ra.len() == na - i);
        assert(rb.len() == nb - i);
    }
    i >= na && i < nb
}

/// Inserts `x` into a strictly sorted vector, keeping it strictly
/// sorted; a string already present is dropped, so the element set
/// gains exactly `x`.
pub fn insert_sorted_unique(out: &mut Vec<String>, x: String)
    requires
        strictly_sorted(views(old(out)@)),
    ensures
        strictly_sorted(views(final(out)@)),
        views(final(out)@).to_set() == views(old(out)@).to_set().insert(x@),
{
    let ghost pre = views(out@);
    let mut j: usize = 0;
    while j < out.len() && str_lt(out[j].as_str(), x.as_str())
        invariant
            0 <= j <= out.len(),
            views(out@) == pre,
            strictly_sorted(pre),
            forall|k: int| 0 <= k < j ==> lex_lt(pre[k], x@),
        decreases out.len() - j,
    {
        proof {
            assert(pre[j as int] == out@[j as int]@);
        }
        j += 1;
    }
    proof {
        assert(j < out.len() ==> pre[j as int] == out@[j as int]@);
    }
    if j < out.len() && out[j] == x {
        proof {
            assert(pre[j as int] == x@);
            assert(pre.contains(x@));
            assert(views(out@).to_set() =~= pre.to_set().insert(x@));
        }
        return;
    }
    proof {
        if j < out.len() {
            assert(!lex_lt(pre[j as int], x@));
            if !lex_lt(x@, pre[j as int]) {
                lemma_lex_connected(pre[j as int], x@);
                assert(false);
            }
        }
    }
    out.insert(j, x);
    proof {
        let post = views(out@);
        assert(post =~= pre.insert(j as int, x@));
        assert forall|k: int| 0 <= k < post.len() - 1 implies lex_lt(
            #[trigger] post[k],
            post[k + 1],
        ) by {
            if k + 1 < j as int {
                assert(post[k] == pre[k] && post[k + 1] == pre[k + 1]);
            } else if k + 1 == j as int {
                assert(post[k] == pre[k] && post[k + 1] == x@);
            } else if k == j as int {
                assert(post[k] == x@ && post[k + 1] == pre[k]);
            } else {
                assert(post[k] == pre[k - 1] && post[k + 1] == pre[k]);
            }
        }
        assert(post.to_set() =~= pre.to_set().insert(x@)) by {
            assert forall|t: Seq<char>| post.to_set().contains(t) implies pre.to_set().insert(
                x@,
            ).contains(t) by {
                let w = choose|w: int| 0 <= w < post.len() && post[w] == t;
                if w < j as int {
                    assert(pre[w] == t);
                } else if w > j as int {
                    assert(pre[w - 1] == t);
                }
            }
            assert forall|t: Seq<char>| pre.to_set().insert(x@).contains(t) implies post.to_set()
                .contains(t) by {
                if t == x@ {
                    assert(post[j as int] == t);
                } else {
                    let w = choose|w: int| 0 <= w < pre.len() && pre[w] == t;
                    if w < j as int {
                        assert(post[w] == t);
                    } else {
                        assert(post[w + 1] == t);
                    }
                }
            }
        }
    }
}

/// Appending one element to a sequence adds exactly it to the element
/// set.
pub proof fn lemma_push_to_set(s: Seq<Seq<char>>, x: Seq<char>)
    ensures
        s.push(x).to_set() == s.to_set().insert(x),
{
    assert forall|t: Seq<char>| s.push(x).to_set().contains(t) implies s.to_set().insert(
        x,
    ).contains(t) by {
        let w = choose|w: int| 0 <= w < s.push(x).len() && s.push(x)[w] == t;
        if w < s.len() {
            assert(s[w] == t);
        }
    }
    assert forall|t: Seq<char>| s.to_set().insert(x).contains(t) implies s.push(x).to_set()
        .contains(t) by {
        if t == x {
            assert(s.push(x)[s.len() as int] == t);
        } else {
            let w = choose|w: int| 0 <= w < s.len() && s[w] == t;
            assert(s.push(x)[w] == t);
        }
    }
    assert(s.push(x).to_set() =~= s.to_set().insert(x));
}

/// Sorts the strings ascending and drops duplicates: the result is
/// strictly sorted and holds exactly the strings of the input.
pub fn sort_dedup(v: Vec<String>) -> (r: Vec<String>)
    ensures
        strictly_sorted(views(r@)),
        views(r@).to_set() == views(v@).to_set(),
{
    let mut out: Vec<String> = Vec::new();
    let mut i: usize = 0;
    proof {
        assert(views(out@).to_set() =~= views(v@.take(0)).to_set());
    }
    while i < v.len()
        invariant
            0 <= i <= v.len(),
            strictly_sorted(views(out@)),
            views(out@).to_set() == views(v@.take(i as int)).to_set(),
        decreases v.len() - i,
    {
        let x = v[i].clone();
        proof {
            assert(x@ == v@[i as int]@);
            assert(views(v@.take(i as int + 1)) =~= views(v@.take(i as int)).push(x@));
            lemma_push_to_set(views(v@.take(i as int)), x@);
        }
        insert_sorted_unique(&mut out, x);
        i += 1;
    }
    proof {
        assert(v@.take(v@.len() as int) =~= v@);
    }
    out
}

} // verus!
