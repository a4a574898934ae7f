//! The filename policy: storage directories, image extensions, the
//! uniqueness counter for saved files, timestamped fallback names, and
//! the name derived from a URL.

use vstd::prelude::*;

use crate::text::{after_last, last_index_of, trim_spec, trim_str};

verus! {

/// The decimal digit character of `d`.
pub open spec fn digit_char(d: int) -> char {
    ((d + 48) as u8) as char
}

/// The decimal digits of `n`, most significant first, no sign and no
/// leading zero (a single zero for zero).
pub open spec fn dec_digits(n: int) -> Seq<char>
    decreases n,
{
    if n < 10 {
        seq![digit_char(n)]
    } else {
        dec_digits(n / 10).push(digit_char(n % 10))
    }
}

fn push_digits(r: &mut String, n: u64)
    ensures
        final(r)@ == old(r)@ + dec_digits(n as int),
    decreases n,
{
    if n < 10 {
        r.push((48 + n as u8) as char);
    } else {
        push_digits(r, n / 10);
        r.push((48 + (n % 10) as u8) as char);
        proof {
            assert(old(r)@ + dec_digits((n / 10) as int).push(digit_char(n as int % 10)) =~= (old(
                r,
            )@ + dec_digits((n / 10) as int)).push(digit_char(n as int % 10)));
        }
    }
}

/// `n` printed in decimal.
pub fn u64_to_string(n: u64) -> (r: String)
    ensures
        r@ == dec_digits(n as int),
{
    let mut r = String::new();
    push_digits(&mut r, n);
    proof {
        assert(Seq::<char>::empty() + dec_digits(n as int) =~= dec_digits(n as int));
    }
    r
}

/// The extension of a filename: what follows the last dot, unless no
/// dot occurs or the only role of the first character is to hide the
/// file (a leading dot with no later dot names no extension).
pub open spec fn ext_of(name: Seq<char>) -> Option<Seq<char>> {
    let d = last_index_of(name, '.');
    if d <= 0 {
        None
    } else {
        Some(name.subrange(d + 1, name.len() as int))
    }
}

/// The stem of a filename: what precedes its extension, or the whole
/// name where it has none.
pub open spec fn stem_of(name: Seq<char>) -> Seq<char> {
    let d = last_index_of(name, '.');
    if d <= 0 {
        name
    } else {
        name.subrange(0, d)
    }
}

/// The extension read as a plain string: empty where there is none.
pub open spec fn ext_str_of(name: Seq<char>) -> Seq<char> {
    match ext_of(name) {
        Some(e) => e,
        None => Seq::empty(),
    }
}

/// Splits a filename into stem and extension (the extension empty
/// where there is none).
pub fn split_stem_ext(name: &str) -> (r: (String, String))
    ensures
        r.0@ == stem_of(name@),
        r.1@ == ext_str_of(name@),
{
    let n = name.unicode_len();
    let d = after_last(name, '.');
    if d <= 1 {
        (name.to_owned(), String::new())
    } else {
        (name.substring_char(0, d - 1).to_owned(), name.substring_char(d, n).to_owned())
    }
}

/// Character-for-character string equality.
pub fn str_eq(a: &str, b: &str) -> (r: bool)
    ensures
        r == (a@ == b@),
{
    let na = a.unicode_len();
    let nb = b.unicode_len();
    if na != nb {
        return false;
    }
    let mut i: usize = 0;
    while i < na
        invariant
            0 <= i <= na,
            na == a@.len(),
            na == b@.len(),
            forall|k: int| 0 <= k < i ==> a@[k] == b@[k],
        decreases na - i,
    {
        if a.get_char(i) != b.get_char(i) {
            return false;
        }
        i += 1;
    }
    proof {
        assert(a@ =~= b@);
    }
    true
}

/// Whether a filename carries one of the cataloged image extensions.
pub open spec fn is_image_name(name: Seq<char>) -> bool {
    match ext_of(name) {
        Some(e) => e == "png"@ || e == "jpg"@ || e == "jpeg"@ || e == "webp"@ || e == "gif"@,
        None => false,
    }
}

/// Whether this filename is taken into the catalog by a bulk import:
/// its extension (case-sensitive) is `png`, `jpg`, `jpeg`, `webp` or
/// `gif`.
pub fn is_image_filename(name: &str) -> (r: bool)
    ensures
        r == is_image_name(name@),
{
    let n = name.unicode_len();
    let d = after_last(name, '.');
    if d <= 1 {
        return false;
    }
    let ext = name.substring_char(d, n);
    str_eq(ext, "png") || str_eq(ext, "jpg") || str_eq(ext, "jpeg") || str_eq(ext, "webp")
        || str_eq(ext, "gif")
}

/// The `n`-th candidate name for a file whose plain name is taken:
/// ` (n)` between stem and extension.
pub open spec fn numbered_name(stem: Seq<char>, ext: Seq<char>, n: int) -> Seq<char> {
    let base = stem + " ("@ + dec_digits(n) + ")"@;
    if ext.len() == 0 {
        base
    } else {
        base + "."@ + ext
    }
}

/// Builds the `counter`-th candidate filename for a stem and
/// extension, as the uniqueness policy tries them in turn.
pub fn numbered_filename(stem: &str, extension: &str, counter: u64) -> (r: String)
    ensures
        r@ == numbered_name(stem@, extension@, counter as int),
{
    let mut r = stem.to_owned();
    r.append(" (");
    let digits = u64_to_string(counter);
    r.append(digits.as_str());
    r.append(")");
    if extension.unicode_len() > 0 {
        r.append(".");
        r.append(extension);
    }
    r
}

/// A fallback name made of a prefix, a timestamp and an extension.
pub open spec fn timestamped_name(prefix: Seq<char>, ts: int, ext: Seq<char>) -> Seq<char> {
    prefix + "_"@ + dec_digits(ts) + "."@ + ext
}

/// Builds the timestamped fallback filename used where no usable name
/// can be derived: `prefix_timestamp.ext`.
pub fn timestamped_filename(prefix: &str, timestamp: u64, extension: &str) -> (r: String)
    ensures
        r@ == timestamped_name(prefix@, timestamp as int, extension@),
{
    let mut r = prefix.to_owned();
    r.append("_");
    let digits = u64_to_string(timestamp);
    r.append(digits.as_str());
    r.append(".");
    r.append(extension);
    r
}

/// The index of the first `?` or `#` in `s`, or its length where
/// neither occurs.
pub open spec fn first_stop(s: Seq<char>) -> int
    decreases s.len(),
{
    if s.len() == 0 {
        0
    } else if s[0] == '?' || s[0] == '#' {
        0
    } else {
        1 + first_stop(s.drop_first())
    }
}

pub proof fn lemma_first_stop(s: Seq<char>, i: int)
    requires
        0 <= i <= s.len(),
        forall|k: int| 0 <= k < i ==> s[k] != '?' && s[k] != '#',
        i == s.len() || s[i] == '?' || s[i] == '#',
    ensures
        first_stop(s) == i,
    decreases i,
{
    if i == 0 {
    } else {
        assert(s[0] != '?' && s[0] != '#');
        let t = s.drop_first();
        assert forall|k: int| 0 <= k < i - 1 implies t[k] != '?' && t[k] != '#' by {
            assert(t[k] == s[k + 1]);
        }
        if i - 1 < t.len() {
            assert(t[i - 1] == s[i]);
        }
        lemma_first_stop(t, i - 1);
    }
}

/// A character a filename may not hold: the set replaced by
/// underscores.
pub open spec fn bad_char(c: char) -> bool {
    c == '<' || c == '>' || c == ':' || c == '"' || c == '/' || c == '\\' || c == '|' || c == '?'
        || c == '*' || (c as u32) <= 0x1F
}

/// The replacement of every disallowed character by an underscore.
pub open spec fn replaced(s: Seq<char>) -> Seq<char> {
    s.map_values(
        |c: char|
            if bad_char(c) {
                '_'
            } else {
                c
            },
    )
}

/// The filename a URL yields, as one value: the segment after the
/// last slash, cut at the first `?` or `#`, with every disallowed
/// character replaced by an underscore; `None` where the segment is
/// whitespace-only, begins with a dot, or is whitespace-only once
/// replaced — the caller then falls back to a timestamped name.
pub open spec fn url_filename(u: Seq<char>) -> Option<Seq<char>> {
    let tail = u.subrange(last_index_of(u, '/') + 1, u.len() as int);
    let cut = tail.subrange(0, first_stop(tail));
    if trim_spec(cut).len() == 0 || (cut.len() > 0 && cut[0] == '.') {
        None
    } else {
        let rep = replaced(cut);
        if trim_spec(rep).len() == 0 {
            None
        } else {
            Some(rep)
        }
    }
}

/// Derives a filename from a URL, as [`url_filename`] says.
pub fn sanitize_url_filename(url: &str) -> (r: Option<String>)
    ensures
        r is Some <==> url_filename(url@) is Some,
        r is Some ==> r->0@ == url_filename(url@)->0,
{
    let n = url.unicode_len();
    let slash = after_last(url, '/');
    let tail = url.substring_char(slash, n);
    let tn = tail.unicode_len();
    let mut stop: usize = 0;
    while stop < tn && tail.get_char(stop) != '?' && tail.get_char(stop) != '#'
        invariant
            0 <= stop <= tn,
            tn == tail@.len(),
            forall|k: int| 0 <= k < stop ==> tail@[k] != '?' && tail@[k] != '#',
        decreases tn - stop,
    {
        stop += 1;
    }
    proof {
        lemma_first_stop(tail@, stop as int);
    }
    let cut = tail.substring_char(0, stop);
    proof {
        assert(cut@ == url_cut(url@));
    }
    if trim_str(cut).unicode_len() == 0 {
        return None;
    }
    if cut.unicode_len() > 0 && cut.get_char(0) == '.' {
        return None;
    }
    let mut rep = String::new();
    let mut i: usize = 0;
    proof {
        assert(rep@ =~= replaced(cut@.take(0)));
    }
    while i < stop
        invariant
            0 <= i <= stop,
            stop == cut@.len(),
            rep@ == replaced(cut@.take(i as int)),
        decreases stop - i,
    {
        let c = cut.get_char(i);
        let keep: char = if c == '<' || c == '>' || c == ':' || c == '"' || c == '/' || c == '\\'
            || c == '|' || c == '?' || c == '*' || (c as u32) <= 0x1F {
            '_'
        } else {
            c
        };
        proof {
            assert(replaced(cut@.take(i as int + 1)) =~= replaced(cut@.take(i as int)).push(keep));
        }
        rep.push(keep);
        i += 1;
    }
    proof {
        assert(cut@.take(stop as int) =~= cut@);
    }
    if trim_str(rep.as_str()).unicode_len() == 0 {
        return None;
    }
    Some(rep)
}

/// The segment of a URL a filename is cut from.
pub open spec fn url_cut(u: Seq<char>) -> Seq<char> {
    let tail = u.subrange(last_index_of(u, '/') + 1, u.len() as int);
    tail.subrange(0, first_stop(tail))
}

/// The managed storage directory under an application-data directory.
pub fn get_storage_path(data_dir: &str) -> (r: String)
    ensures
        r@ == data_dir@ + "/ImageVault"@,
{
    let mut r = data_dir.to_owned();
    r.append("/ImageVault");
    r
}

/// The managed image directory under an application-data directory.
pub fn get_image_path(data_dir: &str) -> (r: String)
    ensures
        r@ == data_dir@ + "/ImageVault/Images"@,
{
    let mut r = data_dir.to_owned();
    r.append("/ImageVault/Images");
    r
}

} // verus!
