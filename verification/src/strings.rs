//! The standard-library string operations that `vstd` leaves unspecified,
//! and the owned-string building built on them.
use vstd::prelude::*;

verus! {

/// `String::push` appends one character: the new contents are the old ones
/// followed by `ch`.
pub assume_specification[ String::push ](s: &mut String, ch: char)
    ensures
        final(s)@ == old(s)@.push(ch),
;

/// What `str::to_lowercase` returns for a given text: its lowercase form
/// under Unicode's case mapping, as `str::to_lowercase` returns it (one
/// character may map to several, and a capital sigma maps according to
/// its context).
pub uninterp spec fn lowercase(s: Seq<char>) -> Seq<char>;

/// `str::to_lowercase` returns the lowercase mapping of its argument; the
/// mapping itself (Unicode's case tables) is left unstated.
pub assume_specification[ str::to_lowercase ](s: &str) -> (r: String)
    ensures
        r@ == lowercase(s@),
;

/// A new string holding the characters of `v`.
pub fn chars_to_string(v: &Vec<char>) -> (s: String)
    ensures
        s@ == v@,
{
    let mut s = String::new();
    let mut i: usize = 0;
    while i < v.len()
        invariant
            i <= v.len(),
            s@ == v@.take(i as int),
        decreases v.len() - i,
    {
        s.push(v[i]);
        assert(v@.take(i + 1) =~= v@.take(i as int).push(v[i as int]));
        i += 1;
    }
    assert(v@.take(i as int) =~= v@);
    s
}

/// The lowercase form of `s`, as characters.
pub fn lowercase_chars(s: &str) -> (v: Vec<char>)
    ensures
        v@ == lowercase(s@),
{
    let l = s.to_lowercase();
    crate::text::to_chars(l.as_str())
}

} // verus!
