//! A model of the text operations the parsers rely on (`str::lines`,
//! `str::split_whitespace`, `str::trim`, prefix and suffix tests, search),
//! stated over `Seq<char>`, with executable versions over `Vec<char>`.
use vstd::prelude::*;

verus! {

/// `char::is_whitespace`: the Unicode `White_Space` property.
pub open spec fn is_ws(c: char) -> bool {
    let u = c as u32;
    ||| 0x09 <= u <= 0x0d
    ||| u == 0x20
    ||| u == 0x85
    ||| u == 0xa0
    ||| u == 0x1680
    ||| 0x2000 <= u <= 0x200a
    ||| u == 0x2028
    ||| u == 0x2029
    ||| u == 0x202f
    ||| u == 0x205f
    ||| u == 0x3000
}

pub fn is_whitespace(c: char) -> (b: bool)
    ensures
        b == is_ws(c),
{
    let u = c as u32;
    (0x09 <= u && u <= 0x0d) || u == 0x20 || u == 0x85 || u == 0xa0 || u == 0x1680 || (0x2000
        <= u && u <= 0x200a) || u == 0x2028 || u == 0x2029 || u == 0x202f || u == 0x205f || u
        == 0x3000
}

/// The characters of `s`, in order.
pub fn to_chars(s: &str) -> (v: Vec<char>)
    ensures
        v@ == s@,
{
    let mut v: Vec<char> = Vec::new();
    for c in it: s.chars()
        invariant
            it.seq() == s@,
            v@ == it.seq().take(it.index() as int),
    {
        v.push(c);
    }
    v
}

/// A copy of `v[lo..hi]`.
pub fn sub_chars(v: &Vec<char>, lo: usize, hi: usize) -> (r: Vec<char>)
    requires
        lo <= hi <= v.len(),
    ensures
        r@ == v@.subrange(lo as int, hi as int),
{
    let mut r: Vec<char> = Vec::new();
    let mut i = lo;
    while i < hi
        invariant
            lo <= i <= hi <= v.len(),
            r@ == v@.subrange(lo as int, i as int),
        decreases hi - i,
    {
        r.push(v[i]);
        i += 1;
    }
    r
}

/// The character sequences held by a list of character vectors.
pub open spec fn views(rows: Seq<Vec<char>>) -> Seq<Seq<char>> {
    rows.map_values(|l: Vec<char>| l@)
}

// ---------------------------------------------------------------- lines

/// Index of the first `'\n'` at or after `i`, or `s.len()` when there is none.
pub open spec fn line_end(s: Seq<char>, i: int) -> int
    decreases s.len() - i,
{
    if i < 0 || i >= s.len() {
        s.len() as int
    } else if s[i] == '\n' {
        i
    } else {
        line_end(s, i + 1)
    }
}

pub proof fn lemma_line_end(s: Seq<char>, i: int)
    requires
        0 <= i <= s.len(),
    ensures
        i <= line_end(s, i) <= s.len(),
        line_end(s, i) < s.len() ==> s[line_end(s, i)] == '\n',
        forall|k: int| i <= k < line_end(s, i) ==> s[k] != '\n',
    decreases s.len() - i,
{
    if i < s.len() && s[i] != '\n' {
        lemma_line_end(s, i + 1);
    }
}

/// A line as `str::lines` yields it: a `'\r'` right before the `'\n'` is dropped.
pub open spec fn strip_cr(l: Seq<char>) -> Seq<char> {
    if l.len() > 0 && l.last() == '\r' {
        l.drop_last()
    } else {
        l
    }
}

/// The lines of `s` from index `i` on, as `str::lines` yields them.
pub open spec fn lines_from(s: Seq<char>, i: int) -> Seq<Seq<char>>
    decreases s.len() - i,
{
    if i < 0 || i >= s.len() {
        seq![]
    } else {
        let e = line_end(s, i);
        if e >= s.len() {
            seq![s.subrange(i, s.len() as int)]
        } else if e < i {
            seq![]
        } else {
            seq![strip_cr(s.subrange(i, e))] + lines_from(s, e + 1)
        }
    }
}

/// `str::lines`: the text split at `'\n'`, with a trailing `'\r'` of a
/// terminated line removed, and no empty last line after a final `'\n'`.
pub open spec fn lines(s: Seq<char>) -> Seq<Seq<char>> {
    lines_from(s, 0)
}

/// The lines of `v`, each copied out.
pub fn split_lines(v: &Vec<char>) -> (r: Vec<Vec<char>>)
    ensures
        views(r@) == lines(v@),
        r.len() == lines(v@).len(),
        forall|k: int| 0 <= k < r.len() ==> #[trigger] r[k]@ == lines(v@)[k],
{
    let n = v.len();
    let mut r: Vec<Vec<char>> = Vec::new();
    let mut i: usize = 0;
    while i < n
        invariant
            n == v.len(),
            i <= n,
            r.len() + lines_from(v@, i as int).len() == lines(v@).len(),
            forall|k: int| 0 <= k < r.len() ==> #[trigger] r[k]@ == lines(v@)[k],
            forall|k: int|
                0 <= k < lines_from(v@, i as int).len() ==> #[trigger] lines(v@)[r.len() + k]
                    == lines_from(v@, i as int)[k],
        decreases n - i,
    {
        let mut e = i;
        while e < n && v[e] != '\n'
            invariant
                n == v.len(),
                i <= e <= n,
                line_end(v@, i as int) == line_end(v@, e as int),
            decreases n - e,
        {
            e += 1;
        }
        proof {
            lemma_line_end(v@, i as int);
        }
        let ghost rest = lines_from(v@, i as int);
        let ghost old_len = r.len();
        if e == n {
            r.push(sub_chars(v, i, e));
            assert(rest =~= seq![v@.subrange(i as int, n as int)]);
            assert(lines_from(v@, e as int) =~= seq![]);
            assert(r[old_len as int]@ == lines(v@)[old_len as int]) by {
                assert(lines(v@)[old_len + 0] == rest[0]);
            }
            i = e;
        } else {
            let mut stop = e;
            if e > i && v[e - 1] == '\r' {
                stop = e - 1;
            }
            let line = sub_chars(v, i, stop);
            assert(line@ == strip_cr(v@.subrange(i as int, e as int)));
            r.push(line);
            assert(rest =~= seq![strip_cr(v@.subrange(i as int, e as int))] + lines_from(
                v@,
                e + 1,
            ));
            assert(r[old_len as int]@ == lines(v@)[old_len as int]) by {
                assert(lines(v@)[old_len + 0] == rest[0]);
            }
            assert forall|k: int|
                0 <= k < lines_from(v@, e + 1).len() implies #[trigger] lines(v@)[r.len() + k]
                == lines_from(v@, e + 1)[k] by {
                assert(lines(v@)[old_len + (k + 1)] == rest[k + 1]);
            }
            i = e + 1;
        }
    }
    assert(views(r@) =~= lines(v@));
    r
}


// ---------------------------------------------------------------- fields

/// Index just past the run of non-whitespace characters starting at `i`.
pub open spec fn word_end(s: Seq<char>, i: int) -> int
    decreases s.len() - i,
{
    if 0 <= i < s.len() && !is_ws(s[i]) {
        word_end(s, i + 1)
    } else {
        i
    }
}

pub proof fn lemma_word_end(s: Seq<char>, i: int)
    requires
        0 <= i <= s.len(),
    ensures
        i <= word_end(s, i) <= s.len(),
        word_end(s, i) < s.len() ==> is_ws(s[word_end(s, i)]),
        forall|k: int| i <= k < word_end(s, i) ==> !is_ws(s[k]),
    decreases s.len() - i,
{
    if i < s.len() && !is_ws(s[i]) {
        lemma_word_end(s, i + 1);
    }
}

/// The whitespace-separated words of `s` from index `i` on.
pub open spec fn fields_from(s: Seq<char>, i: int) -> Seq<Seq<char>>
    decreases s.len() - i,
{
    if i < 0 || i >= s.len() {
        seq![]
    } else if is_ws(s[i]) {
        fields_from(s, i + 1)
    } else {
        let e = word_end(s, i);
        if e <= i || e > s.len() {
            seq![]
        } else {
            seq![s.subrange(i, e)] + fields_from(s, e)
        }
    }
}

/// `str::split_whitespace`: the maximal runs of non-whitespace characters.
pub open spec fn fields(s: Seq<char>) -> Seq<Seq<char>> {
    fields_from(s, 0)
}

/// The whitespace-separated words of `v`, each copied out.
pub fn split_fields(v: &Vec<char>) -> (r: Vec<Vec<char>>)
    ensures
        views(r@) == fields(v@),
        r.len() == fields(v@).len(),
        forall|k: int| 0 <= k < r.len() ==> #[trigger] r[k]@ == fields(v@)[k],
{
    let n = v.len();
    let mut r: Vec<Vec<char>> = Vec::new();
    let mut i: usize = 0;
    while i < n
        invariant
            n == v.len(),
            i <= n,
            r.len() + fields_from(v@, i as int).len() == fields(v@).len(),
            forall|k: int| 0 <= k < r.len() ==> #[trigger] r[k]@ == fields(v@)[k],
            forall|k: int|
                0 <= k < fields_from(v@, i as int).len() ==> #[trigger] fields(v@)[r.len() + k]
                    == fields_from(v@, i as int)[k],
        decreases n - i,
    {
        if is_whitespace(v[i]) {
            i += 1;
        } else {
            let mut e = i + 1;
            while e < n && !is_whitespace(v[e])
                invariant
                    n == v.len(),
                    i < e <= n,
                    word_end(v@, i as int) == word_end(v@, e as int),
                decreases n - e,
            {
                e += 1;
            }
            proof {
                lemma_word_end(v@, e as int);
            }
            let ghost rest = fields_from(v@, i as int);
            let ghost old_len = r.len();
            r.push(sub_chars(v, i, e));
            assert(rest =~= seq![v@.subrange(i as int, e as int)] + fields_from(v@, e as int));
            assert(r[old_len as int]@ == fields(v@)[old_len as int]) by {
                assert(fields(v@)[old_len + 0] == rest[0]);
            }
            assert forall|k: int|
                0 <= k < fields_from(v@, e as int).len() implies #[trigger] fields(v@)[r.len() + k]
                == fields_from(v@, e as int)[k] by {
                assert(fields(v@)[old_len + (k + 1)] == rest[k + 1]);
            }
            i = e;
        }
    }
    assert(views(r@) =~= fields(v@));
    r
}

// ---------------------------------------------------------------- trimming

/// `str::trim_start`.
pub open spec fn trim_start(s: Seq<char>) -> Seq<char>
    decreases s.len(),
{
    if s.len() > 0 && is_ws(s[0]) {
        trim_start(s.drop_first())
    } else {
        s
    }
}

/// `str::trim_end`.
pub open spec fn trim_end(s: Seq<char>) -> Seq<char>
    decreases s.len(),
{
    if s.len() > 0 && is_ws(s.last()) {
        trim_end(s.drop_last())
    } else {
        s
    }
}

/// `str::trim`: whitespace removed from both ends.
pub open spec fn trim(s: Seq<char>) -> Seq<char> {
    trim_end(trim_start(s))
}

pub fn trim_start_chars(v: &Vec<char>) -> (r: Vec<char>)
    ensures
        r@ == trim_start(v@),
{
    let n = v.len();
    let mut i: usize = 0;
    assert(v@.subrange(0, n as int) =~= v@);
    while i < n && is_whitespace(v[i])
        invariant
            n == v.len(),
            i <= n,
            trim_start(v@) == trim_start(v@.subrange(i as int, n as int)),
        decreases n - i,
    {
        assert(v@.subrange(i as int, n as int).drop_first() =~= v@.subrange(i + 1, n as int));
        i += 1;
    }
    sub_chars(v, i, n)
}

pub fn trim_end_chars(v: &Vec<char>) -> (r: Vec<char>)
    ensures
        r@ == trim_end(v@),
{
    let mut j: usize = v.len();
    assert(v@.subrange(0, j as int) =~= v@);
    while j > 0 && is_whitespace(v[j - 1])
        invariant
            j <= v.len(),
            trim_end(v@) == trim_end(v@.subrange(0, j as int)),
        decreases j,
    {
        assert(v@.subrange(0, j as int).drop_last() =~= v@.subrange(0, j - 1));
        j -= 1;
    }
    sub_chars(v, 0, j)
}

pub fn trim_chars(v: &Vec<char>) -> (r: Vec<char>)
    ensures
        r@ == trim(v@),
{
    let t = trim_start_chars(v);
    trim_end_chars(&t)
}

// ---------------------------------------------------------------- comparing

pub fn chars_equal(a: &Vec<char>, b: &Vec<char>) -> (r: bool)
    ensures
        r == (a@ == b@),
{
    if a.len() != b.len() {
        return false;
    }
    let mut i: usize = 0;
    while i < a.len()
        invariant
            a.len() == b.len(),
            i <= a.len(),
            a@.take(i as int) == b@.take(i as int),
        decreases a.len() - i,
    {
        if a[i] != b[i] {
            return false;
        }
        assert(a@.take(i + 1) =~= a@.take(i as int).push(a[i as int]));
        assert(b@.take(i + 1) =~= b@.take(i as int).push(b[i as int]));
        i += 1;
    }
    assert(a@ =~= a@.take(i as int));
    assert(b@ =~= b@.take(i as int));
    true
}

/// Does `s` match `p` at position `i`?
pub open spec fn matches_at(s: Seq<char>, p: Seq<char>, i: int) -> bool {
    0 <= i && i + p.len() <= s.len() && s.subrange(i, i + p.len()) == p
}

/// `str::starts_with`.
pub open spec fn starts_with(s: Seq<char>, p: Seq<char>) -> bool {
    matches_at(s, p, 0)
}

/// `str::ends_with`.
pub open spec fn ends_with(s: Seq<char>, p: Seq<char>) -> bool {
    matches_at(s, p, s.len() - p.len())
}

/// The first position at or after `i` at which `p` occurs in `s`.
pub open spec fn find_from(s: Seq<char>, p: Seq<char>, i: int) -> Option<int>
    decreases s.len() + 1 - i,
{
    if i < 0 || i + p.len() > s.len() {
        None
    } else if matches_at(s, p, i) {
        Some(i)
    } else {
        find_from(s, p, i + 1)
    }
}

/// `str::find`: the first position at which `p` occurs in `s`.
pub open spec fn find(s: Seq<char>, p: Seq<char>) -> Option<int> {
    find_from(s, p, 0)
}

/// `str::contains`.
pub open spec fn contains(s: Seq<char>, p: Seq<char>) -> bool {
    find(s, p) is Some
}

pub proof fn lemma_find_from(s: Seq<char>, p: Seq<char>, i: int)
    requires
        0 <= i,
    ensures
        find_from(s, p, i) matches Some(k) ==> i <= k && k + p.len() <= s.len() && matches_at(
            s,
            p,
            k,
        ) && forall|j: int| i <= j < k ==> !matches_at(s, p, j),
        find_from(s, p, i) is None ==> forall|j: int| i <= j ==> !matches_at(s, p, j),
    decreases s.len() + 1 - i,
{
    if i + p.len() <= s.len() && !matches_at(s, p, i) {
        lemma_find_from(s, p, i + 1);
    }
}

pub fn matches_at_exec(s: &Vec<char>, p: &Vec<char>, i: usize) -> (r: bool)
    ensures
        r == matches_at(s@, p@, i as int),
{
    if i > s.len() || p.len() > s.len() - i {
        return false;
    }
    let mut k: usize = 0;
    while k < p.len()
        invariant
            i + p.len() <= s.len(),
            k <= p.len(),
            s@.subrange(i as int, i + k) == p@.take(k as int),
        decreases p.len() - k,
    {
        if s[i + k] != p[k] {
            assert(s@.subrange(i as int, i + p.len())[k as int] != p@[k as int]);
            return false;
        }
        assert(s@.subrange(i as int, i + k + 1) =~= s@.subrange(i as int, i + k).push(s[i + k]));
        assert(p@.take(k + 1) =~= p@.take(k as int).push(p[k as int]));
        k += 1;
    }
    assert(p@ =~= p@.take(k as int));
    true
}

pub fn starts_with_exec(s: &Vec<char>, p: &Vec<char>) -> (r: bool)
    ensures
        r == starts_with(s@, p@),
{
    matches_at_exec(s, p, 0)
}

pub fn ends_with_exec(s: &Vec<char>, p: &Vec<char>) -> (r: bool)
    ensures
        r == ends_with(s@, p@),
{
    if p.len() > s.len() {
        return false;
    }
    matches_at_exec(s, p, s.len() - p.len())
}

/// The first position at which `p` occurs in `s`.
pub fn find_exec(s: &Vec<char>, p: &Vec<char>) -> (r: Option<usize>)
    ensures
        match r {
            Some(i) => find(s@, p@) == Some(i as int),
            None => find(s@, p@) is None,
        },
{
    if p.len() > s.len() {
        return None;
    }
    let last = s.len() - p.len();
    let mut i: usize = 0;
    loop
        invariant
            i <= last,
            last == s.len() - p.len(),
            find(s@, p@) == find_from(s@, p@, i as int),
        decreases last - i,
    {
        if matches_at_exec(s, p, i) {
            return Some(i);
        }
        if i == last {
            assert(find_from(s@, p@, i + 1) is None);
            return None;
        }
        i += 1;
    }
}

pub fn contains_exec(s: &Vec<char>, p: &Vec<char>) -> (r: bool)
    ensures
        r == contains(s@, p@),
{
    match find_exec(s, p) {
        Some(_) => true,
        None => false,
    }
}


// ---------------------------------------------------------------- rewriting

/// `s.replace(p, "")` for a non-empty `p`: every occurrence of `p`, found
/// left to right without overlap, removed.
pub open spec fn remove_all(s: Seq<char>, p: Seq<char>) -> Seq<char>
    decreases s.len(),
{
    if s.len() == 0 || p.len() == 0 {
        s
    } else if starts_with(s, p) {
        remove_all(s.skip(p.len() as int), p)
    } else {
        seq![s[0]] + remove_all(s.drop_first(), p)
    }
}

pub fn remove_all_exec(v: &Vec<char>, p: &Vec<char>) -> (r: Vec<char>)
    ensures
        r@ == remove_all(v@, p@),
{
    let n = v.len();
    if p.len() == 0 {
        assert(remove_all(v@, p@) == v@);
        return sub_chars(v, 0, n);
    }
    let mut r: Vec<char> = Vec::new();
    let mut i: usize = 0;
    assert(v@.subrange(0, n as int) =~= v@);
    while i < n
        invariant
            n == v.len(),
            i <= n,
            p.len() > 0,
            remove_all(v@, p@) == r@ + remove_all(v@.subrange(i as int, n as int), p@),
        decreases n - i,
    {
        let ghost t = v@.subrange(i as int, n as int);
        if matches_at_exec(v, p, i) {
            assert(starts_with(t, p@)) by {
                assert(t.subrange(0, p.len() as int) =~= v@.subrange(i as int, i + p.len()));
            }
            assert(t.skip(p.len() as int) =~= v@.subrange(i + p.len(), n as int));
            i = i + p.len();
        } else {
            assert(!starts_with(t, p@)) by {
                if p.len() <= t.len() {
                    assert(t.subrange(0, p.len() as int) =~= v@.subrange(i as int, i + p.len()));
                }
            }
            assert(t.drop_first() =~= v@.subrange(i + 1, n as int));
            assert(r@ + (seq![t[0]] + remove_all(t.drop_first(), p@)) =~= r@.push(v[i as int])
                + remove_all(t.drop_first(), p@));
            r.push(v[i]);
            i += 1;
        }
    }
    assert(v@.subrange(n as int, n as int) =~= Seq::<char>::empty());
    assert(r@ + Seq::<char>::empty() =~= r@);
    r
}

/// `str::trim_end_matches(p)` for a non-empty `p`: `p` removed from the end
/// for as long as the text ends with it.
pub open spec fn strip_suffix_all(s: Seq<char>, p: Seq<char>) -> Seq<char>
    decreases s.len(),
{
    if p.len() > 0 && ends_with(s, p) {
        strip_suffix_all(s.take(s.len() - p.len()), p)
    } else {
        s
    }
}

pub fn strip_suffix_all_exec(v: &Vec<char>, p: &Vec<char>) -> (r: Vec<char>)
    ensures
        r@ == strip_suffix_all(v@, p@),
{
    if p.len() == 0 {
        return sub_chars(v, 0, v.len());
    }
    let mut cur = sub_chars(v, 0, v.len());
    assert(cur@ =~= v@);
    while ends_with_exec(&cur, p)
        invariant
            p.len() > 0,
            strip_suffix_all(v@, p@) == strip_suffix_all(cur@, p@),
        decreases cur.len(),
    {
        let cut = cur.len() - p.len();
        cur = sub_chars(&cur, 0, cut);
    }
    cur
}

/// The part of `s` before the first occurrence of `p`, or all of `s` when
/// `p` does not occur (the first item of `str::split(p)`).
pub open spec fn before(s: Seq<char>, p: Seq<char>) -> Seq<char> {
    match find(s, p) {
        Some(i) => s.take(i),
        None => s,
    }
}

pub fn before_exec(v: &Vec<char>, p: &Vec<char>) -> (r: Vec<char>)
    ensures
        r@ == before(v@, p@),
{
    proof {
        lemma_find_from(v@, p@, 0);
    }
    match find_exec(v, p) {
        Some(i) => sub_chars(v, 0, i),
        None => sub_chars(v, 0, v.len()),
    }
}

// ---------------------------------------------------------------- characters

/// Does the character `c` occur in `s`?
pub open spec fn has_char(s: Seq<char>, c: char) -> bool {
    exists|i: int| 0 <= i < s.len() && s[i] == c
}

pub fn has_char_exec(v: &Vec<char>, c: char) -> (r: bool)
    ensures
        r == has_char(v@, c),
{
    let mut i: usize = 0;
    while i < v.len()
        invariant
            i <= v.len(),
            forall|j: int| 0 <= j < i ==> v@[j] != c,
        decreases v.len() - i,
    {
        if v[i] == c {
            return true;
        }
        i += 1;
    }
    false
}

/// Index of the first `c` at or after `i`, or `s.len()` when there is none.
pub open spec fn char_pos(s: Seq<char>, c: char, i: int) -> int
    decreases s.len() - i,
{
    if i < 0 || i >= s.len() {
        s.len() as int
    } else if s[i] == c {
        i
    } else {
        char_pos(s, c, i + 1)
    }
}

pub proof fn lemma_char_pos(s: Seq<char>, c: char, i: int)
    requires
        0 <= i <= s.len(),
    ensures
        i <= char_pos(s, c, i) <= s.len(),
        char_pos(s, c, i) < s.len() ==> s[char_pos(s, c, i)] == c,
        forall|k: int| i <= k < char_pos(s, c, i) ==> s[k] != c,
    decreases s.len() - i,
{
    if i < s.len() && s[i] != c {
        lemma_char_pos(s, c, i + 1);
    }
}

/// The pieces of `s` from index `i` on between occurrences of `c`.
pub open spec fn split_on_from(s: Seq<char>, c: char, i: int) -> Seq<Seq<char>>
    decreases s.len() + 1 - i,
{
    if i < 0 || i > s.len() {
        seq![]
    } else {
        let e = char_pos(s, c, i);
        if e >= s.len() {
            seq![s.subrange(i, s.len() as int)]
        } else if e < i {
            seq![]
        } else {
            seq![s.subrange(i, e)] + split_on_from(s, c, e + 1)
        }
    }
}

/// `str::split(c)`: the pieces of `s` between occurrences of `c`, empty
/// pieces included.
pub open spec fn split_on(s: Seq<char>, c: char) -> Seq<Seq<char>> {
    split_on_from(s, c, 0)
}

pub fn split_on_exec(v: &Vec<char>, c: char) -> (r: Vec<Vec<char>>)
    ensures
        views(r@) == split_on(v@, c),
        r.len() == split_on(v@, c).len(),
        forall|k: int| 0 <= k < r.len() ==> #[trigger] r[k]@ == split_on(v@, c)[k],
{
    let n = v.len();
    let mut r: Vec<Vec<char>> = Vec::new();
    let mut i: usize = 0;
    loop
        invariant
            n == v.len(),
            i <= n,
            r.len() + split_on_from(v@, c, i as int).len() == split_on(v@, c).len(),
            forall|k: int| 0 <= k < r.len() ==> #[trigger] r[k]@ == split_on(v@, c)[k],
            forall|k: int|
                0 <= k < split_on_from(v@, c, i as int).len() ==> #[trigger] split_on(v@, c)[r.len()
                    + k] == split_on_from(v@, c, i as int)[k],
        decreases n - i,
    {
        let mut e = i;
        while e < n && v[e] != c
            invariant
                n == v.len(),
                i <= e <= n,
                char_pos(v@, c, i as int) == char_pos(v@, c, e as int),
            decreases n - e,
        {
            e += 1;
        }
        proof {
            lemma_char_pos(v@, c, i as int);
        }
        let ghost rest = split_on_from(v@, c, i as int);
        let ghost old_len = r.len();
        r.push(sub_chars(v, i, e));
        if e == n {
            assert(rest =~= seq![v@.subrange(i as int, n as int)]);
            assert(r[old_len as int]@ == split_on(v@, c)[old_len as int]) by {
                assert(split_on(v@, c)[old_len + 0] == rest[0]);
            }
            assert(r.len() == split_on(v@, c).len());
            assert(views(r@) =~= split_on(v@, c));
            return r;
        }
        assert(rest =~= seq![v@.subrange(i as int, e as int)] + split_on_from(v@, c, e + 1));
        assert(r[old_len as int]@ == split_on(v@, c)[old_len as int]) by {
            assert(split_on(v@, c)[old_len + 0] == rest[0]);
        }
        assert forall|k: int|
            0 <= k < split_on_from(v@, c, e + 1).len() implies #[trigger] split_on(v@, c)[r.len()
            + k] == split_on_from(v@, c, e + 1)[k] by {
            assert(split_on(v@, c)[old_len + (k + 1)] == rest[k + 1]);
        }
        i = e + 1;
    }
}

/// ASCII lowercase of one character (`char::to_ascii_lowercase`).
pub open spec fn ascii_lower(c: char) -> char {
    if 0x41 <= (c as u32) <= 0x5a {
        ((c as u32) + 32) as char
    } else {
        c
    }
}

/// `str::eq_ignore_ascii_case`: equal once ASCII letters are folded to one case.
pub open spec fn eq_ignore_ascii_case(a: Seq<char>, b: Seq<char>) -> bool {
    a.len() == b.len() && forall|i: int| 0 <= i < a.len() ==> ascii_lower(a[i]) == ascii_lower(b[i])
}

fn ascii_lower_exec(c: char) -> (r: u32)
    ensures
        r == ascii_lower(c) as u32,
{
    let u = c as u32;
    if 0x41 <= u && u <= 0x5a {
        assert(((u + 32) as char) as u32 == u + 32);
        u + 32
    } else {
        u
    }
}

pub fn eq_ignore_ascii_case_exec(a: &Vec<char>, b: &Vec<char>) -> (r: bool)
    ensures
        r == eq_ignore_ascii_case(a@, b@),
{
    if a.len() != b.len() {
        return false;
    }
    let mut i: usize = 0;
    while i < a.len()
        invariant
            a.len() == b.len(),
            i <= a.len(),
            forall|j: int| 0 <= j < i ==> ascii_lower(a@[j]) == ascii_lower(b@[j]),
        decreases a.len() - i,
    {
        if ascii_lower_exec(a[i]) != ascii_lower_exec(b[i]) {
            return false;
        }
        i += 1;
    }
    true
}


// ---------------------------------------------------------------- scanning lines

/// Index of the first line at or after `i` that starts with `p`.
pub open spec fn first_with_prefix_from(ls: Seq<Seq<char>>, p: Seq<char>, i: int) -> Option<int>
    decreases ls.len() - i,
{
    if i < 0 || i >= ls.len() {
        None
    } else if starts_with(ls[i], p) {
        Some(i)
    } else {
        first_with_prefix_from(ls, p, i + 1)
    }
}

/// The first line that starts with `p`.
pub open spec fn first_with_prefix(ls: Seq<Seq<char>>, p: Seq<char>) -> Option<Seq<char>> {
    match first_with_prefix_from(ls, p, 0) {
        Some(i) => Some(ls[i]),
        None => None,
    }
}

pub proof fn lemma_first_with_prefix_from(ls: Seq<Seq<char>>, p: Seq<char>, i: int)
    requires
        0 <= i,
    ensures
        first_with_prefix_from(ls, p, i) matches Some(k) ==> i <= k < ls.len() && starts_with(
            ls[k],
            p,
        ),
    decreases ls.len() - i,
{
    if i < ls.len() && !starts_with(ls[i], p) {
        lemma_first_with_prefix_from(ls, p, i + 1);
    }
}

/// The first of `rows` that starts with `p`.
pub fn first_with_prefix_exec(rows: &Vec<Vec<char>>, p: &Vec<char>) -> (r: Option<usize>)
    ensures
        r matches Some(k) ==> k < rows.len(),
        first_with_prefix_from(views(rows@), p@, 0) == match r {
            Some(k) => Some(k as int),
            None => None::<int>,
        },
{
    let ghost ls = views(rows@);
    let mut i: usize = 0;
    while i < rows.len()
        invariant
            i <= rows.len(),
            ls == views(rows@),
            first_with_prefix_from(ls, p@, 0) == first_with_prefix_from(ls, p@, i as int),
        decreases rows.len() - i,
    {
        assert(ls[i as int] == rows@[i as int]@);
        if starts_with_exec(&rows[i], p) {
            return Some(i);
        }
        i += 1;
    }
    None
}


/// The texts held by a list of strings.
pub open spec fn string_views(v: Seq<String>) -> Seq<Seq<char>> {
    v.map_values(|s: String| s@)
}

/// `a` followed by `b`.
pub fn concat_chars(a: &Vec<char>, b: &Vec<char>) -> (r: Vec<char>)
    ensures
        r@ == a@ + b@,
{
    let mut r = sub_chars(a, 0, a.len());
    let mut i: usize = 0;
    while i < b.len()
        invariant
            i <= b.len(),
            r@ == a@ + b@.take(i as int),
        decreases b.len() - i,
    {
        r.push(b[i]);
        assert(b@.take(i + 1) =~= b@.take(i as int).push(b[i as int]));
        assert(a@ + b@.take(i + 1) =~= (a@ + b@.take(i as int)).push(b[i as int]));
        i += 1;
    }
    assert(b@.take(i as int) =~= b@);
    r
}

/// The part of `v` from `start` on.
pub fn skip_chars(v: &Vec<char>, start: usize) -> (r: Vec<char>)
    requires
        start <= v.len(),
    ensures
        r@ == v@.skip(start as int),
{
    sub_chars(v, start, v.len())
}


/// The trimmed text, or `default` when nothing is left after trimming.
pub open spec fn trimmed_or(s: Seq<char>, default: Seq<char>) -> Seq<char> {
    if trim(s).len() == 0 {
        default
    } else {
        trim(s)
    }
}

pub fn trimmed_or_exec(s: &str, default: &str) -> (r: String)
    ensures
        r@ == trimmed_or(s@, default@),
{
    let t = trim_chars(&to_chars(s));
    if t.len() == 0 {
        default.to_owned()
    } else {
        crate::strings::chars_to_string(&t)
    }
}

/// The number of ASCII digits at the start of `s` from `i` on.
pub open spec fn digit_run_end(s: Seq<char>, i: int) -> int
    decreases s.len() - i,
{
    if 0 <= i < s.len() && crate::numbers::is_digit(s[i]) {
        digit_run_end(s, i + 1)
    } else {
        i
    }
}

/// The ASCII digits at the start of `s` (`chars().take_while(is_ascii_digit)`).
pub open spec fn leading_digits(s: Seq<char>) -> Seq<char> {
    s.take(digit_run_end(s, 0))
}

pub fn leading_digits_exec(v: &Vec<char>) -> (r: Vec<char>)
    ensures
        r@ == leading_digits(v@),
{
    let mut i: usize = 0;
    while i < v.len() && (v[i] as u32) >= 0x30 && (v[i] as u32) <= 0x39
        invariant
            i <= v.len(),
            digit_run_end(v@, 0) == digit_run_end(v@, i as int),
        decreases v.len() - i,
    {
        i += 1;
    }
    sub_chars(v, 0, i)
}

} // verus!
