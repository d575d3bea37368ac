//! Lists of names shown to the user: the case-insensitive ordering and the
//! removal of repeated entries that the installed-application lists use.
use vstd::prelude::*;
use crate::strings::{lowercase, lowercase_chars};
use crate::text::{eq_ignore_ascii_case, eq_ignore_ascii_case_exec};

verus! {

/// Lexicographic order on characters by code point. This is the order
/// `String`'s `Ord` gives, which compares UTF-8 bytes: UTF-8 keeps the
/// order of code points.
pub open spec fn lex_le(a: Seq<char>, b: Seq<char>) -> bool
    decreases a.len(),
{
    if a.len() == 0 {
        true
    } else if b.len() == 0 {
        false
    } else if a[0] != b[0] {
        (a[0] as int) < (b[0] as int)
    } else {
        lex_le(a.drop_first(), b.drop_first())
    }
}

pub proof fn lemma_lex_le_total(a: Seq<char>, b: Seq<char>)
    ensures
        lex_le(a, b) || lex_le(b, a),
    decreases a.len(),
{
    if a.len() > 0 && b.len() > 0 && a[0] == b[0] {
        lemma_lex_le_total(a.drop_first(), b.drop_first());
    } else if a.len() > 0 && b.len() > 0 {
        assert((a[0] as int) != (b[0] as int));
    }
}

pub proof fn lemma_lex_le_trans(a: Seq<char>, b: Seq<char>, c: Seq<char>)
    requires
        lex_le(a, b),
        lex_le(b, c),
    ensures
        lex_le(a, c),
    decreases a.len(),
{
    if a.len() > 0 && b.len() > 0 && c.len() > 0 && a[0] == b[0] && b[0] == c[0] {
        lemma_lex_le_trans(a.drop_first(), b.drop_first(), c.drop_first());
    }
}

pub fn lex_le_exec(a: &Vec<char>, b: &Vec<char>) -> (r: bool)
    ensures
        r == lex_le(a@, b@),
{
    let mut k: usize = 0;
    assert(a@.skip(0) =~= a@);
    assert(b@.skip(0) =~= b@);
    while k < a.len()
        invariant
            k <= a.len(),
            k <= b.len(),
            lex_le(a@, b@) == lex_le(a@.skip(k as int), b@.skip(k as int)),
        decreases a.len() - k,
    {
        if k >= b.len() {
            return false;
        }
        if a[k] != b[k] {
            return a[k] < b[k];
        }
        assert(a@.skip(k as int).drop_first() =~= a@.skip(k + 1));
        assert(b@.skip(k as int).drop_first() =~= b@.skip(k + 1));
        k += 1;
    }
    true
}

/// Some position of `p` holds `t`.
pub open spec fn hits(p: Seq<int>, t: int) -> bool {
    exists|i: int| 0 <= i < p.len() && p[i] == t
}

/// `p` takes each position of `out` to the position of `items` its entry
/// came from: a one-to-one map under which `out` is ordered by the keys,
/// entries with equal keys keeping their order in `items`.
pub open spec fn is_sort_permutation(
    p: Seq<int>,
    out: Seq<String>,
    items: Seq<String>,
    keys: Seq<Seq<char>>,
) -> bool {
    &&& p.len() == out.len()
    &&& out.len() == items.len()
    &&& forall|i: int| 0 <= i < p.len() ==> 0 <= #[trigger] p[i] < items.len()
    &&& forall|i: int| 0 <= i < p.len() ==> out[i] == items[#[trigger] p[i]]
    &&& forall|i: int, j: int| 0 <= i < j < p.len() ==> #[trigger] p[i] != #[trigger] p[j]
    &&& forall|t: int| 0 <= t < items.len() ==> #[trigger] hits(p, t)
    &&& forall|i: int, j: int|
        0 <= i < j < p.len() ==> lex_le(keys[#[trigger] p[i]], keys[#[trigger] p[j]])
    &&& forall|i: int, j: int|
        0 <= i < j < p.len() && keys[#[trigger] p[i]] == keys[#[trigger] p[j]] ==> p[i] < p[j]
}

/// `out` is `items` sorted stably by `keys` (the key of `items[i]` being
/// `keys[i]`), as `sort_by` on the keys would order it.
pub open spec fn stable_sorted_by(out: Seq<String>, items: Seq<String>, keys: Seq<Seq<char>>) -> bool {
    exists|p: Seq<int>| is_sort_permutation(p, out, items, keys)
}

/// The entries of `items` sorted stably by `keys`.
pub fn sort_by_keys(items: &Vec<String>, keys: &Vec<Vec<char>>) -> (out: Vec<String>)
    requires
        keys.len() == items.len(),
    ensures
        stable_sorted_by(out@, items@, keys@.map_values(|k: Vec<char>| k@)),
{
    let ghost kv = keys@.map_values(|k: Vec<char>| k@);
    let n = items.len();
    let mut out: Vec<String> = Vec::new();
    let mut out_keys: Vec<Vec<char>> = Vec::new();
    let ghost mut p: Seq<int> = Seq::empty();
    let mut i: usize = 0;
    while i < n
        invariant
            n == items.len(),
            n == keys.len(),
            kv == keys@.map_values(|k: Vec<char>| k@),
            i <= n,
            p.len() == i,
            out.len() == i,
            out_keys.len() == i,
            forall|a: int| 0 <= a < i ==> 0 <= #[trigger] p[a] < i,
            forall|a: int| 0 <= a < i ==> out@[a] == items@[#[trigger] p[a]],
            forall|a: int| 0 <= a < i ==> #[trigger] out_keys@[a]@ == kv[p[a]],
            forall|a: int, b: int| 0 <= a < b < i ==> #[trigger] p[a] != #[trigger] p[b],
            forall|t: int| 0 <= t < i ==> #[trigger] hits(p, t),
            forall|a: int, b: int|
                0 <= a < b < i ==> lex_le(kv[#[trigger] p[a]], kv[#[trigger] p[b]]),
            forall|a: int, b: int|
                0 <= a < b < i && kv[#[trigger] p[a]] == kv[#[trigger] p[b]] ==> p[a] < p[b],
        decreases n - i,
    {
        let key = &keys[i];
        assert(key@ == kv[i as int]);
        let mut pos: usize = 0;
        while pos < out_keys.len() && lex_le_exec(&out_keys[pos], key)
            invariant
                pos <= out_keys.len(),
                out_keys.len() == i,
                key@ == kv[i as int],
                forall|a: int| 0 <= a < i ==> #[trigger] out_keys@[a]@ == kv[p[a]],
                forall|a: int| 0 <= a < pos ==> lex_le(kv[#[trigger] p[a]], kv[i as int]),
            decreases out_keys.len() - pos,
        {
            pos += 1;
        }
        proof {
            if pos < i {
                assert(!lex_le(kv[p[pos as int]], kv[i as int]));
                lemma_lex_le_total(kv[p[pos as int]], kv[i as int]);
                assert forall|b: int| pos <= b < i implies lex_le(kv[i as int], kv[#[trigger] p[b]])
                    && kv[i as int] != kv[p[b]] by {
                    if b > pos {
                        lemma_lex_le_trans(kv[i as int], kv[p[pos as int]], kv[p[b]]);
                        if kv[i as int] == kv[p[b]] {
                            assert(lex_le(kv[p[pos as int]], kv[i as int]));
                        }
                    }
                }
            }
        }
        let ghost old_p = p;
        out.insert(pos, items[i].clone());
        out_keys.insert(pos, keys[i].clone());
        proof {
            p = p.insert(pos as int, i as int);
            assert forall|a: int| 0 <= a < i + 1 implies #[trigger] out_keys@[a]@ == kv[p[a]] by {
                if a < pos {
                } else if a == pos {
                } else {
                    assert(p[a] == old_p[a - 1]);
                }
            }
            assert forall|a: int, b: int| 0 <= a < b < i + 1 implies lex_le(
                kv[#[trigger] p[a]],
                kv[#[trigger] p[b]],
            ) by {
                if a == pos {
                    assert(p[b] == old_p[b - 1]);
                } else if b == pos {
                    assert(p[a] == old_p[a]);
                } else if a < pos && b < pos {
                    assert(p[a] == old_p[a] && p[b] == old_p[b]);
                } else if a < pos && b > pos {
                    assert(p[a] == old_p[a] && p[b] == old_p[b - 1]);
                } else {
                    assert(p[a] == old_p[a - 1] && p[b] == old_p[b - 1]);
                }
            }
            assert forall|a: int, b: int|
                0 <= a < b < i + 1 && kv[#[trigger] p[a]] == kv[#[trigger] p[b]] implies p[a]
                < p[b] by {
                if a == pos {
                    assert(p[b] == old_p[b - 1]);
                    assert(kv[i as int] != kv[old_p[b - 1]]);
                } else if b == pos {
                    assert(p[a] == old_p[a]);
                } else if a < pos && b < pos {
                    assert(p[a] == old_p[a] && p[b] == old_p[b]);
                } else if a < pos && b > pos {
                    assert(p[a] == old_p[a] && p[b] == old_p[b - 1]);
                } else {
                    assert(p[a] == old_p[a - 1] && p[b] == old_p[b - 1]);
                }
            }
            assert forall|a: int, b: int| 0 <= a < b < i + 1 implies #[trigger] p[a]
                != #[trigger] p[b] by {
                if a == pos {
                    assert(p[b] == old_p[b - 1]);
                } else if b == pos {
                    assert(p[a] == old_p[a]);
                } else if a < pos && b < pos {
                    assert(p[a] == old_p[a] && p[b] == old_p[b]);
                } else if a < pos && b > pos {
                    assert(p[a] == old_p[a] && p[b] == old_p[b - 1]);
                } else {
                    assert(p[a] == old_p[a - 1] && p[b] == old_p[b - 1]);
                }
            }
            assert forall|t: int| 0 <= t < i + 1 implies #[trigger] hits(p, t) by {
                if t == i {
                    assert(p[pos as int] == t);
                } else {
                    assert(hits(old_p, t));
                    let a = choose|a: int| 0 <= a < old_p.len() && old_p[a] == t;
                    if a < pos {
                        assert(p[a] == t);
                    } else {
                        assert(p[a + 1] == t);
                    }
                }
            }
            assert forall|a: int| 0 <= a < i + 1 implies 0 <= #[trigger] p[a] < i + 1
                && out@[a] == items@[p[a]] by {
                if a < pos {
                } else if a == pos {
                } else {
                    assert(p[a] == old_p[a - 1]);
                }
            }
        }
        i += 1;
    }
    assert(is_sort_permutation(p, out@, items@, kv));
    out
}


/// `items` sorted stably by their lowercase forms (`sort_by` comparing
/// `to_lowercase()` of both sides).
pub fn sort_case_insensitive(items: &Vec<String>) -> (out: Vec<String>)
    ensures
        stable_sorted_by(out@, items@, lowercase_keys(items@)),
{
    let mut keys: Vec<Vec<char>> = Vec::new();
    let mut i: usize = 0;
    while i < items.len()
        invariant
            i <= items.len(),
            keys.len() == i,
            forall|k: int| 0 <= k < i ==> #[trigger] keys@[k]@ == lowercase(items@[k]@),
        decreases items.len() - i,
    {
        keys.push(lowercase_chars(items[i].as_str()));
        i += 1;
    }
    assert(keys@.map_values(|k: Vec<char>| k@) =~= lowercase_keys(items@));
    sort_by_keys(items, &keys)
}

/// The non-empty entries of `names`, each kept only when no entry kept
/// before it is `same` as it.
pub open spec fn first_of_each(
    names: Seq<String>,
    same: spec_fn(Seq<char>, Seq<char>) -> bool,
) -> Seq<String>
    decreases names.len(),
{
    if names.len() == 0 {
        seq![]
    } else {
        let prev = first_of_each(names.drop_last(), same);
        let n = names.last();
        if n@.len() > 0 && !(exists|k: int| 0 <= k < prev.len() && same(prev[k]@, n@)) {
            prev.push(n)
        } else {
            prev
        }
    }
}

/// Equal ignoring ASCII case.
pub open spec fn same_ignoring_ascii_case() -> spec_fn(Seq<char>, Seq<char>) -> bool {
    |a: Seq<char>, b: Seq<char>| eq_ignore_ascii_case(a, b)
}

/// Equal.
pub open spec fn same_text() -> spec_fn(Seq<char>, Seq<char>) -> bool {
    |a: Seq<char>, b: Seq<char>| a == b
}

/// Equal once both are lowercased.
pub open spec fn same_lowercase() -> spec_fn(Seq<char>, Seq<char>) -> bool {
    |a: Seq<char>, b: Seq<char>| lowercase(a) == lowercase(b)
}

/// The non-empty names, dropping each that equals an earlier kept one
/// ignoring ASCII case (`eq_ignore_ascii_case`).
pub fn keep_first_ignoring_ascii_case(names: &Vec<String>) -> (kept: Vec<String>)
    ensures
        kept@ == first_of_each(names@, same_ignoring_ascii_case()),
{
    let mut kept: Vec<String> = Vec::new();
    let mut kept_chars: Vec<Vec<char>> = Vec::new();
    let mut i: usize = 0;
    while i < names.len()
        invariant
            i <= names.len(),
            kept.len() == kept_chars.len(),
            forall|k: int| 0 <= k < kept.len() ==> #[trigger] kept_chars@[k]@ == kept@[k]@,
            kept@ == first_of_each(names@.take(i as int), same_ignoring_ascii_case()),
        decreases names.len() - i,
    {
        assert(names@.take(i + 1).drop_last() =~= names@.take(i as int));
        let cand = crate::text::to_chars(names[i].as_str());
        if cand.len() > 0 {
            let mut j: usize = 0;
            let mut seen = false;
            while j < kept_chars.len()
                invariant
                    j <= kept_chars.len(),
                    kept.len() == kept_chars.len(),
                    forall|k: int| 0 <= k < kept.len() ==> #[trigger] kept_chars@[k]@ == kept@[k]@,
                    seen == exists|k: int| 0 <= k < j && same_ignoring_ascii_case()(kept@[k]@, cand@),
                decreases kept_chars.len() - j,
            {
                let m = eq_ignore_ascii_case_exec(&kept_chars[j], &cand);
                assert(m == same_ignoring_ascii_case()(kept@[j as int]@, cand@));
                if m {
                    seen = true;
                }
                assert(seen == exists|k: int| 0 <= k < j + 1 && same_ignoring_ascii_case()(kept@[k]@, cand@)) by {
                    if m {
                        assert(0 <= j < j + 1 && same_ignoring_ascii_case()(kept@[j as int]@, cand@));
                    }
                }
                j += 1;
            }
            if !seen {
                kept.push(names[i].clone());
                kept_chars.push(cand);
            }
        }
        i += 1;
    }
    assert(names@.take(i as int) =~= names@);
    kept
}

/// The non-empty names, dropping each that equals an earlier kept one
/// (`Vec::contains`).
pub fn keep_first_exact(names: &Vec<String>) -> (kept: Vec<String>)
    ensures
        kept@ == first_of_each(names@, same_text()),
{
    let mut kept: Vec<String> = Vec::new();
    let mut i: usize = 0;
    while i < names.len()
        invariant
            i <= names.len(),
            kept@ == first_of_each(names@.take(i as int), same_text()),
        decreases names.len() - i,
    {
        assert(names@.take(i + 1).drop_last() =~= names@.take(i as int));
        let cand = &names[i];
        if cand.as_str().unicode_len() > 0 {
            let mut j: usize = 0;
            let mut seen = false;
            while j < kept.len()
                invariant
                    j <= kept.len(),
                    seen == exists|k: int| 0 <= k < j && same_text()(kept@[k]@, cand@),
                decreases kept.len() - j,
            {
                let m = kept[j] == *cand;
                assert(m == same_text()(kept@[j as int]@, cand@));
                if m {
                    seen = true;
                }
                assert(seen == exists|k: int| 0 <= k < j + 1 && same_text()(kept@[k]@, cand@)) by {
                    if m {
                        assert(0 <= j < j + 1 && same_text()(kept@[j as int]@, cand@));
                    }
                }
                j += 1;
            }
            if !seen {
                kept.push(cand.clone());
            }
        }
        i += 1;
    }
    assert(names@.take(i as int) =~= names@);
    kept
}

/// The entries with a non-empty name, each kept only when no entry kept
/// before it has the same key; each entry is a name with its key.
pub open spec fn first_of_each_key(entries: Seq<(String, Seq<char>)>) -> Seq<(String, Seq<char>)>
    decreases entries.len(),
{
    if entries.len() == 0 {
        seq![]
    } else {
        let prev = first_of_each_key(entries.drop_last());
        let e = entries.last();
        if e.0@.len() > 0 && !(exists|k: int| 0 <= k < prev.len() && prev[k].1 == e.1) {
            prev.push(e)
        } else {
            prev
        }
    }
}

/// The names paired with their keys.
pub open spec fn keyed(names: Seq<String>, keys: Seq<Seq<char>>) -> Seq<(String, Seq<char>)> {
    Seq::new(names.len(), |i: int| (names[i], keys[i]))
}

/// The names of the entries.
pub open spec fn entry_names(entries: Seq<(String, Seq<char>)>) -> Seq<String> {
    entries.map_values(|e: (String, Seq<char>)| e.0)
}

/// The non-empty names, each kept only when no name kept before it has
/// the same key (`keys[i]` being the key of `names[i]`).
pub fn keep_first_by_keys(names: &Vec<String>, keys: &Vec<Vec<char>>) -> (kept: Vec<String>)
    requires
        keys.len() == names.len(),
    ensures
        kept@ == entry_names(first_of_each_key(keyed(names@, crate::text::views(keys@)))),
{
    let ghost all = keyed(names@, crate::text::views(keys@));
    let mut kept: Vec<String> = Vec::new();
    let mut kept_keys: Vec<Vec<char>> = Vec::new();
    let mut i: usize = 0;
    while i < names.len()
        invariant
            i <= names.len(),
            keys.len() == names.len(),
            all == keyed(names@, crate::text::views(keys@)),
            kept.len() == kept_keys.len(),
            kept.len() == first_of_each_key(all.take(i as int)).len(),
            forall|k: int|
                0 <= k < kept.len() ==> #[trigger] kept@[k] == first_of_each_key(all.take(i as int))[k].0,
            forall|k: int|
                0 <= k < kept.len() ==> #[trigger] kept_keys@[k]@ == first_of_each_key(
                    all.take(i as int),
                )[k].1,
        decreases names.len() - i,
    {
        assert(all.take(i + 1).drop_last() =~= all.take(i as int));
        assert(all.take(i + 1).last() == (names@[i as int], keys@[i as int]@));
        let ghost prev = first_of_each_key(all.take(i as int));
        let cand = &names[i];
        let key = &keys[i];
        if cand.as_str().unicode_len() > 0 {
            let mut j: usize = 0;
            let mut seen = false;
            while j < kept_keys.len()
                invariant
                    j <= kept_keys.len(),
                    kept.len() == kept_keys.len(),
                    kept_keys.len() == prev.len(),
                    forall|k: int| 0 <= k < kept.len() ==> #[trigger] kept_keys@[k]@ == prev[k].1,
                    seen == exists|k: int| 0 <= k < j && prev[k].1 == key@,
                decreases kept_keys.len() - j,
            {
                let m = crate::text::chars_equal(&kept_keys[j], key);
                if m {
                    seen = true;
                }
                assert(seen == exists|k: int| 0 <= k < j + 1 && prev[k].1 == key@) by {
                    if m {
                        assert(0 <= j < j + 1 && prev[j as int].1 == key@);
                    }
                }
                j += 1;
            }
            if !seen {
                kept.push(cand.clone());
                kept_keys.push(crate::text::sub_chars(key, 0, key.len()));
            }
        }
        i += 1;
    }
    assert(all.take(i as int) =~= all);
    assert(kept@ =~= entry_names(first_of_each_key(all)));
    kept
}

/// With each key the lowercase form of its name, keeping the first of each
/// key keeps the first of each lowercase form.
proof fn lemma_first_of_each_key_lowercase(names: Seq<String>, keys: Seq<Seq<char>>)
    requires
        keys.len() == names.len(),
        forall|k: int| 0 <= k < names.len() ==> #[trigger] keys[k] == lowercase(names[k]@),
    ensures
        entry_names(first_of_each_key(keyed(names, keys))) == first_of_each(names, same_lowercase()),
        forall|k: int|
            0 <= k < first_of_each_key(keyed(names, keys)).len() ==> #[trigger] first_of_each_key(
                keyed(names, keys),
            )[k].1 == lowercase(first_of_each_key(keyed(names, keys))[k].0@),
    decreases names.len(),
{
    if names.len() > 0 {
        let n = names.len() - 1;
        lemma_first_of_each_key_lowercase(names.drop_last(), keys.drop_last());
        assert(keyed(names, keys).drop_last() =~= keyed(names.drop_last(), keys.drop_last()));
        let prev_e = first_of_each_key(keyed(names.drop_last(), keys.drop_last()));
        let prev_n = first_of_each(names.drop_last(), same_lowercase());
        assert(keyed(names, keys).last() == (names[n], keys[n]));
        assert((exists|k: int| 0 <= k < prev_e.len() && prev_e[k].1 == keys[n]) == (exists|k: int|
            0 <= k < prev_n.len() && same_lowercase()(prev_n[k]@, names.last()@))) by {
            if exists|k: int| 0 <= k < prev_e.len() && prev_e[k].1 == keys[n] {
                let k = choose|k: int| 0 <= k < prev_e.len() && prev_e[k].1 == keys[n];
                assert(prev_n[k] == prev_e[k].0);
            }
            if exists|k: int| 0 <= k < prev_n.len() && same_lowercase()(prev_n[k]@, names.last()@) {
                let k = choose|k: int|
                    0 <= k < prev_n.len() && same_lowercase()(prev_n[k]@, names.last()@);
                assert(prev_n[k] == prev_e[k].0);
            }
        }
        assert(entry_names(first_of_each_key(keyed(names, keys))) =~= first_of_each(
            names,
            same_lowercase(),
        ));
    }
}

/// The non-empty names, dropping each whose lowercase form equals that of an
/// earlier kept one.
pub fn keep_first_by_lowercase(names: &Vec<String>) -> (kept: Vec<String>)
    ensures
        kept@ == first_of_each(names@, same_lowercase()),
{
    let mut keys: Vec<Vec<char>> = Vec::new();
    let mut i: usize = 0;
    while i < names.len()
        invariant
            i <= names.len(),
            keys.len() == i,
            forall|k: int| 0 <= k < i ==> #[trigger] keys@[k]@ == lowercase(names@[k]@),
        decreases names.len() - i,
    {
        keys.push(lowercase_chars(names[i].as_str()));
        i += 1;
    }
    proof {
        lemma_first_of_each_key_lowercase(names@, crate::text::views(keys@));
    }
    keep_first_by_keys(names, &keys)
}

/// The lowercase forms of the entries.
pub open spec fn lowercase_keys(items: Seq<String>) -> Seq<Seq<char>> {
    items.map_values(|s: String| lowercase(s@))
}

/// `same` is reflexive and symmetric.
pub open spec fn reflexive_symmetric(same: spec_fn(Seq<char>, Seq<char>) -> bool) -> bool {
    &&& forall|a: Seq<char>| #[trigger] same(a, a)
    &&& forall|a: Seq<char>, b: Seq<char>| #[trigger] same(a, b) ==> same(b, a)
}

/// `kept` is a list of names drawn from `names`: no two of its entries are
/// `same`, each is a non-empty entry of `names`, and each non-empty entry of
/// `names` is `same` as one of them.
pub open spec fn represents(kept: Seq<String>, names: Seq<String>, same: spec_fn(Seq<char>, Seq<char>) -> bool) -> bool {
    &&& forall|i: int, j: int|
        0 <= i < kept.len() && 0 <= j < kept.len() && i != j ==> !same(
            #[trigger] kept[i]@,
            #[trigger] kept[j]@,
        )
    &&& forall|i: int|
        0 <= i < kept.len() ==> (#[trigger] kept[i])@.len() > 0 && exists|k: int|
            0 <= k < names.len() && names[k] == kept[i]
    &&& forall|k: int|
        0 <= k < names.len() && (#[trigger] names[k])@.len() > 0 ==> exists|i: int|
            0 <= i < kept.len() && same(kept[i]@, names[k]@)
}

pub proof fn lemma_first_of_each_represents(names: Seq<String>, same: spec_fn(Seq<char>, Seq<char>) -> bool)
    requires
        reflexive_symmetric(same),
    ensures
        represents(first_of_each(names, same), names, same),
    decreases names.len(),
{
    if names.len() > 0 {
        let init = names.drop_last();
        let n = names.last();
        let prev = first_of_each(init, same);
        lemma_first_of_each_represents(init, same);
        let kept = first_of_each(names, same);
        let last = names.len() - 1;
        assert(names[last] == n);
        assert forall|k: int| 0 <= k < last implies names[k] == #[trigger] init[k] by {}
        if n@.len() > 0 && !(exists|k: int| 0 <= k < prev.len() && same(prev[k]@, n@)) {
            assert(kept == prev.push(n));
            assert forall|i: int, j: int|
                0 <= i < kept.len() && 0 <= j < kept.len() && i != j implies !same(
                #[trigger] kept[i]@,
                #[trigger] kept[j]@,
            ) by {
                if i == prev.len() {
                    assert(!same(prev[j]@, n@));
                } else if j == prev.len() {
                    assert(!same(prev[i]@, n@));
                } else {
                    assert(kept[i] == prev[i] && kept[j] == prev[j]);
                }
            }
            assert forall|i: int| 0 <= i < kept.len() implies (#[trigger] kept[i])@.len() > 0
                && exists|k: int| 0 <= k < names.len() && names[k] == kept[i] by {
                if i == prev.len() {
                    assert(names[last] == kept[i]);
                } else {
                    assert(kept[i] == prev[i]);
                    let k = choose|k: int| 0 <= k < init.len() && init[k] == prev[i];
                    assert(names[k] == init[k]);
                }
            }
            assert forall|k: int| 0 <= k < names.len() && (#[trigger] names[k])@.len() > 0 implies exists|
                i: int,
            | 0 <= i < kept.len() && same(kept[i]@, names[k]@) by {
                if k == last {
                    assert(same(n@, n@));
                    assert(kept[prev.len() as int] == n);
                } else {
                    assert(init[k] == names[k]);
                    let i = choose|i: int| 0 <= i < prev.len() && same(prev[i]@, init[k]@);
                    assert(kept[i] == prev[i]);
                }
            }
        } else {
            assert(kept == prev);
            assert forall|i: int| 0 <= i < kept.len() implies (#[trigger] kept[i])@.len() > 0
                && exists|k: int| 0 <= k < names.len() && names[k] == kept[i] by {
                let k = choose|k: int| 0 <= k < init.len() && init[k] == prev[i];
                assert(names[k] == init[k]);
            }
            assert forall|k: int| 0 <= k < names.len() && (#[trigger] names[k])@.len() > 0 implies exists|
                i: int,
            | 0 <= i < kept.len() && same(kept[i]@, names[k]@) by {
                if k == last {
                    let j = choose|j: int| 0 <= j < prev.len() && same(prev[j]@, n@);
                    assert(same(kept[j]@, names[k]@));
                } else {
                    assert(init[k] == names[k]);
                }
            }
        }
    }
}

proof fn lemma_permuted_distinct(
    p: Seq<int>,
    out: Seq<String>,
    kept: Seq<String>,
    names: Seq<String>,
    same: spec_fn(Seq<char>, Seq<char>) -> bool,
)
    requires
        represents(kept, names, same),
        is_sort_permutation(p, out, kept, lowercase_keys(kept)),
    ensures
        forall|i: int, j: int|
            0 <= i < out.len() && 0 <= j < out.len() && i != j ==> !same(
                #[trigger] out[i]@,
                #[trigger] out[j]@,
            ),
{
    assert forall|i: int, j: int|
        0 <= i < out.len() && 0 <= j < out.len() && i != j implies !same(
        #[trigger] out[i]@,
        #[trigger] out[j]@,
    ) by {
        if i < j {
            assert(p[i] != p[j]);
        } else {
            assert(p[j] != p[i]);
        }
        assert(out[i] == kept[p[i]] && out[j] == kept[p[j]]);
        assert(!same(kept[p[i]]@, kept[p[j]]@));
    }
}

proof fn lemma_permuted_drawn(
    p: Seq<int>,
    out: Seq<String>,
    kept: Seq<String>,
    names: Seq<String>,
    same: spec_fn(Seq<char>, Seq<char>) -> bool,
)
    requires
        represents(kept, names, same),
        is_sort_permutation(p, out, kept, lowercase_keys(kept)),
    ensures
        forall|i: int|
            0 <= i < out.len() ==> (#[trigger] out[i])@.len() > 0 && exists|k: int|
                0 <= k < names.len() && names[k] == out[i],
        forall|k: int|
            0 <= k < names.len() && (#[trigger] names[k])@.len() > 0 ==> exists|i: int|
                0 <= i < out.len() && same(out[i]@, names[k]@),
{
    assert forall|i: int| 0 <= i < out.len() implies (#[trigger] out[i])@.len() > 0 && exists|k: int|
        0 <= k < names.len() && names[k] == out[i] by {
        assert(out[i] == kept[p[i]]);
        assert(kept[p[i]]@.len() > 0);
    }
    assert forall|k: int| 0 <= k < names.len() && (#[trigger] names[k])@.len() > 0 implies exists|
        i: int,
    | 0 <= i < out.len() && same(out[i]@, names[k]@) by {
        let t = choose|t: int| 0 <= t < kept.len() && same(kept[t]@, names[k]@);
        assert(hits(p, t));
        let i = choose|i: int| 0 <= i < p.len() && p[i] == t;
        assert(out[i] == kept[t]);
    }
}

proof fn lemma_permuted_ordered(p: Seq<int>, out: Seq<String>, kept: Seq<String>)
    requires
        is_sort_permutation(p, out, kept, lowercase_keys(kept)),
    ensures
        forall|i: int, j: int|
            0 <= i < j < out.len() ==> lex_le(lowercase(#[trigger] out[i]@), lowercase(#[trigger] out[j]@)),
{
    let keys = lowercase_keys(kept);
    assert forall|i: int, j: int| 0 <= i < j < out.len() implies lex_le(
        lowercase(#[trigger] out[i]@),
        lowercase(#[trigger] out[j]@),
    ) by {
        assert(lex_le(keys[p[i]], keys[p[j]]));
        assert(out[i] == kept[p[i]] && out[j] == kept[p[j]]);
    }
}

/// A list sorted stably by lowercase form from names that `represents`
/// `names` represents them too, and is in lowercase order.
pub proof fn lemma_sorted_represents(
    out: Seq<String>,
    kept: Seq<String>,
    names: Seq<String>,
    same: spec_fn(Seq<char>, Seq<char>) -> bool,
)
    requires
        represents(kept, names, same),
        stable_sorted_by(out, kept, lowercase_keys(kept)),
    ensures
        represents(out, names, same),
        forall|i: int, j: int|
            0 <= i < j < out.len() ==> lex_le(lowercase(#[trigger] out[i]@), lowercase(#[trigger] out[j]@)),
{
    let p = choose|p: Seq<int>| is_sort_permutation(p, out, kept, lowercase_keys(kept));
    lemma_permuted_distinct(p, out, kept, names, same);
    lemma_permuted_drawn(p, out, kept, names, same);
    lemma_permuted_ordered(p, out, kept);
}

pub proof fn lemma_ascii_case_relation()
    ensures
        reflexive_symmetric(same_ignoring_ascii_case()),
{
}

pub proof fn lemma_text_relation()
    ensures
        reflexive_symmetric(same_text()),
{
}

pub proof fn lemma_lowercase_relation()
    ensures
        reflexive_symmetric(same_lowercase()),
{
}

} // verus!
