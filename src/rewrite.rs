use vstd::prelude::*;

use crate::names::{
    fresh_identifier, fresh_name, keys_of, lemma_digit_chars, lemma_fresh_name_chars, lemma_fresh_name_is_free,
    lemma_lookup_unique, lookup, NameMap,
};
use crate::path::{base_name, chars_of, file_name, lemma_base_name_chars};

verus! {

/// The tag of a reference to a file by path.
pub open spec fn file_tag() -> Seq<char> {
    seq!['f', 'i', 'l', 'e', ':']
}

/// The tag of a reference to an archive entry by identifier.
pub open spec fn asset_tag() -> Seq<char> {
    seq!['a', 's', 's', 'e', 't', ':']
}

/// A character that ends the payload of a reference.
pub open spec fn is_terminator(c: char) -> bool {
    c == ';' || c == ']' || c == '\n'
}

/// `tag` occurs in `s` at index `i`.
pub open spec fn has_at(s: Seq<char>, i: int, tag: Seq<char>) -> bool {
    0 <= i && i + tag.len() <= s.len() && s.subrange(i, i + tag.len()) == tag
}

/// The index of the first terminator at or after `k`, or `s.len()` if there is none.
pub open spec fn first_term(s: Seq<char>, k: int) -> int
    decreases s.len() - k,
{
    if k >= s.len() {
        s.len() as int
    } else if is_terminator(s[k]) {
        k
    } else {
        first_term(s, k + 1)
    }
}

/// Where the reference with tag `tag` that starts at `i` ends: the index of
/// the terminator after its payload. `None` where no such reference starts at `i`.
pub open spec fn token_end(s: Seq<char>, i: int, tag: Seq<char>) -> Option<int> {
    let j = first_term(s, i + tag.len());
    if has_at(s, i, tag) && j < s.len() {
        Some(j)
    } else {
        None
    }
}

pub proof fn lemma_first_term_bounds(s: Seq<char>, k: int)
    requires
        0 <= k,
    ensures
        k <= first_term(s, k) || first_term(s, k) == s.len(),
        first_term(s, k) <= s.len(),
        first_term(s, k) >= k || k > s.len(),
        forall|p: int| k <= p < first_term(s, k) ==> !is_terminator(#[trigger] s[p]),
        first_term(s, k) < s.len() ==> is_terminator(s[first_term(s, k)]),
    decreases s.len() - k,
{
    if k < s.len() && !is_terminator(s[k]) {
        lemma_first_term_bounds(s, k + 1);
    }
}

#[via_fn]
proof fn pack_from_decreases(s: Seq<char>, i: int, m: Seq<(Seq<char>, Seq<char>)>) {
    if 0 <= i {
        lemma_first_term_bounds(s, i + file_tag().len());
    }
}

/// Rewriting for packing, from index `i` on, with the map `m` built so far:
/// the rewritten rest of the text and the final map. Each `file:<path>`
/// whose path has a base name becomes `asset:<id>`, where `id` is a fresh
/// identifier for that base name, and `id -> path` is recorded.
pub open spec fn pack_from(s: Seq<char>, i: int, m: Seq<(Seq<char>, Seq<char>)>) -> (Seq<char>, Seq<(Seq<char>, Seq<char>)>)
    decreases s.len() - i,
    when 0 <= i
    via pack_from_decreases
{
    if i >= s.len() {
        (Seq::empty(), m)
    } else if let Some(j) = token_end(s, i, file_tag()) {
        let path = s.subrange(i + file_tag().len(), j);
        if let Some(name) = base_name(path) {
            let id = fresh_name(keys_of(m), name);
            let rest = pack_from(s, j, m.push((id, path)));
            (asset_tag() + id + rest.0, rest.1)
        } else {
            let rest = pack_from(s, j, m);
            (s.subrange(i, j) + rest.0, rest.1)
        }
    } else {
        let rest = pack_from(s, i + 1, m);
        (seq![s[i]] + rest.0, rest.1)
    }
}

/// The text `s` rewritten for packing, and its name map.
pub open spec fn packed(s: Seq<char>) -> (Seq<char>, Seq<(Seq<char>, Seq<char>)>) {
    pack_from(s, 0, Seq::empty())
}

#[via_fn]
proof fn unpack_from_decreases(s: Seq<char>, i: int, m: Seq<(Seq<char>, Seq<char>)>) {
    if 0 <= i {
        lemma_first_term_bounds(s, i + asset_tag().len());
    }
}

/// Rewriting for unpacking, from index `i` on: each `asset:<id>` whose `id`
/// the map `m` knows becomes `file:<path>`; the others stay as they are.
pub open spec fn unpack_from(s: Seq<char>, i: int, m: Seq<(Seq<char>, Seq<char>)>) -> Seq<char>
    decreases s.len() - i,
    when 0 <= i
    via unpack_from_decreases
{
    if i >= s.len() {
        Seq::empty()
    } else if let Some(j) = token_end(s, i, asset_tag()) {
        let id = s.subrange(i + asset_tag().len(), j);
        if let Some(path) = lookup(m, id) {
            file_tag() + path + unpack_from(s, j, m)
        } else {
            s.subrange(i, j) + unpack_from(s, j, m)
        }
    } else {
        seq![s[i]] + unpack_from(s, i + 1, m)
    }
}

/// The text `s` rewritten for unpacking with the map `m`.
pub open spec fn unpacked(s: Seq<char>, m: Seq<(Seq<char>, Seq<char>)>) -> Seq<char> {
    unpack_from(s, 0, m)
}

/// Where the reference with tag `tag` at `i` ends, or `None`.
fn token_end_at(c: &Vec<char>, i: usize, tag: &str) -> (r: Option<usize>)
    requires
        i < c@.len(),
    ensures
        r matches Some(j) ==> token_end(c@, i as int, tag@) == Some(j as int),
        r is None ==> token_end(c@, i as int, tag@) is None,
{
    let t = chars_of(tag);
    let n = c.len();
    if n - i < t.len() {
        return None;
    }
    let mut p: usize = 0;
    while p < t.len()
        invariant
            p <= t@.len(),
            i + t@.len() <= n == c@.len(),
            t@ == tag@,
            forall|q: int| 0 <= q < p ==> c@[i + q] == t@[q],
        decreases t@.len() - p,
    {
        if c[i + p] != t[p] {
            assert(c@.subrange(i as int, i + t@.len())[p as int] != tag@[p as int]);
            return None;
        }
        p = p + 1;
    }
    assert(c@.subrange(i as int, i + t@.len()) =~= tag@);
    let mut j: usize = i + t.len();
    while j < n && c[j] != ';' && c[j] != ']' && c[j] != '\n'
        invariant
            i + t@.len() <= j <= n == c@.len(),
            t@ == tag@,
            first_term(c@, i + t@.len()) == first_term(c@, j as int),
        decreases n - j,
    {
        j = j + 1;
    }
    if j < n {
        Some(j)
    } else {
        None
    }
}

/// Rewrites every `file:<path>` reference of `source` that has a base name to
/// `asset:<id>`, and returns the result with the map from each identifier to
/// its path. Identifiers are the base names, made unique by a `"{n}_"` prefix
/// with the smallest free `n`.
pub fn rewrite_for_pack(source: &str) -> (r: (String, NameMap))
    ensures
        r.0@ == packed(source@).0,
        r.1@ == packed(source@).1,
        r.1.wf(),
{
    let c = chars_of(source);
    let n = c.len();
    let mut out = String::new();
    let mut map = NameMap::new();
    let mut run: usize = 0;
    let mut i: usize = 0;
    proof {
        reveal_strlit("file:");
        reveal_strlit("asset:");
        assert("file:"@ =~= file_tag());
        assert("asset:"@ =~= asset_tag());
        assert(source@.subrange(0, 0) =~= Seq::<char>::empty());
        assert(map@ =~= Seq::<(Seq<char>, Seq<char>)>::empty());
    }
    while i < n
        invariant
            c@ == source@,
            n == c@.len(),
            run <= i <= n,
            "file:"@ == file_tag(),
            "asset:"@ == asset_tag(),
            map.wf(),
            out@ + source@.subrange(run as int, i as int) + pack_from(source@, i as int, map@).0
                == packed(source@).0,
            pack_from(source@, i as int, map@).1 == packed(source@).1,
        decreases n - i,
    {
        let ghost s = source@;
        let ghost before = out@ + s.subrange(run as int, i as int);
        match token_end_at(&c, i, "file:") {
            Some(j) => {
                proof {
                    lemma_first_term_bounds(s, i + 5);
                }
                let path = String::from_str(source.substring_char(i + 5, j));
                match file_name(path.as_str()) {
                    Some(b) => {
                        let ghost m0 = map@;
                        out.append(source.substring_char(run, i));
                        let id = fresh_identifier(&map, &b);
                        out.append("asset:");
                        out.append(id.as_str());
                        let ghost idv = id@;
                        map.insert(id, path);
                        proof {
                            let rest = pack_from(s, j as int, map@);
                            assert(pack_from(s, i as int, m0).0 == asset_tag() + idv + rest.0);
                            assert(s.subrange(j as int, j as int) =~= Seq::<char>::empty());
                            assert(out@ + s.subrange(j as int, j as int) + rest.0 =~= before + (asset_tag() + idv + rest.0));
                        }
                        run = j;
                    },
                    None => {
                        proof {
                            let rest = pack_from(s, j as int, map@);
                            assert(pack_from(s, i as int, map@).0 == s.subrange(i as int, j as int) + rest.0);
                            assert(out@ + s.subrange(run as int, j as int) + rest.0 =~= before + (s.subrange(i as int, j as int) + rest.0));
                        }
                    },
                }
                i = j;
            },
            None => {
                proof {
                    let rest = pack_from(s, i + 1, map@);
                    assert(pack_from(s, i as int, map@).0 == seq![s[i as int]] + rest.0);
                    assert(out@ + s.subrange(run as int, i + 1) + rest.0 =~= before + (seq![s[i as int]] + rest.0));
                }
                i = i + 1;
            },
        }
    }
    out.append(source.substring_char(run, n));
    proof {
        assert(out@ =~= packed(source@).0);
    }
    (out, map)
}

/// Rewrites every `asset:<id>` reference of `source` whose `id` is in `map`
/// to `file:<path>`; references to unknown identifiers are left as they are.
pub fn rewrite_for_unpack(source: &str, map: &NameMap) -> (r: String)
    ensures
        r@ == unpacked(source@, map@),
{
    let c = chars_of(source);
    let n = c.len();
    let mut out = String::new();
    let mut run: usize = 0;
    let mut i: usize = 0;
    proof {
        reveal_strlit("file:");
        reveal_strlit("asset:");
        assert("file:"@ =~= file_tag());
        assert("asset:"@ =~= asset_tag());
        assert(source@.subrange(0, 0) =~= Seq::<char>::empty());
    }
    while i < n
        invariant
            c@ == source@,
            n == c@.len(),
            run <= i <= n,
            "file:"@ == file_tag(),
            "asset:"@ == asset_tag(),
            out@ + source@.subrange(run as int, i as int) + unpack_from(source@, i as int, map@)
                == unpacked(source@, map@),
        decreases n - i,
    {
        let ghost s = source@;
        let ghost before = out@ + s.subrange(run as int, i as int);
        match token_end_at(&c, i, "asset:") {
            Some(j) => {
                proof {
                    lemma_first_term_bounds(s, i + 6);
                }
                let id = String::from_str(source.substring_char(i + 6, j));
                match map.get(&id) {
                    Some(path) => {
                        out.append(source.substring_char(run, i));
                        out.append("file:");
                        out.append(path.as_str());
                        proof {
                            let rest = unpack_from(s, j as int, map@);
                            assert(unpack_from(s, i as int, map@) == file_tag() + path@ + rest);
                            assert(s.subrange(j as int, j as int) =~= Seq::<char>::empty());
                            assert(out@ + s.subrange(j as int, j as int) + rest =~= before + (file_tag() + path@ + rest));
                        }
                        run = j;
                    },
                    None => {
                        proof {
                            let rest = unpack_from(s, j as int, map@);
                            assert(unpack_from(s, i as int, map@) == s.subrange(i as int, j as int) + rest);
                            assert(out@ + s.subrange(run as int, j as int) + rest =~= before + (s.subrange(i as int, j as int) + rest));
                        }
                    },
                }
                i = j;
            },
            None => {
                proof {
                    let rest = unpack_from(s, i + 1, map@);
                    assert(unpack_from(s, i as int, map@) == seq![s[i as int]] + rest);
                    assert(out@ + s.subrange(run as int, i + 1) + rest =~= before + (seq![s[i as int]] + rest));
                }
                i = i + 1;
            },
        }
    }
    out.append(source.substring_char(run, n));
    proof {
        assert(out@ =~= unpacked(source@, map@));
    }
    out
}

proof fn lemma_pack_from_distinct(s: Seq<char>, i: int, m: Seq<(Seq<char>, Seq<char>)>)
    requires
        0 <= i,
        keys_of(m).no_duplicates(),
    ensures
        keys_of(pack_from(s, i, m).1).no_duplicates(),
    decreases s.len() - i,
{
    if i < s.len() {
        if let Some(j) = token_end(s, i, file_tag()) {
            lemma_first_term_bounds(s, i + file_tag().len());
            let path = s.subrange(i + file_tag().len(), j);
            if let Some(name) = base_name(path) {
                let id = fresh_name(keys_of(m), name);
                lemma_fresh_name_is_free(keys_of(m), name);
                let m2 = m.push((id, path));
                assert(keys_of(m2) =~= keys_of(m).push(id));
                assert forall|a: int, b: int|
                    0 <= a < keys_of(m2).len() && 0 <= b < keys_of(m2).len() && a != b
                    implies keys_of(m2)[a] != keys_of(m2)[b] by {
                    if a == keys_of(m).len() {
                        assert(keys_of(m).contains(keys_of(m2)[b]));
                    } else if b == keys_of(m).len() {
                        assert(keys_of(m).contains(keys_of(m2)[a]));
                    }
                }
                lemma_pack_from_distinct(s, j, m2);
            } else {
                lemma_pack_from_distinct(s, j, m);
            }
        } else {
            lemma_pack_from_distinct(s, i + 1, m);
        }
    }
}

/// Packing gives every rewritten reference its own identifier: no two
/// entries of the name map share one, even where paths share a base name.
pub proof fn lemma_packed_identifiers_distinct(s: Seq<char>)
    ensures
        keys_of(packed(s).1).no_duplicates(),
{
    lemma_pack_from_distinct(s, 0, Seq::empty());
}

/// No `asset:` reference of `s` names an identifier that `m` knows.
pub open spec fn all_unresolved(s: Seq<char>, m: Seq<(Seq<char>, Seq<char>)>) -> bool {
    forall|k: int|
        #[trigger] token_end(s, k, asset_tag()) matches Some(j)
            ==> lookup(m, s.subrange(k + asset_tag().len(), j)) is None
}

proof fn lemma_unpack_from_unresolved(s: Seq<char>, i: int, m: Seq<(Seq<char>, Seq<char>)>)
    requires
        0 <= i <= s.len(),
        all_unresolved(s, m),
    ensures
        unpack_from(s, i, m) == s.subrange(i, s.len() as int),
    decreases s.len() - i,
{
    if i < s.len() {
        if let Some(j) = token_end(s, i, asset_tag()) {
            lemma_first_term_bounds(s, i + asset_tag().len());
            lemma_unpack_from_unresolved(s, j, m);
            assert(s.subrange(i, j) + s.subrange(j, s.len() as int) =~= s.subrange(i, s.len() as int));
        } else {
            lemma_unpack_from_unresolved(s, i + 1, m);
            assert(seq![s[i]] + s.subrange(i + 1, s.len() as int) =~= s.subrange(i, s.len() as int));
        }
    } else {
        assert(s.subrange(i, s.len() as int) =~= Seq::<char>::empty());
    }
}

/// References that the map cannot resolve are left exactly as they are, so a
/// second unpacking rewrite of such a text gives the output of the first.
pub proof fn lemma_unresolved_references_kept(s: Seq<char>, m: Seq<(Seq<char>, Seq<char>)>)
    requires
        all_unresolved(s, m),
    ensures
        unpacked(s, m) == s,
        unpacked(unpacked(s, m), m) == unpacked(s, m),
{
    lemma_unpack_from_unresolved(s, 0, m);
    assert(s.subrange(0, s.len() as int) =~= s);
}

#[via_fn]
proof fn restore_from_decreases(
    s: Seq<char>,
    i: int,
    m: Seq<(Seq<char>, Seq<char>)>,
    dest: Seq<(Seq<char>, Seq<char>)>,
) {
    if 0 <= i {
        lemma_first_term_bounds(s, i + file_tag().len());
    }
}

/// The text `s` from index `i` on with each reference that packing rewrites
/// pointed at the path that `dest` gives for its identifier (`m` is the map
/// that packing has built before `i`).
pub open spec fn restore_from(
    s: Seq<char>,
    i: int,
    m: Seq<(Seq<char>, Seq<char>)>,
    dest: Seq<(Seq<char>, Seq<char>)>,
) -> Seq<char>
    decreases s.len() - i,
    when 0 <= i
    via restore_from_decreases
{
    if i >= s.len() {
        Seq::empty()
    } else if let Some(j) = token_end(s, i, file_tag()) {
        let path = s.subrange(i + file_tag().len(), j);
        if let Some(name) = base_name(path) {
            let id = fresh_name(keys_of(m), name);
            file_tag() + lookup(dest, id)->0 + restore_from(s, j, m.push((id, path)), dest)
        } else {
            s.subrange(i, j) + restore_from(s, j, m, dest)
        }
    } else {
        seq![s[i]] + restore_from(s, i + 1, m, dest)
    }
}

/// `s` with each packed reference pointed at the path that `dest` gives for
/// its identifier.
pub open spec fn restored(s: Seq<char>, dest: Seq<(Seq<char>, Seq<char>)>) -> Seq<char> {
    restore_from(s, 0, Seq::empty(), dest)
}

/// `s` holds no `asset:` tag anywhere.
pub open spec fn no_asset_tag(s: Seq<char>) -> bool {
    forall|k: int| !#[trigger] has_at(s, k, asset_tag())
}

proof fn lemma_first_term_shift(x: Seq<char>, y: Seq<char>, k: int)
    requires
        0 <= k,
    ensures
        first_term(x + y, x.len() + k) == x.len() + first_term(y, k),
    decreases y.len() - k,
{
    if k < y.len() {
        assert((x + y)[x.len() + k] == y[k]);
        lemma_first_term_shift(x, y, k + 1);
    }
}

proof fn lemma_has_at_shift(x: Seq<char>, y: Seq<char>, k: int, t: Seq<char>)
    requires
        0 <= k,
    ensures
        has_at(x + y, x.len() + k, t) == has_at(y, k, t),
{
    if k + t.len() <= y.len() {
        assert((x + y).subrange(x.len() + k, x.len() + k + t.len()) =~= y.subrange(k, k + t.len()));
    }
}

proof fn lemma_unpack_suffix(x: Seq<char>, y: Seq<char>, k: int, m: Seq<(Seq<char>, Seq<char>)>)
    requires
        0 <= k <= y.len(),
    ensures
        unpack_from(x + y, x.len() + k, m) == unpack_from(y, k, m),
    decreases y.len() - k,
{
    let xy = x + y;
    let a = asset_tag().len();
    if k < y.len() {
        lemma_has_at_shift(x, y, k, asset_tag());
        lemma_first_term_shift(x, y, k + a);
        lemma_first_term_bounds(y, k + a);
        assert(xy[x.len() + k] == y[k]);
        if let Some(j) = token_end(y, k, asset_tag()) {
            assert(xy.subrange(x.len() + k + a, x.len() + j) =~= y.subrange(k + a, j));
            assert(xy.subrange(x.len() + k, x.len() + j) =~= y.subrange(k, j));
            lemma_unpack_suffix(x, y, j, m);
        } else {
            lemma_unpack_suffix(x, y, k + 1, m);
        }
    }
}

proof fn lemma_unpack_plain(p: Seq<char>, a: int, l: int, m: Seq<(Seq<char>, Seq<char>)>)
    requires
        0 <= a <= l <= p.len(),
        forall|k: int| a <= k < l ==> !#[trigger] has_at(p, k, asset_tag()),
    ensures
        unpack_from(p, a, m) == p.subrange(a, l) + unpack_from(p, l, m),
    decreases l - a,
{
    if a < l {
        assert(!has_at(p, a, asset_tag()));
        lemma_unpack_plain(p, a + 1, l, m);
        assert(seq![p[a]] + p.subrange(a + 1, l) =~= p.subrange(a, l));
    } else {
        assert(p.subrange(a, l) =~= Seq::<char>::empty());
    }
}

proof fn lemma_first_term_at(x: Seq<char>, k: int, e: int)
    requires
        0 <= k <= e < x.len(),
        is_terminator(x[e]),
        forall|p: int| k <= p < e ==> !is_terminator(#[trigger] x[p]),
    ensures
        first_term(x, k) == e,
    decreases e - k,
{
    if k < e {
        lemma_first_term_at(x, k + 1, e);
    }
}

proof fn lemma_pack_head(s: Seq<char>, i: int, m: Seq<(Seq<char>, Seq<char>)>)
    requires
        0 <= i < s.len(),
        is_terminator(s[i]),
    ensures
        pack_from(s, i, m).0.len() >= 1,
        pack_from(s, i, m).0[0] == s[i],
{
    if i + file_tag().len() <= s.len() {
        assert(s.subrange(i, i + file_tag().len())[0] == s[i]);
    }
}

proof fn lemma_pack_map_prefix(s: Seq<char>, i: int, m: Seq<(Seq<char>, Seq<char>)>)
    requires
        0 <= i,
    ensures
        m.len() <= pack_from(s, i, m).1.len(),
        pack_from(s, i, m).1.take(m.len() as int) == m,
    decreases s.len() - i,
{
    if i < s.len() {
        lemma_first_term_bounds(s, i + file_tag().len());
        if let Some(j) = token_end(s, i, file_tag()) {
            let path = s.subrange(i + file_tag().len(), j);
            if let Some(name) = base_name(path) {
                let m2 = m.push((fresh_name(keys_of(m), name), path));
                lemma_pack_map_prefix(s, j, m2);
                assert(pack_from(s, i, m).1.take(m.len() as int) =~= pack_from(s, j, m2).1.take(m2.len() as int).take(
                    m.len() as int,
                ));
                assert(m2.take(m.len() as int) =~= m);
            } else {
                lemma_pack_map_prefix(s, j, m);
            }
        } else {
            lemma_pack_map_prefix(s, i + 1, m);
        }
    } else {
        assert(m.take(m.len() as int) =~= m);
    }
}

/// Packing rewrites a reference that starts at `i`.
pub open spec fn inserts_at(s: Seq<char>, i: int) -> bool {
    match token_end(s, i, file_tag()) {
        Some(j) => base_name(s.subrange(i + file_tag().len(), j)) is Some,
        None => false,
    }
}

/// Where the packed text at `i` starts with a tail `w` of the `asset:` tag,
/// the source starts with `w` at `i` too, or packing inserted a tag there.
proof fn lemma_pack_tag_tail(s: Seq<char>, i: int, m: Seq<(Seq<char>, Seq<char>)>, q: int)
    requires
        0 <= i,
        0 <= q < asset_tag().len(),
        has_at(pack_from(s, i, m).0, 0, asset_tag().subrange(q, asset_tag().len() as int)),
    ensures
        has_at(s, i, asset_tag().subrange(q, asset_tag().len() as int)) || (q == 0 && inserts_at(s, i)),
    decreases s.len() - i,
{
    let t = asset_tag();
    let w = t.subrange(q, t.len() as int);
    let p = pack_from(s, i, m).0;
    assert(p.subrange(0, w.len() as int)[0] == w[0]);
    assert(w[0] == t[q]);
    assert(t[0] == 'a' && t[1] == 's' && t[2] == 's' && t[3] == 'e' && t[4] == 't' && t[5] == ':');
    if i < s.len() {
        lemma_first_term_bounds(s, i + file_tag().len());
        if let Some(j) = token_end(s, i, file_tag()) {
            let path = s.subrange(i + file_tag().len(), j);
            assert(s.subrange(i, i + file_tag().len())[0] == s[i]);
            if let Some(name) = base_name(path) {
                let id = fresh_name(keys_of(m), name);
                let r = pack_from(s, j, m.push((id, path))).0;
                assert(p == t + id + r);
                assert(p[0] == t[0]);
            } else {
                assert(file_tag()[0] == 'f');
                assert(p[0] == s.subrange(i, j)[0]);
            }
        } else {
            let r = pack_from(s, i + 1, m).0;
            assert(p == seq![s[i]] + r);
            if w.len() == 1 {
                assert(s.subrange(i, i + 1) =~= w);
            } else {
                let w2 = t.subrange(q + 1, t.len() as int);
                assert(r.subrange(0, w2.len() as int) =~= p.subrange(0, w.len() as int).subrange(1, w.len() as int));
                assert(w2 =~= w.subrange(1, w.len() as int));
                lemma_pack_tag_tail(s, i + 1, m, q + 1);
                assert(w =~= seq![w[0]] + w2);
                assert(s.subrange(i, i + w.len()) =~= seq![s[i]] + s.subrange(i + 1, i + 1 + w2.len()));
            }
        }
    }
}

proof fn lemma_round_trip_from(
    s: Seq<char>,
    i: int,
    m: Seq<(Seq<char>, Seq<char>)>,
    dest: Seq<(Seq<char>, Seq<char>)>,
)
    requires
        0 <= i <= s.len(),
        no_asset_tag(s),
        forall|id: Seq<char>| keys_of(pack_from(s, i, m).1).contains(id) ==> (#[trigger] lookup(dest, id)) is Some,
    ensures
        unpack_from(pack_from(s, i, m).0, 0, dest) == restore_from(s, i, m, dest),
    decreases s.len() - i,
{
    let t = asset_tag();
    let p = pack_from(s, i, m).0;
    if i == s.len() {
        return;
    }
    lemma_first_term_bounds(s, i + file_tag().len());
    if let Some(j) = token_end(s, i, file_tag()) {
        let path = s.subrange(i + file_tag().len(), j);
        if let Some(name) = base_name(path) {
            let id = fresh_name(keys_of(m), name);
            let m2 = m.push((id, path));
            let r = pack_from(s, j, m2).0;
            let head = t + id;
            assert(p == head + r);
            lemma_pack_head(s, j, m2);
            lemma_pack_map_prefix(s, j, m2);
            let f = pack_from(s, j, m2).1;
            assert(f[m.len() as int] == m2.take(m2.len() as int)[m.len() as int]);
            assert(keys_of(f)[m.len() as int] == id);
            assert(lookup(dest, id) is Some);
            lemma_base_name_chars(path);
            lemma_fresh_name_chars(keys_of(m), name);
            assert forall|k: int| t.len() <= k < head.len() implies !is_terminator(#[trigger] p[k]) by {
                let c = id[k - t.len()];
                assert(p[k] == c);
                if name.contains(c) {
                    let z = choose|z: int| 0 <= z < name.len() && name[z] == c;
                    assert(path.contains(name[z]));
                    let y = choose|y: int| 0 <= y < path.len() && path[y] == c;
                    assert(path[y] == s[i + file_tag().len() + y]);
                } else if crate::names::digits().contains(c) {
                    lemma_digit_chars(c);
                }
            }
            assert(p[head.len() as int] == r[0]);
            lemma_first_term_at(p, t.len() as int, head.len() as int);
            assert(p.subrange(0, t.len() as int) =~= t);
            assert(p.subrange(t.len() as int, head.len() as int) =~= id);
            lemma_unpack_suffix(head, r, 0, dest);
            lemma_round_trip_from(s, j, m2, dest);
        } else {
            let r = pack_from(s, j, m).0;
            let head = s.subrange(i, j);
            assert(p == head + r);
            lemma_pack_head(s, j, m);
            assert forall|k: int| 0 <= k < head.len() implies !#[trigger] has_at(p, k, t) by {
                if has_at(p, k, t) {
                    if k + t.len() <= head.len() {
                        assert(p.subrange(k, k + t.len()) =~= s.subrange(i + k, i + k + t.len()));
                        assert(has_at(s, i + k, t));
                    } else {
                        assert(p[head.len() as int] == s[j]);
                        assert(p.subrange(k, k + t.len())[head.len() - k] == p[head.len() as int]);
                    }
                }
            }
            lemma_unpack_plain(p, 0, head.len() as int, dest);
            assert(p.subrange(0, head.len() as int) =~= head);
            lemma_unpack_suffix(head, r, 0, dest);
            lemma_round_trip_from(s, j, m, dest);
        }
    } else {
        let r = pack_from(s, i + 1, m).0;
        assert(p == seq![s[i]] + r);
        if has_at(p, 0, t) {
            assert(t.subrange(0, t.len() as int) =~= t);
            lemma_pack_tag_tail(s, i, m, 0);
            assert(has_at(s, i, t));
        }
        lemma_unpack_suffix(seq![s[i]], r, 0, dest);
        lemma_round_trip_from(s, i + 1, m, dest);
    }
}

/// Round trip: a text without `asset:` in it, packed and then unpacked with
/// a map that gives a path for every identifier of the packing, is the text
/// with each packed reference pointed at the path given for its identifier.
pub proof fn lemma_round_trip(s: Seq<char>, dest: Seq<(Seq<char>, Seq<char>)>)
    requires
        no_asset_tag(s),
        forall|id: Seq<char>| keys_of(packed(s).1).contains(id) ==> (#[trigger] lookup(dest, id)) is Some,
    ensures
        unpacked(packed(s).0, dest) == restored(s, dest),
{
    lemma_round_trip_from(s, 0, Seq::empty(), dest);
}

proof fn lemma_restore_own_map(
    s: Seq<char>,
    i: int,
    m: Seq<(Seq<char>, Seq<char>)>,
    f: Seq<(Seq<char>, Seq<char>)>,
)
    requires
        0 <= i <= s.len(),
        pack_from(s, i, m).1 == f,
        keys_of(f).no_duplicates(),
    ensures
        restore_from(s, i, m, f) == s.subrange(i, s.len() as int),
    decreases s.len() - i,
{
    if i == s.len() {
        assert(s.subrange(i, i) =~= Seq::<char>::empty());
        return;
    }
    lemma_first_term_bounds(s, i + file_tag().len());
    if let Some(j) = token_end(s, i, file_tag()) {
        let path = s.subrange(i + file_tag().len(), j);
        if let Some(name) = base_name(path) {
            let id = fresh_name(keys_of(m), name);
            let m2 = m.push((id, path));
            lemma_pack_map_prefix(s, j, m2);
            assert(f[m.len() as int] == m2.take(m2.len() as int)[m.len() as int]);
            lemma_lookup_unique(f, m.len() as int);
            lemma_restore_own_map(s, j, m2, f);
            assert(file_tag() + path + s.subrange(j, s.len() as int) =~= s.subrange(i, s.len() as int));
        } else {
            lemma_restore_own_map(s, j, m, f);
            assert(s.subrange(i, j) + s.subrange(j, s.len() as int) =~= s.subrange(i, s.len() as int));
        }
    } else {
        lemma_restore_own_map(s, i + 1, m, f);
        assert(seq![s[i]] + s.subrange(i + 1, s.len() as int) =~= s.subrange(i, s.len() as int));
    }
}

/// Unpacking a packed text with the packing's own name map gives back the
/// text it started from, so long as it held no `asset:` tag.
pub proof fn lemma_round_trip_own_map(s: Seq<char>)
    requires
        no_asset_tag(s),
    ensures
        unpacked(packed(s).0, packed(s).1) == s,
{
    let f = packed(s).1;
    lemma_packed_identifiers_distinct(s);
    assert forall|id: Seq<char>| keys_of(f).contains(id) implies (#[trigger] lookup(f, id)) is Some by {
        let k = choose|k: int| 0 <= k < keys_of(f).len() && keys_of(f)[k] == id;
        lemma_lookup_unique(f, k);
    }
    lemma_round_trip(s, f);
    lemma_restore_own_map(s, 0, Seq::empty(), f);
    assert(s.subrange(0, s.len() as int) =~= s);
}

proof fn lemma_unpack_head(s: Seq<char>, i: int, m: Seq<(Seq<char>, Seq<char>)>)
    requires
        0 <= i < s.len(),
        is_terminator(s[i]),
    ensures
        unpack_from(s, i, m).len() >= 1,
        unpack_from(s, i, m)[0] == s[i],
{
    if i + asset_tag().len() <= s.len() {
        assert(s.subrange(i, i + asset_tag().len())[0] == s[i]);
    }
}

proof fn lemma_first_term_none_after(s: Seq<char>, a: int, b: int)
    requires
        0 <= a <= b,
        first_term(s, a) == s.len(),
    ensures
        first_term(s, b) == s.len(),
    decreases b - a,
{
    if a < b {
        if a < s.len() {
            assert(!is_terminator(s[a]));
        }
        lemma_first_term_none_after(s, a + 1, b);
    }
}

proof fn lemma_unpack_no_term(s: Seq<char>, i: int, m: Seq<(Seq<char>, Seq<char>)>, a: int)
    requires
        0 <= a <= i <= s.len(),
        first_term(s, a + asset_tag().len()) == s.len(),
    ensures
        unpack_from(s, i, m) == s.subrange(i, s.len() as int),
    decreases s.len() - i,
{
    if i < s.len() {
        lemma_first_term_none_after(s, a + asset_tag().len(), i + asset_tag().len());
        lemma_unpack_no_term(s, i + 1, m, a);
        assert(seq![s[i]] + s.subrange(i + 1, s.len() as int) =~= s.subrange(i, s.len() as int));
    } else {
        assert(s.subrange(i, s.len() as int) =~= Seq::<char>::empty());
    }
}

/// Where the unpacked text at `i` starts with a tail `w` of the `asset:`
/// tag, the source starts with `w` at `i` too.
proof fn lemma_unpack_tag_tail(s: Seq<char>, i: int, m: Seq<(Seq<char>, Seq<char>)>, q: int)
    requires
        0 <= i,
        0 <= q < asset_tag().len(),
        has_at(unpack_from(s, i, m), 0, asset_tag().subrange(q, asset_tag().len() as int)),
    ensures
        has_at(s, i, asset_tag().subrange(q, asset_tag().len() as int)),
    decreases s.len() - i,
{
    let t = asset_tag();
    let w = t.subrange(q, t.len() as int);
    let p = unpack_from(s, i, m);
    assert(p.subrange(0, w.len() as int)[0] == w[0]);
    assert(w[0] == t[q]);
    assert(t[0] == 'a' && t[1] == 's' && t[2] == 's' && t[3] == 'e' && t[4] == 't' && t[5] == ':');
    if i < s.len() {
        lemma_first_term_bounds(s, i + t.len());
        if let Some(j) = token_end(s, i, t) {
            let id = s.subrange(i + t.len(), j);
            if let Some(path) = lookup(m, id) {
                assert(p == file_tag() + path + unpack_from(s, j, m));
                assert(p[0] == file_tag()[0]);
            } else {
                assert(p == s.subrange(i, j) + unpack_from(s, j, m));
                let k = w.len() as int;
                if k <= j - i {
                    assert(p.subrange(0, k) =~= s.subrange(i, i + k));
                } else {
                    assert(p.subrange(0, j - i) =~= s.subrange(i, j));
                    assert(s.subrange(i, i + t.len()) =~= t);
                    assert(p.subrange(0, k)[j - i] == p[j - i]);
                    lemma_unpack_head(s, j, m);
                    assert(p[j - i] == s[j]);
                }
            }
        } else {
            let r = unpack_from(s, i + 1, m);
            assert(p == seq![s[i]] + r);
            if w.len() == 1 {
                assert(s.subrange(i, i + 1) =~= w);
            } else {
                let w2 = t.subrange(q + 1, t.len() as int);
                assert(r.subrange(0, w2.len() as int) =~= p.subrange(0, w.len() as int).subrange(1, w.len() as int));
                assert(w2 =~= w.subrange(1, w.len() as int));
                lemma_unpack_tag_tail(s, i + 1, m, q + 1);
                assert(w =~= seq![w[0]] + w2);
                assert(s.subrange(i, i + w.len()) =~= seq![s[i]] + s.subrange(i + 1, i + 1 + w2.len()));
            }
        }
    }
}

proof fn lemma_unpack_twice_from(s: Seq<char>, i: int, m: Seq<(Seq<char>, Seq<char>)>)
    requires
        0 <= i <= s.len(),
        forall|id: Seq<char>| (#[trigger] lookup(m, id)) matches Some(v) ==> no_asset_tag(v),
    ensures
        unpack_from(unpack_from(s, i, m), 0, m) == unpack_from(s, i, m),
    decreases s.len() - i,
{
    let t = asset_tag();
    let u = unpack_from(s, i, m);
    if i == s.len() {
        return;
    }
    lemma_first_term_bounds(s, i + t.len());
    if let Some(j) = token_end(s, i, t) {
        let id = s.subrange(i + t.len(), j);
        let r = unpack_from(s, j, m);
        lemma_unpack_head(s, j, m);
        if let Some(path) = lookup(m, id) {
            let head = file_tag() + path;
            assert(u == head + r);
            assert(no_asset_tag(path));
            assert forall|k: int| 0 <= k < head.len() implies !#[trigger] has_at(u, k, t) by {
                if has_at(u, k, t) {
                    assert(u.subrange(k, k + t.len())[0] == u[k]);
                    if k < file_tag().len() {
                        assert(u[k] == file_tag()[k]);
                    } else if k + t.len() <= head.len() {
                        let z = k - file_tag().len();
                        assert(u.subrange(k, k + t.len()) =~= path.subrange(z, z + t.len()));
                        assert(has_at(path, z, t));
                    } else {
                        assert(u[head.len() as int] == s[j]);
                        assert(u.subrange(k, k + t.len())[head.len() - k] == u[head.len() as int]);
                    }
                }
            }
            lemma_unpack_plain(u, 0, head.len() as int, m);
            assert(u.subrange(0, head.len() as int) =~= head);
            lemma_unpack_suffix(head, r, 0, m);
            lemma_unpack_twice_from(s, j, m);
        } else {
            let head = s.subrange(i, j);
            assert(u == head + r);
            assert(u.subrange(0, t.len() as int) =~= s.subrange(i, i + t.len()));
            assert forall|p: int| t.len() <= p < head.len() implies !is_terminator(#[trigger] u[p]) by {
                assert(u[p] == s[i + p]);
            }
            assert(u[head.len() as int] == s[j]);
            lemma_first_term_at(u, t.len() as int, head.len() as int);
            assert(u.subrange(t.len() as int, head.len() as int) =~= id);
            lemma_unpack_suffix(head, r, 0, m);
            lemma_unpack_twice_from(s, j, m);
        }
    } else {
        let r = unpack_from(s, i + 1, m);
        assert(u == seq![s[i]] + r);
        if has_at(u, 0, t) {
            assert(t.subrange(0, t.len() as int) =~= t);
            lemma_unpack_tag_tail(s, i, m, 0);
            lemma_unpack_no_term(s, i, m, i);
            let x = s.subrange(0, i);
            assert(s =~= x + u);
            lemma_first_term_shift(x, u, t.len() as int);
        }
        lemma_unpack_suffix(seq![s[i]], r, 0, m);
        lemma_unpack_twice_from(s, i + 1, m);
    }
}

/// Unpacking twice gives what unpacking once gives: the first pass leaves
/// each reference it cannot resolve as it is, and the second finds nothing
/// new to rewrite, so long as no path of the map holds an `asset:` tag.
pub proof fn lemma_unpack_idempotent(s: Seq<char>, m: Seq<(Seq<char>, Seq<char>)>)
    requires
        forall|id: Seq<char>| (#[trigger] lookup(m, id)) matches Some(v) ==> no_asset_tag(v),
    ensures
        unpacked(unpacked(s, m), m) == unpacked(s, m),
{
    lemma_unpack_twice_from(s, 0, m);
}

} // verus!
