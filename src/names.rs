use vstd::prelude::*;
use vstd::set_lib::lemma_len_subset;

verus! {

/// The decimal digits, by value.
pub open spec fn digits() -> Seq<char> {
    seq!['0', '1', '2', '3', '4', '5', '6', '7', '8', '9']
}

/// The decimal notation of `n`, without leading zeros.
pub open spec fn decimal(n: nat) -> Seq<char>
    decreases n,
{
    if n < 10 {
        seq![digits()[n as int]]
    } else {
        decimal(n / 10).push(digits()[(n % 10) as int])
    }
}

/// The `n`-th alternative identifier for `name`: `"{n}_{name}"`.
pub open spec fn candidate(n: nat, name: Seq<char>) -> Seq<char> {
    decimal(n) + seq!['_'] + name
}

/// The identifiers of a list of (identifier, path) pairs, in order.
pub open spec fn keys_of(entries: Seq<(Seq<char>, Seq<char>)>) -> Seq<Seq<char>> {
    entries.map_values(|e: (Seq<char>, Seq<char>)| e.0)
}

/// `n` is the smallest number whose alternative identifier for `name` is unused.
pub open spec fn is_first_free(keys: Seq<Seq<char>>, name: Seq<char>, n: nat) -> bool {
    &&& !keys.contains(candidate(n, name))
    &&& forall|m: nat| m < n ==> keys.contains(#[trigger] candidate(m, name))
}

/// The identifier given to a file whose base name is `name` when `keys` are
/// already taken: `name` itself if it is free, else `"{n}_{name}"` for the
/// smallest `n` that is free.
pub open spec fn fresh_name(keys: Seq<Seq<char>>, name: Seq<char>) -> Seq<char> {
    if !keys.contains(name) {
        name
    } else {
        candidate(choose|n: nat| is_first_free(keys, name, n), name)
    }
}

/// The value recorded for `key`; the latest entry wins.
pub open spec fn lookup(entries: Seq<(Seq<char>, Seq<char>)>, key: Seq<char>) -> Option<Seq<char>>
    decreases entries.len(),
{
    if entries.len() == 0 {
        None
    } else if entries.last().0 == key {
        Some(entries.last().1)
    } else {
        lookup(entries.drop_last(), key)
    }
}

pub proof fn lemma_decimal_digits(n: nat)
    ensures
        decimal(n).len() >= 1,
        forall|i: int| 0 <= i < decimal(n).len() ==> digits().contains(#[trigger] decimal(n)[i]),
    decreases n,
{
    if n < 10 {
        assert(digits()[n as int] == decimal(n)[0]);
    } else {
        lemma_decimal_digits(n / 10);
        let d = decimal(n);
        assert forall|i: int| 0 <= i < d.len() implies digits().contains(#[trigger] d[i]) by {
            if i < d.len() - 1 {
                assert(d[i] == decimal(n / 10)[i]);
            } else {
                assert(d[i] == digits()[(n % 10) as int]);
            }
        }
    }
}

proof fn lemma_digits_distinct(a: int, b: int)
    requires
        0 <= a < 10,
        0 <= b < 10,
        digits()[a] == digits()[b],
    ensures
        a == b,
{
    let d = digits();
    assert(d[0] == '0' && d[1] == '1' && d[2] == '2' && d[3] == '3' && d[4] == '4');
    assert(d[5] == '5' && d[6] == '6' && d[7] == '7' && d[8] == '8' && d[9] == '9');
}

proof fn lemma_decimal_injective(m: nat, n: nat)
    requires
        decimal(m) == decimal(n),
    ensures
        m == n,
    decreases m + n,
{
    lemma_decimal_digits(m / 10);
    lemma_decimal_digits(n / 10);
    if m >= 10 && n >= 10 {
        assert(decimal(m).drop_last() =~= decimal(m / 10));
        assert(decimal(n).drop_last() =~= decimal(n / 10));
        lemma_decimal_injective(m / 10, n / 10);
        assert(decimal(m).last() == digits()[(m % 10) as int]);
        assert(decimal(n).last() == digits()[(n % 10) as int]);
        lemma_digits_distinct((m % 10) as int, (n % 10) as int);
        assert(m == 10 * (m / 10) + m % 10);
        assert(n == 10 * (n / 10) + n % 10);
    } else if m < 10 && n < 10 {
        assert(decimal(m)[0] == digits()[m as int]);
        assert(decimal(n)[0] == digits()[n as int]);
        lemma_digits_distinct(m as int, n as int);
    } else if m < 10 {
        assert(decimal(n).len() == decimal(n / 10).len() + 1);
    } else {
        assert(decimal(m).len() == decimal(m / 10).len() + 1);
    }
}

/// Different numbers give different alternative identifiers.
pub proof fn lemma_candidate_injective(m: nat, n: nat, name: Seq<char>)
    requires
        candidate(m, name) == candidate(n, name),
    ensures
        m == n,
{
    lemma_decimal_digits(m);
    lemma_decimal_digits(n);
    let (dm, dn) = (decimal(m), decimal(n));
    let (cm, cn) = (candidate(m, name), candidate(n, name));
    if dm.len() < dn.len() {
        assert(cm[dm.len() as int] == '_');
        assert(cn[dm.len() as int] == dn[dm.len() as int]);
        assert(digits().contains('_'));
    } else if dn.len() < dm.len() {
        assert(cn[dn.len() as int] == '_');
        assert(cm[dn.len() as int] == dm[dn.len() as int]);
        assert(digits().contains('_'));
    } else {
        assert(dm =~= cm.take(dm.len() as int));
        assert(dn =~= cn.take(dn.len() as int));
        lemma_decimal_injective(m, n);
    }
}

proof fn lemma_candidate_set(name: Seq<char>, n: nat) -> (r: Set<Seq<char>>)
    ensures
        r.finite(),
        r.len() == n,
        forall|x: Seq<char>| r.contains(x) <==> exists|m: nat| m < n && x == candidate(m, name),
    decreases n,
{
    if n == 0 {
        Set::empty()
    } else {
        let prev = lemma_candidate_set(name, (n - 1) as nat);
        let c = candidate((n - 1) as nat, name);
        if prev.contains(c) {
            let m = choose|m: nat| m < n - 1 && c == candidate(m, name);
            lemma_candidate_injective(m, (n - 1) as nat, name);
        }
        let r = prev.insert(c);
        assert forall|x: Seq<char>| r.contains(x) <==> exists|m: nat| m < n && x == candidate(m, name) by {
            if exists|m: nat| m < n && x == candidate(m, name) {
                let m = choose|m: nat| m < n && x == candidate(m, name);
                if m < n - 1 {
                    assert(prev.contains(x));
                }
            }
        }
        r
    }
}

proof fn lemma_first_free_exists(keys: Seq<Seq<char>>, name: Seq<char>, n: nat)
    requires
        forall|m: nat| m < n ==> keys.contains(#[trigger] candidate(m, name)),
    ensures
        exists|k: nat| is_first_free(keys, name, k),
    decreases keys.len() + 1 - n,
{
    if !keys.contains(candidate(n, name)) {
        assert(is_first_free(keys, name, n));
    } else {
        let c = lemma_candidate_set(name, n + 1);
        assert forall|x: Seq<char>| c.contains(x) implies keys.to_set().contains(x) by {
            let m = choose|m: nat| m < n + 1 && x == candidate(m, name);
            assert(keys.contains(candidate(m, name)));
        }
        lemma_len_subset(c, keys.to_set());
        keys.lemma_cardinality_of_set();
        lemma_first_free_exists(keys, name, n + 1);
    }
}

/// The identifier chosen for a base name is never one already taken.
pub proof fn lemma_fresh_name_is_free(keys: Seq<Seq<char>>, name: Seq<char>)
    ensures
        !keys.contains(fresh_name(keys, name)),
{
    if keys.contains(name) {
        lemma_first_free_exists(keys, name, 0);
    }
}

/// Every character of a fresh identifier is a digit, an underscore, or a
/// character of the base name.
pub proof fn lemma_fresh_name_chars(keys: Seq<Seq<char>>, name: Seq<char>)
    ensures
        forall|k: int|
            0 <= k < fresh_name(keys, name).len() ==> {
                let c = #[trigger] fresh_name(keys, name)[k];
                name.contains(c) || c == '_' || digits().contains(c)
            },
{
    if keys.contains(name) {
        let n = choose|n: nat| is_first_free(keys, name, n);
        let d = decimal(n);
        let f = candidate(n, name);
        lemma_decimal_digits(n);
        assert forall|k: int| 0 <= k < f.len() implies {
            let c = #[trigger] f[k];
            name.contains(c) || c == '_' || digits().contains(c)
        } by {
            if k < d.len() {
                assert(f[k] == d[k]);
            } else if k == d.len() {
                assert(f[k] == '_');
            } else {
                assert(f[k] == name[k - d.len() - 1]);
            }
        }
    } else {
        assert forall|k: int| 0 <= k < name.len() implies name.contains(#[trigger] name[k]) by {}
    }
}

/// The digits are the characters `0` to `9`.
pub proof fn lemma_digit_chars(c: char)
    requires
        digits().contains(c),
    ensures
        c == '0' || c == '1' || c == '2' || c == '3' || c == '4' || c == '5' || c == '6' || c == '7'
            || c == '8' || c == '9',
{
    let d = digits();
    let k = choose|k: int| 0 <= k < d.len() && d[k] == c;
    assert(d[0] == '0' && d[1] == '1' && d[2] == '2' && d[3] == '3' && d[4] == '4');
    assert(d[5] == '5' && d[6] == '6' && d[7] == '7' && d[8] == '8' && d[9] == '9');
}

/// With unique identifiers, looking up an entry's identifier gives its path.
pub proof fn lemma_lookup_unique(entries: Seq<(Seq<char>, Seq<char>)>, k: int)
    requires
        keys_of(entries).no_duplicates(),
        0 <= k < entries.len(),
    ensures
        lookup(entries, entries[k].0) == Some(entries[k].1),
    decreases entries.len(),
{
    if k < entries.len() - 1 {
        let d = entries.drop_last();
        assert(keys_of(entries)[k] == entries[k].0);
        assert(keys_of(entries)[entries.len() - 1] == entries.last().0);
        assert(keys_of(d) =~= keys_of(entries).drop_last());
        lemma_lookup_unique(d, k);
        assert(d[k] == entries[k]);
    }
}

/// Appends the decimal notation of `n` to `out`.
pub fn push_decimal(out: &mut String, n: usize)
    ensures
        final(out)@ == old(out)@ + decimal(n as nat),
    decreases n,
{
    if n >= 10 {
        push_decimal(out, n / 10);
    }
    let d: usize = n % 10;
    proof {
        reveal_strlit("0123456789");
    }
    out.append("0123456789".substring_char(d, d + 1));
    assert(decimal(n as nat) =~= if n < 10 {
        seq![digits()[n as int]]
    } else {
        decimal((n / 10) as nat).push(digits()[(n % 10) as int])
    });
}

/// A map from archive-local identifiers to file paths, in insertion order.
pub struct NameMap {
    entries: Vec<(String, String)>,
}

impl View for NameMap {
    type V = Seq<(Seq<char>, Seq<char>)>;

    closed spec fn view(&self) -> Seq<(Seq<char>, Seq<char>)> {
        self.entries.deep_view()
    }
}

impl NameMap {
    /// Each identifier occurs once.
    pub open spec fn wf(&self) -> bool {
        keys_of(self@).no_duplicates()
    }

    /// The path recorded for `key`.
    pub open spec fn spec_get(&self, key: Seq<char>) -> Option<Seq<char>> {
        lookup(self@, key)
    }

    pub fn new() -> (r: NameMap)
        ensures
            r@ == Seq::<(Seq<char>, Seq<char>)>::empty(),
            r.wf(),
    {
        let r = NameMap { entries: Vec::new() };
        assert(r@ =~= Seq::<(Seq<char>, Seq<char>)>::empty());
        r
    }

    /// The number of entries.
    pub fn len(&self) -> (r: usize)
        ensures
            r == self@.len(),
    {
        self.entries.len()
    }

    /// The identifier of the `i`-th entry.
    pub fn key_at(&self, i: usize) -> (r: &String)
        requires
            i < self@.len(),
        ensures
            r@ == self@[i as int].0,
    {
        &self.entries[i].0
    }

    /// The path of the `i`-th entry.
    pub fn value_at(&self, i: usize) -> (r: &String)
        requires
            i < self@.len(),
        ensures
            r@ == self@[i as int].1,
    {
        &self.entries[i].1
    }

    /// The index of the last entry whose identifier is `key`.
    fn position(&self, key: &String) -> (r: Option<usize>)
        ensures
            r is None ==> !keys_of(self@).contains(key@) && self.spec_get(key@) is None,
            r matches Some(i) ==> i < self@.len() && self@[i as int].0 == key@
                && self.spec_get(key@) == Some(self@[i as int].1),
    {
        let mut i: usize = self.entries.len();
        assert(self@.take(i as int) =~= self@);
        while i > 0
            invariant
                i <= self@.len(),
                forall|j: int| i <= j < self@.len() ==> self@[j].0 != key@,
                lookup(self@, key@) == lookup(self@.take(i as int), key@),
            decreases i,
        {
            assert(self@.take(i as int).drop_last() =~= self@.take(i - 1));
            assert(self.entries@[i - 1].0@ == self@[i - 1].0);
            if self.entries[i - 1].0 == *key {
                return Some(i - 1);
            }
            i = i - 1;
        }
        assert(forall|j: int| 0 <= j < self@.len() ==> keys_of(self@)[j] == self@[j].0);
        None
    }

    /// Whether `key` is an identifier of the map.
    pub fn contains_key(&self, key: &String) -> (r: bool)
        ensures
            r == keys_of(self@).contains(key@),
    {
        match self.position(key) {
            Some(i) => {
                assert(keys_of(self@)[i as int] == key@);
                true
            },
            None => false,
        }
    }

    /// The path recorded for `key`.
    pub fn get(&self, key: &String) -> (r: Option<&String>)
        ensures
            r matches Some(v) ==> self.spec_get(key@) == Some(v@),
            r is None ==> self.spec_get(key@) is None,
    {
        match self.position(key) {
            Some(i) => Some(&self.entries[i].1),
            None => None,
        }
    }

    /// Records `key -> value`, replacing the path of an existing `key` in place.
    pub fn insert(&mut self, key: String, value: String)
        requires
            old(self).wf(),
        ensures
            final(self).wf(),
            final(self).spec_get(key@) == Some(value@),
            forall|k: Seq<char>| k != key@ ==> final(self).spec_get(k) == old(self).spec_get(k),
            keys_of(old(self)@).contains(key@) ==> keys_of(final(self)@) == keys_of(old(self)@),
            !keys_of(old(self)@).contains(key@) ==> final(self)@ == old(self)@.push((key@, value@)),
    {
        match self.position(&key) {
            Some(i) => {
                let ghost before = self@;
                assert(keys_of(before)[i as int] == key@);
                self.entries.set(i, (key, value));
                proof {
                    assert(self@ =~= before.update(i as int, (key@, value@)));
                    assert(keys_of(self@) =~= keys_of(before));
                    lemma_lookup_update(before, i as int, value@);
                }
            },
            None => {
                let ghost before = self@;
                self.entries.push((key, value));
                proof {
                    assert(self@ =~= before.push((key@, value@)));
                    assert(keys_of(self@) =~= keys_of(before).push(key@));
                    assert(self@.drop_last() =~= before);
                }
            },
        }
    }
}

proof fn lemma_lookup_update(s: Seq<(Seq<char>, Seq<char>)>, i: int, v: Seq<char>)
    requires
        0 <= i < s.len(),
        keys_of(s).no_duplicates(),
    ensures
        lookup(s.update(i, (s[i].0, v)), s[i].0) == Some(v),
        forall|k: Seq<char>| k != s[i].0 ==> lookup(s.update(i, (s[i].0, v)), k) == lookup(s, k),
    decreases s.len(),
{
    let t = s.update(i, (s[i].0, v));
    if i < s.len() - 1 {
        assert(keys_of(s)[i] == s[i].0 && keys_of(s)[s.len() - 1] == s.last().0);
        assert(t.drop_last() =~= s.drop_last().update(i, (s[i].0, v)));
        assert(keys_of(s.drop_last()) =~= keys_of(s).drop_last());
        lemma_lookup_update(s.drop_last(), i, v);
        assert(t.last() == s.last());
        assert forall|k: Seq<char>| k != s[i].0 implies lookup(t, k) == lookup(s, k) by {
            if s.last().0 != k {
                assert(lookup(t, k) == lookup(t.drop_last(), k));
                assert(lookup(s, k) == lookup(s.drop_last(), k));
            } else {
                assert(lookup(t, k) == Some(t.last().1));
                assert(lookup(s, k) == Some(s.last().1));
            }
        }
    } else {
        assert(t.drop_last() =~= s.drop_last());
        assert(t.last().0 == s.last().0);
        assert forall|k: Seq<char>| k != s[i].0 implies lookup(t, k) == lookup(s, k) by {
            assert(lookup(t, k) == lookup(t.drop_last(), k));
        }
    }
}

/// The identifier for a file with base name `name`, given the map built so far.
pub fn fresh_identifier(map: &NameMap, name: &String) -> (r: String)
    requires
        map.wf(),
    ensures
        r@ == fresh_name(keys_of(map@), name@),
        !keys_of(map@).contains(r@),
{
    let ghost keys = keys_of(map@);
    if !map.contains_key(name) {
        return name.clone();
    }
    let total = map.len();
    let mut n: usize = 0;
    let ghost mut seen: Set<Seq<char>> = Set::empty();
    loop
        invariant
            map.wf(),
            keys == keys_of(map@),
            keys.contains(name@),
            keys.len() == total,
            seen.finite(),
            seen.len() == n,
            seen.subset_of(keys.to_set()),
            n <= keys.len(),
            forall|x: Seq<char>| seen.contains(x) ==> exists|m: nat| m < n && x == candidate(m, name@),
            forall|m: nat| m < n ==> keys.contains(#[trigger] candidate(m, name@)),
        decreases keys.len() - n,
    {
        let mut c = String::new();
        push_decimal(&mut c, n);
        proof {
            reveal_strlit("_");
        }
        c.append("_");
        c.append(name.as_str());
        assert(c@ == candidate(n as nat, name@));
        if !map.contains_key(&c) {
            proof {
                assert(is_first_free(keys, name@, n as nat));
                let k = choose|k: nat| is_first_free(keys, name@, k);
                if k < n {
                    assert(keys.contains(candidate(k, name@)));
                } else if k > n {
                    assert(keys.contains(candidate(n as nat, name@)));
                }
            }
            return c;
        }
        proof {
            if seen.contains(c@) {
                let m = choose|m: nat| m < n && c@ == candidate(m, name@);
                lemma_candidate_injective(m, n as nat, name@);
            }
            seen = seen.insert(c@);
            keys.lemma_cardinality_of_set();
            lemma_len_subset(seen, keys.to_set());
            assert forall|x: Seq<char>| seen.contains(x) implies exists|m: nat| m < n + 1 && x == candidate(m, name@) by {
                if x == c@ {
                    assert(x == candidate(n as nat, name@));
                }
            }
        }
        n = n + 1;
    }
}

} // verus!
