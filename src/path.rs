use vstd::prelude::*;

verus! {

/// `p` without its trailing separators and trailing `.` components.
pub open spec fn trim_tail(p: Seq<char>) -> Seq<char>
    decreases p.len(),
{
    if p.len() > 0 && p.last() == '/' {
        trim_tail(p.drop_last())
    } else if p.len() > 0 && p.last() == '.' && (p.len() == 1 || p[p.len() - 2] == '/') {
        trim_tail(p.drop_last())
    } else {
        p
    }
}

/// Index just after the last separator of `p` (0 when there is none).
pub open spec fn last_sep_end(p: Seq<char>) -> int
    decreases p.len(),
{
    if p.len() == 0 {
        0
    } else if p.last() == '/' {
        p.len() as int
    } else {
        last_sep_end(p.drop_last())
    }
}

/// The final component of a path, as for a Unix path: `None` for the empty
/// path, the root, and a path that ends in `..`.
pub open spec fn base_name(p: Seq<char>) -> Option<Seq<char>> {
    let t = trim_tail(p);
    let c = t.subrange(last_sep_end(t), t.len() as int);
    if c.len() == 0 || c == seq!['.', '.'] {
        None
    } else {
        Some(c)
    }
}

/// `name` appended to the directory `dir`, with a separator between them
/// unless `dir` is empty or already ends in one.
pub open spec fn joined(dir: Seq<char>, name: Seq<char>) -> Seq<char> {
    if dir.len() == 0 || dir.last() == '/' {
        dir + name
    } else {
        dir + seq!['/'] + name
    }
}

pub proof fn lemma_last_sep_end_bounds(p: Seq<char>)
    ensures
        0 <= last_sep_end(p) <= p.len(),
    decreases p.len(),
{
    if p.len() > 0 && p.last() != '/' {
        lemma_last_sep_end_bounds(p.drop_last());
    }
}

pub proof fn lemma_trim_tail_prefix(p: Seq<char>)
    ensures
        trim_tail(p).len() <= p.len(),
        trim_tail(p) == p.take(trim_tail(p).len() as int),
    decreases p.len(),
{
    if p.len() > 0 && (p.last() == '/' || (p.last() == '.' && (p.len() == 1 || p[p.len() - 2] == '/'))) {
        lemma_trim_tail_prefix(p.drop_last());
        assert(p.drop_last().take(trim_tail(p).len() as int) =~= p.take(trim_tail(p).len() as int));
    } else {
        assert(p.take(p.len() as int) =~= p);
    }
}

/// Every character of a base name is a character of its path.
pub proof fn lemma_base_name_chars(p: Seq<char>)
    ensures
        base_name(p) matches Some(n) ==> forall|k: int| 0 <= k < n.len() ==> p.contains(#[trigger] n[k]),
{
    let t = trim_tail(p);
    lemma_trim_tail_prefix(p);
    lemma_last_sep_end_bounds(t);
    if let Some(n) = base_name(p) {
        assert forall|k: int| 0 <= k < n.len() implies p.contains(#[trigger] n[k]) by {
            assert(n[k] == p[last_sep_end(t) + k]);
        }
    }
}

/// The characters of `s`, in order.
pub fn chars_of(s: &str) -> (r: Vec<char>)
    ensures
        r@ == s@,
{
    let mut r: Vec<char> = Vec::new();
    for c in it: s.chars()
        invariant
            r@ == it.seq().take(it.index() as int),
    {
        r.push(c);
    }
    r
}

/// The final component of the path `p`, or `None` where it has none.
pub fn file_name(p: &str) -> (r: Option<String>)
    ensures
        r matches Some(n) ==> base_name(p@) == Some(n@),
        r is None ==> base_name(p@) is None,
{
    let c = chars_of(p);
    let mut end: usize = c.len();
    assert(c@.take(end as int) =~= c@);
    while end > 0 && (c[end - 1] == '/' || (c[end - 1] == '.' && (end == 1 || c[end - 2] == '/')))
        invariant
            end <= c@.len(),
            c@ == p@,
            trim_tail(p@) == trim_tail(c@.take(end as int)),
        decreases end,
    {
        assert(c@.take(end as int).drop_last() == c@.take(end - 1));
        end = end - 1;
    }
    let ghost t = c@.take(end as int);
    assert(trim_tail(t) == t);
    let mut start: usize = end;
    assert(t.take(start as int) =~= t);
    while start > 0 && c[start - 1] != '/'
        invariant
            start <= end <= c@.len(),
            c@ == p@,
            t == c@.take(end as int),
            last_sep_end(t) == last_sep_end(t.take(start as int)),
        decreases start,
    {
        assert(t.take(start as int).drop_last() == t.take(start - 1));
        start = start - 1;
    }
    assert(last_sep_end(t.take(start as int)) == start);
    let dotdot = end - start == 2 && c[start] == '.' && c[start + 1] == '.';
    if start == end || dotdot {
        assert(start == end ==> t.subrange(start as int, end as int).len() == 0);
        assert(dotdot ==> t.subrange(start as int, end as int) =~= seq!['.', '.']);
        None
    } else {
        let r = String::from_str(p.substring_char(start, end));
        assert(r@ =~= t.subrange(start as int, end as int));
        Some(r)
    }
}

/// The path of the entry `name` inside the directory `dir`.
pub fn join(dir: &str, name: &str) -> (r: String)
    ensures
        r@ == joined(dir@, name@),
{
    let n = dir.unicode_len();
    let mut r = String::from_str(dir);
    if n > 0 && dir.get_char(n - 1) != '/' {
        r.append("/");
    }
    proof {
        reveal_strlit("/");
    }
    r.append(name);
    r
}

} // verus!
