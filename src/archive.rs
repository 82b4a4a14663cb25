use vstd::prelude::*;

use crate::names::{lookup, NameMap};
use crate::path::{base_name, file_name, join, joined};
use crate::rewrite::{lemma_packed_identifiers_distinct, packed, rewrite_for_pack, rewrite_for_unpack, unpacked};
use crate::names::keys_of;

verus! {

/// The name of the document entry of an archive.
pub open spec fn document_name() -> Seq<char> {
    seq!['s', 'o', 'u', 'r', 'c', 'e', '.', 'e', 'm', 'm', 'm']
}

/// The directory entry under which the assets of an archive lie.
pub open spec fn assets_dir() -> Seq<char> {
    seq!['a', 's', 's', 'e', 't', 's', '/']
}

/// The name of the document entry.
pub fn document_entry() -> (r: String)
    ensures
        r@ == document_name(),
{
    proof {
        reveal_strlit("source.emmm");
    }
    let r = String::from_str("source.emmm");
    assert(r@ =~= document_name());
    r
}

/// The name of the assets directory entry.
pub fn assets_entry() -> (r: String)
    ensures
        r@ == assets_dir(),
{
    proof {
        reveal_strlit("assets/");
    }
    let r = String::from_str("assets/");
    assert(r@ =~= assets_dir());
    r
}

/// The entry name of the asset with identifier `id`.
pub fn asset_entry(id: &str) -> (r: String)
    ensures
        r@ == assets_dir() + id@,
{
    let mut r = assets_entry();
    r.append(id);
    r
}

/// What unpacking does with an archive entry.
pub enum EntryAction {
    /// The document, a directory, or a name that is not safe: nothing is written.
    Skip,
    /// The entry is written to the output directory under `name`.
    Extract { name: String },
}

/// What is done with an entry whose name, as a relative path enclosed in the
/// output directory, is `enclosed` (`None` where the name is not safe), and
/// which is a file or not.
pub open spec fn entry_action(enclosed: Option<Seq<char>>, is_file: bool) -> Option<Seq<char>> {
    match enclosed {
        Some(p) if is_file && p != document_name() => base_name(p),
        _ => None,
    }
}

/// The characters of an optional name.
pub open spec fn opt_view(o: Option<&str>) -> Option<Seq<char>> {
    match o {
        Some(p) => Some(p@),
        None => None,
    }
}

/// Decides whether an archive entry is extracted, and under which name.
pub fn classify_entry(enclosed: Option<&str>, is_file: bool) -> (r: EntryAction)
    ensures
        r matches EntryAction::Extract { name } ==> entry_action(opt_view(enclosed), is_file) == Some(name@),
        r is Skip ==> entry_action(opt_view(enclosed), is_file) is None,
{
    match enclosed {
        Some(p) => {
            let doc = document_entry();
            if !is_file || String::from_str(p) == doc {
                return EntryAction::Skip;
            }
            match file_name(p) {
                Some(name) => EntryAction::Extract { name },
                None => EntryAction::Skip,
            }
        },
        None => EntryAction::Skip,
    }
}

/// A progress report: `done` of `total` items are processed.
pub struct Progress {
    pub done: usize,
    pub total: usize,
}

/// The reports of one operation over `total` items, one after each item.
pub open spec fn progress_reports(total: nat) -> Seq<(nat, nat)> {
    Seq::new(total, |k: int| ((k + 1) as nat, total))
}

/// The fraction `a` is at most the fraction `b`.
pub open spec fn fraction_le(a: (nat, nat), b: (nat, nat)) -> bool {
    a.0 * b.1 <= b.0 * a.1
}

/// Counts the items of one operation and reports progress after each.
pub struct Tracker {
    done: usize,
    total: usize,
}

impl Tracker {
    pub closed spec fn spec_done(&self) -> nat {
        self.done as nat
    }

    pub closed spec fn spec_total(&self) -> nat {
        self.total as nat
    }

    /// A tracker of `total` items, none processed.
    pub fn new(total: usize) -> (r: Tracker)
        ensures
            r.spec_done() == 0,
            r.spec_total() == total,
    {
        Tracker { done: 0, total }
    }

    /// Whether every item is processed.
    pub fn finished(&self) -> (r: bool)
        ensures
            r == (self.spec_done() >= self.spec_total()),
    {
        self.done >= self.total
    }

    /// Marks one more item processed and returns the report for it.
    pub fn advance(&mut self) -> (r: Progress)
        requires
            old(self).spec_done() < old(self).spec_total(),
        ensures
            final(self).spec_total() == old(self).spec_total(),
            final(self).spec_done() == old(self).spec_done() + 1,
            (r.done as nat, r.total as nat) == progress_reports(old(self).spec_total())[old(self).spec_done() as int],
    {
        self.done = self.done + 1;
        Progress { done: self.done, total: self.total }
    }
}

/// The state of one unpacking: where files go, the identifiers seen so far
/// with the paths their entries were written to, and the progress.
pub struct Unpacker {
    base: String,
    map: NameMap,
    progress: Tracker,
}

impl Unpacker {
    pub closed spec fn spec_base(&self) -> Seq<char> {
        self.base@
    }

    pub closed spec fn spec_map(&self) -> Seq<(Seq<char>, Seq<char>)> {
        self.map@
    }

    pub closed spec fn spec_progress(&self) -> Tracker {
        self.progress
    }

    pub closed spec fn wf(&self) -> bool {
        self.map.wf()
    }

    /// An unpacking into the directory `base` of an archive of `total` entries.
    pub fn new(base: String, total: usize) -> (r: Unpacker)
        ensures
            r.wf(),
            r.spec_base() == base@,
            r.spec_map().len() == 0,
            r.spec_progress().spec_done() == 0,
            r.spec_progress().spec_total() == total,
    {
        Unpacker { base, map: NameMap::new(), progress: Tracker::new(total) }
    }

    /// Takes the next entry: returns the path to write it to, if it is
    /// extracted, and the progress report after it. An extracted entry's
    /// name is recorded with that path.
    pub fn entry(&mut self, enclosed: Option<&str>, is_file: bool) -> (r: (Option<String>, Progress))
        requires
            old(self).wf(),
            old(self).spec_progress().spec_done() < old(self).spec_progress().spec_total(),
        ensures
            final(self).wf(),
            final(self).spec_base() == old(self).spec_base(),
            final(self).spec_progress().spec_total() == old(self).spec_progress().spec_total(),
            final(self).spec_progress().spec_done() == old(self).spec_progress().spec_done() + 1,
            (r.1.done as nat, r.1.total as nat) == progress_reports(old(self).spec_progress().spec_total())[
                old(self).spec_progress().spec_done() as int],
            entry_action(opt_view(enclosed), is_file) is None ==> r.0 is None,
            entry_action(opt_view(enclosed), is_file) is None ==> final(self).spec_map() == old(self).spec_map(),
            entry_action(opt_view(enclosed), is_file) matches Some(name) ==> (r.0 matches Some(dest) && dest@
                == joined(old(self).spec_base(), name)),
            entry_action(opt_view(enclosed), is_file) matches Some(name) ==> lookup(final(self).spec_map(), name)
                == Some(joined(old(self).spec_base(), name)),
            entry_action(opt_view(enclosed), is_file) matches Some(name) ==> forall|k: Seq<char>|
                k != name ==> lookup(final(self).spec_map(), k) == lookup(old(self).spec_map(), k),
    {
        let target = match classify_entry(enclosed, is_file) {
            EntryAction::Extract { name } => {
                let dest = join(self.base.as_str(), name.as_str());
                let ghost nv = name@;
                let ghost before = self.map;
                self.map.insert(name, dest.clone());
                assert forall|k: Seq<char>| k != nv implies lookup(self.map@, k) == lookup(before@, k) by {
                    assert(self.map.spec_get(k) == before.spec_get(k));
                }
                assert(lookup(self.map@, nv) == Some(dest@));
                Some(dest)
            },
            EntryAction::Skip => None,
        };
        let p = self.progress.advance();
        (target, p)
    }

    /// The document `source` with each reference to an extracted entry
    /// pointed at the file it was written to.
    pub fn restore(&self, source: &str) -> (r: String)
        ensures
            r@ == unpacked(source@, self.spec_map()),
    {
        rewrite_for_unpack(source, &self.map)
    }
}

/// What packing a document writes: its rewritten text, and for each
/// referenced file, in order, the entry it goes to and the path it is read from.
pub struct PackPlan {
    document: String,
    map: NameMap,
}

impl PackPlan {
    pub closed spec fn spec_document(&self) -> Seq<char> {
        self.document@
    }

    pub closed spec fn spec_map(&self) -> Seq<(Seq<char>, Seq<char>)> {
        self.map@
    }

    /// The plan for packing the document `source`.
    pub fn new(source: &str) -> (r: PackPlan)
        ensures
            r.spec_document() == packed(source@).0,
            r.spec_map() == packed(source@).1,
    {
        let (document, map) = rewrite_for_pack(source);
        PackPlan { document, map }
    }

    /// The rewritten document.
    pub fn document(&self) -> (r: &String)
        ensures
            r@ == self.spec_document(),
    {
        &self.document
    }

    /// The number of assets.
    pub fn asset_count(&self) -> (r: usize)
        ensures
            r == self.spec_map().len(),
    {
        self.map.len()
    }

    /// The entry name of the `i`-th asset and the path it is read from.
    pub fn asset(&self, i: usize) -> (r: (String, &String))
        requires
            i < self.spec_map().len(),
        ensures
            r.0@ == assets_dir() + self.spec_map()[i as int].0,
            r.1@ == self.spec_map()[i as int].1,
    {
        (asset_entry(self.map.key_at(i).as_str()), self.map.value_at(i))
    }
}

/// Packing writes each referenced file to an entry of its own: no two
/// assets of a plan share an entry name, even where their paths share a
/// base name.
pub proof fn lemma_asset_entries_distinct(source: Seq<char>)
    ensures
        forall|i: int, j: int|
            0 <= i < packed(source).1.len() && 0 <= j < packed(source).1.len() && i != j ==> assets_dir()
                + #[trigger] packed(source).1[i].0 != assets_dir() + #[trigger] packed(source).1[j].0,
{
    let m = packed(source).1;
    lemma_packed_identifiers_distinct(source);
    assert forall|i: int, j: int| 0 <= i < m.len() && 0 <= j < m.len() && i != j implies assets_dir()
        + #[trigger] m[i].0 != assets_dir() + #[trigger] m[j].0 by {
        assert(keys_of(m)[i] == m[i].0 && keys_of(m)[j] == m[j].0);
        if assets_dir() + m[i].0 == assets_dir() + m[j].0 {
            let n = assets_dir().len() as int;
            assert(m[i].0 =~= (assets_dir() + m[i].0).subrange(n, n + m[i].0.len()));
            assert(m[j].0 =~= (assets_dir() + m[j].0).subrange(n, n + m[j].0.len()));
        }
    }
}

/// The reports of one operation never go back, and the last one is the
/// whole; an operation over no items reports nothing.
pub proof fn lemma_progress_monotone(total: nat)
    ensures
        forall|i: int, j: int|
            0 <= i <= j < total ==> fraction_le(
                #[trigger] progress_reports(total)[i],
                #[trigger] progress_reports(total)[j],
            ),
        total > 0 ==> progress_reports(total).last() == (total, total),
        total == 0 ==> progress_reports(total).len() == 0,
{
    assert forall|i: int, j: int| 0 <= i <= j < total implies fraction_le(
        #[trigger] progress_reports(total)[i],
        #[trigger] progress_reports(total)[j],
    ) by {
        assert(((i + 1) as nat) * total <= ((j + 1) as nat) * total) by (nonlinear_arith)
            requires
                0 <= i <= j;
    }
}

} // verus!
