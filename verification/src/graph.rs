//! The module graph: an owning mapping from canonical specifier to a loaded
//! module record or a recorded per-module error, plus the worklist builder
//! that discovers, resolves and deduplicates dependencies.
use vstd::prelude::*;

use crate::model::{Decl, MediaType};
use crate::resolve::ResolveError;

verus! {

/// A dependency edge that keeps a local binding: `import { name } from src`.
#[derive(Debug)]
pub struct ImportDecl {
    pub name: String,
    pub src: String,
}

/// A re-export edge: all exports of `src` (`name` empty) or one named symbol.
#[derive(Debug)]
pub struct Reexport {
    pub name: Option<String>,
    pub src: String,
}

/// What the declared parser hands over for one module's source.
#[derive(Debug)]
pub struct ModuleSource {
    pub media_type: MediaType,
    pub decls: Vec<Decl>,
    pub imports: Vec<ImportDecl>,
    pub reexports: Vec<Reexport>,
}

/// Outcome of asking a loader for one specifier.
#[derive(Debug)]
pub enum LoadOutcome {
    Found(ModuleSource),
    NotFound,
    Error(String),
}

/// An in-memory loader: parsed sources keyed by canonical specifier.
#[derive(Debug)]
pub struct MemoryLoader {
    pub entries: Vec<(String, LoadOutcome)>,
}

/// First entry of `entries` whose key reads `s`, if any.
pub open spec fn lookup_spec(entries: Seq<(String, LoadOutcome)>, s: Seq<char>) -> Option<
    LoadOutcome,
>
    decreases entries.len(),
{
    if entries.len() == 0 {
        None
    } else if entries[0].0@ == s {
        Some(entries[0].1)
    } else {
        lookup_spec(entries.drop_first(), s)
    }
}

impl MemoryLoader {
    pub open spec fn keys(self) -> Seq<Seq<char>> {
        self.entries@.map_values(|e: (String, LoadOutcome)| e.0@)
    }

    /// Well-formed: one entry per specifier.
    pub open spec fn wf(self) -> bool {
        self.keys().no_duplicates()
    }

    /// The stub loader: it knows no module and answers every load with
    /// `NotFound`. It serves roots whose content is supplied out of band.
    pub fn stub() -> (r: MemoryLoader)
        ensures
            r.wf(),
            r.entries@.len() == 0,
    {
        let r = MemoryLoader { entries: Vec::new() };
        assert(r.keys() =~= Seq::<Seq<char>>::empty());
        r
    }
}

pub proof fn lemma_lookup_at(entries: Seq<(String, LoadOutcome)>, i: int, s: Seq<char>)
    requires
        0 <= i < entries.len(),
        entries[i].0@ == s,
        forall|j: int| 0 <= j < i ==> (#[trigger] entries[j]).0@ != s,
    ensures
        lookup_spec(entries, s) == Some(entries[i].1),
    decreases i,
{
    if i > 0 {
        assert(entries.drop_first()[i - 1] == entries[i]);
        assert(forall|j: int|
            0 <= j < i - 1 ==> (#[trigger] entries.drop_first()[j]) == entries[j + 1]);
        lemma_lookup_at(entries.drop_first(), i - 1, s);
    }
}

pub proof fn lemma_lookup_none(entries: Seq<(String, LoadOutcome)>, s: Seq<char>)
    requires
        forall|j: int| 0 <= j < entries.len() ==> (#[trigger] entries[j]).0@ != s,
    ensures
        lookup_spec(entries, s) is None,
    decreases entries.len(),
{
    if entries.len() > 0 {
        assert(forall|j: int|
            0 <= j < entries.len() - 1 ==> (#[trigger] entries.drop_first()[j]) == entries[j + 1]);
        lemma_lookup_none(entries.drop_first(), s);
    }
}

pub proof fn lemma_lookup_push(entries: Seq<(String, LoadOutcome)>, e: (String, LoadOutcome), t: Seq<char>)
    requires
        t != e.0@,
    ensures
        lookup_spec(entries.push(e), t) == lookup_spec(entries, t),
    decreases entries.len(),
{
    if entries.len() == 0 {
        assert(entries.push(e)[0] == e);
        assert(entries.push(e).drop_first() =~= entries);
    } else {
        assert(entries.push(e)[0] == entries[0]);
        assert(entries.push(e).drop_first() =~= entries.drop_first().push(e));
        lemma_lookup_push(entries.drop_first(), e, t);
    }
}

pub proof fn lemma_lookup_remove(entries: Seq<(String, LoadOutcome)>, i: int, s: Seq<char>)
    requires
        0 <= i < entries.len(),
        entries[i].0@ != s,
    ensures
        lookup_spec(entries.remove(i), s) == lookup_spec(entries, s),
    decreases i,
{
    if i == 0 {
        assert(entries.remove(0) =~= entries.drop_first());
    } else {
        assert(entries.remove(i)[0] == entries[0]);
        assert(entries.remove(i).drop_first() =~= entries.drop_first().remove(i - 1));
        lemma_lookup_remove(entries.drop_first(), i - 1, s);
    }
}

impl MemoryLoader {
    /// Removes and returns the entry for `s`, if one is present.
    pub fn take(&mut self, s: &String) -> (r: Option<LoadOutcome>)
        requires
            old(self).wf(),
        ensures
            final(self).wf(),
            r == lookup_spec(old(self).entries@, s@),
            r is Some ==> final(self).entries@.len() == old(self).entries@.len() - 1,
            r is Some ==> lookup_spec(final(self).entries@, s@) is None,
            r is Some ==> forall|t: Seq<char>|
                t != s@ ==> lookup_spec(final(self).entries@, t) == lookup_spec(
                    old(self).entries@,
                    t,
                ),
            r is None ==> *final(self) == *old(self),
    {
        let n = self.entries.len();
        let mut i: usize = 0;
        while i < n
            invariant
                0 <= i <= n,
                old(self).wf(),
                *self == *old(self),
                n == self.entries@.len(),
                forall|j: int| 0 <= j < i ==> (#[trigger] self.entries@[j]).0@ != s@,
            decreases n - i,
        {
            if self.entries[i].0.eq(s) {
                proof {
                    lemma_lookup_at(self.entries@, i as int, s@);
                }
                let e = self.entries.remove(i);
                proof {
                    let oldv = old(self).entries@;
                    assert forall|t: Seq<char>| t != s@ implies lookup_spec(self.entries@, t)
                        == lookup_spec(oldv, t) by {
                        lemma_lookup_remove(oldv, i as int, t);
                    }
                    let ks = old(self).keys();
                    let ks2 = self.keys();
                    assert(ks2 =~= ks.remove(i as int));
                    ks.remove_ensures(i as int);
                    assert forall|p: int, q: int|
                        0 <= p < ks2.len() && 0 <= q < ks2.len() && p != q implies ks2[p]
                        != ks2[q] by {
                        if p < i {
                            assert(ks.remove(i as int)[p] == ks[p]);
                        } else {
                            assert(ks.remove(i as int)[p] == ks[p + 1]);
                        }
                        if q < i {
                            assert(ks.remove(i as int)[q] == ks[q]);
                        } else {
                            assert(ks.remove(i as int)[q] == ks[q + 1]);
                        }
                        let px: int = if p < i { p } else { p + 1 };
                        let qx: int = if q < i { q } else { q + 1 };
                        assert(px != qx);
                        assert(ks[px] != ks[qx]);
                        assert(ks2[p] == ks.remove(i as int)[p]);
                        assert(ks2[q] == ks.remove(i as int)[q]);
                    }
                    assert forall|j: int|
                        0 <= j < self.entries@.len() implies (#[trigger] self.entries@[j]).0@
                        != s@ by {
                        assert(ks2[j] == (self.entries@[j]).0@);
                        if j < i {
                            assert(ks.remove(i as int)[j] == ks[j]);
                            if ks[j] == s@ {
                                assert(ks[i as int] == s@);
                            }
                        } else {
                            assert(ks.remove(i as int)[j] == ks[j + 1]);
                            if ks[j + 1] == s@ {
                                assert(ks[i as int] == s@);
                            }
                        }
                    }
                    lemma_lookup_none(self.entries@, s@);
                }
                return Some(e.1);
            }
            i = i + 1;
        }
        proof {
            lemma_lookup_none(self.entries@, s@);
        }
        None
    }
}

/// Where a dependency edge points after resolution.
#[derive(Debug)]
pub enum EdgeTarget {
    Resolved(String),
    Unresolved(ResolveError),
}

/// An import edge with its resolution outcome.
#[derive(Debug)]
pub struct ResolvedImport {
    pub name: String,
    pub src: String,
    pub target: EdgeTarget,
}

/// A re-export edge with its resolution outcome.
#[derive(Debug)]
pub struct ResolvedReexport {
    pub name: Option<String>,
    pub src: String,
    pub target: EdgeTarget,
}

/// One successfully loaded module.
#[derive(Debug)]
pub struct ModuleRecord {
    pub media_type: MediaType,
    pub decls: Vec<Decl>,
    pub imports: Vec<ResolvedImport>,
    pub reexports: Vec<ResolvedReexport>,
}

/// Why a module could not be loaded; recorded, not fatal to graph building.
#[derive(Debug)]
pub enum ModuleError {
    NotFound,
    Load(String),
}

/// A graph slot: a module record, or the recorded error.
#[derive(Debug)]
pub enum ModuleSlot {
    Ready(ModuleRecord),
    Failed(ModuleError),
}

#[derive(Debug)]
pub struct GraphEntry {
    pub specifier: String,
    pub slot: ModuleSlot,
}

/// The resolved dependency graph of one root.
#[derive(Debug)]
pub struct ModuleGraph {
    pub root: String,
    pub entries: Vec<GraphEntry>,
}

/// An edge target either failed to resolve or points into the universe.
pub open spec fn target_in(t: EdgeTarget, specs: Seq<Seq<char>>, pend: Seq<Seq<char>>) -> bool {
    t matches EdgeTarget::Resolved(s) ==> specs.contains(s@) || pend.contains(s@)
}

pub open spec fn record_closed(r: ModuleRecord, specs: Seq<Seq<char>>, pend: Seq<Seq<char>>) -> bool {
    &&& forall|j: int|
        0 <= j < r.imports@.len() ==> target_in((#[trigger] r.imports@[j]).target, specs, pend)
    &&& forall|j: int|
        0 <= j < r.reexports@.len() ==> target_in((#[trigger] r.reexports@[j]).target, specs, pend)
}

pub open spec fn slot_closed(slot: ModuleSlot, specs: Seq<Seq<char>>, pend: Seq<Seq<char>>) -> bool {
    slot matches ModuleSlot::Ready(r) ==> record_closed(r, specs, pend)
}

impl ModuleGraph {
    /// The canonical specifiers present, in insertion order.
    pub open spec fn specs(self) -> Seq<Seq<char>> {
        self.entries@.map_values(|e: GraphEntry| e.specifier@)
    }

    pub open spec fn contains_spec(self, s: Seq<char>) -> bool {
        self.specs().contains(s)
    }

    /// Deduplication: one entry per canonical specifier.
    pub open spec fn distinct(self) -> bool {
        self.specs().no_duplicates()
    }

    /// No dangling reference: every resolved edge target is a key.
    pub open spec fn closed(self) -> bool {
        forall|i: int|
            0 <= i < self.entries@.len() ==> slot_closed(
                (#[trigger] self.entries@[i]).slot,
                self.specs(),
                Seq::<Seq<char>>::empty(),
            )
    }

    pub open spec fn wf(self) -> bool {
        self.distinct() && self.closed()
    }

    /// Index of the entry for `s`, if present.
    pub fn find(&self, s: &String) -> (r: Option<usize>)
        ensures
            r matches Some(i) ==> i < self.entries@.len() && self.entries@[i as int].specifier@
                == s@,
            r is None ==> !self.contains_spec(s@),
    {
        let n = self.entries.len();
        let mut i: usize = 0;
        while i < n
            invariant
                0 <= i <= n,
                n == self.entries@.len(),
                forall|j: int| 0 <= j < i ==> (#[trigger] self.entries@[j]).specifier@ != s@,
            decreases n - i,
        {
            if self.entries[i].specifier.eq(s) {
                return Some(i);
            }
            i = i + 1;
        }
        None
    }
}

/// `s` is the target of one of the record's resolved edges.
pub open spec fn record_targets(r: ModuleRecord, s: Seq<char>) -> bool {
    ||| exists|k: int|
        0 <= k < r.imports@.len() && ((#[trigger] r.imports@[k]).target matches
        EdgeTarget::Resolved(t) && t@ == s)
    ||| exists|k: int|
        0 <= k < r.reexports@.len() && ((#[trigger] r.reexports@[k]).target matches
        EdgeTarget::Resolved(t) && t@ == s)
}

/// The slot is a loaded module with a resolved edge to `s`.
pub open spec fn slot_has_target(slot: ModuleSlot, s: Seq<char>) -> bool {
    slot matches ModuleSlot::Ready(r) && record_targets(r, s)
}

/// Some loaded module of the graph has a resolved edge to `s`: nothing but
/// the root enters the graph without such an edge.
pub open spec fn linked(g: ModuleGraph, s: Seq<char>) -> bool {
    exists|j: int|
        0 <= j < g.entries@.len() && slot_has_target((#[trigger] g.entries@[j]).slot, s)
}

/// Deduplication law: in a well-formed graph two positions that carry the
/// same canonical specifier are the same position, so each specifier has
/// exactly one record.
pub proof fn lemma_graph_dedup(g: ModuleGraph, i: int, j: int)
    requires
        g.wf(),
        0 <= i < g.entries@.len(),
        0 <= j < g.entries@.len(),
        g.entries@[i].specifier@ == g.entries@[j].specifier@,
    ensures
        i == j,
{
    assert(g.specs()[i] == g.specs()[j]);
}

/// A specifier contained in a well-formed graph appears at exactly one
/// position, cycles included: after building `A -> B -> A`, both `A` and `B`
/// stand in the mapping once.
pub proof fn lemma_contained_once(g: ModuleGraph, s: Seq<char>)
    requires
        g.wf(),
        g.contains_spec(s),
    ensures
        exists|i: int|
            {
                &&& 0 <= i < g.entries@.len()
                &&& (#[trigger] g.entries@[i]).specifier@ == s
                &&& forall|j: int|
                    0 <= j < g.entries@.len() && (#[trigger] g.entries@[j]).specifier@ == s ==> j
                        == i
            },
{
    let i = choose|i: int| 0 <= i < g.specs().len() && g.specs()[i] == s;
    assert(g.entries@[i].specifier@ == s);
    assert forall|j: int|
        0 <= j < g.entries@.len() && (#[trigger] g.entries@[j]).specifier@ == s implies j == i by {
        lemma_graph_dedup(g, i, j);
    }
}

} // verus!
