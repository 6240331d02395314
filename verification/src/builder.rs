//! Graph construction: a worklist of discovered-but-unloaded specifiers,
//! one load per canonical specifier, errors recorded as data, and
//! termination even on cyclic graphs.
use vstd::prelude::*;

use crate::graph::{
    linked, lookup_spec, record_closed, record_targets, slot_closed, slot_has_target, target_in,
    EdgeTarget, GraphEntry, LoadOutcome, MemoryLoader, ModuleError, ModuleGraph, ModuleRecord,
    ModuleSlot, ModuleSource, ResolvedImport, ResolvedReexport,
};
use crate::resolve::{resolver_spec, DocResolver};
use crate::text::vec_contains_str;

verus! {

pub open spec fn opt_str_view(o: Option<String>) -> Option<Seq<char>> {
    match o {
        Some(s) => Some(s@),
        None => None,
    }
}

/// A recorded edge target agrees with what the resolver says of the raw
/// specifier against the referrer.
pub open spec fn edge_matches(
    t: EdgeTarget,
    r: DocResolver,
    raw: Seq<char>,
    referrer: Seq<char>,
) -> bool {
    match resolver_spec(r, raw, referrer) {
        Ok(c) => t matches EdgeTarget::Resolved(s) && s@ == c,
        Err(e) => t matches EdgeTarget::Unresolved(e2) && e2 == e,
    }
}

/// The slot recorded for a specifier reflects the load outcome: failures
/// are kept as data, and a found source keeps its declarations and has
/// every dependency edge resolved by the resolver.
pub open spec fn slot_matches(
    slot: ModuleSlot,
    outcome: LoadOutcome,
    r: DocResolver,
    referrer: Seq<char>,
) -> bool {
    match outcome {
        LoadOutcome::NotFound => slot == ModuleSlot::Failed(ModuleError::NotFound),
        LoadOutcome::Error(m) => slot matches ModuleSlot::Failed(ModuleError::Load(m2)) && m2@
            == m@,
        LoadOutcome::Found(src) => slot matches ModuleSlot::Ready(rec) && {
            &&& rec.media_type == src.media_type
            &&& rec.decls == src.decls
            &&& rec.imports@.len() == src.imports@.len()
            &&& forall|j: int|
                0 <= j < src.imports@.len() ==> {
                    &&& (#[trigger] rec.imports@[j]).name@ == src.imports@[j].name@
                    &&& rec.imports@[j].src@ == src.imports@[j].src@
                    &&& edge_matches(rec.imports@[j].target, r, src.imports@[j].src@, referrer)
                }
            &&& rec.reexports@.len() == src.reexports@.len()
            &&& forall|j: int|
                0 <= j < src.reexports@.len() ==> {
                    &&& opt_str_view((#[trigger] rec.reexports@[j]).name) == opt_str_view(
                        src.reexports@[j].name,
                    )
                    &&& rec.reexports@[j].src@ == src.reexports@[j].src@
                    &&& edge_matches(rec.reexports@[j].target, r, src.reexports@[j].src@, referrer)
                }
        },
    }
}

pub proof fn lemma_contains_push<A>(s: Seq<A>, x: A, y: A)
    requires
        s.contains(y),
    ensures
        s.push(x).contains(y),
{
    let i = choose|i: int| 0 <= i < s.len() && s[i] == y;
    assert(s.push(x)[i] == y);
}

/// `s` is a resolved target among edges not yet assembled into a record.
pub open spec fn lists_target(
    ims: Seq<ResolvedImport>,
    rxs: Seq<ResolvedReexport>,
    s: Seq<char>,
) -> bool {
    ||| exists|k: int|
        0 <= k < ims.len() && ((#[trigger] ims[k]).target matches EdgeTarget::Resolved(t) && t@
            == s)
    ||| exists|k: int|
        0 <= k < rxs.len() && ((#[trigger] rxs[k]).target matches EdgeTarget::Resolved(t) && t@
            == s)
}

/// A link survives appending one entry to the graph.
proof fn lemma_linked_extend(g1: ModuleGraph, g2: ModuleGraph, s: Seq<char>)
    requires
        linked(g1, s),
        g2.entries@.len() == g1.entries@.len() + 1,
        g2.entries@.drop_last() == g1.entries@,
    ensures
        linked(g2, s),
{
    let j = choose|j: int| 0 <= j < g1.entries@.len() && slot_has_target(g1.entries@[j].slot, s);
    assert(g2.entries@.drop_last()[j] == g1.entries@[j]);
    assert(slot_has_target(g2.entries@[j].slot, s));
}

/// The incremental graph builder: ask `next_specifier`, load it by any
/// means, and hand the outcome to `provide`; repeat while work remains.
pub struct GraphBuilder {
    pub graph: ModuleGraph,
    pub pending: Vec<String>,
    pub resolver: DocResolver,
}

impl GraphBuilder {
    /// Discovered specifiers not yet loaded.
    pub open spec fn pend(self) -> Seq<Seq<char>> {
        self.pending@.map_values(|p: String| p@)
    }

    /// The building invariant: graph keys distinct, every resolved edge
    /// points into the graph or the worklist, and the worklist holds
    /// distinct specifiers not yet in the graph.
    pub open spec fn wf(self) -> bool {
        &&& self.graph.distinct()
        &&& forall|i: int|
            0 <= i < self.graph.entries@.len() ==> slot_closed(
                (#[trigger] self.graph.entries@[i]).slot,
                self.graph.specs(),
                self.pend(),
            )
        &&& forall|i: int|
            0 <= i < self.pend().len() ==> !self.graph.contains_spec(#[trigger] self.pend()[i])
        &&& self.pend().no_duplicates()
    }

    /// Starts a build at `root`, the first specifier to load.
    pub fn new(root: String, resolver: DocResolver) -> (b: GraphBuilder)
        ensures
            b.wf(),
            b.graph.entries@.len() == 0,
            b.graph.root == root,
            b.resolver == resolver,
            b.pend() == seq![root@],
    {
        let root2 = root.clone();
        let mut pending: Vec<String> = Vec::new();
        pending.push(root);
        let b = GraphBuilder {
            graph: ModuleGraph { root: root2, entries: Vec::new() },
            pending,
            resolver,
        };
        assert(b.pend() =~= seq![root@]);
        assert(b.graph.specs() =~= Seq::<Seq<char>>::empty());
        b
    }

    /// The specifier to load next, if work remains.
    pub fn next_specifier(&self) -> (r: Option<String>)
        ensures
            r is Some <==> self.pending@.len() > 0,
            r matches Some(s) ==> s@ == self.pend().last(),
    {
        if self.pending.len() > 0 {
            let s = self.pending[self.pending.len() - 1].clone();
            assert(s@ == self.pend().last());
            Some(s)
        } else {
            None
        }
    }

    /// Pushes `t` onto the worklist when it is new: not in the graph, not
    /// pending, and not the specifier `s` being recorded now.
    fn enqueue_new(&mut self, t: &String, s: &String)
        requires
            forall|i3: int|
                0 <= i3 < old(self).pend().len() ==> !old(self).graph.contains_spec(
                    #[trigger] old(self).pend()[i3],
                ) && old(self).pend()[i3] != s@,
            old(self).pend().no_duplicates(),
        ensures
            final(self).graph == old(self).graph,
            final(self).resolver == old(self).resolver,
            forall|x: Seq<char>|
                old(self).pend().contains(x) ==> #[trigger] final(self).pend().contains(x),
            forall|i3: int|
                0 <= i3 < final(self).pend().len() ==> old(self).pend().contains(
                    #[trigger] final(self).pend()[i3],
                ) || final(self).pend()[i3] == t@,
            forall|i3: int|
                0 <= i3 < final(self).pend().len() ==> !final(self).graph.contains_spec(
                    #[trigger] final(self).pend()[i3],
                ) && final(self).pend()[i3] != s@,
            final(self).pend().no_duplicates(),
            final(self).graph.contains_spec(t@) || final(self).pend().contains(t@) || t@ == s@,
    {
        let found = self.graph.find(t);
        let in_graph = found.is_some();
        let is_self = t.eq(s);
        let in_pending = vec_contains_str(&self.pending, t);
        if !in_graph && !is_self && !in_pending {
            self.pending.push(t.clone());
            proof {
                let p0 = old(self).pend();
                assert(self.pend() =~= p0.push(t@));
                assert(self.pend().last() == t@);
                assert forall|x: Seq<char>| p0.contains(x) implies #[trigger] self.pend().contains(
                    x,
                ) by {
                    lemma_contains_push(p0, t@, x);
                }
                assert forall|i3: int| 0 <= i3 < self.pend().len() implies !self
                    .graph
                    .contains_spec(#[trigger] self.pend()[i3]) && self.pend()[i3] != s@ by {
                    if i3 < p0.len() {
                        assert(self.pend()[i3] == p0[i3]);
                    } else {
                        assert(self.pend()[i3] == t@);
                    }
                }
                assert forall|i3: int| 0 <= i3 < self.pend().len() implies p0.contains(
                    #[trigger] self.pend()[i3],
                ) || self.pend()[i3] == t@ by {
                    if i3 < p0.len() {
                        assert(self.pend()[i3] == p0[i3]);
                    } else {
                        assert(self.pend()[i3] == t@);
                    }
                }
                assert forall|p: int, q: int|
                    0 <= p < self.pend().len() && 0 <= q < self.pend().len() && p
                        != q implies self.pend()[p] != self.pend()[q] by {
                    if p < p0.len() && q < p0.len() {
                        assert(self.pend()[p] == p0[p] && self.pend()[q] == p0[q]);
                    } else if p < p0.len() {
                        assert(self.pend()[q] == t@ && self.pend()[p] == p0[p]);
                        if p0[p] == t@ {
                            assert(p0.contains(t@));
                        }
                    } else {
                        assert(self.pend()[p] == t@ && self.pend()[q] == p0[q]);
                        if p0[q] == t@ {
                            assert(p0.contains(t@));
                        }
                    }
                }
            }
        } else {
            proof {
                if in_graph {
                    let i = found.unwrap() as int;
                    assert(self.graph.specs()[i] == t@);
                    assert(self.graph.contains_spec(t@));
                }
                assert forall|i3: int| 0 <= i3 < self.pend().len() implies old(
                    self,
                ).pend().contains(#[trigger] self.pend()[i3]) || self.pend()[i3] == t@ by {
                    assert(old(self).pend()[i3] == self.pend()[i3]);
                }
            }
        }
    }

    /// Records the load outcome for the specifier that `next_specifier`
    /// gave out.
    pub fn provide(&mut self, outcome: LoadOutcome)
        requires
            old(self).wf(),
            old(self).pending@.len() > 0,
        ensures
            final(self).wf(),
            final(self).resolver == old(self).resolver,
            final(self).graph.root == old(self).graph.root,
            final(self).graph.entries@.len() == old(self).graph.entries@.len() + 1,
            final(self).graph.entries@.drop_last() == old(self).graph.entries@,
            final(self).graph.entries@.last().specifier@ == old(self).pend().last(),
            slot_matches(
                final(self).graph.entries@.last().slot,
                outcome,
                old(self).resolver,
                old(self).pend().last(),
            ),
            !(outcome matches LoadOutcome::Found(_)) ==> final(self).pending@ == old(
                self,
            ).pending@.drop_last(),
            forall|x: Seq<char>|
                old(self).pend().drop_last().contains(x) ==> #[trigger] final(self).pend().contains(
                    x,
                ),
            forall|x: Seq<char>|
                #[trigger] final(self).pend().contains(x) ==> old(self).pend().contains(x)
                    || slot_has_target(final(self).graph.entries@.last().slot, x),
    {
        let ghost prev = *old(self);
        let ghost pend0 = prev.pend();
        let s = self.pending.pop().unwrap();
        proof {
            assert(s@ == pend0[pend0.len() - 1]);
            assert(self.pend() =~= pend0.drop_last());
            lemma_base_ok(prev, pend0);
        }
        let ghost base = self.pend();
        match outcome {
            LoadOutcome::NotFound => {
                let e = GraphEntry { specifier: s, slot: ModuleSlot::Failed(ModuleError::NotFound) };
                self.graph.entries.push(e);
                proof {
                    assert(self.graph.entries@.drop_last() =~= prev.graph.entries@);
                    self.lemma_after_insert(prev, pend0);
                    assert forall|x: Seq<char>| #[trigger] self.pend().contains(
                        x,
                    ) implies pend0.contains(x) by {
                        let i = choose|i: int| 0 <= i < base.len() && base[i] == x;
                        assert(pend0[i] == x);
                    }
                }
            },
            LoadOutcome::Error(m) => {
                let e = GraphEntry { specifier: s, slot: ModuleSlot::Failed(ModuleError::Load(m)) };
                self.graph.entries.push(e);
                proof {
                    assert(self.graph.entries@.drop_last() =~= prev.graph.entries@);
                    self.lemma_after_insert(prev, pend0);
                    assert forall|x: Seq<char>| #[trigger] self.pend().contains(
                        x,
                    ) implies pend0.contains(x) by {
                        let i = choose|i: int| 0 <= i < base.len() && base[i] == x;
                        assert(pend0[i] == x);
                    }
                }
            },
            LoadOutcome::Found(src) => {
                let ModuleSource { media_type, decls, imports, reexports } = src;
                let mut rimports: Vec<ResolvedImport> = Vec::new();
                let ni = imports.len();
                let mut i: usize = 0;
                while i < ni
                    invariant
                        0 <= i <= ni,
                        ni == imports@.len(),
                        rimports@.len() == i,
                        self.graph == prev.graph,
                        self.resolver == prev.resolver,
                        self.pend() == base,
                        s@ == pend0.last(),
                        forall|j: int|
                            0 <= j < i ==> {
                                &&& (#[trigger] rimports@[j]).name@ == imports@[j].name@
                                &&& rimports@[j].src@ == imports@[j].src@
                                &&& edge_matches(
                                    rimports@[j].target,
                                    self.resolver,
                                    imports@[j].src@,
                                    s@,
                                )
                            },
                    decreases ni - i,
                {
                    let im = &imports[i];
                    match self.resolver.resolve(im.src.as_str(), s.as_str()) {
                        Ok(t) => {
                            rimports.push(
                                ResolvedImport {
                                    name: im.name.clone(),
                                    src: im.src.clone(),
                                    target: EdgeTarget::Resolved(t),
                                },
                            );
                        },
                        Err(e) => {
                            rimports.push(
                                ResolvedImport {
                                    name: im.name.clone(),
                                    src: im.src.clone(),
                                    target: EdgeTarget::Unresolved(e),
                                },
                            );
                        },
                    }
                    i = i + 1;
                }
                let mut rreexports: Vec<ResolvedReexport> = Vec::new();
                let nr = reexports.len();
                let mut i2: usize = 0;
                while i2 < nr
                    invariant
                        0 <= i2 <= nr,
                        nr == reexports@.len(),
                        rreexports@.len() == i2,
                        self.graph == prev.graph,
                        self.resolver == prev.resolver,
                        self.pend() == base,
                        s@ == pend0.last(),
                        forall|j: int|
                            0 <= j < i2 ==> {
                                &&& opt_str_view((#[trigger] rreexports@[j]).name) == opt_str_view(
                                    reexports@[j].name,
                                )
                                &&& rreexports@[j].src@ == reexports@[j].src@
                                &&& edge_matches(
                                    rreexports@[j].target,
                                    self.resolver,
                                    reexports@[j].src@,
                                    s@,
                                )
                            },
                    decreases nr - i2,
                {
                    let rx = &reexports[i2];
                    let nm = match rx.name.as_ref() {
                        Some(n) => Some(n.clone()),
                        None => None,
                    };
                    match self.resolver.resolve(rx.src.as_str(), s.as_str()) {
                        Ok(t) => {
                            rreexports.push(
                                ResolvedReexport {
                                    name: nm,
                                    src: rx.src.clone(),
                                    target: EdgeTarget::Resolved(t),
                                },
                            );
                        },
                        Err(e) => {
                            rreexports.push(
                                ResolvedReexport {
                                    name: nm,
                                    src: rx.src.clone(),
                                    target: EdgeTarget::Unresolved(e),
                                },
                            );
                        },
                    }
                    i2 = i2 + 1;
                }
                let mut k: usize = 0;
                while k < rimports.len()
                    invariant
                        0 <= k <= rimports@.len(),
                        self.graph == prev.graph,
                        self.resolver == prev.resolver,
                        s@ == pend0.last(),
                        forall|x: Seq<char>|
                            base.contains(x) ==> #[trigger] self.pend().contains(x),
                        forall|i3: int|
                            0 <= i3 < self.pend().len() ==> !self.graph.contains_spec(
                                #[trigger] self.pend()[i3],
                            ) && self.pend()[i3] != s@,
                        self.pend().no_duplicates(),
                        forall|x: Seq<char>|
                            #[trigger] self.pend().contains(x) ==> base.contains(x)
                                || lists_target(rimports@, rreexports@, x),
                        forall|j: int|
                            0 <= j < k ==> target_in(
                                (#[trigger] rimports@[j]).target,
                                self.graph.specs().push(s@),
                                self.pend(),
                            ),
                    decreases rimports@.len() - k,
                {
                    let ghost pend_before = self.pend();
                    match &rimports[k].target {
                        EdgeTarget::Resolved(t) => {
                            self.enqueue_new(t, &s);
                            proof {
                                if self.graph.contains_spec(t@) {
                                    lemma_contains_push(self.graph.specs(), s@, t@);
                                }
                                assert(self.graph.specs().push(s@).last() == s@);
                                assert(rimports@[k as int].target == EdgeTarget::Resolved(*t));
                                assert(target_in(
                                    rimports@[k as int].target,
                                    self.graph.specs().push(s@),
                                    self.pend(),
                                ));
                                assert forall|x: Seq<char>| #[trigger] self.pend().contains(
                                    x,
                                ) implies base.contains(x) || lists_target(
                                    rimports@,
                                    rreexports@,
                                    x,
                                ) by {
                                    let i = choose|i: int|
                                        0 <= i < self.pend().len() && self.pend()[i] == x;
                                    if pend_before.contains(x) {
                                    } else {
                                        assert(x == t@);
                                        assert((rimports@[k as int].target matches
                                            EdgeTarget::Resolved(t2) && t2@ == x));
                                    }
                                }
                            }
                        },
                        EdgeTarget::Unresolved(_) => {},
                    }
                    proof {
                        assert forall|j: int| 0 <= j < k + 1 implies target_in(
                            (#[trigger] rimports@[j]).target,
                            self.graph.specs().push(s@),
                            self.pend(),
                        ) by {
                            if j < k {
                                transfer_target(
                                    rimports@[j].target,
                                    self.graph.specs().push(s@),
                                    pend_before,
                                    self.pend(),
                                );
                            }
                        }
                    }
                    k = k + 1;
                }
                let mut k2: usize = 0;
                while k2 < rreexports.len()
                    invariant
                        0 <= k2 <= rreexports@.len(),
                        self.graph == prev.graph,
                        self.resolver == prev.resolver,
                        s@ == pend0.last(),
                        forall|x: Seq<char>|
                            base.contains(x) ==> #[trigger] self.pend().contains(x),
                        forall|i3: int|
                            0 <= i3 < self.pend().len() ==> !self.graph.contains_spec(
                                #[trigger] self.pend()[i3],
                            ) && self.pend()[i3] != s@,
                        self.pend().no_duplicates(),
                        forall|x: Seq<char>|
                            #[trigger] self.pend().contains(x) ==> base.contains(x)
                                || lists_target(rimports@, rreexports@, x),
                        forall|j: int|
                            0 <= j < rimports@.len() ==> target_in(
                                (#[trigger] rimports@[j]).target,
                                self.graph.specs().push(s@),
                                self.pend(),
                            ),
                        forall|j: int|
                            0 <= j < k2 ==> target_in(
                                (#[trigger] rreexports@[j]).target,
                                self.graph.specs().push(s@),
                                self.pend(),
                            ),
                    decreases rreexports@.len() - k2,
                {
                    let ghost pend_before = self.pend();
                    match &rreexports[k2].target {
                        EdgeTarget::Resolved(t) => {
                            self.enqueue_new(t, &s);
                            proof {
                                if self.graph.contains_spec(t@) {
                                    lemma_contains_push(self.graph.specs(), s@, t@);
                                }
                                assert(self.graph.specs().push(s@).last() == s@);
                                assert(rreexports@[k2 as int].target == EdgeTarget::Resolved(*t));
                                assert(target_in(
                                    rreexports@[k2 as int].target,
                                    self.graph.specs().push(s@),
                                    self.pend(),
                                ));
                                assert forall|x: Seq<char>| #[trigger] self.pend().contains(
                                    x,
                                ) implies base.contains(x) || lists_target(
                                    rimports@,
                                    rreexports@,
                                    x,
                                ) by {
                                    let i = choose|i: int|
                                        0 <= i < self.pend().len() && self.pend()[i] == x;
                                    if pend_before.contains(x) {
                                    } else {
                                        assert(x == t@);
                                        assert((rreexports@[k2 as int].target matches
                                            EdgeTarget::Resolved(t2) && t2@ == x));
                                    }
                                }
                            }
                        },
                        EdgeTarget::Unresolved(_) => {},
                    }
                    proof {
                        assert forall|j: int| 0 <= j < rimports@.len() implies target_in(
                            (#[trigger] rimports@[j]).target,
                            self.graph.specs().push(s@),
                            self.pend(),
                        ) by {
                            transfer_target(
                                rimports@[j].target,
                                self.graph.specs().push(s@),
                                pend_before,
                                self.pend(),
                            );
                        }
                        assert forall|j: int| 0 <= j < k2 + 1 implies target_in(
                            (#[trigger] rreexports@[j]).target,
                            self.graph.specs().push(s@),
                            self.pend(),
                        ) by {
                            if j < k2 {
                                transfer_target(
                                    rreexports@[j].target,
                                    self.graph.specs().push(s@),
                                    pend_before,
                                    self.pend(),
                                );
                            }
                        }
                    }
                    k2 = k2 + 1;
                }
                let ghost sp_mid = self.graph.specs();
                let rec = ModuleRecord {
                    media_type,
                    decls,
                    imports: rimports,
                    reexports: rreexports,
                };
                let e = GraphEntry { specifier: s, slot: ModuleSlot::Ready(rec) };
                self.graph.entries.push(e);
                proof {
                    assert(self.graph.entries@.drop_last() =~= prev.graph.entries@);
                    assert(self.graph.specs() =~= sp_mid.push(pend0.last()));
                    assert(record_closed(
                        self.graph.entries@.last().slot->Ready_0,
                        self.graph.specs(),
                        self.pend(),
                    ));
                    self.lemma_after_insert(prev, pend0);
                    assert forall|x: Seq<char>| #[trigger] self.pend().contains(
                        x,
                    ) implies pend0.contains(x) || slot_has_target(
                        self.graph.entries@.last().slot,
                        x,
                    ) by {
                        if base.contains(x) {
                            let i = choose|i: int| 0 <= i < base.len() && base[i] == x;
                            assert(pend0[i] == x);
                        } else {
                            assert(self.graph.entries@.last().slot matches ModuleSlot::Ready(r2)
                                && record_targets(r2, x));
                        }
                    }
                }
            },
        }
    }

    /// After popping the worklist and pushing one entry for the popped
    /// specifier, the building invariant holds again.
    proof fn lemma_after_insert(self, prev: GraphBuilder, pend0: Seq<Seq<char>>)
        requires
            prev.wf(),
            pend0 == prev.pend(),
            pend0.len() > 0,
            self.graph.entries@.len() == prev.graph.entries@.len() + 1,
            self.graph.entries@.drop_last() == prev.graph.entries@,
            self.graph.entries@.last().specifier@ == pend0.last(),
            slot_closed(self.graph.entries@.last().slot, self.graph.specs(), self.pend()),
            forall|x: Seq<char>|
                pend0.drop_last().contains(x) ==> #[trigger] self.pend().contains(x),
            forall|i3: int|
                0 <= i3 < self.pend().len() ==> !prev.graph.contains_spec(
                    #[trigger] self.pend()[i3],
                ) && self.pend()[i3] != pend0.last(),
            self.pend().no_duplicates(),
        ensures
            self.wf(),
    {
        let s = pend0.last();
        let sp0 = prev.graph.specs();
        let sp1 = self.graph.specs();
        assert forall|i: int| 0 <= i < prev.graph.entries@.len() implies self.graph.entries@[i]
            == prev.graph.entries@[i] by {
            assert(self.graph.entries@.drop_last()[i] == prev.graph.entries@[i]);
        }
        assert(sp1 =~= sp0.push(s));
        assert(!sp0.contains(s)) by {
            if sp0.contains(s) {
                let i = choose|i: int| 0 <= i < sp0.len() && sp0[i] == s;
                assert(prev.graph.contains_spec(prev.pend()[pend0.len() - 1]));
            }
        }
        assert forall|p: int, q: int|
            0 <= p < sp1.len() && 0 <= q < sp1.len() && p != q implies sp1[p] != sp1[q] by {
            if p < sp0.len() && q < sp0.len() {
                assert(sp1[p] == sp0[p] && sp1[q] == sp0[q]);
            } else if p < sp0.len() {
                assert(sp1[q] == s && sp1[p] == sp0[p]);
                if sp0[p] == s {
                    assert(sp0.contains(s));
                }
            } else {
                assert(sp1[p] == s && sp1[q] == sp0[q]);
                if sp0[q] == s {
                    assert(sp0.contains(s));
                }
            }
        }
        assert forall|i: int| 0 <= i < self.graph.entries@.len() implies slot_closed(
            (#[trigger] self.graph.entries@[i]).slot,
            sp1,
            self.pend(),
        ) by {
            if i < prev.graph.entries@.len() {
                assert(self.graph.entries@[i] == prev.graph.entries@[i]);
                assert(slot_closed(prev.graph.entries@[i].slot, sp0, pend0));
                transfer_slot(prev.graph.entries@[i].slot, sp0, pend0, sp1, self.pend(), s);
            } else {
                assert(self.graph.entries@[i] == self.graph.entries@.last());
            }
        }
        assert forall|i3: int| 0 <= i3 < self.pend().len() implies !self.graph.contains_spec(
            #[trigger] self.pend()[i3],
        ) by {
            let x = self.pend()[i3];
            if self.graph.contains_spec(x) {
                let i = choose|i: int| 0 <= i < sp1.len() && sp1[i] == x;
                if i < sp0.len() {
                    assert(sp0[i] == x);
                    assert(prev.graph.contains_spec(x));
                } else {
                    assert(x == s);
                }
            }
        }
    }
}

/// The worklist with its last element popped keeps the builder's other
/// invariant pieces: no remaining specifier is in the graph or equals the
/// popped one, and no duplicates remain.
proof fn lemma_base_ok(prev: GraphBuilder, pend0: Seq<Seq<char>>)
    requires
        prev.wf(),
        pend0 == prev.pend(),
        pend0.len() > 0,
    ensures
        forall|i3: int|
            0 <= i3 < pend0.drop_last().len() ==> !prev.graph.contains_spec(
                #[trigger] pend0.drop_last()[i3],
            ) && pend0.drop_last()[i3] != pend0.last(),
        pend0.drop_last().no_duplicates(),
{
    assert forall|i3: int| 0 <= i3 < pend0.drop_last().len() implies !prev.graph.contains_spec(
        #[trigger] pend0.drop_last()[i3],
    ) && pend0.drop_last()[i3] != pend0.last() by {
        assert(pend0.drop_last()[i3] == pend0[i3]);
        assert(!prev.graph.contains_spec(pend0[i3]));
    }
    assert forall|p: int, q: int|
        0 <= p < pend0.drop_last().len() && 0 <= q < pend0.drop_last().len() && p
            != q implies pend0.drop_last()[p] != pend0.drop_last()[q] by {
        assert(pend0.drop_last()[p] == pend0[p] && pend0.drop_last()[q] == pend0[q]);
    }
}

/// Carries a target's membership to a worklist that kept every member.
pub proof fn transfer_target(
    t: EdgeTarget,
    specs: Seq<Seq<char>>,
    pend1: Seq<Seq<char>>,
    pend2: Seq<Seq<char>>,
)
    requires
        target_in(t, specs, pend1),
        forall|x: Seq<char>| pend1.contains(x) ==> #[trigger] pend2.contains(x),
    ensures
        target_in(t, specs, pend2),
{
}

/// Carries a slot's closure across an insertion: the graph gained the
/// popped specifier `s`; every other pending specifier is still pending.
proof fn transfer_slot(
    slot: ModuleSlot,
    specs1: Seq<Seq<char>>,
    pend1: Seq<Seq<char>>,
    specs2: Seq<Seq<char>>,
    pend2: Seq<Seq<char>>,
    s: Seq<char>,
)
    requires
        slot_closed(slot, specs1, pend1),
        specs2 == specs1.push(s),
        pend1.len() > 0,
        pend1.last() == s,
        forall|x: Seq<char>| pend1.drop_last().contains(x) ==> #[trigger] pend2.contains(x),
    ensures
        slot_closed(slot, specs2, pend2),
{
    if let ModuleSlot::Ready(r) = slot {
        assert forall|j: int| 0 <= j < r.imports@.len() implies target_in(
            (#[trigger] r.imports@[j]).target,
            specs2,
            pend2,
        ) by {
            transfer_one(r.imports@[j].target, specs1, pend1, specs2, pend2, s);
        }
        assert forall|j: int| 0 <= j < r.reexports@.len() implies target_in(
            (#[trigger] r.reexports@[j]).target,
            specs2,
            pend2,
        ) by {
            transfer_one(r.reexports@[j].target, specs1, pend1, specs2, pend2, s);
        }
    }
}

proof fn transfer_one(
    t: EdgeTarget,
    specs1: Seq<Seq<char>>,
    pend1: Seq<Seq<char>>,
    specs2: Seq<Seq<char>>,
    pend2: Seq<Seq<char>>,
    s: Seq<char>,
)
    requires
        target_in(t, specs1, pend1),
        specs2 == specs1.push(s),
        pend1.len() > 0,
        pend1.last() == s,
        forall|x: Seq<char>| pend1.drop_last().contains(x) ==> #[trigger] pend2.contains(x),
    ensures
        target_in(t, specs2, pend2),
{
    if let EdgeTarget::Resolved(ts) = t {
        if specs1.contains(ts@) {
            lemma_contains_push(specs1, s, ts@);
        } else if pend1.contains(ts@) {
            let i = choose|i: int| 0 <= i < pend1.len() && pend1[i] == ts@;
            if i == pend1.len() - 1 {
                assert(specs2.last() == s);
            } else {
                assert(pend1.drop_last()[i] == ts@);
                assert(pend1.drop_last().contains(ts@));
            }
        }
    }
}

/// What a build records for a specifier the loader has no entry for.
pub open spec fn lookup_or_not_found(
    entries: Seq<(String, LoadOutcome)>,
    s: Seq<char>,
) -> LoadOutcome {
    match lookup_spec(entries, s) {
        Some(o) => o,
        None => LoadOutcome::NotFound,
    }
}

/// Builds the full graph reachable from `root` out of in-memory sources.
/// Every discovered specifier is loaded once; a missing or failed load is
/// recorded, never fatal; cycles terminate because each turn either
/// consumes the loader's entry for the popped specifier or only pops.
pub fn build_graph(root: String, resolver: DocResolver, loader: MemoryLoader) -> (g: ModuleGraph)
    requires
        loader.wf(),
    ensures
        g.wf(),
        g.root == root,
        g.contains_spec(root@),
        forall|i: int|
            0 <= i < g.entries@.len() ==> slot_matches(
                (#[trigger] g.entries@[i]).slot,
                lookup_or_not_found(loader.entries@, g.entries@[i].specifier@),
                resolver,
                g.entries@[i].specifier@,
            ),
        forall|i: int|
            0 <= i < g.entries@.len() ==> (#[trigger] g.entries@[i]).specifier@ == root@ || linked(
                g,
                g.entries@[i].specifier@,
            ),
{
    let ghost loader0 = loader.entries@;
    let mut ldr = loader;
    let mut b = GraphBuilder::new(root, resolver);
    proof {
        assert(b.pend()[0] == root@);
        assert(b.pend().contains(root@));
    }
    while b.pending.len() > 0
        invariant
            b.wf(),
            ldr.wf(),
            b.resolver == resolver,
            b.graph.root == root,
            b.graph.contains_spec(root@) || b.pend().contains(root@),
            forall|i: int|
                0 <= i < b.graph.entries@.len() ==> slot_matches(
                    (#[trigger] b.graph.entries@[i]).slot,
                    lookup_or_not_found(loader0, b.graph.entries@[i].specifier@),
                    resolver,
                    b.graph.entries@[i].specifier@,
                ),
            forall|t: Seq<char>|
                !b.graph.contains_spec(t) ==> lookup_spec(ldr.entries@, t) == lookup_spec(
                    loader0,
                    t,
                ),
            forall|i: int|
                0 <= i < b.graph.entries@.len() ==> (#[trigger] b.graph.entries@[i]).specifier@
                    == root@ || linked(b.graph, b.graph.entries@[i].specifier@),
            forall|i: int|
                0 <= i < b.pend().len() ==> #[trigger] b.pend()[i] == root@ || linked(
                    b.graph,
                    b.pend()[i],
                ),
        decreases ldr.entries@.len(), b.pending@.len(),
    {
        let ghost b0 = b;
        let ghost ldr0 = ldr.entries@;
        let s = b.next_specifier().unwrap();
        proof {
            assert(b.pend()[b.pend().len() - 1] == s@);
            assert(b.pend().contains(s@));
            assert(!b.graph.contains_spec(s@));
        }
        let taken = ldr.take(&s);
        let ghost was_some = taken is Some;
        match taken {
            Some(outcome) => {
                proof {
                    assert(lookup_spec(loader0, s@) == Some(outcome));
                }
                b.provide(outcome);
            },
            None => {
                proof {
                    assert(lookup_spec(loader0, s@) is None);
                }
                b.provide(LoadOutcome::NotFound);
            },
        }
        proof {
            let s_spec = s@;
            assert(b.graph.specs() =~= b0.graph.specs().push(s_spec));
            assert(b.graph.specs().last() == s_spec);
            assert(b.graph.contains_spec(s_spec));
            // correspondence for every entry
            assert forall|i: int| 0 <= i < b.graph.entries@.len() implies slot_matches(
                (#[trigger] b.graph.entries@[i]).slot,
                lookup_or_not_found(loader0, b.graph.entries@[i].specifier@),
                resolver,
                b.graph.entries@[i].specifier@,
            ) by {
                if i < b.graph.entries@.len() - 1 {
                    assert(b.graph.entries@.drop_last()[i] == b.graph.entries@[i]);
                    assert(b.graph.entries@[i] == b0.graph.entries@[i]);
                } else {
                    assert(b.graph.entries@[i] == b.graph.entries@.last());
                    assert(b.graph.entries@[i].specifier@ == s_spec);
                }
            }
            // loader agreement for everything still unvisited
            assert forall|t: Seq<char>| !b.graph.contains_spec(t) implies lookup_spec(
                ldr.entries@,
                t,
            ) == lookup_spec(loader0, t) by {
                assert(t != s_spec);
                if !b0.graph.contains_spec(t) {
                } else {
                    let i = choose|i: int|
                        0 <= i < b0.graph.specs().len() && b0.graph.specs()[i] == t;
                    lemma_contains_push(b0.graph.specs(), s_spec, t);
                }
            }
            // every entry and every pending specifier stays linked
            assert forall|i: int|
                0 <= i < b.graph.entries@.len() implies (#[trigger] b.graph.entries@[i]).specifier@
                == root@ || linked(b.graph, b.graph.entries@[i].specifier@) by {
                if i < b.graph.entries@.len() - 1 {
                    assert(b.graph.entries@.drop_last()[i] == b.graph.entries@[i]);
                    assert(b.graph.entries@[i] == b0.graph.entries@[i]);
                    if b0.graph.entries@[i].specifier@ != root@ {
                        lemma_linked_extend(
                            b0.graph,
                            b.graph,
                            b0.graph.entries@[i].specifier@,
                        );
                    }
                } else {
                    assert(b.graph.entries@[i].specifier@ == s_spec);
                    assert(b0.pend()[b0.pend().len() - 1] == s_spec);
                    if s_spec != root@ {
                        assert(linked(b0.graph, s_spec));
                        lemma_linked_extend(b0.graph, b.graph, s_spec);
                    }
                }
            }
            assert forall|i: int| 0 <= i < b.pend().len() implies #[trigger] b.pend()[i] == root@
                || linked(b.graph, b.pend()[i]) by {
                let x = b.pend()[i];
                assert(b.pend().contains(x));
                if b0.pend().contains(x) {
                    let i2 = choose|i2: int| 0 <= i2 < b0.pend().len() && b0.pend()[i2] == x;
                    if x != root@ {
                        assert(linked(b0.graph, x));
                        lemma_linked_extend(b0.graph, b.graph, x);
                    }
                } else {
                    assert(slot_has_target(b.graph.entries@.last().slot, x));
                    assert(b.graph.entries@[b.graph.entries@.len() - 1]
                        == b.graph.entries@.last());
                    assert(linked(b.graph, x));
                }
            }
            // the root stays reachable
            if b0.graph.contains_spec(root@) {
                let i = choose|i: int|
                    0 <= i < b0.graph.specs().len() && b0.graph.specs()[i] == root@;
                lemma_contains_push(b0.graph.specs(), s_spec, root@);
            } else {
                let i = choose|i: int| 0 <= i < b0.pend().len() && b0.pend()[i] == root@;
                if i == b0.pend().len() - 1 {
                    assert(root@ == s_spec);
                } else {
                    assert(b0.pend().drop_last()[i] == root@);
                    assert(b0.pend().drop_last().contains(root@));
                }
            }
        }
    }
    proof {
        assert(b.pend() =~= Seq::<Seq<char>>::empty());
        assert(b.graph.contains_spec(root@));
        assert forall|i: int| 0 <= i < b.graph.entries@.len() implies crate::graph::slot_closed(
            (#[trigger] b.graph.entries@[i]).slot,
            b.graph.specs(),
            Seq::<Seq<char>>::empty(),
        ) by {
            assert(slot_closed(b.graph.entries@[i].slot, b.graph.specs(), b.pend()));
        }
    }
    b.graph
}

} // verus!
