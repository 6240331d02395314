//! Narrowing a symbol tree by a dotted-path name query: the first segment
//! is searched recursively through the whole tree, nested members
//! included; each further segment selects among the direct members of the
//! nodes found so far.
use vstd::prelude::*;

use crate::model::{
    clone_doc_node, lemma_nodes_view_index, node_view, nodes_view, DocNode, DocNodeV,
};
use crate::text::{split, split_chars};

verus! {

/// All nodes of the forest, nested members included, whose name is `name`.
pub open spec fn find_in_nodes(ns: Seq<DocNodeV>, name: Seq<char>) -> Seq<DocNodeV>
    decreases ns, 1int,
{
    if ns.len() == 0 {
        Seq::<DocNodeV>::empty()
    } else {
        find_in_nodes(ns.drop_last(), name) + find_in_node(ns.last(), name)
    }
}

pub open spec fn find_in_node(v: DocNodeV, name: Seq<char>) -> Seq<DocNodeV>
    decreases v, 2int,
{
    (if v.name == name {
        seq![v]
    } else {
        Seq::<DocNodeV>::empty()
    }) + find_in_nodes(v.children, name)
}

/// The members of the given nodes (one level down) whose name is `name`.
pub open spec fn children_named(ns: Seq<DocNodeV>, name: Seq<char>) -> Seq<DocNodeV>
    decreases ns,
{
    if ns.len() == 0 {
        Seq::<DocNodeV>::empty()
    } else {
        children_named(ns.drop_last(), name) + named_of(ns.last().children, name)
    }
}

pub open spec fn named_of(ns: Seq<DocNodeV>, name: Seq<char>) -> Seq<DocNodeV>
    decreases ns.len(),
{
    if ns.len() == 0 {
        Seq::<DocNodeV>::empty()
    } else if ns.last().name == name {
        named_of(ns.drop_last(), name).push(ns.last())
    } else {
        named_of(ns.drop_last(), name)
    }
}

/// Refines a found set segment by segment.
pub open spec fn refine(cur: Seq<DocNodeV>, parts: Seq<Seq<char>>) -> Seq<DocNodeV>
    decreases parts.len(),
{
    if parts.len() == 0 {
        cur
    } else {
        refine(children_named(cur, parts[0]), parts.drop_first())
    }
}

/// What filtering the forest by the dotted query `q` finds.
pub open spec fn find_by_query(ns: Seq<DocNodeV>, q: Seq<char>) -> Seq<DocNodeV> {
    let parts = split_chars(q, '.');
    refine(find_in_nodes(ns, parts[0]), parts.drop_first())
}

fn find_in_nodes_exec(ns: &Vec<DocNode>, name: &String) -> (r: Vec<DocNode>)
    ensures
        nodes_view(r@) == find_in_nodes(nodes_view(ns@), name@),
    decreases ns@, 1int,
{
    let mut out: Vec<DocNode> = Vec::new();
    let n = ns.len();
    let mut i: usize = 0;
    assert(nodes_view(out@) =~= Seq::<DocNodeV>::empty());
    assert(nodes_view(ns@).len() == ns@.len()) by {
        lemma_nodes_view_index(ns@);
    }
    while i < n
        invariant
            0 <= i <= n,
            n == ns@.len(),
            nodes_view(ns@).len() == ns@.len(),
            nodes_view(out@) == find_in_nodes(nodes_view(ns@).take(i as int), name@),
        decreases n - i,
    {
        proof {
            assert(ns@.take(i + 1).drop_last() =~= ns@.take(i as int));
            lemma_nodes_view_take(ns@, i as int);
            lemma_nodes_view_take(ns@, i + 1);
            assert(nodes_view(ns@).take(i + 1).drop_last() =~= nodes_view(ns@).take(i as int));
            lemma_nodes_view_index(ns@);
            assert(nodes_view(ns@).take(i + 1).last() == node_view(ns@[i as int]));
        }
        let mut sub = find_in_node_exec(&ns[i], name);
        let ghost out0 = out@;
        let ghost sub0 = sub@;
        out.append(&mut sub);
        proof {
            lemma_nodes_view_concat(out0, sub0);
        }
        i = i + 1;
    }
    proof {
        assert(nodes_view(ns@).take(n as int) =~= nodes_view(ns@));
    }
    out
}

fn find_in_node_exec(v: &DocNode, name: &String) -> (r: Vec<DocNode>)
    ensures
        nodes_view(r@) == find_in_node(node_view(*v), name@),
    decreases *v, 2int,
{
    let mut out: Vec<DocNode> = Vec::new();
    if v.name.eq(name) {
        let c = clone_doc_node(v);
        out.push(c);
        proof {
            lemma_nodes_view_index(out@);
            assert(nodes_view(out@) =~= seq![node_view(*v)]);
        }
    } else {
        assert(nodes_view(out@) =~= Seq::<DocNodeV>::empty());
    }
    let ghost head = out@;
    let mut sub = find_in_nodes_exec(&v.children, name);
    let ghost sub0 = sub@;
    out.append(&mut sub);
    proof {
        lemma_nodes_view_concat(head, sub0);
        assert(node_view(*v).children == nodes_view(v.children@));
    }
    out
}

pub proof fn lemma_nodes_view_take(ns: Seq<DocNode>, k: int)
    requires
        0 <= k <= ns.len(),
    ensures
        nodes_view(ns.take(k)) == nodes_view(ns).take(k),
{
    lemma_nodes_view_index(ns);
    lemma_nodes_view_index(ns.take(k));
    assert forall|i: int| 0 <= i < k implies nodes_view(ns.take(k))[i] == nodes_view(ns).take(
        k,
    )[i] by {
        assert(ns.take(k)[i] == ns[i]);
    }
    assert(nodes_view(ns.take(k)) =~= nodes_view(ns).take(k));
}

pub proof fn lemma_nodes_view_concat(a: Seq<DocNode>, b: Seq<DocNode>)
    ensures
        nodes_view(a + b) == nodes_view(a) + nodes_view(b),
{
    lemma_nodes_view_index(a);
    lemma_nodes_view_index(b);
    lemma_nodes_view_index(a + b);
    assert forall|i: int| 0 <= i < (a + b).len() implies nodes_view(a + b)[i] == (nodes_view(a)
        + nodes_view(b))[i] by {
        if i < a.len() {
            assert((a + b)[i] == a[i]);
        } else {
            assert((a + b)[i] == b[i - a.len()]);
        }
    }
    assert(nodes_view(a + b) =~= nodes_view(a) + nodes_view(b));
}

fn children_named_exec(ns: &Vec<DocNode>, name: &String) -> (r: Vec<DocNode>)
    ensures
        nodes_view(r@) == children_named(nodes_view(ns@), name@),
{
    let mut out: Vec<DocNode> = Vec::new();
    let n = ns.len();
    assert(nodes_view(ns@).len() == ns@.len()) by {
        lemma_nodes_view_index(ns@);
    }
    let mut i: usize = 0;
    while i < n
        invariant
            0 <= i <= n,
            n == ns@.len(),
            nodes_view(ns@).len() == ns@.len(),
            nodes_view(out@) == children_named(nodes_view(ns@).take(i as int), name@),
        decreases n - i,
    {
        proof {
            lemma_nodes_view_take(ns@, i as int);
            lemma_nodes_view_take(ns@, i + 1);
            assert(ns@.take(i + 1).drop_last() =~= ns@.take(i as int));
            assert(nodes_view(ns@).take(i + 1).drop_last() =~= nodes_view(ns@).take(i as int));
            lemma_nodes_view_index(ns@);
            assert(nodes_view(ns@).take(i + 1).last() == node_view(ns@[i as int]));
        }
        let node = &ns[i];
        let cn = node.children.len();
        assert(nodes_view(node.children@).len() == node.children@.len()) by {
            lemma_nodes_view_index(node.children@);
        }
        let ghost before = nodes_view(out@);
        let mut j: usize = 0;
        while j < cn
            invariant
                0 <= j <= cn,
                0 <= i < n == ns@.len(),
                cn == node.children@.len(),
                node == &ns[i as int],
                nodes_view(node.children@).len() == node.children@.len(),
                nodes_view(out@) == before + named_of(
                    nodes_view(node.children@).take(j as int),
                    name@,
                ),
            decreases cn - j,
        {
            proof {
                lemma_nodes_view_take(node.children@, j as int);
                lemma_nodes_view_take(node.children@, j + 1);
                assert(nodes_view(node.children@).take(j + 1).drop_last() =~= nodes_view(
                    node.children@,
                ).take(j as int));
                lemma_nodes_view_index(node.children@);
                assert(nodes_view(node.children@).take(j + 1).last() == node_view(
                    node.children@[j as int],
                ));
            }
            let c = &node.children[j];
            if c.name.eq(name) {
                let cc = clone_doc_node(c);
                proof {
                    assert(nodes_view(out@.push(cc)) == nodes_view(out@).push(node_view(cc))) by {
                        assert(out@.push(cc).drop_last() =~= out@);
                        assert(out@.push(cc).last() == cc);
                    }
                }
                out.push(cc);
            }
            j = j + 1;
        }
        proof {
            assert(nodes_view(node.children@).take(cn as int) =~= nodes_view(node.children@));
            assert(node_view(ns@[i as int]).children == nodes_view(node.children@));
        }
        i = i + 1;
    }
    proof {
        assert(nodes_view(ns@).take(n as int) =~= nodes_view(ns@));
    }
    out
}

/// Narrows the forest by a dotted-path name query; an empty result means
/// the name was not found anywhere in the tree.
pub fn find_nodes_by_name_recursively(ns: &Vec<DocNode>, query: &String) -> (r: Vec<DocNode>)
    ensures
        nodes_view(r@) == find_by_query(nodes_view(ns@), query@),
{
    let parts = split(query.as_str(), '.');
    let ghost pviews = parts@.map_values(|p: String| p@);
    assert(pviews[0] == parts@[0]@);
    let mut cur = find_in_nodes_exec(ns, &parts[0]);
    let np = parts.len();
    let mut i: usize = 1;
    while i < np
        invariant
            1 <= i <= np,
            np == parts@.len(),
            pviews == parts@.map_values(|p: String| p@),
            refine(nodes_view(cur@), pviews.skip(i as int)) == find_by_query(
                nodes_view(ns@),
                query@,
            ),
        decreases np - i,
    {
        proof {
            assert(pviews.skip(i as int)[0] == pviews[i as int]);
            assert(pviews.skip(i as int).drop_first() =~= pviews.skip(i + 1));
            assert(pviews[i as int] == parts@[i as int]@);
        }
        cur = children_named_exec(&cur, &parts[i]);
        i = i + 1;
    }
    proof {
        assert(pviews.skip(np as int) =~= Seq::<Seq<char>>::empty());
        assert(pviews.skip(1) =~= pviews.drop_first());
    }
    cur
}

} // verus!
