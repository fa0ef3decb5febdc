//! Concrete syntax trees, built bottom-up from the instructions of a parse:
//! leaves for shifted words, branches for reductions, and transparent lists
//! for reductions of variables that are not to appear in the tree. The
//! children of a branch are a linked list of links, each naming a node.

use vstd::prelude::*;
use crate::lex::Command;
use crate::syn::{Instruction, Parse, ParseError};

verus! {

/// A node of a tree: a word of the input, or a variable whose children
/// are the list of links starting at `head`.
#[derive(Clone, Copy, Debug, PartialEq, Eq, Structural)]
pub enum Node {
    Leaf { word: usize, index: usize },
    Branch { var: usize, head: usize },
}

/// A link of a children list: a node, and the next link, if any.
#[derive(Clone, Copy, Debug, PartialEq, Eq, Structural)]
pub struct Link {
    pub index: usize,
    pub next: Option<usize>,
}

/// A concrete syntax tree: its nodes, the first leaf first and the root
/// last, and the links of all children lists.
#[derive(Debug)]
pub struct CST {
    pub nodes: Vec<Node>,
    pub links: Vec<Link>,
}

/// What the builder holds for a subtree not yet attached to a parent: a
/// node, a list of links (the children of a transparent variable), or
/// nothing (a variable with no children).
#[derive(Clone, Copy, Debug, PartialEq, Eq, Structural)]
pub enum FrontierElem {
    Node { index: usize },
    List { first: usize, last: usize },
    Empty,
}

/// The link indices `ls` form a list: each link leads to the next, the
/// last to none.
pub open spec fn chain_ok(links: Seq<Link>, ls: Seq<usize>) -> bool {
    &&& forall|j: int| 0 <= j < ls.len() ==> #[trigger] ls[j] < links.len()
    &&& forall|j: int| 0 <= j < ls.len() - 1 ==> links[#[trigger] ls[j] as int].next == Some(ls[j + 1])
    &&& ls.len() > 0 ==> links[ls.last() as int].next is None
}

/// The nodes that the links `ls` name, in order.
pub open spec fn chain_nodes(links: Seq<Link>, ls: Seq<usize>) -> Seq<usize> {
    Seq::new(ls.len(), |j: int| links[ls[j] as int].index)
}

/// The sequences concatenated, in order.
pub open spec fn flatten(s: Seq<Seq<usize>>) -> Seq<usize>
    decreases s.len(),
{
    if s.len() == 0 {
        Seq::empty()
    } else {
        s[0] + flatten(s.drop_first())
    }
}

/// No link index occurs twice among the lists, within one or across two.
pub open spec fn disjoint(cs: Seq<Seq<usize>>) -> bool {
    forall|a: int, j: int, b: int, k: int|
        0 <= a < cs.len() && 0 <= b < cs.len() && 0 <= j < cs[a].len() && 0 <= k < cs[b].len() && (a != b || j != k)
            ==> #[trigger] cs[a][j] != #[trigger] cs[b][k]
}

proof fn lemma_flatten_push(s: Seq<Seq<usize>>, e: Seq<usize>)
    ensures
        flatten(s.push(e)) == flatten(s) + e,
    decreases s.len(),
{
    if s.len() == 0 {
        assert(s.push(e).drop_first() =~= Seq::<Seq<usize>>::empty());
        assert(flatten(s.push(e).drop_first()) == Seq::<usize>::empty());
        assert(flatten(s.push(e)) == s.push(e)[0] + flatten(s.push(e).drop_first()));
        assert(s.push(e)[0] == e);
        assert(flatten(s.push(e)) =~= flatten(s) + e);
    } else {
        assert(s.push(e).drop_first() =~= s.drop_first().push(e));
        lemma_flatten_push(s.drop_first(), e);
        assert(flatten(s.push(e)) =~= flatten(s) + e);
    }
}

/// The parse tree that the syntactic analyzer's instructions build: a
/// concrete syntax tree.
pub type ParseTree = CST;

/// The builder of a parse tree.
pub type ParseTreeBuilder = CSTBuilder;

/// Builds a concrete syntax tree from the instructions of a parse.
pub struct CSTBuilder {
    nodes: Vec<Node>,
    links: Vec<Link>,
    frontier: Vec<FrontierElem>,
    /// The links of the children of each node (none for a leaf).
    node_chains: Ghost<Seq<Seq<usize>>>,
    /// The links of each frontier element (those of its list, or none).
    chains: Ghost<Seq<Seq<usize>>>,
    /// The nodes that each frontier element stands for.
    elems: Ghost<Seq<Seq<usize>>>,
}

impl CSTBuilder {
    /// The nodes built so far.
    pub closed spec fn spec_nodes(&self) -> Seq<Node> {
        self.nodes@
    }

    /// The links built so far.
    pub closed spec fn spec_links(&self) -> Seq<Link> {
        self.links@
    }

    /// The subtrees not yet attached, as the nodes each stands for.
    pub closed spec fn spec_elems(&self) -> Seq<Seq<usize>> {
        self.elems@
    }

    /// The kind of each subtree not yet attached: a node, a list of the
    /// children of a transparent variable, or nothing.
    pub closed spec fn spec_kinds(&self) -> Seq<FrontierElem> {
        self.frontier@
    }

    /// The children of node `b`, in order (none for a leaf).
    pub closed spec fn spec_children(&self, b: int) -> Seq<usize> {
        chain_nodes(self.links@, self.node_chains@[b])
    }

    /// The representation invariant: each branch heads the list of its
    /// children, each frontier element stands for its nodes, and no link is
    /// shared.
    pub closed spec fn wf(&self) -> bool {
        let nodes = self.nodes@;
        let links = self.links@;
        let nc = self.node_chains@;
        let ch = self.chains@;
        let el = self.elems@;
        &&& nc.len() == nodes.len()
        &&& ch.len() == self.frontier@.len()
        &&& el.len() == self.frontier@.len()
        &&& forall|b: int| 0 <= b < nodes.len() ==> chain_ok(links, #[trigger] nc[b])
        &&& forall|b: int| 0 <= b < nodes.len() ==> match #[trigger] nodes[b] {
            Node::Leaf { .. } => nc[b].len() == 0,
            Node::Branch { head, .. } => nc[b].len() > 0 && nc[b][0] == head,
        }
        &&& forall|i: int| 0 <= i < ch.len() ==> chain_ok(links, #[trigger] ch[i])
        &&& forall|i: int| 0 <= i < ch.len() ==> match #[trigger] self.frontier@[i] {
            FrontierElem::Node { index } => index < nodes.len() && el[i] == seq![index] && ch[i].len() == 0,
            FrontierElem::List { first, last } => ch[i].len() > 0 && ch[i][0] == first && ch[i].last() == last && el[i] == chain_nodes(links, ch[i]),
            FrontierElem::Empty => el[i].len() == 0 && ch[i].len() == 0,
        }
        &&& disjoint(nc + ch)
    }

    /// An empty builder.
    pub fn new() -> (r: Self)
        ensures
            r.wf(),
            r.spec_nodes().len() == 0,
            r.spec_elems().len() == 0,
            r.spec_kinds().len() == 0,
            r.spec_links().len() == 0,
    {
        let r = CSTBuilder {
            nodes: Vec::new(),
            links: Vec::new(),
            frontier: Vec::new(),
            node_chains: Ghost(Seq::empty()),
            chains: Ghost(Seq::empty()),
            elems: Ghost(Seq::empty()),
        };
        proof {
            assert(r.node_chains@ + r.chains@ =~= Seq::<Seq<usize>>::empty());
        }
        r
    }

    /// Adds a leaf for word `word` at position `index` of the input.
    pub fn leaf(&mut self, word: usize, index: usize)
        requires
            old(self).wf(),
        ensures
            final(self).wf(),
            final(self).spec_nodes() == old(self).spec_nodes().push(Node::Leaf { word, index }),
            final(self).spec_elems() == old(self).spec_elems().push(seq![old(self).spec_nodes().len() as usize]),
            forall|b: int| 0 <= b < old(self).spec_nodes().len() ==> #[trigger] final(self).spec_children(b) == old(self).spec_children(b),
            final(self).spec_kinds() == old(self).spec_kinds().push(FrontierElem::Node { index: old(self).spec_nodes().len() as usize }),
            final(self).spec_links() == old(self).spec_links(),
    {
        let ghost old_nc = self.node_chains@;
        let ghost old_ch = self.chains@;
        let n = self.nodes.len();
        self.nodes.push(Node::Leaf { word, index });
        self.frontier.push(FrontierElem::Node { index: n });
        proof {
            self.node_chains@ = old_nc.push(Seq::empty());
            self.chains@ = old_ch.push(Seq::empty());
            self.elems@ = self.elems@.push(seq![n]);
            let all0 = old_nc + old_ch;
            let all1 = self.node_chains@ + self.chains@;
            assert forall|a: int| 0 <= a < all1.len() implies #[trigger] all1[a] == (if a < old_nc.len() {
                all0[a]
            } else if a == old_nc.len() {
                Seq::<usize>::empty()
            } else if a <= old_nc.len() + old_ch.len() {
                all0[a - 1]
            } else {
                Seq::<usize>::empty()
            }) by {}
            assert(disjoint(all1)) by {
                assert forall|a: int, j: int, b: int, k: int|
                    0 <= a < all1.len() && 0 <= b < all1.len() && 0 <= j < all1[a].len() && 0 <= k < all1[b].len() && (a != b || j != k)
                        implies #[trigger] all1[a][j] != #[trigger] all1[b][k] by {
                    let a0 = if a < old_nc.len() { a } else { a - 1 };
                    let b0 = if b < old_nc.len() { b } else { b - 1 };
                    assert(all1[a] == all0[a0]);
                    assert(all1[b] == all0[b0]);
                }
            }
            assert forall|b: int| 0 <= b < old_nc.len() implies #[trigger] self.spec_children(b) == chain_nodes(old(self).links@, old_nc[b]) by {}
        }
    }
}

proof fn lemma_disjoint_prefix(cs: Seq<Seq<usize>>, n: int)
    requires
        disjoint(cs),
        0 <= n <= cs.len(),
    ensures
        disjoint(cs.take(n)),
{
    let ds = cs.take(n);
    assert forall|a: int, j: int, b: int, k: int|
        0 <= a < ds.len() && 0 <= b < ds.len() && 0 <= j < ds[a].len() && 0 <= k < ds[b].len() && (a != b || j != k)
            implies #[trigger] ds[a][j] != #[trigger] ds[b][k] by {
        assert(ds[a] == cs[a] && ds[b] == cs[b]);
    }
}

proof fn lemma_disjoint_splice(f: Seq<Seq<usize>>, x: Seq<usize>, acc: Seq<usize>)
    requires
        disjoint(f.push(x).push(acc)),
    ensures
        disjoint(f.push(x + acc)),
{
    let c = f.push(x).push(acc);
    let d = f.push(x + acc);
    let n = f.len() as int;
    assert forall|a: int, j: int, b: int, k: int|
        0 <= a < d.len() && 0 <= b < d.len() && 0 <= j < d[a].len() && 0 <= k < d[b].len() && (a != b || j != k)
            implies #[trigger] d[a][j] != #[trigger] d[b][k] by {
        let (a1, j1) = if a < n { (a, j) } else if j < x.len() { (n, j) } else { (n + 1, j - x.len()) };
        let (b1, k1) = if b < n { (b, k) } else if k < x.len() { (n, k) } else { (n + 1, k - x.len()) };
        assert(d[a][j] == c[a1][j1]);
        assert(d[b][k] == c[b1][k1]);
    }
}

proof fn lemma_disjoint_fresh(f: Seq<Seq<usize>>, acc: Seq<usize>, l: usize)
    requires
        disjoint(f.push(acc)),
        forall|a: int, j: int| 0 <= a < f.len() && 0 <= j < f[a].len() ==> #[trigger] f[a][j] < l,
        forall|j: int| 0 <= j < acc.len() ==> #[trigger] acc[j] < l,
    ensures
        disjoint(f.push(seq![l] + acc)),
{
    let c = f.push(acc);
    let d = f.push(seq![l] + acc);
    let n = f.len() as int;
    assert forall|a: int, j: int, b: int, k: int|
        0 <= a < d.len() && 0 <= b < d.len() && 0 <= j < d[a].len() && 0 <= k < d[b].len() && (a != b || j != k)
            implies #[trigger] d[a][j] != #[trigger] d[b][k] by {
        if a < n {
            assert(d[a][j] == c[a][j]);
        } else if j > 0 {
            assert(d[a][j] == c[n][j - 1]);
        }
        if b < n {
            assert(d[b][k] == c[b][k]);
        } else if k > 0 {
            assert(d[b][k] == c[n][k - 1]);
        }
    }
}

/// The frontier elements from `a` to `b` are all nodes.
pub open spec fn all_nodes(f: Seq<FrontierElem>, a: int, b: int) -> bool {
    forall|i: int| a <= i < b ==> (#[trigger] f[i]) is Node
}

/// The links that list the nodes `kids` when each is a node of its own:
/// one per node, the last node first, each leading to the link before it,
/// numbered from `base` on.
pub open spec fn node_links(base: nat, kids: Seq<usize>) -> Seq<Link> {
    Seq::new(kids.len(), |j: int| Link {
        index: kids[kids.len() - 1 - j],
        next: if j == 0 { None } else { Some((base + j - 1) as usize) },
    })
}

impl CSTBuilder {
    /// Pops the last `num_children` subtrees and links the nodes they stand
    /// for into one list; returns its first and last link (and, as a proof
    /// aid, the list), or `None` where they stand for no node.
    #[verifier::rlimit(50)]
    #[verifier::spinoff_prover]
    fn make_children_list(&mut self, num_children: usize) -> (r: (Option<(usize, usize)>, Ghost<Seq<usize>>))
        requires
            old(self).wf(),
            num_children <= old(self).frontier@.len(),
        ensures
            ({
                let m = old(self).frontier@.len() - num_children;
                let kids = flatten(old(self).elems@.subrange(m, old(self).frontier@.len() as int));
                let ls = r.1@;
                &&& final(self).wf()
                &&& final(self).frontier@ == old(self).frontier@.take(m)
                &&& final(self).chains@ == old(self).chains@.take(m)
                &&& final(self).elems@ == old(self).elems@.take(m)
                &&& final(self).nodes@ == old(self).nodes@
                &&& final(self).node_chains@ == old(self).node_chains@
                &&& forall|b: int| 0 <= b < old(self).nodes@.len() ==> #[trigger] chain_nodes(final(self).links@, old(self).node_chains@[b]) == chain_nodes(old(self).links@, old(self).node_chains@[b])
                &&& (r.0 is None <==> kids.len() == 0)
                &&& (r.0 is None ==> ls.len() == 0)
                &&& (r.0 matches Some((f, l)) ==> ls.len() > 0 && ls[0] == f && ls.last() == l)
                &&& chain_ok(final(self).links@, ls)
                &&& chain_nodes(final(self).links@, ls) == kids
                &&& disjoint((final(self).node_chains@ + final(self).chains@).push(ls))
                &&& (num_children == 0 ==> final(self).links@ == old(self).links@)
                &&& (all_nodes(old(self).frontier@, m, old(self).frontier@.len() as int) && num_children > 0 ==> {
                    &&& final(self).links@ == old(self).links@ + node_links(old(self).links@.len(), kids)
                    &&& r.0 matches Some((f, _)) && f == old(self).links@.len() + num_children - 1
                })
            }),
    {
        let ghost n0 = self.frontier@.len() as int;
        let ghost m = n0 - num_children;
        let ghost e0 = self.elems@;
        let ghost f0 = self.frontier@;
        let ghost ch0 = self.chains@;
        let ghost nc = self.node_chains@;
        let ghost l0 = self.links@;
        if num_children == 0 {
            proof {
                assert(e0.subrange(m, n0).len() == 0);
                assert(self.frontier@ =~= f0.take(m));
                assert(self.chains@ =~= ch0.take(m));
                assert(self.elems@ =~= e0.take(m));
                let ls = Seq::<usize>::empty();
                let all = nc + ch0;
                assert forall|a: int, j: int, b: int, k: int|
                    0 <= a < all.push(ls).len() && 0 <= b < all.push(ls).len() && 0 <= j < all.push(ls)[a].len() && 0 <= k < all.push(ls)[b].len() && (a != b || j != k)
                        implies #[trigger] all.push(ls)[a][j] != #[trigger] all.push(ls)[b][k] by {
                    assert(all.push(ls)[a] == all[a]);
                    assert(all.push(ls)[b] == all[b]);
                }
            }
            return (None, Ghost(Seq::empty()));
        }
        let mut count = num_children;
        proof {
            assert(self.frontier@ =~= f0.take(m + count));
            assert(self.chains@ =~= ch0.take(m + count));
            assert(self.elems@ =~= e0.take(m + count));
        }
        while count > 0 && matches!(self.frontier[self.frontier.len() - 1], FrontierElem::Empty)
            invariant
                self.wf(),
                0 <= m,
                m + count == self.frontier@.len(),
                count <= num_children,
                n0 == m + num_children,
                self.frontier@ == f0.take(m + count),
                self.chains@ == ch0.take(m + count),
                self.elems@ == e0.take(m + count),
                self.nodes@ == old(self).nodes@,
                self.node_chains@ == nc,
                self.links@ == l0,
                e0.len() == n0,
                f0.len() == n0,
                ch0.len() == n0,
                flatten(e0.subrange(m, n0)) == flatten(e0.subrange(m, m + count)),
                all_nodes(f0, m, n0) ==> count == num_children,
            decreases count,
        {
            let ghost c = count as int;
            proof {
                if all_nodes(f0, m, n0) {
                    assert(self.frontier@[self.frontier@.len() - 1] == f0[m + c - 1]);
                    assert(f0[m + c - 1] is Node);
                }
            }
            proof {
                assert(e0[m + c - 1] == self.elems@[m + c - 1]);
                assert(e0[m + c - 1].len() == 0);
                assert(e0.subrange(m, m + c) =~= e0.subrange(m, m + c - 1).push(e0[m + c - 1]));
                lemma_flatten_push(e0.subrange(m, m + c - 1), e0[m + c - 1]);
                assert(e0[m + c - 1] =~= Seq::<usize>::empty());
                assert(flatten(e0.subrange(m, m + c - 1)) + e0[m + c - 1] =~= flatten(e0.subrange(m, m + c - 1)));
            }
            let ghost fr = self.frontier@;
            let _ = self.frontier.pop();
            proof {
                assert(self.frontier@ == fr.subrange(0, fr.len() - 1));
                self.chains@ = self.chains@.drop_last();
                self.elems@ = self.elems@.drop_last();
                assert(self.frontier@ =~= f0.take(m + c - 1));
                assert(self.chains@ =~= ch0.take(m + c - 1));
                assert(self.elems@ =~= e0.take(m + c - 1));
                assert((nc + self.chains@) =~= (nc + ch0.take(m + c)).take(nc.len() + m + c - 1));
                lemma_disjoint_prefix(nc + ch0.take(m + c), nc.len() + m + c - 1);
            }
            count -= 1;
        }
        if count == 0 {
            proof {
                assert(e0.subrange(m, m).len() == 0);
                assert(flatten(e0.subrange(m, m)) == Seq::<usize>::empty());
                let ls = Seq::<usize>::empty();
                let all = nc + self.chains@;
                assert forall|a: int, j: int, b: int, k: int|
                    0 <= a < all.push(ls).len() && 0 <= b < all.push(ls).len() && 0 <= j < all.push(ls)[a].len() && 0 <= k < all.push(ls)[b].len() && (a != b || j != k)
                        implies #[trigger] all.push(ls)[a][j] != #[trigger] all.push(ls)[b][k] by {
                    assert(all.push(ls)[a] == all[a]);
                    assert(all.push(ls)[b] == all[b]);
                }
            }
            return (None, Ghost(Seq::empty()));
        }
        let tail = match self.frontier[self.frontier.len() - 1] {
            FrontierElem::Node { index: _ } => self.links.len(),
            FrontierElem::List { first: _, last } => last,
            FrontierElem::Empty => 0,
        };
        let ghost mc = m + count;
        let ghost l1 = self.links@;
        let mut next: Option<usize> = None;
        let ghost mut acc: Seq<usize> = Seq::empty();
        let mut k = 0usize;
        proof {
            assert(e0.subrange(mc, mc).len() == 0);
            assert(flatten(e0.subrange(mc, mc)) == Seq::<usize>::empty());
            assert(chain_nodes(self.links@, acc) =~= Seq::<usize>::empty());
            let all = nc + self.chains@;
            assert forall|a: int, j: int, b: int, kk: int|
                0 <= a < all.push(acc).len() && 0 <= b < all.push(acc).len() && 0 <= j < all.push(acc)[a].len() && 0 <= kk < all.push(acc)[b].len() && (a != b || j != kk)
                    implies #[trigger] all.push(acc)[a][j] != #[trigger] all.push(acc)[b][kk] by {
                assert(all.push(acc)[a] == all[a]);
                assert(all.push(acc)[b] == all[b]);
            }
        }
        while k < count
            invariant
                0 <= m,
                mc == m + count,
                n0 == m + num_children,
                count <= num_children,
                1 <= count,
                k <= count,
                e0.len() == n0,
                f0.len() == n0,
                ch0.len() == n0,
                self.frontier@ == f0.take(mc - k),
                self.chains@ == ch0.take(mc - k),
                self.elems@ == e0.take(mc - k),
                self.nodes@ == old(self).nodes@,
                self.node_chains@ == nc,
                nc.len() == self.nodes@.len(),
                flatten(e0.subrange(m, n0)) == flatten(e0.subrange(m, mc)),
                self.links@.len() >= l0.len(),
                forall|b: int| 0 <= b < nc.len() ==> chain_ok(self.links@, #[trigger] nc[b]),
                forall|b: int| 0 <= b < nc.len() ==> #[trigger] chain_nodes(self.links@, nc[b]) == chain_nodes(l0, nc[b]),
                forall|b: int| 0 <= b < self.nodes@.len() ==> match #[trigger] self.nodes@[b] {
                    Node::Leaf { .. } => nc[b].len() == 0,
                    Node::Branch { head, .. } => nc[b].len() > 0 && nc[b][0] == head,
                },
                forall|i: int| 0 <= i < mc - k ==> chain_ok(self.links@, #[trigger] ch0[i]),
                forall|i: int| 0 <= i < mc - k ==> #[trigger] chain_nodes(self.links@, ch0[i]) == chain_nodes(l0, ch0[i]),
                forall|i: int| 0 <= i < mc - k ==> match #[trigger] f0[i] {
                    FrontierElem::Node { index } => index < self.nodes@.len() && e0[i] == seq![index] && ch0[i].len() == 0,
                    FrontierElem::List { first, last } => ch0[i].len() > 0 && ch0[i][0] == first && ch0[i].last() == last && e0[i] == chain_nodes(l0, ch0[i]),
                    FrontierElem::Empty => e0[i].len() == 0 && ch0[i].len() == 0,
                },
                chain_ok(self.links@, acc),
                chain_nodes(self.links@, acc) == flatten(e0.subrange(mc - k, mc)),
                next == (if acc.len() == 0 { None::<usize> } else { Some(acc[0]) }),
                acc.len() > 0 ==> acc.last() == tail,
                acc.len() == 0 ==> k == 0,
                k == 0 ==> self.links@ == l1,
                k == 0 ==> match f0[mc - 1] {
                    FrontierElem::Node { .. } => tail == l1.len(),
                    FrontierElem::List { last, .. } => tail == last,
                    FrontierElem::Empty => false,
                },
                disjoint((nc + ch0.take(mc - k)).push(acc)),
                all_nodes(f0, m, n0) ==> mc == n0 && l1 == l0,
                all_nodes(f0, m, n0) ==> flatten(e0.subrange(mc - k, mc)).len() == k,
                all_nodes(f0, m, n0) ==> self.links@ == l1 + node_links(l1.len(), flatten(e0.subrange(mc - k, mc))),
                all_nodes(f0, m, n0) && k > 0 ==> (next matches Some(x) && x == l1.len() + k - 1),
            decreases count - k,
        {
            let ghost pos = mc - k - 1;
            let ghost fam = nc + ch0.take(pos);
            proof {
                assert(nc + ch0.take(pos + 1) =~= fam.push(ch0[pos]));
                assert(e0.subrange(pos, mc) =~= seq![e0[pos]] + e0.subrange(pos + 1, mc));
                assert(e0.subrange(pos, mc)[0] == e0[pos]);
                assert(e0.subrange(pos, mc).drop_first() =~= e0.subrange(pos + 1, mc));
                assert(flatten(e0.subrange(pos, mc)) == e0[pos] + flatten(e0.subrange(pos + 1, mc)));
                assert(self.frontier@[pos] == f0[pos]);
                assert forall|a: int, j: int| 0 <= a < fam.len() && 0 <= j < fam[a].len() implies #[trigger] fam[a][j] < self.links@.len() by {
                    if a < nc.len() {
                        assert(fam[a] == nc[a]);
                        assert(chain_ok(self.links@, nc[a]));
                    } else {
                        assert(fam[a] == ch0[a - nc.len()]);
                        assert(chain_ok(self.links@, ch0[a - nc.len()]));
                    }
                }
            }
            let elem = self.frontier.pop().unwrap();
            proof {
                assert(elem == f0[pos]);
                self.chains@ = self.chains@.drop_last();
                self.elems@ = self.elems@.drop_last();
                assert(self.frontier@ =~= f0.take(pos));
                assert(self.chains@ =~= ch0.take(pos));
                assert(self.elems@ =~= e0.take(pos));
            }
            match elem {
                FrontierElem::Node { index } => {
                    let l = self.links.len();
                    let ghost links_before = self.links@;
                    self.links.push(Link { index, next });
                    proof {
                        let acc2 = seq![l] + acc;
                        assert forall|j: int| 0 <= j < acc.len() implies #[trigger] acc[j] < l by {
                            assert(chain_ok(links_before, acc));
                        }
                        lemma_disjoint_fresh(fam.push(ch0[pos]), acc, l);
                        assert(ch0[pos].len() == 0);
                        assert(fam.push(ch0[pos]).push(acc2) == fam.push(ch0[pos]).push(acc2));
                        assert forall|a: int, j: int, b: int, kk: int|
                            0 <= a < fam.push(acc2).len() && 0 <= b < fam.push(acc2).len() && 0 <= j < fam.push(acc2)[a].len() && 0 <= kk < fam.push(acc2)[b].len() && (a != b || j != kk)
                                implies #[trigger] fam.push(acc2)[a][j] != #[trigger] fam.push(acc2)[b][kk] by {
                            let c = fam.push(ch0[pos]).push(acc2);
                            let a1 = if a < fam.len() { a } else { a + 1 };
                            let b1 = if b < fam.len() { b } else { b + 1 };
                            assert(fam.push(acc2)[a] == c[a1]);
                            assert(fam.push(acc2)[b] == c[b1]);
                        }
                        assert(chain_ok(self.links@, acc2)) by {
                            assert forall|j: int| 0 <= j < acc2.len() - 1 implies self.links@[#[trigger] acc2[j] as int].next == Some(acc2[j + 1]) by {
                                if j > 0 {
                                    assert(acc2[j] == acc[j - 1]);
                                    assert(links_before[acc[j - 1] as int].next == Some(acc[j]));
                                }
                            }
                            if acc.len() > 0 {
                                assert(acc2.last() == acc.last());
                            }
                        }
                        assert(chain_nodes(self.links@, acc2) =~= seq![index] + chain_nodes(links_before, acc));
                        assert(e0[pos] == seq![index]);
                        assert forall|b: int| 0 <= b < nc.len() implies #[trigger] chain_nodes(self.links@, nc[b]) == chain_nodes(l0, nc[b]) by {
                            assert(chain_nodes(self.links@, nc[b]) =~= chain_nodes(links_before, nc[b]));
                        }
                        assert forall|i: int| 0 <= i < pos implies #[trigger] chain_nodes(self.links@, ch0[i]) == chain_nodes(l0, ch0[i]) by {
                            assert(chain_nodes(self.links@, ch0[i]) =~= chain_nodes(links_before, ch0[i]));
                        }
                        if all_nodes(f0, m, n0) {
                            let kids0 = flatten(e0.subrange(pos + 1, mc));
                            let kids1 = flatten(e0.subrange(pos, mc));
                            assert(kids1 == seq![index] + kids0);
                            assert(links_before == l1 + node_links(l1.len(), kids0));
                            assert(l == l1.len() + k);
                            assert(self.links@ =~= l1 + node_links(l1.len(), kids1)) by {
                                assert forall|j: int| 0 <= j < node_links(l1.len(), kids1).len() implies #[trigger] node_links(l1.len(), kids1)[j] == (if j < k { node_links(l1.len(), kids0)[j] } else { Link { index, next } }) by {
                                    if j < k {
                                        assert(kids1[kids1.len() - 1 - j] == kids0[kids0.len() - 1 - j]);
                                    } else {
                                        assert(kids1[0] == index);
                                    }
                                }
                            }
                        }
                        acc = acc2;
                    }
                    next = Some(l);
                },
                FrontierElem::List { first, last } => {
                    let ghost links_before = self.links@;
                    let ghost x = ch0[pos];
                    proof {
                        assert(!all_nodes(f0, m, n0)) by {
                            if all_nodes(f0, m, n0) {
                                assert(f0[pos] is Node);
                            }
                        }
                        assert(x.len() > 0 && x[0] == first && x.last() == last);
                        assert(chain_ok(links_before, x));
                    }
                    let old_link = self.links[last];
                    self.links.set(last, Link { index: old_link.index, next });
                    proof {
                        let acc2 = x + acc;
                        lemma_disjoint_splice(fam, x, acc);
                        let c = fam.push(x).push(acc);
                        let xi = fam.len() as int;
                        assert forall|j: int| 0 <= j < x.len() - 1 implies #[trigger] x[j] != last by {
                            assert(c[xi][j] != c[xi][x.len() - 1]);
                        }
                        assert forall|j: int| 0 <= j < acc.len() implies #[trigger] acc[j] != last by {
                            assert(c[xi + 1][j] != c[xi][x.len() - 1]);
                        }
                        assert forall|a: int, j: int| 0 <= a < fam.len() && 0 <= j < fam[a].len() implies #[trigger] fam[a][j] != last by {
                            assert(c[a][j] != c[xi][x.len() - 1]);
                        }
                        assert(chain_ok(self.links@, acc2)) by {
                            assert forall|j: int| 0 <= j < acc2.len() - 1 implies self.links@[#[trigger] acc2[j] as int].next == Some(acc2[j + 1]) by {
                                if j < x.len() - 1 {
                                    assert(acc2[j] == x[j] && acc2[j + 1] == x[j + 1]);
                                } else if j == x.len() - 1 {
                                    assert(acc2[j] == last);
                                    assert(acc2[j + 1] == acc[0]);
                                } else {
                                    assert(acc2[j] == acc[j - x.len()]);
                                    assert(acc2[j + 1] == acc[j - x.len() + 1]);
                                }
                            }
                            assert forall|j: int| 0 <= j < acc2.len() implies #[trigger] acc2[j] < self.links@.len() by {
                                if j < x.len() {
                                    assert(acc2[j] == x[j]);
                                } else {
                                    assert(acc2[j] == acc[j - x.len()]);
                                }
                            }
                            if acc.len() > 0 {
                                assert(acc2.last() == acc.last());
                            } else {
                                assert(acc2.last() == last);
                            }
                        }
                        assert(chain_nodes(self.links@, acc2) =~= chain_nodes(links_before, x) + chain_nodes(links_before, acc)) by {
                            assert forall|j: int| 0 <= j < acc2.len() implies #[trigger] chain_nodes(self.links@, acc2)[j] == (chain_nodes(links_before, x) + chain_nodes(links_before, acc))[j] by {
                                if j < x.len() {
                                    assert(acc2[j] == x[j]);
                                } else {
                                    assert(acc2[j] == acc[j - x.len()]);
                                }
                            }
                        }
                        assert(chain_nodes(links_before, x) == chain_nodes(l0, x));
                        assert(e0[pos] == chain_nodes(l0, x));
                        assert forall|b: int| 0 <= b < nc.len() implies chain_ok(self.links@, #[trigger] nc[b]) && chain_nodes(self.links@, nc[b]) == chain_nodes(l0, nc[b]) by {
                            assert(fam[b] == nc[b]);
                            assert forall|j: int| 0 <= j < nc[b].len() implies #[trigger] nc[b][j] != last by {
                                assert(fam[b][j] != last);
                            }
                            assert(chain_nodes(self.links@, nc[b]) =~= chain_nodes(links_before, nc[b]));
                        }
                        assert forall|i: int| 0 <= i < pos implies chain_ok(self.links@, #[trigger] ch0[i]) && chain_nodes(self.links@, ch0[i]) == chain_nodes(l0, ch0[i]) by {
                            assert(fam[nc.len() + i] == ch0[i]);
                            assert forall|j: int| 0 <= j < ch0[i].len() implies #[trigger] ch0[i][j] != last by {
                                assert(fam[nc.len() + i][j] != last);
                            }
                            assert(chain_nodes(self.links@, ch0[i]) =~= chain_nodes(links_before, ch0[i]));
                        }
                        acc = acc2;
                    }
                    next = Some(first);
                },
                FrontierElem::Empty => {
                    proof {
                        assert(!all_nodes(f0, m, n0)) by {
                            if all_nodes(f0, m, n0) {
                                assert(f0[pos] is Node);
                            }
                        }
                        assert(e0[pos].len() == 0);
                        assert(e0[pos] + flatten(e0.subrange(pos + 1, mc)) =~= flatten(e0.subrange(pos + 1, mc)));
                        assert(ch0[pos].len() == 0);
                        assert forall|a: int, j: int, b: int, kk: int|
                            0 <= a < fam.push(acc).len() && 0 <= b < fam.push(acc).len() && 0 <= j < fam.push(acc)[a].len() && 0 <= kk < fam.push(acc)[b].len() && (a != b || j != kk)
                                implies #[trigger] fam.push(acc)[a][j] != #[trigger] fam.push(acc)[b][kk] by {
                            let c = fam.push(ch0[pos]).push(acc);
                            let a1 = if a < fam.len() { a } else { a + 1 };
                            let b1 = if b < fam.len() { b } else { b + 1 };
                            assert(fam.push(acc)[a] == c[a1]);
                            assert(fam.push(acc)[b] == c[b1]);
                        }
                    }
                },
            }
            k += 1;
        }
        proof {
            assert(mc - k == m);
            assert(self.node_chains@ + self.chains@ == nc + ch0.take(m));
            let all = self.node_chains@ + self.chains@;
            lemma_disjoint_prefix(all.push(acc), all.len() as int);
            assert(all.push(acc).take(all.len() as int) =~= all);
            if all_nodes(f0, m, n0) {
                assert(mc == n0);
                assert(count == num_children);
                assert(l1 == l0);
                assert(next matches Some(x) && x == l0.len() + num_children - 1);
                assert(e0 == old(self).elems@);
                assert(f0 == old(self).frontier@);
                assert(self.links@ == old(self).links@ + node_links(old(self).links@.len(), flatten(old(self).elems@.subrange(m, n0))));
            }
        }
        (Some((next.unwrap(), tail)), Ghost(acc))
    }
}

/// The list of links starting at `head` names the nodes `kids`, in order.
pub open spec fn lists_children(links: Seq<Link>, head: usize, kids: Seq<usize>) -> bool {
    exists|ls: Seq<usize>| #[trigger] chain_ok(links, ls) && ls.len() == kids.len() && ls.len() > 0 && ls[0] == head && chain_nodes(links, ls) == kids
}

proof fn lemma_disjoint_move(a: Seq<Seq<usize>>, b: Seq<Seq<usize>>, x: Seq<usize>)
    requires
        disjoint((a + b).push(x)),
    ensures
        disjoint(a.push(x) + b.push(Seq::empty())),
{
    let c = (a + b).push(x);
    let d = a.push(x) + b.push(Seq::empty());
    let na = a.len() as int;
    let nb = b.len() as int;
    assert forall|i: int, j: int, i2: int, k: int|
        0 <= i < d.len() && 0 <= i2 < d.len() && 0 <= j < d[i].len() && 0 <= k < d[i2].len() && (i != i2 || j != k)
            implies #[trigger] d[i][j] != #[trigger] d[i2][k] by {
        let ci = if i < na { i } else if i == na { na + nb } else { i - 1 };
        let ci2 = if i2 < na { i2 } else if i2 == na { na + nb } else { i2 - 1 };
        assert(d[i] == c[ci]);
        assert(d[i2] == c[ci2]);
    }
}

proof fn lemma_disjoint_push_empty(a: Seq<Seq<usize>>)
    requires
        disjoint(a),
    ensures
        disjoint(a.push(Seq::empty())),
{
    let d = a.push(Seq::empty());
    assert forall|i: int, j: int, i2: int, k: int|
        0 <= i < d.len() && 0 <= i2 < d.len() && 0 <= j < d[i].len() && 0 <= k < d[i2].len() && (i != i2 || j != k)
            implies #[trigger] d[i][j] != #[trigger] d[i2][k] by {
        assert(d[i] == a[i]);
        assert(d[i2] == a[i2]);
    }
}

impl CSTBuilder {
    /// Reduces the last `num_children` subtrees to a branch for variable
    /// `var` whose children are the nodes they stand for; where they stand
    /// for none, to nothing.
    pub fn branch(&mut self, var: usize, num_children: usize)
        requires
            old(self).wf(),
            num_children <= old(self).spec_elems().len(),
        ensures
            final(self).wf(),
            ({
                let n = old(self).spec_elems().len();
                let m = n - num_children;
                let kids = flatten(old(self).spec_elems().subrange(m, n as int));
                let b = old(self).spec_nodes().len();
                &&& kids.len() == 0 ==> final(self).spec_nodes() == old(self).spec_nodes() && final(self).spec_elems() == old(self).spec_elems().take(m).push(Seq::empty())
                &&& kids.len() > 0 ==> {
                    &&& final(self).spec_nodes().len() == b + 1
                    &&& final(self).spec_nodes().take(b as int) == old(self).spec_nodes()
                    &&& (final(self).spec_nodes()[b as int] matches Node::Branch { var: v, head: h } && v == var
                        && lists_children(final(self).spec_links(), h, kids))
                    &&& final(self).spec_elems() == old(self).spec_elems().take(m).push(seq![b as usize])
                    &&& final(self).spec_children(b as int) == kids
                    &&& final(self).spec_kinds() == old(self).spec_kinds().take(m).push(FrontierElem::Node { index: b as usize })
                }
                &&& kids.len() == 0 ==> final(self).spec_kinds() == old(self).spec_kinds().take(m).push(FrontierElem::Empty)
                &&& all_nodes(old(self).spec_kinds(), m, n as int) && num_children > 0 ==> {
                    &&& final(self).spec_links() == old(self).spec_links() + node_links(old(self).spec_links().len(), kids)
                    &&& final(self).spec_nodes()[b as int] matches Node::Branch { head: h, .. }
                    &&& h == old(self).spec_links().len() + num_children - 1
                }
            }),
            forall|b: int| 0 <= b < old(self).spec_nodes().len() ==> #[trigger] final(self).spec_children(b) == old(self).spec_children(b),
    {
        let ghost nc0 = self.node_chains@;
        let (r, Ghost(ls)) = self.make_children_list(num_children);
        let ghost nc = self.node_chains@;
        let ghost ch = self.chains@;
        match r {
            Some((first, _)) => {
                let idx = self.nodes.len();
                self.nodes.push(Node::Branch { var, head: first });
                self.frontier.push(FrontierElem::Node { index: idx });
                proof {
                    self.node_chains@ = nc.push(ls);
                    self.chains@ = ch.push(Seq::empty());
                    self.elems@ = self.elems@.push(seq![idx]);
                    lemma_disjoint_move(nc, ch, ls);
                    assert(chain_ok(self.links@, ls) && ls.len() > 0 && ls[0] == first && chain_nodes(self.links@, ls) == chain_nodes(self.links@, ls));
                    assert(self.spec_nodes().take(idx as int) =~= old(self).spec_nodes());
                    assert forall|b: int| 0 <= b < idx implies #[trigger] self.spec_children(b) == old(self).spec_children(b) by {
                        assert(self.node_chains@[b] == nc0[b]);
                    }
                }
            },
            None => {
                self.frontier.push(FrontierElem::Empty);
                proof {
                    self.chains@ = ch.push(Seq::empty());
                    self.elems@ = self.elems@.push(Seq::empty());
                    assert(nc + ch.push(Seq::empty()) =~= (nc + ch).push(Seq::empty()));
                    lemma_disjoint_prefix((nc + ch).push(ls), (nc + ch).len() as int);
                    assert((nc + ch).push(ls).take((nc + ch).len() as int) =~= nc + ch);
                    lemma_disjoint_push_empty(nc + ch);
                }
            },
        }
    }

    /// Reduces the last `num_children` subtrees to one list of the nodes they
    /// stand for, to be spliced into the children of a later branch (a
    /// variable that does not appear in the tree).
    pub fn list(&mut self, num_children: usize)
        requires
            old(self).wf(),
            num_children <= old(self).spec_elems().len(),
        ensures
            final(self).wf(),
            final(self).spec_nodes() == old(self).spec_nodes(),
            ({
                let n = old(self).spec_elems().len();
                let m = n - num_children;
                let kids = flatten(old(self).spec_elems().subrange(m, n as int));
                &&& final(self).spec_elems() == old(self).spec_elems().take(m).push(kids)
                &&& final(self).spec_kinds().len() == m + 1
                &&& final(self).spec_kinds().take(m) == old(self).spec_kinds().take(m)
                &&& (final(self).spec_kinds()[m] is Empty <==> kids.len() == 0)
                &&& (final(self).spec_kinds()[m] is List <==> kids.len() > 0)
            }),
            forall|b: int| 0 <= b < old(self).spec_nodes().len() ==> #[trigger] final(self).spec_children(b) == old(self).spec_children(b),
    {
        let ghost kids = flatten(self.elems@.subrange(self.frontier@.len() - num_children, self.frontier@.len() as int));
        let (r, Ghost(ls)) = self.make_children_list(num_children);
        let ghost nc = self.node_chains@;
        let ghost ch = self.chains@;
        match r {
            Some((first, last)) => {
                self.frontier.push(FrontierElem::List { first, last });
                proof {
                    self.chains@ = ch.push(ls);
                    self.elems@ = self.elems@.push(kids);
                    assert(nc + ch.push(ls) =~= (nc + ch).push(ls));
                }
            },
            None => {
                self.frontier.push(FrontierElem::Empty);
                proof {
                    self.chains@ = ch.push(Seq::empty());
                    self.elems@ = self.elems@.push(kids);
                    assert(nc + ch.push(Seq::empty()) =~= (nc + ch).push(Seq::empty()));
                    lemma_disjoint_prefix((nc + ch).push(ls), (nc + ch).len() as int);
                    assert((nc + ch).push(ls).take((nc + ch).len() as int) =~= nc + ch);
                    lemma_disjoint_push_empty(nc + ch);
                }
            },
        }
    }

    /// The tree built: its nodes, and the links of the children lists of its
    /// branches.
    pub fn build(self) -> (r: CST)
        requires
            self.wf(),
        ensures
            r.nodes@ == self.spec_nodes(),
            r.links@ == self.spec_links(),
            forall|b: int| 0 <= b < r.nodes@.len() ==> match #[trigger] r.nodes@[b] {
                Node::Leaf { .. } => self.spec_children(b).len() == 0,
                Node::Branch { head, .. } => lists_children(r.links@, head, self.spec_children(b)),
            },
    {
        let ghost nc = self.node_chains@;
        let r = CST { nodes: self.nodes, links: self.links };
        proof {
            assert forall|b: int| 0 <= b < r.nodes@.len() implies match #[trigger] r.nodes@[b] {
                Node::Leaf { .. } => self.spec_children(b).len() == 0,
                Node::Branch { head, .. } => lists_children(r.links@, head, self.spec_children(b)),
            } by {
                assert(chain_ok(r.links@, nc[b]));
                match r.nodes@[b] {
                    Node::Leaf { .. } => {},
                    Node::Branch { head, .. } => {
                        assert(chain_ok(r.links@, nc[b]) && nc[b].len() == self.spec_children(b).len() && nc[b].len() > 0 && nc[b][0] == head && chain_nodes(r.links@, nc[b]) == self.spec_children(b));
                    },
                }
            }
        }
        r
    }
}

/// `b1` is `b0` with a leaf for word `word` at `index` added as a subtree.
pub open spec fn leaf_post(b0: CSTBuilder, b1: CSTBuilder, word: usize, index: usize) -> bool {
    &&& b1.wf()
    &&& b1.spec_nodes() == b0.spec_nodes().push(Node::Leaf { word, index })
    &&& b1.spec_elems() == b0.spec_elems().push(seq![b0.spec_nodes().len() as usize])
    &&& b1.spec_kinds() == b0.spec_kinds().push(FrontierElem::Node { index: b0.spec_nodes().len() as usize })
    &&& b1.spec_links() == b0.spec_links()
    &&& forall|b: int| 0 <= b < b0.spec_nodes().len() ==> #[trigger] b1.spec_children(b) == b0.spec_children(b)
}

/// `b1` is `b0` with its last `k` subtrees reduced to a branch for `var`
/// (to nothing where they stand for no node).
pub open spec fn branch_post(b0: CSTBuilder, b1: CSTBuilder, var: usize, k: usize) -> bool {
    let n = b0.spec_elems().len();
    let m = n - k;
    let kids = flatten(b0.spec_elems().subrange(m, n as int));
    let b = b0.spec_nodes().len();
    &&& b1.wf()
    &&& kids.len() == 0 ==> b1.spec_nodes() == b0.spec_nodes() && b1.spec_elems() == b0.spec_elems().take(m).push(Seq::empty())
    &&& kids.len() > 0 ==> {
        &&& b1.spec_nodes().len() == b + 1
        &&& b1.spec_nodes().take(b as int) == b0.spec_nodes()
        &&& (b1.spec_nodes()[b as int] matches Node::Branch { var: v, head: h } && v == var
            && lists_children(b1.spec_links(), h, kids))
        &&& b1.spec_elems() == b0.spec_elems().take(m).push(seq![b as usize])
        &&& b1.spec_children(b as int) == kids
    }
    &&& all_nodes(b0.spec_kinds(), m, n as int) && k > 0 ==> {
        &&& b1.spec_links() == b0.spec_links() + node_links(b0.spec_links().len(), kids)
        &&& b1.spec_nodes()[b as int] matches Node::Branch { head: h, .. }
        &&& h == b0.spec_links().len() + k - 1
    }
    &&& forall|c: int| 0 <= c < b0.spec_nodes().len() ==> #[trigger] b1.spec_children(c) == b0.spec_children(c)
}

/// `b1` is `b0` with its last `k` subtrees reduced to one list of the
/// nodes they stand for.
pub open spec fn list_post(b0: CSTBuilder, b1: CSTBuilder, k: usize) -> bool {
    let n = b0.spec_elems().len();
    let m = n - k;
    &&& b1.wf()
    &&& b1.spec_nodes() == b0.spec_nodes()
    &&& b1.spec_elems() == b0.spec_elems().take(m).push(flatten(b0.spec_elems().subrange(m, n as int)))
    &&& forall|c: int| 0 <= c < b0.spec_nodes().len() ==> #[trigger] b1.spec_children(c) == b0.spec_children(c)
}

/// One step of building the syntax tree of a parse: the parse's next
/// instruction, applied to the builder. A shift adds a leaf; a reduction
/// makes a branch of the subtrees it takes, or a list where the variable's
/// command is `Skip`. The builder holds one subtree per transition of the
/// parse stack, so a reduction never takes more subtrees than were built.
pub fn tree_step(parse: &mut Parse, builder: &mut CSTBuilder, commands: &Vec<Command>) -> (r: Option<Result<Instruction, ParseError>>)
    requires
        old(parse).wf(),
        old(builder).wf(),
        old(builder).spec_elems().len() + 1 == old(parse).spec_history().len(),
        old(parse).spec_syn().spec_var_count() <= commands@.len(),
    ensures
        final(parse).wf(),
        final(parse).spec_syn() == old(parse).spec_syn(),
        final(builder).spec_elems().len() + 1 == final(parse).spec_history().len(),
        match r {
            Some(Ok(Instruction::Shift { word, index })) => leaf_post(*old(builder), *final(builder), word, index),
            Some(Ok(Instruction::Reduce { var, count })) => var < commands@.len() && if commands@[var as int] == Command::Emit {
                branch_post(*old(builder), *final(builder), var, count)
            } else {
                list_post(*old(builder), *final(builder), count)
            },
            _ => *final(builder) == *old(builder),
        },
        r is None ==> crate::cfg::in_language(old(parse).spec_syn().spec_grammar(), old(parse).spec_words()),
        r is None ==> final(builder).spec_elems().len() == 1,
        r matches Some(Err(e)) ==> *final(parse) == *old(parse),
{
    let ghost hist = parse.spec_history();
    let r = parse.next();
    match r {
        Some(Ok(Instruction::Shift { word, index })) => {
            builder.leaf(word, index);
        },
        Some(Ok(Instruction::Reduce { var, count })) => {
            if commands[var] == Command::Emit {
                builder.branch(var, count);
            } else {
                builder.list(count);
            }
        },
        _ => {},
    }
    r
}

} // verus!
