use crate::text::append_number;
use crate::text::decimal;
use vstd::prelude::*;

verus! {

/// A node of a parse tree as a mathematical value: its symbol and the index
/// of its parent.
pub struct NodeView {
    pub symbol: Seq<char>,
    pub parent: Option<usize>,
}

struct ParseTreeNode {
    symbol: String,
    parent: Option<usize>,
    sibling: Option<usize>,
    last_child: Option<usize>,
}

/// A parse tree: its nodes in the order in which they were added. Each node
/// holds its symbol and the index of its parent, and, to walk the tree, the
/// index of its next sibling and of its last child.
pub struct ParserOutput {
    nodes: Vec<ParseTreeNode>,
}

/// The symbol that stands for a node that is not there.
pub open spec fn no_symbol() -> Seq<char> {
    "None"@
}

/// The last child of node `p` among `nodes`: the last node whose parent is
/// `p`.
pub open spec fn last_child_of(nodes: Seq<NodeView>, p: usize) -> Option<usize>
    decreases nodes.len(),
{
    if nodes.len() == 0 {
        None
    } else if nodes.last().parent == Some(p) {
        Some((nodes.len() - 1) as usize)
    } else {
        last_child_of(nodes.drop_last(), p)
    }
}

/// The next sibling of node `i` among `nodes`: the first node behind it with
/// the same parent, if `i` has a parent.
pub open spec fn sibling_of(nodes: Seq<NodeView>, i: int) -> Option<usize>
    decreases nodes.len(),
{
    if nodes.len() <= i + 1 || i < 0 {
        None
    } else {
        match sibling_of(nodes.drop_last(), i) {
            Some(s) => Some(s),
            None => if nodes[i].parent is Some && nodes.last().parent == nodes[i].parent {
                Some((nodes.len() - 1) as usize)
            } else {
                None
            },
        }
    }
}

impl ParserOutput {
    /// The nodes of the tree.
    pub closed spec fn view(&self) -> Seq<NodeView> {
        Seq::new(
            self.nodes@.len(),
            |i: int| NodeView { symbol: self.nodes@[i].symbol@, parent: self.nodes@[i].parent },
        )
    }

    /// The sibling that node `i` holds.
    pub closed spec fn sibling(&self, i: int) -> Option<usize> {
        self.nodes@[i].sibling
    }

    /// The last child that node `i` holds.
    pub closed spec fn last_child(&self, i: int) -> Option<usize> {
        self.nodes@[i].last_child
    }

    /// The invariant: every parent stands before its children, and the
    /// links that the nodes hold are those of the tree.
    pub closed spec fn wf(&self) -> bool {
        &&& forall|i: int|
            0 <= i < self@.len() ==> match (#[trigger] self@[i]).parent {
                Some(p) => p < i,
                None => true,
            }
        &&& forall|i: int|
            0 <= i < self@.len() ==> #[trigger] self.nodes@[i].last_child == last_child_of(self@, i as usize)
        &&& forall|i: int|
            0 <= i < self@.len() ==> #[trigger] self.nodes@[i].sibling == sibling_of(self@, i)
    }

    /// The links of a well-formed tree are those that its nodes' parents
    /// give: each parent stands before its children, each node holds its
    /// next sibling and its last child.
    pub proof fn lemma_links(&self)
        requires
            self.wf(),
        ensures
            forall|i: int|
                0 <= i < self@.len() ==> match (#[trigger] self@[i]).parent {
                    Some(p) => p < i,
                    None => true,
                },
            forall|i: int| 0 <= i < self@.len() ==> #[trigger] self.last_child(i) == last_child_of(self@, i as usize),
            forall|i: int| 0 <= i < self@.len() ==> #[trigger] self.sibling(i) == sibling_of(self@, i),
    {
        assert forall|i: int| 0 <= i < self@.len() implies #[trigger] self.last_child(i)
            == last_child_of(self@, i as usize) by {
            assert(self.nodes@[i].last_child == last_child_of(self@, i as usize));
        }
        assert forall|i: int| 0 <= i < self@.len() implies #[trigger] self.sibling(i) == sibling_of(
            self@,
            i,
        ) by {
            assert(self.nodes@[i].sibling == sibling_of(self@, i));
        }
    }

    /// An empty tree.
    pub fn new() -> (output: ParserOutput)
        ensures
            output.wf(),
            output@ == Seq::<NodeView>::empty(),
    {
        let output = ParserOutput { nodes: Vec::new() };
        proof {
            assert(output@ =~= Seq::<NodeView>::empty());
        }
        output
    }

    /// The number of nodes.
    pub fn len(&self) -> (n: usize)
        ensures
            n == self@.len(),
    {
        self.nodes.len()
    }

    /// Adds a node with the given symbol (`None` where there is none) as the
    /// last child of `parent`, or as a root.
    pub fn add_node(&mut self, symbol: Option<String>, parent: Option<&usize>)
        requires
            old(self).wf(),
            match parent {
                Some(p) => *p < old(self)@.len(),
                None => true,
            },
        ensures
            final(self).wf(),
            final(self)@ == old(self)@.push(
                NodeView {
                    symbol: match symbol {
                        Some(s) => s@,
                        None => no_symbol(),
                    },
                    parent: match parent {
                        Some(p) => Some(*p),
                        None => None,
                    },
                },
            ),
    {
        let symbol = match symbol {
            Some(symbol) => symbol,
            None => String::from_str("None"),
        };
        let ghost before = self@;
        let ghost links = self.nodes@;
        let node_index = self.nodes.len();
        let mut parent_index: Option<usize> = None;
        let ghost mut previous: Option<usize> = None;
        match parent {
            Some(parent) => {
                let parent = *parent;
                let last = self.nodes[parent].last_child;
                proof {
                    previous = last;
                    assert(last == last_child_of(before, parent));
                    lemma_last_child(before, parent);
                }
                match last {
                    Some(last_sibling) => {
                        self.nodes[last_sibling].sibling = Some(node_index);
                    },
                    None => {},
                }
                self.nodes[parent].last_child = Some(node_index);
                parent_index = Some(parent);
            },
            None => {},
        }
        let node = ParseTreeNode { symbol, parent: parent_index, sibling: None, last_child: None };
        self.nodes.push(node);
        proof {
            let added = NodeView { symbol: symbol@, parent: parent_index };
            let after = self@;
            assert(after =~= before.push(added));
            assert(after.drop_last() =~= before);
            assert forall|i: int| 0 <= i < after.len() implies #[trigger] self.nodes@[i].last_child
                == last_child_of(after, i as usize) by {
                if i < before.len() {
                    assert(links[i].last_child == last_child_of(before, i as usize));
                } else {
                    lemma_no_child(before, i as usize);
                }
            }
            assert forall|i: int| 0 <= i < after.len() implies #[trigger] self.nodes@[i].sibling
                == sibling_of(after, i) by {
                if i < before.len() {
                    assert(links[i].sibling == sibling_of(before, i));
                    assert(before[i] == after[i]);
                    if parent_index is Some {
                        lemma_last_child(before, parent_index->0);
                        if previous == Some(i as usize) {
                            lemma_last_sibling(before, i);
                        } else if before[i].parent == parent_index {
                            lemma_has_sibling(before, i, previous->0 as int);
                        }
                    }
                }
            }
        }
    }

    /// The symbol of the node at `node_index`, or `None` where there is no
    /// such node.
    pub fn get_symbol(&self, node_index: Option<usize>) -> (symbol: String)
        ensures
            symbol@ == match node_index {
                Some(i) => if i < self@.len() {
                    self@[i as int].symbol
                } else {
                    no_symbol()
                },
                None => no_symbol(),
            },
    {
        match node_index {
            Some(index) => {
                if index < self.nodes.len() {
                    self.nodes[index].symbol.clone()
                } else {
                    String::from_str("None")
                }
            },
            None => String::from_str("None"),
        }
    }

    /// The parent of node `i`.
    pub fn get_parent(&self, i: usize) -> (parent: Option<usize>)
        requires
            i < self@.len(),
        ensures
            parent == self@[i as int].parent,
    {
        self.nodes[i].parent
    }

    /// The next sibling of node `i`.
    pub fn get_sibling(&self, i: usize) -> (sibling: Option<usize>)
        requires
            self.wf(),
            i < self@.len(),
        ensures
            sibling == sibling_of(self@, i as int),
    {
        self.nodes[i].sibling
    }

    /// The last child of node `i`.
    pub fn get_last_child(&self, i: usize) -> (child: Option<usize>)
        requires
            self.wf(),
            i < self@.len(),
        ensures
            child == last_child_of(self@, i),
    {
        self.nodes[i].last_child
    }

    /// A reference to the node `link`.
    fn link(&self, link: Option<usize>) -> (text: String)
        requires
            match link {
                Some(i) => i < self@.len(),
                None => true,
            },
        ensures
            text@ == link_text(self@, link),
    {
        let mut text = self.get_symbol(link);
        match link {
            Some(index) => {
                text.append(" (");
                append_number(&mut text, index);
                text.append(")");
            },
            None => {},
        }
        text
    }

    /// The line of node `i`.
    fn line(&self, i: usize) -> (text: String)
        requires
            self.wf(),
            i < self@.len(),
        ensures
            text@ == node_text(self@, i as int),
    {
        let node = &self.nodes[i];
        let count = self.nodes.len();
        proof {
            assert(self@.len() == count);
            assert(self.nodes@[i as int].sibling == sibling_of(self@, i as int));
            assert(self@[i as int].parent == node.parent);
            assert(self@[i as int].symbol == node.symbol@);
            lemma_sibling_range(self@, i as int);
            match node.parent {
                Some(p) => {
                    assert(p < i);
                },
                None => {},
            }
        }
        let parent = self.link(node.parent);
        let sibling = self.link(node.sibling);
        let mut text = String::from_str("Node ");
        append_number(&mut text, i);
        text.append(": Symbol = ");
        text.append(node.symbol.as_str());
        text.append(", Parent = ");
        text.append(parent.as_str());
        text.append(", Sibling = ");
        text.append(sibling.as_str());
        text.append("\n");
        text
    }

    /// The tree as a text, one line per node: its index and symbol, then the
    /// symbol and index of its parent and of its next sibling.
    pub fn display(&self) -> (text: String)
        requires
            self.wf(),
        ensures
            text@ == tree_text(self@, self@.len() as int),
    {
        let mut text = String::new();
        let mut i: usize = 0;
        while i < self.nodes.len()
            invariant
                i <= self@.len(),
                self.wf(),
                text@ == tree_text(self@, i as int),
            decreases self@.len() - i,
        {
            let line = self.line(i);
            text.append(line.as_str());
            i += 1;
        }
        text
    }
}

/// A reference to node `link`: its symbol and, in brackets, its index, or
/// `None` where there is no node.
pub open spec fn link_text(nodes: Seq<NodeView>, link: Option<usize>) -> Seq<char> {
    match link {
        Some(i) => nodes[i as int].symbol + " ("@ + decimal(i as nat) + ")"@,
        None => no_symbol(),
    }
}

/// The line of node `i`.
pub open spec fn node_text(nodes: Seq<NodeView>, i: int) -> Seq<char> {
    "Node "@ + decimal(i as nat) + ": Symbol = "@ + nodes[i].symbol + ", Parent = "@ + link_text(
        nodes,
        nodes[i].parent,
    ) + ", Sibling = "@ + link_text(nodes, sibling_of(nodes, i)) + "\n"@
}

/// The lines of the first `n` nodes.
pub open spec fn tree_text(nodes: Seq<NodeView>, n: int) -> Seq<char>
    decreases n,
{
    if n <= 0 {
        Seq::empty()
    } else {
        tree_text(nodes, n - 1) + node_text(nodes, n - 1)
    }
}

/// The last child of a node is one of its children, and none comes after it.
proof fn lemma_last_child(nodes: Seq<NodeView>, p: usize)
    requires
        nodes.len() <= usize::MAX,
    ensures
        match last_child_of(nodes, p) {
            Some(l) => l < nodes.len() && nodes[l as int].parent == Some(p) && forall|j: int|
                l < j < nodes.len() ==> (#[trigger] nodes[j]).parent != Some(p),
            None => forall|j: int| 0 <= j < nodes.len() ==> (#[trigger] nodes[j]).parent != Some(p),
        },
    decreases nodes.len(),
{
    if nodes.len() > 0 {
        let rest = nodes.drop_last();
        if nodes.last().parent == Some(p) {
            assert(last_child_of(nodes, p) == Some((nodes.len() - 1) as usize));
        } else {
            lemma_last_child(rest, p);
            assert(last_child_of(nodes, p) == last_child_of(rest, p));
            match last_child_of(rest, p) {
                Some(l) => {
                    assert(rest[l as int] == nodes[l as int]);
                    assert forall|j: int| l < j < nodes.len() implies (#[trigger] nodes[j]).parent
                        != Some(p) by {
                        if j < rest.len() {
                            assert(rest[j] == nodes[j]);
                        }
                    }
                },
                None => {
                    assert forall|j: int| 0 <= j < nodes.len() implies (#[trigger] nodes[j]).parent
                        != Some(p) by {
                        if j < rest.len() {
                            assert(rest[j] == nodes[j]);
                        }
                    }
                },
            }
        }
    }
}

/// A node whose index is not below the number of nodes has no child among
/// nodes that stand behind their parents.
proof fn lemma_no_child(nodes: Seq<NodeView>, p: usize)
    requires
        forall|i: int|
            0 <= i < nodes.len() ==> match (#[trigger] nodes[i]).parent {
                Some(q) => q < i,
                None => true,
            },
        p >= nodes.len(),
    ensures
        last_child_of(nodes, p) is None,
    decreases nodes.len(),
{
    if nodes.len() > 0 {
        let rest = nodes.drop_last();
        assert forall|i: int| 0 <= i < rest.len() implies match (#[trigger] rest[i]).parent {
            Some(q) => q < i,
            None => true,
        } by {
            assert(rest[i] == nodes[i]);
        }
        lemma_no_child(rest, p);
        let last = nodes[nodes.len() - 1];
        assert(last == nodes.last());
        match last.parent {
            Some(q) => {
                assert(q < nodes.len() - 1);
            },
            None => {},
        }
    }
}

/// A sibling stands behind its node.
proof fn lemma_sibling_range(nodes: Seq<NodeView>, i: int)
    requires
        nodes.len() <= usize::MAX,
    ensures
        match sibling_of(nodes, i) {
            Some(s) => i < s < nodes.len() && nodes[i].parent is Some && nodes[s as int].parent
                == nodes[i].parent,
            None => true,
        },
    decreases nodes.len(),
{
    if !(nodes.len() <= i + 1 || i < 0) {
        let rest = nodes.drop_last();
        lemma_sibling_range(rest, i);
        assert(rest[i] == nodes[i]);
        match sibling_of(rest, i) {
            Some(s) => {
                assert(rest[s as int] == nodes[s as int]);
            },
            None => {},
        }
    }
}

/// A node behind which no node has its parent has no sibling.
proof fn lemma_last_sibling(nodes: Seq<NodeView>, i: int)
    requires
        0 <= i < nodes.len(),
        forall|j: int| i < j < nodes.len() ==> (#[trigger] nodes[j]).parent != nodes[i].parent,
    ensures
        sibling_of(nodes, i) is None,
    decreases nodes.len(),
{
    if !(nodes.len() <= i + 1) {
        let rest = nodes.drop_last();
        assert forall|j: int| i < j < rest.len() implies (#[trigger] rest[j]).parent
            != rest[i].parent by {
            assert(rest[j] == nodes[j]);
        }
        lemma_last_sibling(rest, i);
        assert(nodes[nodes.len() - 1] == nodes.last());
    }
}

/// A node behind which a node has its parent has a sibling.
proof fn lemma_has_sibling(nodes: Seq<NodeView>, i: int, l: int)
    requires
        0 <= i < l < nodes.len(),
        nodes[i].parent is Some,
        nodes[l].parent == nodes[i].parent,
    ensures
        sibling_of(nodes, i) is Some,
    decreases nodes.len(),
{
    if l < nodes.len() - 1 {
        lemma_has_sibling(nodes.drop_last(), i, l);
    }
}

} // verus!
