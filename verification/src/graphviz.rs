//! Diagnostic export of a task graph in the graph-description language
//! used by external visualization tooling.
//!
//! The rendering is pure and fully specified, so its exact output is
//! stable: task nodes are labeled by their identifier, barrier nodes by
//! the guarded resource identity and their access and stage transition,
//! and edges by the resource identity flowing along them.

use vstd::prelude::*;

use crate::resource::{VirtualResource, VirtualResourceView};
use crate::task_graph::{EdgeView, Node, NodeView, TaskGraph, TaskGraphView};
use crate::Error;

verus! {

/// The decimal digit character for one digit value.
pub open spec fn digit_char(d: u64) -> char {
    if d == 0 {
        '0'
    } else if d == 1 {
        '1'
    } else if d == 2 {
        '2'
    } else if d == 3 {
        '3'
    } else if d == 4 {
        '4'
    } else if d == 5 {
        '5'
    } else if d == 6 {
        '6'
    } else if d == 7 {
        '7'
    } else if d == 8 {
        '8'
    } else {
        '9'
    }
}

/// The decimal rendering of a number, most significant digit first.
pub open spec fn dec_str(n: u64) -> Seq<char>
    decreases n,
{
    if n < 10 {
        seq![digit_char(n)]
    } else {
        dec_str(n / 10).push(digit_char(n % 10))
    }
}

/// One version marker per write: the resource identity rendering appends
/// a plus sign for every version step.
pub open spec fn plus_marks(n: u64) -> Seq<char>
    decreases n,
{
    if n == 0 {
        Seq::empty()
    } else {
        plus_marks((n - 1) as u64).push('+')
    }
}

/// The rendering of a resource identity: its name with one plus sign per
/// version.
pub open spec fn uid_str(r: VirtualResourceView) -> Seq<char> {
    r.name + plus_marks(r.version)
}

/// The label of one node.
pub open spec fn node_label(n: NodeView) -> Seq<char> {
    match n {
        NodeView::Task(t) => "task "@ + t.identifier,
        NodeView::Barrier(b) => "barrier "@ + uid_str(b.resource.resource) + " access "@
            + dec_str(b.src_access) + " to "@ + dec_str(b.dst_access) + " stage "@ + dec_str(
            b.src_stage,
        ) + " to "@ + dec_str(b.dst_stage),
    }
}

/// The line rendered for one arena slot; removed slots render nothing.
pub open spec fn node_line(slot: Option<NodeView>, idx: u64) -> Seq<char> {
    match slot {
        Option::Some(nd) => "  "@ + dec_str(idx) + " [label=\""@ + node_label(nd) + "\"]\n"@,
        Option::None => Seq::empty(),
    }
}

/// The node lines of the first `n` slots, in slot order.
pub open spec fn dot_nodes(nodes: Seq<Option<NodeView>>, n: int) -> Seq<char>
    decreases n,
{
    if n <= 0 {
        Seq::empty()
    } else {
        dot_nodes(nodes, n - 1) + node_line(nodes[n - 1], (n - 1) as u64)
    }
}

/// The line rendered for one edge.
pub open spec fn edge_line(e: EdgeView) -> Seq<char> {
    "  "@ + dec_str(e.src as u64) + " -> "@ + dec_str(e.dst as u64) + " [label=\""@ + uid_str(
        e.resource,
    ) + "\"]\n"@
}

/// The edge lines of the first `n` edges, in edge order.
pub open spec fn dot_edges(edges: Seq<EdgeView>, n: int) -> Seq<char>
    decreases n,
{
    if n <= 0 {
        Seq::empty()
    } else {
        dot_edges(edges, n - 1) + edge_line(edges[n - 1])
    }
}

/// The full rendering of a graph.
pub open spec fn dot_spec(g: TaskGraphView) -> Seq<char> {
    "digraph {\n"@ + dot_nodes(g.nodes, g.nodes.len() as int) + dot_edges(
        g.edges,
        g.edges.len() as int,
    ) + "}\n"@
}

/// The digit string for one digit value.
fn digit_literal(d: u64) -> (s: &'static str)
    requires
        d < 10,
    ensures
        s@ == seq![digit_char(d)],
{
    if d == 0 {
        proof {
            reveal_strlit("0");
            assert("0"@ =~= seq![digit_char(0)]);
        }
        "0"
    } else if d == 1 {
        proof {
            reveal_strlit("1");
            assert("1"@ =~= seq![digit_char(1)]);
        }
        "1"
    } else if d == 2 {
        proof {
            reveal_strlit("2");
            assert("2"@ =~= seq![digit_char(2)]);
        }
        "2"
    } else if d == 3 {
        proof {
            reveal_strlit("3");
            assert("3"@ =~= seq![digit_char(3)]);
        }
        "3"
    } else if d == 4 {
        proof {
            reveal_strlit("4");
            assert("4"@ =~= seq![digit_char(4)]);
        }
        "4"
    } else if d == 5 {
        proof {
            reveal_strlit("5");
            assert("5"@ =~= seq![digit_char(5)]);
        }
        "5"
    } else if d == 6 {
        proof {
            reveal_strlit("6");
            assert("6"@ =~= seq![digit_char(6)]);
        }
        "6"
    } else if d == 7 {
        proof {
            reveal_strlit("7");
            assert("7"@ =~= seq![digit_char(7)]);
        }
        "7"
    } else if d == 8 {
        proof {
            reveal_strlit("8");
            assert("8"@ =~= seq![digit_char(8)]);
        }
        "8"
    } else {
        proof {
            reveal_strlit("9");
            assert("9"@ =~= seq![digit_char(9)]);
        }
        "9"
    }
}

/// Render a number in decimal.
fn u64_to_string(n: u64) -> (s: String)
    ensures
        s@ == dec_str(n),
    decreases n,
{
    if n < 10 {
        digit_literal(n).to_owned()
    } else {
        proof {
            assert(n / 10 < n) by (nonlinear_arith)
                requires
                    n >= 10,
            ;
        }
        let mut s = u64_to_string(n / 10);
        s.append(digit_literal(n % 10));
        proof {
            assert(dec_str(n / 10) + seq![digit_char(n % 10)] =~= dec_str(n / 10).push(
                digit_char(n % 10),
            ));
        }
        s
    }
}

/// Render a resource identity.
fn render_uid(r: &VirtualResource) -> (s: String)
    ensures
        s@ == uid_str(r@),
{
    let mut s = r.name.clone();
    let mut i: u64 = 0;
    while i < r.version
        invariant
            i <= r.version,
            s@ == r@.name + plus_marks(i),
        decreases r.version - i,
    {
        s.append("+");
        proof {
            reveal_strlit("+");
            assert("+"@ =~= seq!['+']);
            assert(r@.name + plus_marks(i) + "+"@ =~= r@.name + plus_marks((i + 1) as u64));
        }
        i = i + 1;
    }
    s
}

/// Render one node's label.
fn render_node_label(nd: &Node) -> (s: String)
    ensures
        s@ == node_label(nd@),
{
    match nd {
        Node::Task(t) => {
            let mut s = "task ".to_owned();
            s.append(t.identifier.as_str());
            s
        },
        Node::Barrier(b) => {
            let mut s = "barrier ".to_owned();
            let uid_s = render_uid(&b.resource.resource);
            s.append(uid_s.as_str());
            s.append(" access ");
            let a1 = u64_to_string(b.src_access);
            s.append(a1.as_str());
            s.append(" to ");
            let a2 = u64_to_string(b.dst_access);
            s.append(a2.as_str());
            s.append(" stage ");
            let s1 = u64_to_string(b.src_stage);
            s.append(s1.as_str());
            s.append(" to ");
            let s2 = u64_to_string(b.dst_stage);
            s.append(s2.as_str());
            s
        },
    }
}

/// Graph rendering for external visualization tooling.
pub trait GraphViz {
    /// The exact rendering this value produces.
    spec fn dot_view(&self) -> Seq<char>;

    /// Render the graph as a graph-description-language string.
    fn dot(&self) -> (r: Result<String, Error>)
        ensures
            r matches Result::Ok(s) && s@ == self.dot_view(),
    ;
}

impl GraphViz for TaskGraph {
    open spec fn dot_view(&self) -> Seq<char> {
        dot_spec(self@)
    }

    fn dot(&self) -> (r: Result<String, Error>)
        ensures
            r matches Result::Ok(s) && s@ == self.dot_view(),
    {
        let ghost g = self@;
        let mut s = "digraph {\n".to_owned();
        let mut i: usize = 0;
        while i < self.nodes.len()
            invariant
                g == self@,
                i <= self.nodes@.len(),
                s@ == "digraph {\n"@ + dot_nodes(g.nodes, i as int),
            decreases self.nodes@.len() - i,
        {
            proof {
                assert(crate::task_graph::slot_view(self.nodes@[i as int]) == g.nodes[i as int]);
            }
            match &self.nodes[i] {
                Option::Some(nd) => {
                    s.append("  ");
                    let idx_s = u64_to_string(i as u64);
                    s.append(idx_s.as_str());
                    s.append(" [label=\"");
                    let label = render_node_label(nd);
                    s.append(label.as_str());
                    s.append("\"]\n");
                    proof {
                        assert(s@ =~= "digraph {\n"@ + (dot_nodes(g.nodes, i as int) + node_line(
                            g.nodes[i as int],
                            i as u64,
                        )));
                        assert(s@ =~= "digraph {\n"@ + dot_nodes(g.nodes, i + 1));
                    }
                },
                Option::None => {
                    proof {
                        assert(node_line(g.nodes[i as int], i as u64) =~= Seq::<char>::empty());
                        assert(s@ =~= "digraph {\n"@ + dot_nodes(g.nodes, i + 1));
                    }
                },
            }
            i = i + 1;
        }
        let ghost nodes_part = "digraph {\n"@ + dot_nodes(g.nodes, g.nodes.len() as int);
        let mut k: usize = 0;
        while k < self.edges.len()
            invariant
                g == self@,
                nodes_part == "digraph {\n"@ + dot_nodes(g.nodes, g.nodes.len() as int),
                k <= self.edges@.len(),
                s@ == nodes_part + dot_edges(g.edges, k as int),
            decreases self.edges@.len() - k,
        {
            proof {
                assert(self.edges@[k as int]@ == g.edges[k as int]);
            }
            let e = &self.edges[k];
            s.append("  ");
            let src_s = u64_to_string(e.src as u64);
            s.append(src_s.as_str());
            s.append(" -> ");
            let dst_s = u64_to_string(e.dst as u64);
            s.append(dst_s.as_str());
            s.append(" [label=\"");
            let uid_s = render_uid(&e.resource);
            s.append(uid_s.as_str());
            s.append("\"]\n");
            proof {
                assert(s@ =~= nodes_part + (dot_edges(g.edges, k as int) + edge_line(
                    g.edges[k as int],
                )));
                assert(s@ =~= nodes_part + dot_edges(g.edges, k + 1));
            }
            k = k + 1;
        }
        s.append("}\n");
        proof {
            assert(s@ =~= dot_spec(g));
        }
        Result::Ok(s)
    }
}

} // verus!
