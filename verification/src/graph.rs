//! The link graph handed to visualizers: one node per indexed note,
//! one edge per link whose raw target names an indexed note exactly
//! (as written, or with the note extension appended).

use vstd::prelude::*;
use crate::store::{Store, StoreModel, NoteR};
use crate::notes::{NoteMeta, meta_of};
use crate::links::md_ext;
use crate::text::{chars_of, chars_eq};

verus! {

/// One node: a note, keyed by its path.
pub struct GraphNode {
    pub id: String,
    pub title: String,
    pub word_count: i32,
}

/// One edge: a link from the note at `source` to the raw target.
pub struct GraphEdge {
    pub source: String,
    pub target: String,
}

/// The whole graph.
pub struct GraphData {
    pub nodes: Vec<GraphNode>,
    pub edges: Vec<GraphEdge>,
}

#[verifier::ext_equal]
pub struct GraphNodeR {
    pub id: Seq<char>,
    pub title: Seq<char>,
    pub word_count: i32,
}

#[verifier::ext_equal]
pub struct GraphEdgeR {
    pub source: Seq<char>,
    pub target: Seq<char>,
}

impl View for GraphNode {
    type V = GraphNodeR;

    open spec fn view(&self) -> GraphNodeR {
        GraphNodeR { id: self.id@, title: self.title@, word_count: self.word_count }
    }
}

impl View for GraphEdge {
    type V = GraphEdgeR;

    open spec fn view(&self) -> GraphEdgeR {
        GraphEdgeR { source: self.source@, target: self.target@ }
    }
}

/// The node of one note.
pub open spec fn node_of(n: NoteR) -> GraphNodeR {
    GraphNodeR { id: n.path, title: n.title, word_count: n.word_count }
}

/// Whether some indexed note's path equals the raw target exactly, as
/// written or with the note extension appended.
pub open spec fn target_exists(notes: Seq<NoteR>, target: Seq<char>) -> bool {
    exists|w: int|
        0 <= w < notes.len() && ((#[trigger] notes[w]).path == target || notes[w].path == target
            + md_ext())
}

/// The edges of one note: its links whose targets name indexed notes,
/// in link-table order.
pub open spec fn edges_of_note(m: StoreModel, nid: i64, path: Seq<char>, j: int) -> Seq<
    GraphEdgeR,
>
    decreases m.links.len() - j,
{
    if j < 0 || j >= m.links.len() {
        Seq::empty()
    } else {
        let rest = edges_of_note(m, nid, path, j + 1);
        if m.links[j].source_id == nid && target_exists(m.notes, m.links[j].target_path) {
            seq![GraphEdgeR { source: path, target: m.links[j].target_path }] + rest
        } else {
            rest
        }
    }
}

/// All edges, notes in table order, each note's links in table order.
pub open spec fn spec_edges(m: StoreModel, i: int) -> Seq<GraphEdgeR>
    decreases m.notes.len() - i,
{
    if i < 0 || i >= m.notes.len() {
        Seq::empty()
    } else {
        edges_of_note(m, m.notes[i].id, m.notes[i].path, 0) + spec_edges(m, i + 1)
    }
}

fn target_exists_exec(notes: &Vec<crate::store::NoteRow>, target: &String) -> (r: bool)
    ensures
        r == target_exists(notes@.map_values(|n: crate::store::NoteRow| n@), target@),
{
    let ghost nv = notes@.map_values(|n: crate::store::NoteRow| n@);
    let mut tmd = chars_of(target.as_str());
    tmd.push('.');
    tmd.push('m');
    tmd.push('d');
    proof {
        assert(tmd@ =~= target@ + md_ext());
    }
    let n = notes.len();
    let mut w: usize = 0;
    while w < n
        invariant
            0 <= w <= n,
            n == notes@.len(),
            nv == notes@.map_values(|n: crate::store::NoteRow| n@),
            tmd@ == target@ + md_ext(),
            forall|k: int|
                0 <= k < w ==> !((#[trigger] nv[k]).path == target@ || nv[k].path == target@
                    + md_ext()),
        decreases n - w,
    {
        proof {
            assert(nv[w as int] == notes@[w as int]@);
        }
        let pc = chars_of(notes[w].path.as_str());
        let tc = chars_of(target.as_str());
        if chars_eq(&pc, &tc) || chars_eq(&pc, &tmd) {
            proof {
                assert(nv[w as int].path == target@ || nv[w as int].path == target@ + md_ext());
            }
            return true;
        }
        w = w + 1;
    }
    false
}

impl Store {
    /// The whole link graph: one node per note (most recently modified
    /// first, as `list_notes` orders them), and one edge per link whose
    /// raw target names an indexed note exactly, notes and links taken
    /// in table order.
    pub fn get_graph_data(&self) -> (r: GraphData)
        ensures
            r.nodes@.map_values(|x: GraphNode| x@).to_multiset() == self@.notes.map_values(
                |n: NoteR| node_of(n),
            ).to_multiset(),
            r.edges@.map_values(|e: GraphEdge| e@) == spec_edges(self@, 0),
    {
        let ghost m = self@;
        let metas = self.list_notes();
        let nm = metas.len();
        let mut nodes: Vec<GraphNode> = Vec::new();
        let mut i: usize = 0;
        while i < nm
            invariant
                0 <= i <= nm,
                nm == metas@.len(),
                nodes@.len() == i as int,
                forall|j: int|
                    0 <= j < i ==> (#[trigger] nodes@[j])@ == (GraphNodeR {
                        id: metas@[j]@.path,
                        title: metas@[j]@.title,
                        word_count: metas@[j]@.word_count,
                    }),
            decreases nm - i,
        {
            let node = GraphNode {
                id: String::from_str(metas[i].path.as_str()),
                title: String::from_str(metas[i].title.as_str()),
                word_count: metas[i].word_count,
            };
            nodes.push(node);
            i = i + 1;
        }
        proof {
            let lhs = nodes@.map_values(|x: GraphNode| x@);
            let mhs = metas@.map_values(|x: NoteMeta| x@).map_values(
                |x: crate::notes::NoteMetaR| GraphNodeR {
                    id: x.path,
                    title: x.title,
                    word_count: x.word_count,
                },
            );
            assert forall|j: int| 0 <= j < lhs.len() implies #[trigger] lhs[j] == mhs[j] by {
                assert(nodes@[j]@ == (GraphNodeR {
                    id: metas@[j]@.path,
                    title: metas@[j]@.title,
                    word_count: metas@[j]@.word_count,
                }));
            }
            assert(lhs =~= mhs);
            crate::store::lemma_multiset_map(
                metas@.map_values(|x: NoteMeta| x@),
                metas@.map_values(|x: NoteMeta| x@),
                |x: crate::notes::NoteMetaR| GraphNodeR {
                    id: x.path,
                    title: x.title,
                    word_count: x.word_count,
                },
            );
            lemma_nodes_multiset(m, metas@.map_values(|x: NoteMeta| x@));
        }
        // edges, notes in table order
        let nn = self.notes.len();
        let mut edges: Vec<GraphEdge> = Vec::new();
        let mut ni: usize = 0;
        while ni < nn
            invariant
                0 <= ni <= nn,
                nn == self.notes@.len(),
                self@ == m,
                m.notes.len() == nn as int,
                edges@.map_values(|e: GraphEdge| e@) + spec_edges(m, ni as int) =~= spec_edges(
                    m,
                    0,
                ),
            decreases nn - ni,
        {
            proof {
                assert(m.notes[ni as int] == self.notes@[ni as int]@);
            }
            let nid = self.notes[ni].id;
            let nl = self.links.len();
            let ghost pre_outer = edges@.map_values(|e: GraphEdge| e@);
            let mut li: usize = 0;
            while li < nl
                invariant
                    0 <= li <= nl,
                    0 <= ni < nn,
                    nl == self.links@.len(),
                    nn == self.notes@.len(),
                    self@ == m,
                    m.links.len() == nl as int,
                    m.notes.len() == nn as int,
                    nid == m.notes[ni as int].id,
                    edges@.map_values(|e: GraphEdge| e@) + edges_of_note(
                        m,
                        nid,
                        m.notes[ni as int].path,
                        li as int,
                    ) =~= pre_outer + edges_of_note(m, nid, m.notes[ni as int].path, 0),
                decreases nl - li,
            {
                let ghost pre = edges@.map_values(|e: GraphEdge| e@);
                proof {
                    assert(m.links[li as int] == self.links@[li as int]@);
                }
                if self.links[li].source_id == nid && target_exists_exec(
                    &self.notes,
                    &self.links[li].target_path,
                ) {
                    let edge = GraphEdge {
                        source: String::from_str(self.notes[ni].path.as_str()),
                        target: String::from_str(self.links[li].target_path.as_str()),
                    };
                    edges.push(edge);
                    proof {
                        assert(edges@.map_values(|e: GraphEdge| e@) =~= pre + seq![
                            GraphEdgeR {
                                source: m.notes[ni as int].path,
                                target: m.links[li as int].target_path,
                            },
                        ]);
                        assert(edges_of_note(m, nid, m.notes[ni as int].path, li as int)
                            == seq![
                            GraphEdgeR {
                                source: m.notes[ni as int].path,
                                target: m.links[li as int].target_path,
                            },
                        ] + edges_of_note(m, nid, m.notes[ni as int].path, li + 1));
                    }
                } else {
                    proof {
                        assert(edges_of_note(m, nid, m.notes[ni as int].path, li as int)
                            == edges_of_note(m, nid, m.notes[ni as int].path, li + 1));
                    }
                }
                li = li + 1;
            }
            proof {
                assert(edges_of_note(m, nid, m.notes[ni as int].path, nl as int)
                    =~= Seq::<GraphEdgeR>::empty());
                assert(edges@.map_values(|e: GraphEdge| e@) =~= pre_outer + edges_of_note(
                    m,
                    nid,
                    m.notes[ni as int].path,
                    0,
                ));
                assert(spec_edges(m, ni as int) == edges_of_note(
                    m,
                    m.notes[ni as int].id,
                    m.notes[ni as int].path,
                    0,
                ) + spec_edges(m, ni + 1));
            }
            ni = ni + 1;
        }
        proof {
            assert(spec_edges(m, ni as int) =~= Seq::<GraphEdgeR>::empty());
            assert(edges@.map_values(|e: GraphEdge| e@) =~= spec_edges(m, 0));
        }
        GraphData { nodes, edges }
    }
}

/// The node multiset of the listing equals the node multiset of the
/// table.
proof fn lemma_nodes_multiset(m: StoreModel, metas: Seq<crate::notes::NoteMetaR>)
    requires
        metas.to_multiset() == m.notes.map_values(|n: NoteR| meta_of(n)).to_multiset(),
    ensures
        metas.map_values(
            |x: crate::notes::NoteMetaR| GraphNodeR {
                id: x.path,
                title: x.title,
                word_count: x.word_count,
            },
        ).to_multiset() == m.notes.map_values(|n: NoteR| node_of(n)).to_multiset(),
{
    let f = |x: crate::notes::NoteMetaR| GraphNodeR {
        id: x.path,
        title: x.title,
        word_count: x.word_count,
    };
    crate::store::lemma_multiset_map(m.notes.map_values(|n: NoteR| meta_of(n)), metas, f);
    assert(m.notes.map_values(|n: NoteR| meta_of(n)).map_values(f) =~= m.notes.map_values(
        |n: NoteR| node_of(n),
    ));
}

} // verus!
