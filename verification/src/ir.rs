//! The GraphIR data model and its mathematical views.
use vstd::prelude::*;
use crate::text::strs;

verus! {

/// The whole evidence graph that one analysis run produces.
#[derive(Debug)]
pub struct GraphIr {
    pub schema_version: String,
    pub target: GraphTarget,
    pub trace: GraphTrace,
    pub nodes: Vec<GraphNode>,
    pub edges: Vec<GraphEdge>,
    pub ops: Vec<GraphOp>,
    pub holes: Vec<GraphHole>,
}

/// What was analysed.
#[derive(Debug)]
pub struct GraphTarget {
    pub entry_file: String,
    pub entry_function: String,
    pub depth_k: u32,
}

/// How the graph was produced.
#[derive(Debug)]
pub struct GraphTrace {
    pub rustc_version: String,
    pub generator: String,
    pub generated_at: String,
}

/// One source line of one function, with the MIR that maps to it.
#[derive(Debug, Clone)]
pub struct GraphNode {
    pub id: u32,
    pub step_id: u32,
    pub span: String,
    pub snippet: String,
    pub function: String,
    pub depth: u32,
    pub mir_items: Vec<String>,
    pub defs: Vec<String>,
    pub uses: Vec<String>,
}

/// A dependence between two nodes.
#[derive(Debug, Clone)]
pub struct GraphEdge {
    pub from: u32,
    pub to: u32,
    pub edge_type: String,
    pub evidence: String,
}

/// An operation recognised with confidence at a node.
#[derive(Debug, Clone)]
pub struct GraphOp {
    pub id: String,
    pub step_id: u32,
    pub category: String,
    pub operation: String,
    pub operands: Vec<String>,
    pub context: String,
    pub span: String,
    pub function: String,
    pub evidence: String,
}

/// A place where the rules could not decide, kept instead of a guess.
#[derive(Debug, Clone)]
pub struct GraphHole {
    pub id: String,
    pub step_id: u32,
    pub kind: String,
    pub reason: String,
    pub span: String,
    pub function: String,
    pub evidence: String,
}

/// The view of a [`GraphNode`].
pub struct NodeView {
    pub id: u32,
    pub step_id: u32,
    pub span: Seq<char>,
    pub snippet: Seq<char>,
    pub function: Seq<char>,
    pub depth: u32,
    pub mir_items: Seq<Seq<char>>,
    pub defs: Seq<Seq<char>>,
    pub uses: Seq<Seq<char>>,
}

/// The view of a [`GraphEdge`].
pub struct EdgeView {
    pub from: u32,
    pub to: u32,
    pub edge_type: Seq<char>,
    pub evidence: Seq<char>,
}

/// The view of a [`GraphOp`].
pub struct OpView {
    pub id: Seq<char>,
    pub step_id: u32,
    pub category: Seq<char>,
    pub operation: Seq<char>,
    pub operands: Seq<Seq<char>>,
    pub context: Seq<char>,
    pub span: Seq<char>,
    pub function: Seq<char>,
    pub evidence: Seq<char>,
}

/// The view of a [`GraphHole`].
pub struct HoleView {
    pub id: Seq<char>,
    pub step_id: u32,
    pub kind: Seq<char>,
    pub reason: Seq<char>,
    pub span: Seq<char>,
    pub function: Seq<char>,
    pub evidence: Seq<char>,
}

impl View for GraphNode {
    type V = NodeView;

    open spec fn view(&self) -> NodeView {
        NodeView {
            id: self.id,
            step_id: self.step_id,
            span: self.span@,
            snippet: self.snippet@,
            function: self.function@,
            depth: self.depth,
            mir_items: strs(self.mir_items@),
            defs: strs(self.defs@),
            uses: strs(self.uses@),
        }
    }
}

impl View for GraphEdge {
    type V = EdgeView;

    open spec fn view(&self) -> EdgeView {
        EdgeView {
            from: self.from,
            to: self.to,
            edge_type: self.edge_type@,
            evidence: self.evidence@,
        }
    }
}

impl View for GraphOp {
    type V = OpView;

    open spec fn view(&self) -> OpView {
        OpView {
            id: self.id@,
            step_id: self.step_id,
            category: self.category@,
            operation: self.operation@,
            operands: strs(self.operands@),
            context: self.context@,
            span: self.span@,
            function: self.function@,
            evidence: self.evidence@,
        }
    }
}

impl View for GraphHole {
    type V = HoleView;

    open spec fn view(&self) -> HoleView {
        HoleView {
            id: self.id@,
            step_id: self.step_id,
            kind: self.kind@,
            reason: self.reason@,
            span: self.span@,
            function: self.function@,
            evidence: self.evidence@,
        }
    }
}

/// The views of a sequence of nodes.
pub open spec fn node_views(s: Seq<GraphNode>) -> Seq<NodeView> {
    s.map_values(|n: GraphNode| n@)
}

/// The views of a sequence of edges.
pub open spec fn edge_views(s: Seq<GraphEdge>) -> Seq<EdgeView> {
    s.map_values(|e: GraphEdge| e@)
}

/// The views of a sequence of operations.
pub open spec fn op_views(s: Seq<GraphOp>) -> Seq<OpView> {
    s.map_values(|o: GraphOp| o@)
}

/// The views of a sequence of holes.
pub open spec fn hole_views(s: Seq<GraphHole>) -> Seq<HoleView> {
    s.map_values(|h: GraphHole| h@)
}

} // verus!
