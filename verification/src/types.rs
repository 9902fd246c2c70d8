//! Identifiers and result rows shared by the stores and the path search.
use vstd::prelude::*;

verus! {

/// Source table of a node.
#[derive(Debug, Clone, Copy, PartialEq, Eq, Structural)]
pub struct TableOid(pub u32);

/// Dense identifier of an edge type; zero is the reserved untyped label.
#[derive(Debug, Clone, Copy, PartialEq, Eq, Structural)]
pub struct EdgeTypeId(pub u32);

impl EdgeTypeId {
    /// The reserved identifier of an edge without a type.
    pub fn untyped() -> (id: Self)
        ensures
            id == EdgeTypeId(0),
    {
        EdgeTypeId(0)
    }

    /// The number of this edge type.
    pub fn get(self) -> (number: u32)
        ensures
            number == self.0,
    {
        self.0
    }
}

/// Direction in which a traversal follows relationships.
#[derive(Debug, Clone, Copy, PartialEq, Eq, Structural)]
pub enum TraversalDirection {
    Any,
    Out,
    In,
}

/// Order in which a traversal discovers nodes.
#[derive(Debug, Clone, Copy, PartialEq, Eq, Structural)]
pub enum TraversalStrategy {
    Bfs,
    Dfs,
}

/// One node of an unweighted path.
#[derive(Debug, PartialEq, Eq)]
pub struct PathStep {
    pub step: i32,
    pub node_table: TableOid,
    pub node_id: String,
    pub edge_label: Option<String>,
}

/// What a [`PathStep`] says.
#[verifier::ext_equal]
pub struct PathStepView {
    pub step: i32,
    pub node_table: u32,
    pub node_id: Seq<char>,
    pub edge_label: Option<Seq<char>>,
}

/// The text of an optional string.
pub open spec fn optional_text(text: Option<String>) -> Option<Seq<char>> {
    match text {
        Some(value) => Some(value@),
        None => None,
    }
}

impl View for PathStep {
    type V = PathStepView;

    open spec fn view(&self) -> PathStepView {
        PathStepView {
            step: self.step,
            node_table: self.node_table.0,
            node_id: self.node_id@,
            edge_label: optional_text(self.edge_label),
        }
    }
}

/// One node of a weighted path.
#[derive(Debug, PartialEq, Eq)]
pub struct WeightedPathStep {
    pub step: i32,
    pub node_table: TableOid,
    pub node_id: String,
    pub edge_label: Option<String>,
    pub edge_weight: Option<u32>,
    pub step_cost: u64,
    pub total_cost: u64,
}

/// What a [`WeightedPathStep`] says.
#[verifier::ext_equal]
pub struct WeightedPathStepView {
    pub step: i32,
    pub node_table: u32,
    pub node_id: Seq<char>,
    pub edge_label: Option<Seq<char>>,
    pub edge_weight: Option<u32>,
    pub step_cost: int,
    pub total_cost: int,
}

impl View for WeightedPathStep {
    type V = WeightedPathStepView;

    open spec fn view(&self) -> WeightedPathStepView {
        WeightedPathStepView {
            step: self.step,
            node_table: self.node_table.0,
            node_id: self.node_id@,
            edge_label: optional_text(self.edge_label),
            edge_weight: self.edge_weight,
            step_cost: self.step_cost as int,
            total_cost: self.total_cost as int,
        }
    }
}

/// A node on the way to a listed one.
#[derive(Debug, PartialEq, Eq)]
pub struct PathCoordinate {
    pub table_oid: TableOid,
    pub node_id: String,
}

/// What [`PathCoordinate`]s say: a table and a key each.
pub open spec fn coordinate_views(path: Seq<PathCoordinate>) -> Seq<(u32, Seq<char>)> {
    Seq::new(path.len(), |i: int| (path[i].table_oid.0, path[i].node_id@))
}

/// One node that a traversal lists.
#[derive(Debug, PartialEq, Eq)]
pub struct TraversalResult {
    pub node_table: TableOid,
    pub node_id: String,
    pub depth: i32,
    /// The nodes from the seed to this one, both among them.
    pub path: Vec<PathCoordinate>,
    /// The labels of the edges between them.
    pub edge_path: Vec<String>,
}

/// What a [`TraversalResult`] says.
#[verifier::ext_equal]
pub struct TraversalResultView {
    pub node_table: u32,
    pub node_id: Seq<char>,
    pub depth: int,
    pub path: Seq<(u32, Seq<char>)>,
    pub edge_path: Seq<Seq<char>>,
}

impl View for TraversalResult {
    type V = TraversalResultView;

    open spec fn view(&self) -> TraversalResultView {
        TraversalResultView {
            node_table: self.node_table.0,
            node_id: self.node_id@,
            depth: self.depth as int,
            path: coordinate_views(self.path@),
            edge_path: Seq::new(self.edge_path@.len(), |i: int| self.edge_path@[i]@),
        }
    }
}

/// What traversal rows say.
pub open spec fn traversal_views(rows: Seq<TraversalResult>) -> Seq<TraversalResultView> {
    Seq::new(rows.len(), |i: int| rows[i]@)
}

} // verus!
