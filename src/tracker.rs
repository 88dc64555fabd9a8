//! A tracker that folds the results of its analyzers into one dependency graph.
use crate::dependency::{edge_views, Dependency, TrackerError};
use crate::graph::{targets_from, DependencyGraph, GraphView};
use vstd::prelude::*;

verus! {

/// The dependency graph of one project root. Each analyzer's result over the
/// root is handed to `record_analysis`.
pub struct CodeTracker {
    root_path: String,
    graph: DependencyGraph,
}

impl CodeTracker {
    pub closed spec fn graph_view(&self) -> GraphView {
        self.graph@
    }

    pub closed spec fn root_spec(&self) -> Seq<char> {
        self.root_path@
    }

    pub closed spec fn wf(&self) -> bool {
        self.graph.wf()
    }

    /// A tracker of `root_path` with an empty graph.
    pub fn new(root_path: String) -> (r: Result<Self, TrackerError>)
        ensures
            r is Ok,
            r->Ok_0.wf(),
            r->Ok_0.root_spec() == root_path@,
            r->Ok_0.graph_view().edges.len() == 0,
    {
        Ok(CodeTracker { root_path, graph: DependencyGraph::new() })
    }

    /// The tracked root.
    pub fn root_path(&self) -> (r: &String)
        ensures
            r@ == self.root_spec(),
    {
        &self.root_path
    }

    /// Adds one analyzer's result to the graph; a failed analysis is
    /// reported as an analysis error and leaves the graph as it was.
    pub fn record_analysis(&mut self, result: Result<Vec<Dependency>, String>) -> (r: Result<(), TrackerError>)
        requires
            old(self).wf(),
        ensures
            final(self).wf(),
            final(self).root_spec() == old(self).root_spec(),
            match result {
                Ok(deps) => r is Ok && final(self).graph_view().edges == old(self).graph_view().edges + edge_views(deps@),
                Err(e) => r == Err::<(), TrackerError>(TrackerError::Analysis(e)) && final(self).graph_view() == old(self).graph_view(),
            },
    {
        match result {
            Ok(deps) => match self.graph.add_dependencies(deps) {
                Ok(()) => Ok(()),
                Err(e) => Err(TrackerError::Graph(e)),
            },
            Err(e) => Err(TrackerError::Analysis(e)),
        }
    }

    /// The targets recorded for `file_path`.
    pub fn get_dependencies(&self, file_path: &String) -> (r: Result<Vec<String>, TrackerError>)
        ensures
            r is Ok,
            r->Ok_0.deep_view() == targets_from(self.graph_view().edges, file_path@),
    {
        match self.graph.get_dependencies(file_path) {
            Ok(d) => Ok(d),
            Err(e) => Err(TrackerError::Graph(e)),
        }
    }
}

} // verus!
