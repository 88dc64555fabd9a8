//! Dependency facts as emitted by the per-language analyzers.
use vstd::prelude::*;

verus! {

/// The kind of relationship a dependency fact records.
#[derive(Debug, Clone, Copy, PartialEq, Eq, Hash, Structural)]
pub enum DependencyType {
    Import,
    FunctionCall,
    Inheritance,
    Usage,
    FunctionDefinition,
    TypeUsage,
}

/// Human-readable relation name of each kind.
pub open spec fn relation_name_spec(kind: DependencyType) -> Seq<char> {
    match kind {
        DependencyType::FunctionCall => "calls"@,
        DependencyType::Import => "imports"@,
        DependencyType::Inheritance => "inherits"@,
        DependencyType::Usage => "uses"@,
        DependencyType::FunctionDefinition => "defines"@,
        DependencyType::TypeUsage => "uses_type"@,
    }
}

impl DependencyType {
    /// The relation name under which edges of this kind are grouped.
    pub fn relation_name(&self) -> (r: String)
        ensures
            r@ == relation_name_spec(*self),
    {
        match self {
            DependencyType::FunctionCall => "calls".to_owned(),
            DependencyType::Import => "imports".to_owned(),
            DependencyType::Inheritance => "inherits".to_owned(),
            DependencyType::Usage => "uses".to_owned(),
            DependencyType::FunctionDefinition => "defines".to_owned(),
            DependencyType::TypeUsage => "uses_type".to_owned(),
        }
    }
}

/// Where and how a dependency was observed. `context` holds structured
/// context as JSON text.
#[derive(Debug, Clone, Default)]
pub struct DependencyMetadata {
    pub line_number: Option<usize>,
    pub description: Option<String>,
    pub relationships: Option<Vec<String>>,
    pub context: Option<String>,
}

/// A typed relationship from `source` to `target` (a path or a symbol).
#[derive(Debug, Clone)]
pub struct Dependency {
    pub source: String,
    pub target: String,
    pub dependency_type: DependencyType,
    pub metadata: DependencyMetadata,
}

/// The structural content of a dependency fact or a graph edge.
pub ghost struct EdgeView {
    pub source: Seq<char>,
    pub target: Seq<char>,
    pub kind: DependencyType,
}

impl Dependency {
    pub open spec fn edge_view(&self) -> EdgeView {
        EdgeView { source: self.source@, target: self.target@, kind: self.dependency_type }
    }

    pub fn new(source: String, target: String, dependency_type: DependencyType) -> (r: Dependency)
        ensures
            r.edge_view() == (EdgeView { source: source@, target: target@, kind: dependency_type }),
            r.metadata.line_number is None,
    {
        Dependency {
            source,
            target,
            dependency_type,
            metadata: DependencyMetadata {
                line_number: None,
                description: None,
                relationships: None,
                context: None,
            },
        }
    }

    /// A copy of this fact; the metadata is cloned as is.
    pub fn duplicate(&self) -> (r: Dependency)
        ensures
            r.edge_view() == self.edge_view(),
    {
        Dependency {
            source: self.source.clone(),
            target: self.target.clone(),
            dependency_type: self.dependency_type,
            metadata: self.metadata.clone(),
        }
    }
}

/// The edge views of a sequence of dependency facts.
pub open spec fn edge_views(deps: Seq<Dependency>) -> Seq<EdgeView> {
    deps.map_values(|d: Dependency| d.edge_view())
}

/// Whether `v` holds a string equal to `x`.
pub(crate) fn vec_contains(v: &Vec<String>, x: &String) -> (r: bool)
    ensures
        r == v.deep_view().contains(x@),
{
    let mut i: usize = 0;
    while i < v.len()
        invariant
            i <= v.len(),
            forall|k: int| 0 <= k < i ==> v.deep_view()[k] != x@,
        decreases v.len() - i,
    {
        if v[i] == *x {
            proof {
                assert(v.deep_view()[i as int] == x@);
            }
            return true;
        }
        i += 1;
    }
    false
}

/// Errors of a tracking run.
#[derive(Debug)]
pub enum TrackerError {
    Io(String),
    Analysis(String),
    Graph(String),
}

} // verus!
