//! The packages of a workspace, their dependencies, and their mathematical views.

use vstd::prelude::*;

verus! {

/// What a dependency is needed for.
#[derive(Clone, Copy, Debug, Hash, PartialEq, Eq, PartialOrd, Structural)]
pub enum DependencyType {
    /// Needed for the package's normal build.
    Regular,
    /// Needed only for the package's own tests and tooling.
    Dev,
    /// Needed only for build-time code generation.
    Build,
}

/// Whether a package has been entered during the current traversal.
#[derive(Clone, Copy, Debug, Hash, PartialEq, Eq, PartialOrd, Structural)]
pub enum State {
    /// Not reached yet.
    NotProcessed,
    /// Entered by the walk.
    Processed,
}

/// A dependency of one package on another, identified by target name and kind.
#[derive(Debug, Hash, Eq, PartialOrd)]
pub struct Dependency {
    /// Name of the crate.
    pub name: String,
    /// Type of dependency -- regular, dev, build.
    pub dep_type: DependencyType,
}

/// A dependency as a mathematical value.
pub struct DependencyView {
    pub name: Seq<char>,
    pub dep_type: DependencyType,
}

impl View for Dependency {
    type V = DependencyView;

    open spec fn view(&self) -> DependencyView {
        DependencyView { name: self.name@, dep_type: self.dep_type }
    }
}

impl DeepView for Dependency {
    type V = DependencyView;

    open spec fn deep_view(&self) -> DependencyView {
        self@
    }
}

impl Clone for Dependency {
    fn clone(&self) -> (copy: Self)
        ensures
            copy@ == self@,
    {
        Dependency { name: self.name.clone(), dep_type: self.dep_type }
    }
}

/// Two dependencies are equal when they have the same target name and the
/// same kind.
impl PartialEq for Dependency {
    fn eq(&self, other: &Self) -> (equal: bool) {
        self.name == other.name && self.dep_type == other.dep_type
    }
}

impl vstd::std_specs::cmp::PartialEqSpecImpl for Dependency {
    open spec fn obeys_eq_spec() -> bool {
        true
    }

    open spec fn eq_spec(&self, other: &Self) -> bool {
        self@ == other@
    }
}

/// A package of the workspace: a node of the dependency graph.
#[derive(Debug, Eq)]
pub struct Node {
    /// Name of the package, by which dependencies refer to it.
    pub name: String,
    /// The dependencies on packages of the workspace, each once.
    pub dependencies: Vec<Dependency>,
    /// Whether the current walk has entered the package.
    pub state: State,
}

/// A package as a mathematical value.
pub struct NodeView {
    pub name: Seq<char>,
    pub dependencies: Seq<DependencyView>,
    pub state: State,
}

impl NodeView {
    /// Whether the dependencies are a set: none occurs twice.
    pub open spec fn well_formed(self) -> bool {
        self.dependencies.no_duplicates()
    }
}

impl View for Node {
    type V = NodeView;

    open spec fn view(&self) -> NodeView {
        NodeView {
            name: self.name@,
            dependencies: self.dependencies.deep_view(),
            state: self.state,
        }
    }
}

impl DeepView for Node {
    type V = NodeView;

    open spec fn deep_view(&self) -> NodeView {
        self@
    }
}

impl Node {
    /// Records that the walk has entered the package.
    pub fn mark_processed(&mut self)
        ensures
            final(self)@ == (NodeView { state: State::Processed, ..old(self)@ }),
    {
        self.state = State::Processed;
    }

    /// Whether the walk has entered the package.
    pub fn is_processed(&self) -> (processed: bool)
        ensures
            processed == (self.state == State::Processed),
    {
        self.state == State::Processed
    }
}

/// Copies a list of dependencies.
fn clone_dependencies(dependencies: &Vec<Dependency>) -> (copy: Vec<Dependency>)
    ensures
        copy.deep_view() == dependencies.deep_view(),
{
    let mut copy: Vec<Dependency> = Vec::new();
    let mut i: usize = 0;
    while i < dependencies.len()
        invariant
            i <= dependencies.len(),
            copy.len() == i,
            forall|k: int| 0 <= k < i ==> copy[k]@ == dependencies[k]@,
        decreases dependencies.len() - i,
    {
        copy.push(dependencies[i].clone());
        i += 1;
    }
    assert(copy.deep_view() =~= dependencies.deep_view());
    copy
}

impl Clone for Node {
    fn clone(&self) -> (copy: Self)
        ensures
            copy@ == self@,
    {
        Node {
            name: self.name.clone(),
            dependencies: clone_dependencies(&self.dependencies),
            state: self.state,
        }
    }
}

/// Two nodes are equal when they have the same name, whatever their
/// dependencies and state.
impl PartialEq for Node {
    fn eq(&self, other: &Self) -> (equal: bool) {
        self.name == other.name
    }
}

impl vstd::std_specs::cmp::PartialEqSpecImpl for Node {
    open spec fn obeys_eq_spec() -> bool {
        true
    }

    open spec fn eq_spec(&self, other: &Self) -> bool {
        self.name@ == other.name@
    }
}

/// A cycle is a chain of crates that end up in a dependency circle. Two
/// cycles are equal when they have the same members, in whatever order.
#[derive(Debug, Eq)]
pub struct Cycle(pub Vec<Node>);

impl View for Cycle {
    type V = Seq<NodeView>;

    open spec fn view(&self) -> Seq<NodeView> {
        self.0.deep_view()
    }
}

impl DeepView for Cycle {
    type V = Seq<NodeView>;

    open spec fn deep_view(&self) -> Seq<NodeView> {
        self@
    }
}

/// What a package manifest declares: the package's name and the names it
/// depends on, regularly and for development only.
#[derive(Debug)]
pub struct CrateMetadata {
    /// Name of the crate.
    pub name: String,
    /// Names listed as regular dependencies.
    pub dependencies: Vec<String>,
    /// Names listed as dev dependencies.
    pub dev_dependencies: Vec<String>,
}

/// A package record as a mathematical value.
pub struct CrateMetadataView {
    pub name: Seq<char>,
    pub dependencies: Seq<Seq<char>>,
    pub dev_dependencies: Seq<Seq<char>>,
}

impl View for CrateMetadata {
    type V = CrateMetadataView;

    open spec fn view(&self) -> CrateMetadataView {
        CrateMetadataView {
            name: self.name@,
            dependencies: self.dependencies.deep_view(),
            dev_dependencies: self.dev_dependencies.deep_view(),
        }
    }
}

impl DeepView for CrateMetadata {
    type V = CrateMetadataView;

    open spec fn deep_view(&self) -> CrateMetadataView {
        self@
    }
}

/// Copies a list of names.
fn clone_names(names: &Vec<String>) -> (copy: Vec<String>)
    ensures
        copy.deep_view() == names.deep_view(),
{
    let mut copy: Vec<String> = Vec::new();
    let mut i: usize = 0;
    while i < names.len()
        invariant
            i <= names.len(),
            copy.len() == i,
            forall|k: int| 0 <= k < i ==> copy[k]@ == names[k]@,
        decreases names.len() - i,
    {
        copy.push(names[i].clone());
        i += 1;
    }
    assert(copy.deep_view() =~= names.deep_view());
    copy
}

impl Clone for CrateMetadata {
    fn clone(&self) -> (copy: Self)
        ensures
            copy@ == self@,
    {
        CrateMetadata {
            name: self.name.clone(),
            dependencies: clone_names(&self.dependencies),
            dev_dependencies: clone_names(&self.dev_dependencies),
        }
    }
}

} // verus!
