//! The incremental analysis manager: the decisions of one run over a project
//! tree. The walk, the file reads and the analyzers themselves are supplied
//! by the caller, which reports each observed file here.
use crate::dependency::{edge_views, vec_contains, Dependency, EdgeView};
use crate::state::{files_map, needs_analysis_spec, FileRecord, FileState, ProjectState};
use vstd::prelude::*;

verus! {

broadcast use vstd::seq_lib::group_seq_properties;

/// Path components that exclude a path (and everything below it) from a walk.
pub open spec fn ignored_names() -> Seq<Seq<char>> {
    seq!["target"@, "node_modules"@, ".git"@, "__pycache__"@, ".deeptracking-state.json"@]
}

/// A path is ignored when any of its components is an ignored name.
pub open spec fn is_ignored_spec(components: Seq<Seq<char>>) -> bool {
    exists|i: int| 0 <= i < components.len() && ignored_names().contains(#[trigger] components[i])
}

/// The language named by a file extension.
pub open spec fn language_of(ext: Option<Seq<char>>) -> Seq<char> {
    match ext {
        Some(e) => if e == "rs"@ {
            "Rust"@
        } else if e == "py"@ {
            "Python"@
        } else {
            "Unknown"@
        },
        None => "Unknown"@,
    }
}

/// The first analyzer of `registry` (a list of extension lists) that
/// supports `ext`.
pub open spec fn first_supporting(registry: Seq<Seq<Seq<char>>>, ext: Seq<char>, i: int) -> bool {
    &&& 0 <= i < registry.len()
    &&& registry[i].contains(ext)
    &&& forall|j: int| 0 <= j < i ==> !(#[trigger] registry[j]).contains(ext)
}

/// The name of the state file inside a project root.
pub fn state_file_name() -> (r: String)
    ensures
        r@ == ".deeptracking-state.json"@,
{
    ".deeptracking-state.json".to_owned()
}

/// The names that exclude a path from a walk.
fn ignored_patterns() -> (r: Vec<String>)
    ensures
        r.deep_view() == ignored_names(),
{
    let mut out: Vec<String> = Vec::new();
    out.push("target".to_owned());
    out.push("node_modules".to_owned());
    out.push(".git".to_owned());
    out.push("__pycache__".to_owned());
    out.push(".deeptracking-state.json".to_owned());
    proof {
        assert(out.deep_view() =~= ignored_names());
    }
    out
}

/// What a run does with one observed file.
#[derive(Debug, Clone, Copy, PartialEq, Eq, Structural)]
pub enum FileAction {
    /// No analyzer handles the file's extension.
    Unsupported,
    /// The record is current: report its dependencies as they are.
    Reuse,
    /// Analyze the file again with the analyzer of this index.
    Analyze(usize),
}

/// Owns the analysis state of one project root and makes the decisions of
/// each run: which files are ignored, which analyzer handles a file, which
/// files must be re-analyzed, and which records are dropped.
#[derive(Debug)]
pub struct AnalyzerManager {
    project_state: ProjectState,
    state_file: String,
    analyzer_extensions: Vec<Vec<String>>,
}

impl AnalyzerManager {
    pub closed spec fn state(&self) -> ProjectState {
        self.project_state
    }

    pub closed spec fn registry(&self) -> Seq<Seq<Seq<char>>> {
        self.analyzer_extensions.deep_view()
    }

    pub closed spec fn state_path(&self) -> Seq<char> {
        self.state_file@
    }

    pub open spec fn wf(&self) -> bool {
        self.state().wf()
    }

    /// A manager over `state_file`, resuming from `loaded` (the persisted state,
    /// or none when it is missing or unreadable, which starts from an empty
    /// state stamped `now`). `analyzer_extensions[i]` lists the extensions
    /// that analyzer `i` handles.
    pub fn new(state_file: String, loaded: Option<ProjectState>, now: i64, analyzer_extensions: Vec<Vec<String>>) -> (r: Self)
        requires
            match loaded {
                Some(st) => st.wf(),
                None => true,
            },
        ensures
            r.wf(),
            r.state_path() == state_file@,
            r.registry() == analyzer_extensions.deep_view(),
            match loaded {
                Some(st) => r.state() == st,
                None => r.state().view_map() == Map::<Seq<char>, FileRecord>::empty()
                    && r.state().analysis_time() == now,
            },
    {
        let project_state = match loaded {
            Some(st) => st,
            None => ProjectState::new(now),
        };
        AnalyzerManager { project_state, state_file, analyzer_extensions }
    }

    /// The analysis state.
    pub fn project_state(&self) -> (r: &ProjectState)
        ensures
            *r == self.state(),
    {
        &self.project_state
    }

    /// The state file's path.
    pub fn state_file(&self) -> (r: &String)
        ensures
            r@ == self.state_path(),
    {
        &self.state_file
    }

    /// Whether a path with these components is left out of the walk.
    pub fn is_ignored(&self, components: &Vec<String>) -> (r: bool)
        ensures
            r == is_ignored_spec(components.deep_view()),
    {
        let names = ignored_patterns();
        let mut i: usize = 0;
        while i < components.len()
            invariant
                i <= components.len(),
                names.deep_view() == ignored_names(),
                forall|k: int| 0 <= k < i ==> !ignored_names().contains(#[trigger] components.deep_view()[k]),
            decreases components.len() - i,
        {
            if vec_contains(&names, &components[i]) {
                proof {
                    assert(ignored_names().contains(components.deep_view()[i as int]));
                }
                return true;
            }
            i += 1;
        }
        false
    }

    /// The language of a file, by its extension.
    pub fn determine_language(&self, ext: &Option<String>) -> (r: String)
        ensures
            r@ == language_of(match *ext {
                Some(e) => Some(e@),
                None => None,
            }),
    {
        match ext {
            Some(e) => {
                let rs = "rs".to_owned();
                let py = "py".to_owned();
                if *e == rs {
                    "Rust".to_owned()
                } else if *e == py {
                    "Python".to_owned()
                } else {
                    "Unknown".to_owned()
                }
            },
            None => "Unknown".to_owned(),
        }
    }

    /// The index of the first analyzer that supports extension `ext`.
    pub fn get_analyzer_for_file(&self, ext: &Option<String>) -> (r: Option<usize>)
        ensures
            match *ext {
                None => r is None,
                Some(e) => match r {
                    Some(i) => first_supporting(self.registry(), e@, i as int),
                    None => forall|j: int| 0 <= j < self.registry().len() ==> !(#[trigger] self.registry()[j]).contains(e@),
                },
            },
    {
        match ext {
            None => None,
            Some(e) => self.first_analyzer_for(e),
        }
    }

    /// The index of the first analyzer whose extensions contain `e`.
    fn first_analyzer_for(&self, e: &String) -> (r: Option<usize>)
        ensures
            match r {
                Some(i) => first_supporting(self.registry(), e@, i as int),
                None => forall|j: int| 0 <= j < self.registry().len() ==> !(#[trigger] self.registry()[j]).contains(e@),
            },
    {
        let mut i: usize = 0;
        while i < self.analyzer_extensions.len()
            invariant
                i <= self.analyzer_extensions.len(),
                forall|j: int| 0 <= j < i ==> !(#[trigger] self.registry()[j]).contains(e@),
            decreases self.analyzer_extensions.len() - i,
        {
            if vec_contains(&self.analyzer_extensions[i], e) {
                return Some(i);
            }
            i += 1;
        }
        None
    }

    /// The action for a file observed at `path` with extension `ext`,
    /// modification time `modified` and content hash `hash`.
    pub fn plan_file(&self, path: &String, ext: &Option<String>, modified: i64, hash: &String) -> (r: FileAction)
        requires
            self.wf(),
        ensures
            match *ext {
                None => r == FileAction::Unsupported,
                Some(e) => match r {
                    FileAction::Unsupported => forall|j: int|
                        0 <= j < self.registry().len() ==> !(#[trigger] self.registry()[j]).contains(e@),
                    FileAction::Reuse => (exists|i: int| first_supporting(self.registry(), e@, i))
                        && !needs_analysis_spec(self.state().view_map(), path@, modified as int, hash@),
                    FileAction::Analyze(i) => first_supporting(self.registry(), e@, i as int)
                        && needs_analysis_spec(self.state().view_map(), path@, modified as int, hash@),
                },
            },
    {
        match self.get_analyzer_for_file(ext) {
            None => FileAction::Unsupported,
            Some(i) => {
                if self.needs_analysis(path, modified, hash) {
                    FileAction::Analyze(i)
                } else {
                    FileAction::Reuse
                }
            },
        }
    }

    /// Whether the file at `path`, observed with `modified` and content hash
    /// `hash`, must be analyzed again.
    pub fn needs_analysis(&self, path: &String, modified: i64, hash: &String) -> (r: bool)
        requires
            self.wf(),
        ensures
            r == needs_analysis_spec(self.state().view_map(), path@, modified as int, hash@),
    {
        self.project_state.needs_analysis(path, modified, hash)
    }

    /// Records the result of analyzing `path`.
    pub fn update_file_state(&mut self, path: String, modified: i64, hash: String, deps: Vec<Dependency>)
        requires
            old(self).wf(),
        ensures
            final(self).wf(),
            final(self).registry() == old(self).registry(),
            final(self).state_path() == old(self).state_path(),
            final(self).state().view_map() == old(self).state().view_map().insert(
                path@,
                FileRecord { last_modified: modified as int, hash: hash@, dependencies: edge_views(deps@) },
            ),
    {
        self.project_state.update_file_state(FileState { path, last_modified: modified, dependencies: deps, hash });
    }

    /// The dependencies that the run reports for a tracked file: the fresh
    /// ones when it was just analyzed, the recorded ones otherwise.
    pub fn file_dependencies(&self, path: &String) -> (r: Vec<Dependency>)
        requires
            self.wf(),
        ensures
            self.state().view_map().contains_key(path@) ==> edge_views(r@) == self.state().view_map()[path@].dependencies,
            !self.state().view_map().contains_key(path@) ==> r@.len() == 0,
    {
        match self.project_state.cached_dependencies(path) {
            Some(d) => d,
            None => Vec::new(),
        }
    }

    /// Ends a run: drops the record of every file that the walk did not
    /// observe and stamps the run's time.
    pub fn finish_run(&mut self, observed: &Vec<String>, now: i64)
        requires
            old(self).wf(),
        ensures
            final(self).wf(),
            final(self).registry() == old(self).registry(),
            final(self).state_path() == old(self).state_path(),
            final(self).state().analysis_time() == now,
            final(self).state().view_map() == old(self).state().view_map().restrict(observed.deep_view().to_set()),
    {
        self.project_state.retain_observed(observed);
        self.project_state.set_last_analysis(now);
    }
}

/// Change detection: a tracked file whose content hash differs from its
/// record, or whose modification time is newer, needs analysis; so does an
/// untracked one.
pub proof fn lemma_change_detected(m: Map<Seq<char>, FileRecord>, path: Seq<char>, modified: int, hash: Seq<char>)
    requires
        !m.contains_key(path) || hash != m[path].hash || modified > m[path].last_modified,
    ensures
        needs_analysis_spec(m, path, modified, hash),
{
}

/// Deletion: after a run whose walk did not observe `path`, no record of
/// `path` is left.
pub proof fn lemma_deleted_file_dropped(m: Map<Seq<char>, FileRecord>, observed: Set<Seq<char>>, path: Seq<char>)
    requires
        !observed.contains(path),
    ensures
        !m.restrict(observed).contains_key(path),
{
}

/// Idempotence: when every observed file is seen again with the modification
/// time and hash that its record holds, and every record belongs to an
/// observed file, no file needs analysis and ending the run leaves the
/// records as they were.
pub proof fn lemma_rerun_is_stable(m: Map<Seq<char>, FileRecord>, observed: Seq<(Seq<char>, int, Seq<char>)>)
    requires
        forall|k: int|
            0 <= k < observed.len() && m.contains_key(#[trigger] observed[k].0) ==> observed[k].1 == m[observed[k].0].last_modified
                && observed[k].2 == m[observed[k].0].hash,
        forall|p: Seq<char>| #[trigger] m.contains_key(p) ==> exists|k: int| 0 <= k < observed.len() && observed[k].0 == p,
    ensures
        forall|k: int|
            0 <= k < observed.len() && m.contains_key(#[trigger] observed[k].0) ==> !needs_analysis_spec(m, observed[k].0, observed[k].1, observed[k].2),
        m.restrict(observed.map_values(|o: (Seq<char>, int, Seq<char>)| o.0).to_set()) == m,
{
    let paths = observed.map_values(|o: (Seq<char>, int, Seq<char>)| o.0);
    assert forall|p| #[trigger] m.contains_key(p) implies paths.to_set().contains(p) by {
        let k = choose|k: int| 0 <= k < observed.len() && observed[k].0 == p;
        assert(paths[k] == p);
    }
    assert(m.restrict(paths.to_set()) =~= m);
}

/// A record just written for a file is not stale for the same observation.
pub proof fn lemma_fresh_record_not_stale(m: Map<Seq<char>, FileRecord>, path: Seq<char>, modified: int, hash: Seq<char>, deps: Seq<EdgeView>)
    ensures
        !needs_analysis_spec(
            m.insert(path, FileRecord { last_modified: modified, hash, dependencies: deps }),
            path,
            modified,
            hash,
        ),
{
}

} // verus!
