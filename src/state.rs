//! Persisted per-file analysis state and the decisions of an incremental run:
//! which files to skip, which to re-analyze, and which entries to drop.
use crate::dependency::{edge_views, vec_contains, Dependency, EdgeView};
use vstd::prelude::*;

verus! {

broadcast use vstd::seq_lib::group_seq_properties;

/// The analysis record of one tracked file. `last_modified` is the file's
/// modification time in milliseconds since the Unix epoch.
#[derive(Debug, Clone)]
pub struct FileState {
    pub path: String,
    pub last_modified: i64,
    pub dependencies: Vec<Dependency>,
    pub hash: String,
}

/// What the state records of one file.
pub ghost struct FileRecord {
    pub last_modified: int,
    pub hash: Seq<char>,
    pub dependencies: Seq<EdgeView>,
}

impl FileState {
    pub open spec fn record(&self) -> FileRecord {
        FileRecord {
            last_modified: self.last_modified as int,
            hash: self.hash@,
            dependencies: edge_views(self.dependencies@),
        }
    }
}

/// The records of `files`, keyed by path.
pub open spec fn files_map(files: Seq<FileState>) -> Map<Seq<char>, FileRecord>
    decreases files.len(),
{
    if files.len() == 0 {
        Map::empty()
    } else {
        files_map(files.drop_last()).insert(files.last().path@, files.last().record())
    }
}

/// No path is recorded twice.
pub open spec fn paths_unique(files: Seq<FileState>) -> bool {
    forall|i: int, j: int|
        0 <= i < files.len() && 0 <= j < files.len() && i != j ==> files[i].path@ != files[j].path@
}

/// Whether a file observed with `modified` and `hash` must be analyzed again:
/// it is untracked, or newer than its record, or its content differs.
pub open spec fn needs_analysis_spec(m: Map<Seq<char>, FileRecord>, path: Seq<char>, modified: int, hash: Seq<char>) -> bool {
    !m.contains_key(path) || modified > m[path].last_modified || hash != m[path].hash
}

/// The analysis state of one project: one record per tracked file.
/// `last_analysis` is in milliseconds since the Unix epoch.
#[derive(Debug)]
pub struct ProjectState {
    last_analysis: i64,
    analyzed_files: Vec<FileState>,
}

proof fn lemma_filter_push<A>(s: Seq<A>, p: spec_fn(A) -> bool, x: A)
    ensures
        s.push(x).filter(p) == if p(x) {
            s.filter(p).push(x)
        } else {
            s.filter(p)
        },
{
    reveal(Seq::filter);
    assert(s.push(x).drop_last() =~= s);
}

proof fn lemma_files_map_domain(files: Seq<FileState>, p: Seq<char>)
    ensures
        files_map(files).contains_key(p) <==> exists|i: int| 0 <= i < files.len() && files[i].path@ == p,
    decreases files.len(),
{
    if files.len() > 0 {
        lemma_files_map_domain(files.drop_last(), p);
        if exists|i: int| 0 <= i < files.len() && files[i].path@ == p {
            let i = choose|i: int| 0 <= i < files.len() && files[i].path@ == p;
            if i < files.len() - 1 {
                assert(files.drop_last()[i] == files[i]);
            }
        }
        if exists|i: int| 0 <= i < files.drop_last().len() && files.drop_last()[i].path@ == p {
            let i = choose|i: int| 0 <= i < files.drop_last().len() && files.drop_last()[i].path@ == p;
            assert(files[i] == files.drop_last()[i]);
        }
    }
}

proof fn lemma_files_map_at(files: Seq<FileState>, i: int)
    requires
        paths_unique(files),
        0 <= i < files.len(),
    ensures
        files_map(files).contains_key(files[i].path@),
        files_map(files)[files[i].path@] == files[i].record(),
    decreases files.len(),
{
    if i < files.len() - 1 {
        let init = files.drop_last();
        assert(init[i] == files[i]);
        lemma_files_map_at(init, i);
        assert(files.last().path@ != files[i].path@);
    }
}

proof fn lemma_files_map_update(files: Seq<FileState>, i: int, f: FileState)
    requires
        paths_unique(files),
        0 <= i < files.len(),
        f.path@ == files[i].path@,
    ensures
        paths_unique(files.update(i, f)),
        files_map(files.update(i, f)) == files_map(files).insert(f.path@, f.record()),
    decreases files.len(),
{
    let nf = files.update(i, f);
    if i == files.len() - 1 {
        assert(nf.drop_last() =~= files.drop_last());
    } else {
        let init = files.drop_last();
        lemma_files_map_update(init, i, f);
        assert(nf.drop_last() =~= init.update(i, f));
        assert(files.last().path@ != f.path@);
    }
    assert(files_map(nf) =~= files_map(files).insert(f.path@, f.record()));
}

proof fn lemma_files_map_filter(files: Seq<FileState>, keep: Set<Seq<char>>, kept: Seq<FileState>, n: int)
    requires
        0 <= n <= files.len(),
        paths_unique(files),
        kept == files.subrange(0, n).filter(|f: FileState| keep.contains(f.path@)),
    ensures
        paths_unique(kept),
        forall|i: int| 0 <= i < kept.len() ==> exists|j: int| 0 <= j < n && files[j] == #[trigger] kept[i],
        files_map(kept) == files_map(files.subrange(0, n)).restrict(keep),
    decreases n,
{
    let pre = files.subrange(0, n);
    if n == 0 {
        assert(pre =~= Seq::<FileState>::empty());
        assert(kept =~= Seq::<FileState>::empty());
        assert(files_map(kept) =~= files_map(pre).restrict(keep));
    } else {
        let pre0 = files.subrange(0, n - 1);
        let kept0 = pre0.filter(|f: FileState| keep.contains(f.path@));
        lemma_files_map_filter(files, keep, kept0, n - 1);
        assert(pre.drop_last() =~= pre0);
        lemma_filter_push::<FileState>(pre0, |f: FileState| keep.contains(f.path@), files[n - 1]);
        assert(pre =~= pre0.push(files[n - 1]));
        let last = files[n - 1];
        if keep.contains(last.path@) {
            assert(kept == kept0.push(last));
            assert(kept.drop_last() =~= kept0);
            assert forall|i: int| 0 <= i < kept0.len() implies kept0[i].path@ != last.path@ by {
                let j = choose|j: int| 0 <= j < n - 1 && files[j] == #[trigger] kept0[i];
            }
            assert forall|i: int| 0 <= i < kept.len() implies exists|j: int| 0 <= j < n && files[j] == #[trigger] kept[i] by {
                if i < kept0.len() {
                    assert(kept[i] == kept0[i]);
                } else {
                    assert(files[n - 1] == kept[i]);
                }
            }
            assert(files_map(kept) =~= files_map(pre).restrict(keep));
        } else {
            assert(kept == kept0);
            assert(files_map(kept) =~= files_map(pre).restrict(keep));
        }
    }
}

impl ProjectState {
    pub closed spec fn files(&self) -> Seq<FileState> {
        self.analyzed_files@
    }

    pub closed spec fn analysis_time(&self) -> i64 {
        self.last_analysis
    }

    /// When the last analysis run ended, in milliseconds since the Unix epoch.
    pub fn last_analysis(&self) -> (r: i64)
        ensures
            r == self.analysis_time(),
    {
        self.last_analysis
    }

    /// Stamps the end of an analysis run.
    pub fn set_last_analysis(&mut self, at: i64)
        ensures
            final(self).analysis_time() == at,
            final(self).view_map() == old(self).view_map(),
            final(self).wf() == old(self).wf(),
    {
        self.last_analysis = at;
    }

    /// The records, keyed by path.
    pub open spec fn view_map(&self) -> Map<Seq<char>, FileRecord> {
        files_map(self.files())
    }

    pub open spec fn wf(&self) -> bool {
        paths_unique(self.files())
    }

    /// A state that tracks no file.
    pub fn new(last_analysis: i64) -> (r: Self)
        ensures
            r.wf(),
            r.view_map() == Map::<Seq<char>, FileRecord>::empty(),
            r.analysis_time() == last_analysis,
    {
        let r = ProjectState { last_analysis, analyzed_files: Vec::new() };
        proof {
            assert(r.files() =~= Seq::<FileState>::empty());
        }
        r
    }

    /// Builds a state from persisted records, keeping the last record of each path.
    pub fn from_files(last_analysis: i64, files: Vec<FileState>) -> (r: Self)
        ensures
            r.wf(),
            r.analysis_time() == last_analysis,
            r.view_map() == files_map(files@),
    {
        let mut st = ProjectState::new(last_analysis);
        let ghost all = files@;
        let mut k: usize = 0;
        for f in iter: files.into_iter()
            invariant
                st.wf(),
                st.analysis_time() == last_analysis,
                iter.seq() == all,
                st.view_map() == files_map(all.subrange(0, iter.index() as int)),
        {
            let ghost idx = iter.index();
            st.update_file_state(f);
            proof {
                assert(all.subrange(0, idx + 1).drop_last() =~= all.subrange(0, idx as int));
            }
        }
        proof {
            assert(all.subrange(0, all.len() as int) =~= all);
        }
        st
    }

    /// The position of the record of `path`.
    fn find(&self, path: &String) -> (r: Option<usize>)
        requires
            self.wf(),
        ensures
            match r {
                Some(i) => i < self.files().len() && self.files()[i as int].path@ == path@,
                None => !self.view_map().contains_key(path@),
            },
    {
        let mut i: usize = 0;
        while i < self.analyzed_files.len()
            invariant
                i <= self.analyzed_files.len(),
                forall|j: int| 0 <= j < i ==> self.files()[j].path@ != path@,
            decreases self.analyzed_files.len() - i,
        {
            if self.analyzed_files[i].path == *path {
                return Some(i);
            }
            i += 1;
        }
        proof {
            lemma_files_map_domain(self.files(), path@);
        }
        None
    }

    /// The record of `path`, if it is tracked.
    pub fn get(&self, path: &String) -> (r: Option<&FileState>)
        requires
            self.wf(),
        ensures
            match r {
                Some(f) => self.view_map().contains_key(path@) && f.path@ == path@
                    && f.record() == self.view_map()[path@],
                None => !self.view_map().contains_key(path@),
            },
    {
        match self.find(path) {
            Some(i) => {
                proof {
                    lemma_files_map_at(self.files(), i as int);
                }
                Some(&self.analyzed_files[i])
            },
            None => None,
        }
    }

    /// Whether a file observed with `modified` and content `hash` must be
    /// analyzed: it is untracked, newer than its record, or its hash differs.
    pub fn needs_analysis(&self, path: &String, modified: i64, hash: &String) -> (r: bool)
        requires
            self.wf(),
        ensures
            r == needs_analysis_spec(self.view_map(), path@, modified as int, hash@),
    {
        match self.get(path) {
            None => true,
            Some(st) => modified > st.last_modified || st.hash != *hash,
        }
    }

    /// Records a fresh analysis of `file.path`, replacing any earlier record.
    pub fn update_file_state(&mut self, file: FileState)
        requires
            old(self).wf(),
        ensures
            final(self).wf(),
            final(self).analysis_time() == old(self).analysis_time(),
            final(self).view_map() == old(self).view_map().insert(file.path@, file.record()),
    {
        let ghost f = file;
        match self.find(&file.path) {
            Some(i) => {
                proof {
                    lemma_files_map_update(self.files(), i as int, f);
                }
                self.analyzed_files.set(i, file);
            },
            None => {
                let ghost old_files = self.files();
                proof {
                    lemma_files_map_domain(old_files, f.path@);
                }
                self.analyzed_files.push(file);
                proof {
                    assert(self.files().drop_last() =~= old_files);
                }
            },
        }
    }

    /// The recorded dependencies of `path`, if it is tracked.
    pub fn cached_dependencies(&self, path: &String) -> (r: Option<Vec<Dependency>>)
        requires
            self.wf(),
        ensures
            match r {
                Some(d) => self.view_map().contains_key(path@)
                    && edge_views(d@) == self.view_map()[path@].dependencies,
                None => !self.view_map().contains_key(path@),
            },
    {
        match self.get(path) {
            None => None,
            Some(st) => {
                let mut out: Vec<Dependency> = Vec::new();
                let mut i: usize = 0;
                while i < st.dependencies.len()
                    invariant
                        i <= st.dependencies.len(),
                        edge_views(out@) == edge_views(st.dependencies@).subrange(0, i as int),
                    decreases st.dependencies.len() - i,
                {
                    let ghost prev = out@;
                    let d = st.dependencies[i].duplicate();
                    out.push(d);
                    proof {
                        assert(out@ =~= prev.push(d));
                        assert(d.edge_view() == st.dependencies@[i as int].edge_view());
                        assert(edge_views(prev.push(d)) =~= edge_views(prev).push(d.edge_view()));
                        assert(edge_views(st.dependencies@)[i as int] == st.dependencies@[i as int].edge_view());
                        assert(edge_views(st.dependencies@).subrange(0, i + 1) =~= edge_views(st.dependencies@).subrange(0, i as int).push(edge_views(st.dependencies@)[i as int]));
                        assert(edge_views(out@) =~= edge_views(st.dependencies@).subrange(0, i + 1));
                    }
                    i += 1;
                }
                proof {
                    assert(edge_views(st.dependencies@).subrange(0, st.dependencies.len() as int) =~= edge_views(st.dependencies@));
                }
                Some(out)
            },
        }
    }

    /// Drops the record of every file that the last walk did not observe.
    pub fn retain_observed(&mut self, observed: &Vec<String>)
        requires
            old(self).wf(),
        ensures
            final(self).wf(),
            final(self).analysis_time() == old(self).analysis_time(),
            final(self).view_map() == old(self).view_map().restrict(observed.deep_view().to_set()),
    {
        let ghost keep = observed.deep_view().to_set();
        let ghost files = self.files();
        let mut kept: Vec<FileState> = Vec::new();
        let mut rest: Vec<FileState> = Vec::new();
        std::mem::swap(&mut rest, &mut self.analyzed_files);
        let ghost all = rest@;
        proof {
            assert(all == files);
        }
        for f in iter: rest.into_iter()
            invariant
                iter.seq() == all,
                all == files,
                paths_unique(files),
                keep == observed.deep_view().to_set(),
                kept@ == all.subrange(0, iter.index() as int).filter(|f: FileState| keep.contains(f.path@)),
        {
            let ghost idx = iter.index();
            let seen = vec_contains(observed, &f.path);
            let ghost pre0 = all.subrange(0, idx as int);
            proof {
                assert(all.subrange(0, idx + 1) =~= pre0.push(f));
                lemma_filter_push::<FileState>(pre0, |g: FileState| keep.contains(g.path@), f);
            }
            if seen {
                kept.push(f);
            }
        }
        proof {
            assert(all.subrange(0, all.len() as int) =~= all);
            lemma_files_map_filter(files, keep, kept@, files.len() as int);
        }
        self.analyzed_files = kept;
    }

    /// The tracked paths.
    pub fn tracked_paths(&self) -> (r: Vec<String>)
        ensures
            r.deep_view().to_set() == self.view_map().dom(),
    {
        let mut out: Vec<String> = Vec::new();
        let mut i: usize = 0;
        while i < self.analyzed_files.len()
            invariant
                i <= self.analyzed_files.len(),
                out.deep_view() == self.files().subrange(0, i as int).map_values(|f: FileState| f.path@),
            decreases self.analyzed_files.len() - i,
        {
            let p = self.analyzed_files[i].path.clone();
            let ghost prev = out.deep_view();
            out.push(p);
            proof {
                assert(p@ == self.files()[i as int].path@);
                assert(out.deep_view() =~= prev.push(p@));
                assert(out.deep_view() =~= self.files().subrange(0, i + 1).map_values(|f: FileState| f.path@));
            }
            i += 1;
        }
        proof {
            assert(self.files().subrange(0, i as int) =~= self.files());
            assert forall|p| out.deep_view().to_set().contains(p) <==> self.view_map().dom().contains(p) by {
                lemma_files_map_domain(self.files(), p);
                if out.deep_view().contains(p) {
                    let k = choose|k: int| 0 <= k < out.deep_view().len() && out.deep_view()[k] == p;
                    assert(self.files()[k].path@ == p);
                }
                if exists|k: int| 0 <= k < self.files().len() && self.files()[k].path@ == p {
                    let k = choose|k: int| 0 <= k < self.files().len() && self.files()[k].path@ == p;
                    assert(out.deep_view()[k] == p);
                }
            }
            assert(out.deep_view().to_set() =~= self.view_map().dom());
        }
        out
    }
}

} // verus!
