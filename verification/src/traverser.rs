//! The Traverser: a pull-based cursor over a directory tree.
//!
//! The cursor composes a directory queue (recursive expansion, parent
//! before children) with a per-directory file buffer, and interleaves the
//! two according to the configured mode. It never reads the filesystem
//! itself: whenever it needs the children of a directory it returns
//! [`Step::Descend`], and the driver answers with [`Traverser::provide_listing`].
//!
//! Path strings are matched against glob patterns exactly as the driver
//! hands them in: patterns must be written for the path representation
//! (absolute or relative, separator style) the driver produces.

use vstd::prelude::*;
use crate::matching::{
    is_hidden, in_list, all_patterns_ok, matches_any, str_views, check_patterns,
    match_any_pattern, is_hidden_name, name_in_list,
};

verus! {

/// One filesystem entry: its full path as produced by the traversal, and
/// its final path component.
pub struct PathEntry {
    pub path: String,
    pub name: String,
}

/// The mathematical value of a `PathEntry`.
#[verifier::ext_equal]
pub ghost struct EntryModel {
    pub path: Seq<char>,
    pub name: Seq<char>,
}

impl View for PathEntry {
    type V = EntryModel;

    open spec fn view(&self) -> EntryModel {
        EntryModel { path: self.path@, name: self.name@ }
    }
}

/// The views of a sequence of entries.
pub open spec fn entry_views(v: Seq<PathEntry>) -> Seq<EntryModel> {
    v.map_values(|e: PathEntry| e@)
}

/// The mathematical state of a `Traverser`.
#[verifier::ext_equal]
pub ghost struct Model {
    /// The traversal start point, fixed at construction.
    pub root: EntryModel,
    /// Glob patterns for directories; a directory is accepted when any matches.
    pub match_dirs: Seq<Seq<char>>,
    /// Glob patterns for files; a file is accepted when any matches.
    pub match_files: Seq<Seq<char>>,
    /// Exclude entries whose name starts with a dot, pruning whole subtrees.
    pub ignore_hidden: bool,
    /// Names excluded literally, whatever the other settings say.
    pub ignore_list: Seq<Seq<char>>,
    /// Yield directories.
    pub is_dir_iterator: bool,
    /// Yield files.
    pub is_file_iterator: bool,
    /// Directories dequeued from here have not been expanded yet.
    pub pending: Seq<EntryModel>,
    /// The directory whose listing the driver owes, if any.
    pub awaiting: Option<EntryModel>,
    /// Entries filtered already and ready to be yielded.
    pub out: Seq<EntryModel>,
    /// A glob pattern failed to compile; the traversal is over.
    pub bad_pattern: bool,
}

/// One step of the cursor, as the driver sees it.
pub enum Step {
    /// The next entry of the sequence.
    Yielded(PathEntry),
    /// List this directory's children and call `provide_listing`.
    Descend(PathEntry),
    /// A configured glob pattern does not compile; the traversal stops.
    InvalidPattern,
    /// The sequence is exhausted.
    Done,
}

/// The mathematical value of a `Step`.
#[verifier::ext_equal]
pub ghost enum StepModel {
    Yielded(EntryModel),
    Descend(EntryModel),
    InvalidPattern,
    Done,
}

impl View for Step {
    type V = StepModel;

    open spec fn view(&self) -> StepModel {
        match self {
            Step::Yielded(e) => StepModel::Yielded(e@),
            Step::Descend(e) => StepModel::Descend(e@),
            Step::InvalidPattern => StepModel::InvalidPattern,
            Step::Done => StepModel::Done,
        }
    }
}

/// An entry name the configuration excludes outright: hidden while hidden
/// entries are ignored, or literally on the ignore list. An excluded
/// directory is pruned: neither yielded nor descended into.
pub open spec fn excluded(m: Model, name: Seq<char>) -> bool {
    (m.ignore_hidden && is_hidden(name)) || in_list(m.ignore_list, name)
}

/// A file entry the traversal produces: not excluded, and its full path
/// matches one of the file patterns.
pub open spec fn file_passes(m: Model, e: EntryModel) -> bool {
    &&& !excluded(m, e.name)
    &&& matches_any(m.match_files, e.path)
}

/// A dequeued directory (already past the exclusion check) is yielded
/// when its full path matches one of the directory patterns.
pub open spec fn dir_passes(m: Model, e: EntryModel) -> bool {
    matches_any(m.match_dirs, e.path)
}

/// Index of the first entry of `pending` that survives the exclusion
/// check, or `pending.len()` when every entry is excluded.
pub open spec fn first_live(m: Model, pending: Seq<EntryModel>) -> int
    decreases pending.len(),
{
    if pending.len() == 0 {
        0
    } else if !excluded(m, pending[0].name) {
        0
    } else {
        1 + first_live(m, pending.skip(1))
    }
}

/// The mode flags select something.
pub open spec fn mode_on(m: Model) -> bool {
    m.is_dir_iterator || m.is_file_iterator
}

/// The files of a listing that the traversal produces, in listing order.
pub open spec fn passing_files(m: Model, files: Seq<EntryModel>) -> Seq<EntryModel> {
    files.filter(|e: EntryModel| file_passes(m, e))
}

/// What one `advance` call returns, as a function of the state alone.
pub open spec fn advance_step(m: Model) -> StepModel {
    if !mode_on(m) {
        StepModel::Done
    } else if m.bad_pattern {
        StepModel::InvalidPattern
    } else if m.out.len() > 0 {
        StepModel::Yielded(m.out[0])
    } else if m.awaiting is Some {
        StepModel::Descend(m.awaiting->0)
    } else if first_live(m, m.pending) < m.pending.len() {
        StepModel::Descend(m.pending[first_live(m, m.pending)])
    } else {
        StepModel::Done
    }
}

/// The state after one `advance` call, as a function of the state alone.
pub open spec fn advance_next(m: Model) -> Model {
    if !mode_on(m) || m.bad_pattern {
        m
    } else if m.out.len() > 0 {
        Model { out: m.out.skip(1), ..m }
    } else if m.awaiting is Some {
        m
    } else if first_live(m, m.pending) < m.pending.len() {
        Model {
            pending: m.pending.skip(first_live(m, m.pending) + 1),
            awaiting: Some(m.pending[first_live(m, m.pending)]),
            ..m
        }
    } else {
        Model { pending: Seq::empty(), ..m }
    }
}

/// Whether feeding a listing trips on a pattern that does not compile,
/// under the current mode.
pub open spec fn listing_fails(m: Model) -> bool {
    ||| m.is_file_iterator && !all_patterns_ok(m.match_files)
    ||| m.is_dir_iterator && !all_patterns_ok(m.match_dirs)
}

/// The entries the active directory contributes to the output queue: its
/// passing files in listing order, then the directory itself when
/// directories are yielded and it matches.
pub open spec fn listing_output(m: Model, active: EntryModel, files: Seq<EntryModel>) -> Seq<
    EntryModel,
> {
    (if m.is_file_iterator {
        passing_files(m, files)
    } else {
        Seq::empty()
    }) + (if m.is_dir_iterator && dir_passes(m, active) {
        seq![active]
    } else {
        Seq::empty()
    })
}

/// The state after feeding the active directory's listing: all child
/// directories join the queue (the exclusion check happens when they are
/// dequeued), passing files and then the directory itself join the output.
pub open spec fn listing_next(m: Model, dirs: Seq<EntryModel>, files: Seq<EntryModel>) -> Model {
    if listing_fails(m) {
        Model { awaiting: None, bad_pattern: true, ..m }
    } else {
        Model {
            awaiting: None,
            pending: m.pending + dirs,
            out: m.out + listing_output(m, m.awaiting->0, files),
            ..m
        }
    }
}

/// Well-formedness: everything buffered for output, and any directory
/// whose listing is awaited, has passed the exclusion check.
pub open spec fn wf(m: Model) -> bool {
    &&& forall|i: int| 0 <= i < m.out.len() ==> !excluded(m, (#[trigger] m.out[i]).name)
    &&& (m.awaiting matches Some(d) ==> !excluded(m, d.name))
}

/// The cursor has not produced anything yet: only the root is queued,
/// nothing is buffered, no listing is owed.
pub open spec fn not_started(m: Model) -> bool {
    &&& m.pending =~= seq![m.root]
    &&& m.awaiting is None
    &&& m.out.len() == 0
    &&& !m.bad_pattern
}

/// The prefix of `pending` before `first_live` is all excluded, and the
/// entry at `first_live`, when there is one, is not.
proof fn lemma_first_live_bounds(m: Model, pending: Seq<EntryModel>)
    ensures
        0 <= first_live(m, pending) <= pending.len(),
        forall|j: int|
            0 <= j < first_live(m, pending) ==> excluded(m, (#[trigger] pending[j]).name),
        first_live(m, pending) < pending.len() ==> !excluded(
            m,
            pending[first_live(m, pending)].name,
        ),
    decreases pending.len(),
{
    if pending.len() == 0 {
    } else if !excluded(m, pending[0].name) {
    } else {
        lemma_first_live_bounds(m, pending.skip(1));
        assert forall|j: int|
            0 <= j < first_live(m, pending) implies excluded(
            m,
            (#[trigger] pending[j]).name,
        ) by {
            if j > 0 {
                assert(pending.skip(1)[j - 1] == pending[j]);
            }
        }
        if first_live(m, pending) < pending.len() {
            assert(pending.skip(1)[first_live(m, pending.skip(1))] == pending[first_live(
                m,
                pending,
            )]);
        }
    }
}

/// `first_live` is the unique index with an all-excluded prefix followed
/// by a surviving entry (or the length, when every entry is excluded).
proof fn lemma_first_live_is(m: Model, pending: Seq<EntryModel>, k: int)
    requires
        0 <= k <= pending.len(),
        forall|j: int| 0 <= j < k ==> excluded(m, (#[trigger] pending[j]).name),
        k < pending.len() ==> !excluded(m, pending[k].name),
    ensures
        first_live(m, pending) == k,
    decreases k,
{
    if k == 0 {
    } else {
        assert(excluded(m, pending[0].name));
        assert forall|j: int|
            0 <= j < k - 1 implies excluded(m, (#[trigger] pending.skip(1)[j]).name) by {
            assert(pending.skip(1)[j] == pending[j + 1]);
        }
        if k - 1 < pending.skip(1).len() {
            assert(pending.skip(1)[k - 1] == pending[k]);
        }
        lemma_first_live_is(m, pending.skip(1), k - 1);
    }
}

/// Filtering one more file appends it exactly when it passes.
proof fn lemma_passing_files_step(m: Model, files: Seq<EntryModel>, i: int)
    requires
        0 <= i < files.len(),
    ensures
        passing_files(m, files.take(i + 1)) == if file_passes(m, files[i]) {
            passing_files(m, files.take(i)).push(files[i])
        } else {
            passing_files(m, files.take(i))
        },
{
    reveal_with_fuel(Seq::<_>::filter, 2);
    assert(files.take(i + 1).len() == i + 1);
    assert(files.take(i + 1).drop_last() =~= files.take(i));
    assert(files.take(i + 1).last() == files[i]);
}

/// An identical copy of an entry.
pub fn clone_entry(e: &PathEntry) -> (r: PathEntry)
    ensures
        r@ == e@,
{
    PathEntry { path: e.path.clone(), name: e.name.clone() }
}

/// The lazy traversal engine: a single-pass cursor over the directory
/// tree under a root, driven from outside one listing at a time.
pub struct Traverser {
    root_dir: PathEntry,
    match_dirs: Vec<String>,
    match_files: Vec<String>,
    ignore_hidden: bool,
    ignore_list: Vec<String>,
    is_dir_iterator: bool,
    is_file_iterator: bool,
    pending: Vec<PathEntry>,
    awaiting: Option<PathEntry>,
    out: Vec<PathEntry>,
    bad_pattern: bool,
}

impl View for Traverser {
    type V = Model;

    closed spec fn view(&self) -> Model {
        Model {
            root: self.root_dir@,
            match_dirs: str_views(self.match_dirs@),
            match_files: str_views(self.match_files@),
            ignore_hidden: self.ignore_hidden,
            ignore_list: str_views(self.ignore_list@),
            is_dir_iterator: self.is_dir_iterator,
            is_file_iterator: self.is_file_iterator,
            pending: entry_views(self.pending@),
            awaiting: match self.awaiting {
                Some(e) => Some(e@),
                None => None,
            },
            out: entry_views(self.out@),
            bad_pattern: self.bad_pattern,
        }
    }
}

impl Traverser {
    /// A traverser rooted at `root_dir`, with the default configuration:
    /// match every path, exclude hidden entries, exclude `.DS_Store` and
    /// `.Trash`, yield both directories and files. The root itself is the
    /// first queued directory.
    pub fn new(root_dir: PathEntry) -> (t: Traverser)
        ensures
            t@.root == root_dir@,
            t@.match_dirs =~= seq!["*"@],
            t@.match_files =~= seq!["*"@],
            t@.ignore_hidden == true,
            t@.ignore_list =~= seq![".DS_Store"@, ".Trash"@],
            t@.is_dir_iterator == true,
            t@.is_file_iterator == true,
            not_started(t@),
            wf(t@),
    {
        let root_queued = clone_entry(&root_dir);
        let t = Traverser {
            root_dir,
            match_dirs: vec!["*".to_owned()],
            match_files: vec!["*".to_owned()],
            ignore_hidden: true,
            ignore_list: vec![".DS_Store".to_owned(), ".Trash".to_owned()],
            is_dir_iterator: true,
            is_file_iterator: true,
            pending: vec![root_queued],
            awaiting: None,
            out: vec![],
            bad_pattern: false,
        };
        proof {
            assert(t@.match_dirs =~= seq!["*"@]);
            assert(t@.match_files =~= seq!["*"@]);
            assert(t@.ignore_list =~= seq![".DS_Store"@, ".Trash"@]);
            assert(t@.pending =~= seq![t@.root]);
            assert(t@.out =~= Seq::<EntryModel>::empty());
        }
        t
    }

    /// Replace the directory patterns. Configuration may only change
    /// before consumption begins.
    pub fn set_match_dirs(&mut self, patterns: Vec<String>)
        requires
            not_started(old(self)@),
        ensures
            final(self)@ == (Model { match_dirs: str_views(patterns@), ..old(self)@ }),
            not_started(final(self)@),
    {
        self.match_dirs = patterns;
    }

    /// Replace the file patterns. Configuration may only change before
    /// consumption begins.
    pub fn set_match_files(&mut self, patterns: Vec<String>)
        requires
            not_started(old(self)@),
        ensures
            final(self)@ == (Model { match_files: str_views(patterns@), ..old(self)@ }),
            not_started(final(self)@),
    {
        self.match_files = patterns;
    }

    /// Choose whether hidden entries (name starting with a dot) are
    /// excluded and, for directories, pruned with their whole subtree.
    pub fn set_ignore_hidden(&mut self, ignore_hidden: bool)
        requires
            not_started(old(self)@),
        ensures
            final(self)@ == (Model { ignore_hidden: ignore_hidden, ..old(self)@ }),
            not_started(final(self)@),
    {
        self.ignore_hidden = ignore_hidden;
    }

    /// Replace the list of literally excluded names.
    pub fn set_ignore_list(&mut self, names: Vec<String>)
        requires
            not_started(old(self)@),
        ensures
            final(self)@ == (Model { ignore_list: str_views(names@), ..old(self)@ }),
            not_started(final(self)@),
    {
        self.ignore_list = names;
    }

    /// Add one name to the list of literally excluded names.
    pub fn add_ignore_name(&mut self, name: String)
        requires
            not_started(old(self)@),
        ensures
            final(self)@ == (Model {
                ignore_list: old(self)@.ignore_list.push(name@),
                ..old(self)@
            }),
            not_started(final(self)@),
    {
        self.ignore_list.push(name);
        proof {
            assert(final(self)@.ignore_list =~= old(self)@.ignore_list.push(name@));
        }
    }

    /// Choose whether directories are yielded.
    pub fn set_dir_iterator(&mut self, yield_dirs: bool)
        requires
            not_started(old(self)@),
        ensures
            final(self)@ == (Model { is_dir_iterator: yield_dirs, ..old(self)@ }),
            not_started(final(self)@),
    {
        self.is_dir_iterator = yield_dirs;
    }

    /// Choose whether files are yielded.
    pub fn set_file_iterator(&mut self, yield_files: bool)
        requires
            not_started(old(self)@),
        ensures
            final(self)@ == (Model { is_file_iterator: yield_files, ..old(self)@ }),
            not_started(final(self)@),
    {
        self.is_file_iterator = yield_files;
    }

    /// Whether the configuration excludes this name outright.
    pub fn is_excluded(&self, name: &String) -> (r: bool)
        ensures
            r == excluded(self@, name@),
    {
        if self.ignore_hidden && is_hidden_name(name) {
            true
        } else {
            name_in_list(&self.ignore_list, name)
        }
    }

    /// Pull the cursor one step forward.
    ///
    /// `Yielded` carries the next entry of the sequence. `Descend` asks
    /// the driver to list that directory's children and feed them to
    /// [`Traverser::provide_listing`]; it is repeated until the listing
    /// arrives. `InvalidPattern` reports a glob pattern that does not
    /// compile and is repeated on every later call: the traversal stops
    /// there. After `Done` the state no longer changes, so a consumed
    /// cursor stays exhausted. When both mode flags are off the cursor
    /// produces nothing at all.
    pub fn advance(&mut self) -> (r: Step)
        requires
            wf(old(self)@),
        ensures
            final(self)@ == advance_next(old(self)@),
            r@ == advance_step(old(self)@),
            wf(final(self)@),
            r matches Step::Descend(d) ==> !excluded(old(self)@, d@.name),
            r matches Step::Yielded(e) ==> !excluded(old(self)@, e@.name),
    {
        if !self.is_dir_iterator && !self.is_file_iterator {
            return Step::Done;
        }
        if self.bad_pattern {
            return Step::InvalidPattern;
        }
        if self.out.len() > 0 {
            let e = self.out.remove(0);
            proof {
                assert(self@.out =~= old(self)@.out.skip(1));
                assert(self@ =~= advance_next(old(self)@));
            }
            return Step::Yielded(e);
        }
        match &self.awaiting {
            Some(d) => {
                return Step::Descend(clone_entry(d));
            },
            None => {},
        }
        let ghost m0 = self@;
        let ghost mut k: int = 0;
        proof {
            assert(self@ =~= (Model { pending: m0.pending.skip(0), ..m0 }));
        }
        while self.pending.len() > 0
            invariant
                m0 == old(self)@,
                wf(m0),
                mode_on(m0),
                !m0.bad_pattern,
                m0.out.len() == 0,
                m0.awaiting is None,
                0 <= k <= m0.pending.len(),
                self@ =~= (Model { pending: m0.pending.skip(k), ..m0 }),
                forall|j: int| 0 <= j < k ==> excluded(m0, (#[trigger] m0.pending[j]).name),
            decreases self.pending.len(),
        {
            let ghost pre = self.pending@;
            let d = self.pending.remove(0);
            proof {
                assert(entry_views(pre) == m0.pending.skip(k));
                assert(entry_views(pre).len() == pre.len());
                assert(m0.pending.len() - k == pre.len());
                assert(self.pending@ =~= pre.skip(1));
                assert forall|j: int| 0 <= j < pre.len() - 1 implies entry_views(self.pending@)[j]
                    == m0.pending.skip(k + 1)[j] by {
                    assert(entry_views(self.pending@)[j] == pre.skip(1)[j]@);
                    assert(pre.skip(1)[j] == pre[j + 1]);
                    assert(pre[j + 1]@ == entry_views(pre)[j + 1]);
                    assert(m0.pending.skip(k)[j + 1] == m0.pending[k + 1 + j]);
                    assert(m0.pending.skip(k + 1)[j] == m0.pending[k + 1 + j]);
                }
                assert(entry_views(self.pending@) =~= m0.pending.skip(k + 1));
                assert(d@ == entry_views(pre)[0]);
                assert(m0.pending.skip(k)[0] == m0.pending[k]);
                assert(d@ == m0.pending[k]);
            }
            if !self.is_excluded(&d.name) {
                self.awaiting = Some(clone_entry(&d));
                proof {
                    lemma_first_live_is(m0, m0.pending, k);
                    assert(self@ =~= advance_next(m0));
                }
                return Step::Descend(d);
            }
            proof {
                k = k + 1;
            }
        }
        proof {
            assert(self@.pending.len() == 0);
            assert(m0.pending.skip(k).len() == m0.pending.len() - k);
            assert(k == m0.pending.len());
            lemma_first_live_is(m0, m0.pending, k);
            assert(self@ =~= (Model { pending: Seq::<EntryModel>::empty(), ..m0 }));
            assert(self@ =~= advance_next(m0));
        }
        Step::Done
    }

    /// Feed the children of the directory most recently requested by
    /// [`Traverser::advance`]: its immediate subdirectories and its plain
    /// files, each with the full path the traversal is to produce and its
    /// final name component.
    ///
    /// Every subdirectory joins the queue — the exclusion check happens
    /// when it is dequeued, so matching is independent of tree shape.
    /// Files are filtered now: the ones that survive the exclusion check
    /// and match a file pattern are buffered in listing order, followed
    /// by the active directory itself when directories are yielded and
    /// its path matches a directory pattern. A pattern that does not
    /// compile stops the traversal instead.
    pub fn provide_listing(&mut self, child_dirs: Vec<PathEntry>, child_files: Vec<PathEntry>)
        requires
            wf(old(self)@),
            old(self)@.awaiting is Some,
        ensures
            final(self)@ == listing_next(
                old(self)@,
                entry_views(child_dirs@),
                entry_views(child_files@),
            ),
            wf(final(self)@),
    {
        let ghost m0 = self@;
        let ghost dv = entry_views(child_dirs@);
        let ghost fv = entry_views(child_files@);
        let files_ok = if self.is_file_iterator {
            check_patterns(&self.match_files)
        } else {
            true
        };
        let dirs_ok = if self.is_dir_iterator {
            check_patterns(&self.match_dirs)
        } else {
            true
        };
        if !(files_ok && dirs_ok) {
            self.awaiting = None;
            self.bad_pattern = true;
            proof {
                assert(listing_fails(m0));
                assert(self@ =~= listing_next(m0, dv, fv));
            }
            return;
        }
        let active = match self.awaiting.take() {
            Some(d) => d,
            None => PathEntry { path: String::new(), name: String::new() },
        };
        let ghost active0 = m0.awaiting->0;
        let mut dirs_in = child_dirs;
        self.pending.append(&mut dirs_in);
        proof {
            assert(active@ == active0);
            assert forall|j: int| 0 <= j < m0.pending.len() + dv.len() implies entry_views(
                self.pending@,
            )[j] == (m0.pending + dv)[j] by {
                if j < m0.pending.len() {
                } else {
                    assert(entry_views(self.pending@)[j] == entry_views(child_dirs@)[j
                        - m0.pending.len()]);
                }
            }
            assert(self@.pending =~= m0.pending + dv);
            assert(self@ =~= (Model { awaiting: None, pending: m0.pending + dv, ..m0 }));
        }
        let ghost m1 = self@;
        if self.is_file_iterator {
            let mut i: usize = 0;
            proof {
                assert(m0.out + passing_files(m0, fv.take(0)) =~= m0.out);
                assert(self@ =~= (Model { out: m0.out + passing_files(m0, fv.take(0)), ..m1 }));
            }
            while i < child_files.len()
                invariant
                    wf(m0),
                    !listing_fails(m0),
                    m0.is_file_iterator,
                    m1 == (Model { awaiting: None, pending: m0.pending + dv, ..m0 }),
                    fv == entry_views(child_files@),
                    0 <= i <= child_files@.len(),
                    self@ =~= (Model {
                        out: m0.out + passing_files(m0, fv.take(i as int)),
                        ..m1
                    }),
                    forall|j: int|
                        0 <= j < self@.out.len() ==> !excluded(
                            m0,
                            (#[trigger] self@.out[j]).name,
                        ),
                decreases child_files@.len() - i,
            {
                let f = &child_files[i];
                proof {
                    assert(f@ == fv[i as int]);
                }
                let keep = if self.is_excluded(&f.name) {
                    false
                } else {
                    match_any_pattern(&self.match_files, &f.path)
                };
                proof {
                    assert(keep == file_passes(m0, fv[i as int]));
                    lemma_passing_files_step(m0, fv, i as int);
                }
                let ghost pre_out = self@.out;
                if keep {
                    self.out.push(clone_entry(f));
                    proof {
                        assert(self@.out =~= pre_out.push(fv[i as int]));
                        assert(pre_out.push(fv[i as int]) =~= m0.out + passing_files(
                            m0,
                            fv.take(i as int),
                        ).push(fv[i as int]));
                        assert(self@.out =~= m0.out + passing_files(m0, fv.take(i as int + 1)));
                        assert(self@ =~= (Model {
                            out: m0.out + passing_files(m0, fv.take(i as int + 1)),
                            ..m1
                        }));
                    }
                } else {
                    proof {
                        assert(self@ =~= (Model {
                            out: m0.out + passing_files(m0, fv.take(i as int + 1)),
                            ..m1
                        }));
                    }
                }
                i = i + 1;
            }
            proof {
                assert(fv.take(child_files@.len() as int) =~= fv);
                assert(self@ =~= (Model { out: m0.out + passing_files(m0, fv), ..m1 }));
            }
        }
        let ghost out_mid = self@.out;
        proof {
            if m0.is_file_iterator {
                assert(out_mid == m0.out + passing_files(m0, fv));
            } else {
                assert(out_mid == m0.out);
            }
        }
        if self.is_dir_iterator {
            let matched = match_any_pattern(&self.match_dirs, &active.path);
            if matched {
                proof {
                    assert(!excluded(m0, active0.name));
                }
                self.out.push(active);
                proof {
                    assert(self@.out =~= out_mid.push(active0));
                }
            }
        }
        proof {
            let lo = listing_output(m0, active0, fv);
            if m0.is_dir_iterator && dir_passes(m0, active0) {
                if m0.is_file_iterator {
                    assert(lo =~= passing_files(m0, fv) + seq![active0]);
                    assert(self@.out =~= (m0.out + passing_files(m0, fv)).push(active0));
                } else {
                    assert(lo =~= Seq::<EntryModel>::empty() + seq![active0]);
                    assert(self@.out =~= m0.out.push(active0));
                }
                assert(self@.out =~= m0.out + lo);
            } else {
                if m0.is_file_iterator {
                    assert(lo =~= passing_files(m0, fv));
                } else {
                    assert(lo =~= Seq::<EntryModel>::empty());
                }
                assert(self@.out =~= m0.out + lo);
            }
            assert(self@ =~= listing_next(m0, dv, fv));
        }
    }
}

/// Two traversers in equal states behave identically: the step taken,
/// the state after it, and the effect of feeding one listing are each a
/// function of the state and the listing alone. Two identically
/// configured traversers over the same unmodified tree, driven the same
/// way, therefore produce identical results.
pub proof fn lemma_deterministic(
    m1: Model,
    m2: Model,
    dirs: Seq<EntryModel>,
    files: Seq<EntryModel>,
)
    requires
        m1 == m2,
    ensures
        advance_step(m1) == advance_step(m2),
        advance_next(m1) == advance_next(m2),
        listing_next(m1, dirs, files) == listing_next(m2, dirs, files),
{
}

/// Once `advance` reports `Done`, the state no longer changes and every
/// later `advance` reports `Done` again: a consumed traverser yields the
/// empty sequence on any second pass.
pub proof fn lemma_done_is_absorbing(m: Model)
    requires
        advance_step(m) is Done,
    ensures
        advance_step(advance_next(m)) is Done,
        advance_next(advance_next(m)) == advance_next(m),
{
    if mode_on(m) {
        let m1 = advance_next(m);
        lemma_first_live_bounds(m, m.pending);
        assert(m1.pending =~= Seq::<EntryModel>::empty());
        assert(first_live(m1, m1.pending) == 0);
        assert(advance_next(m1) =~= m1);
    }
}

/// Once `advance` reports the pattern error, the state no longer changes
/// and every later call reports the error again: an invalid glob pattern
/// terminates the traversal for good.
pub proof fn lemma_error_is_absorbing(m: Model)
    requires
        advance_step(m) is InvalidPattern,
    ensures
        advance_next(m) == m,
        advance_step(advance_next(m)) is InvalidPattern,
{
}

/// Nothing the cursor yields, and nothing it descends into, is excluded:
/// a hidden entry (while `ignore_hidden` is set) or an ignore-list name
/// is neither produced nor ever listed — and since an excluded
/// directory's children can only enter the queue through a listing of
/// that directory, its whole subtree is pruned, whatever the glob
/// patterns say.
pub proof fn lemma_exclusion(m: Model)
    requires
        wf(m),
    ensures
        advance_step(m) matches StepModel::Yielded(e) ==> !excluded(m, e.name),
        advance_step(m) matches StepModel::Descend(d) ==> !excluded(m, d.name),
        wf(advance_next(m)),
{
    lemma_first_live_bounds(m, m.pending);
    let m1 = advance_next(m);
    assert forall|i: int| 0 <= i < m1.out.len() implies !excluded(
        m1,
        (#[trigger] m1.out[i]).name,
    ) by {
        if mode_on(m) && !m.bad_pattern && m.out.len() > 0 {
            assert(m1.out[i] == m.out[i + 1]);
        } else {
            assert(m1.out[i] == m.out[i]);
        }
    }
}

/// The cursor asks to list exactly the first entry of its queue that
/// survives the exclusion check, skipping only excluded entries, and
/// remembers it as the active directory: no surviving queued directory
/// is ever passed over.
pub proof fn lemma_live_dirs_are_visited(m: Model)
    requires
        wf(m),
        mode_on(m),
        !m.bad_pattern,
        m.out.len() == 0,
        m.awaiting is None,
        first_live(m, m.pending) < m.pending.len(),
    ensures
        advance_step(m) == StepModel::Descend(m.pending[first_live(m, m.pending)]),
        forall|j: int|
            0 <= j < first_live(m, m.pending) ==> excluded(m, (#[trigger] m.pending[j]).name),
        advance_next(m).awaiting == Some(m.pending[first_live(m, m.pending)]),
        advance_next(m).pending == m.pending.skip(first_live(m, m.pending) + 1),
{
    lemma_first_live_bounds(m, m.pending);
}

/// Feeding the active directory's listing appends to the output exactly
/// the files of that listing that survive the exclusion check and match
/// a file pattern, in listing order — every such file, and no other —
/// followed by the active directory itself exactly when directories are
/// yielded and its path matches a directory pattern. Files enter the
/// output only this way, so a file inside a pruned directory, whose
/// listing is never requested, never appears.
pub proof fn lemma_listing_output_exact(m: Model, dirs: Seq<EntryModel>, files: Seq<EntryModel>)
    requires
        m.awaiting is Some,
        !listing_fails(m),
        m.is_file_iterator,
    ensures
        listing_next(m, dirs, files).out == m.out + passing_files(m, files) + (if m.is_dir_iterator
            && dir_passes(m, m.awaiting->0) {
            seq![m.awaiting->0]
        } else {
            Seq::<EntryModel>::empty()
        }),
        forall|i: int|
            0 <= i < passing_files(m, files).len() ==> file_passes(
                m,
                #[trigger] passing_files(m, files)[i],
            ),
        forall|i: int|
            0 <= i < files.len() && file_passes(m, #[trigger] files[i]) ==> passing_files(
                m,
                files,
            ).contains(files[i]),
{
    broadcast use vstd::seq_lib::group_filter_ensures;

    assert(listing_next(m, dirs, files).out =~= m.out + passing_files(m, files) + (if
    m.is_dir_iterator && dir_passes(m, m.awaiting->0) {
        seq![m.awaiting->0]
    } else {
        Seq::<EntryModel>::empty()
    }));
}

/// The configuration half of the state: everything but the cursor.
pub open spec fn same_config(a: Model, b: Model) -> bool {
    &&& a.root == b.root
    &&& a.match_dirs == b.match_dirs
    &&& a.match_files == b.match_files
    &&& a.ignore_hidden == b.ignore_hidden
    &&& a.ignore_list == b.ignore_list
    &&& a.is_dir_iterator == b.is_dir_iterator
    &&& a.is_file_iterator == b.is_file_iterator
}

/// Neither pulling the cursor nor feeding it a listing ever touches the
/// configuration: once consumption has begun, the settings are fixed.
pub proof fn lemma_config_is_constant(m: Model, dirs: Seq<EntryModel>, files: Seq<EntryModel>)
    ensures
        same_config(m, advance_next(m)),
        same_config(m, listing_next(m, dirs, files)),
{
}

/// Feeding any listing to a well-formed cursor that owes one keeps it
/// well-formed.
pub proof fn lemma_listing_preserves_wf(m: Model, dirs: Seq<EntryModel>, files: Seq<EntryModel>)
    requires
        wf(m),
        m.awaiting is Some,
    ensures
        wf(listing_next(m, dirs, files)),
{
    broadcast use vstd::seq_lib::group_filter_ensures;

    let m2 = listing_next(m, dirs, files);
    if !listing_fails(m) {
        let fpart = if m.is_file_iterator {
            passing_files(m, files)
        } else {
            Seq::<EntryModel>::empty()
        };
        let lo = listing_output(m, m.awaiting->0, files);
        assert forall|i: int| 0 <= i < m2.out.len() implies !excluded(
            m2,
            (#[trigger] m2.out[i]).name,
        ) by {
            if i < m.out.len() {
                assert(m2.out[i] == m.out[i]);
            } else {
                assert(m2.out[i] == lo[i - m.out.len()]);
                if i - m.out.len() < fpart.len() {
                    assert(lo[i - m.out.len()] == fpart[i - m.out.len()]);
                    assert(file_passes(m, fpart[i - m.out.len()]));
                } else {
                    assert(lo[i - m.out.len()] == m.awaiting->0);
                }
            }
        }
    }
}

/// What the canonical driver would answer for a directory path: the
/// tree, as data — child directories and child files per path, an empty
/// listing for a path the tree does not know.
pub open spec fn tree_listing(
    tree: Map<Seq<char>, (Seq<EntryModel>, Seq<EntryModel>)>,
    path: Seq<char>,
) -> (Seq<EntryModel>, Seq<EntryModel>) {
    if tree.contains_key(path) {
        tree[path]
    } else {
        (Seq::empty(), Seq::empty())
    }
}

/// What one drive of the cursor leaves behind: the entries it produced
/// in order, the directories whose listings it requested and received in
/// order, and the state it stopped in.
#[verifier::ext_equal]
pub ghost struct RunTrace {
    pub produced: Seq<EntryModel>,
    pub listed: Seq<EntryModel>,
    pub end: Model,
}

/// A drive of `fuel` steps by the canonical driver: pull the cursor,
/// keep every produced entry, answer every listing request from the
/// tree, and stop on exhaustion or on a pattern error.
pub open spec fn run_trace(
    m: Model,
    tree: Map<Seq<char>, (Seq<EntryModel>, Seq<EntryModel>)>,
    fuel: nat,
) -> RunTrace
    decreases fuel,
{
    if fuel == 0 {
        RunTrace { produced: Seq::empty(), listed: Seq::empty(), end: m }
    } else {
        match advance_step(m) {
            StepModel::Yielded(e) => {
                let r = run_trace(advance_next(m), tree, (fuel - 1) as nat);
                RunTrace { produced: seq![e] + r.produced, ..r }
            },
            StepModel::Descend(d) => {
                let l = tree_listing(tree, d.path);
                let r = run_trace(listing_next(advance_next(m), l.0, l.1), tree, (fuel - 1) as nat);
                RunTrace { listed: seq![d] + r.listed, ..r }
            },
            StepModel::InvalidPattern => RunTrace {
                produced: Seq::empty(),
                listed: Seq::empty(),
                end: m,
            },
            StepModel::Done => RunTrace { produced: Seq::empty(), listed: Seq::empty(), end: m },
        }
    }
}

/// The sequence a driver collects in `fuel` steps.
pub open spec fn run_out(
    m: Model,
    tree: Map<Seq<char>, (Seq<EntryModel>, Seq<EntryModel>)>,
    fuel: nat,
) -> Seq<EntryModel> {
    run_trace(m, tree, fuel).produced
}

/// The drive came to the natural end of the sequence within its fuel.
pub open spec fn run_ended(
    m: Model,
    tree: Map<Seq<char>, (Seq<EntryModel>, Seq<EntryModel>)>,
    fuel: nat,
) -> bool {
    advance_step(run_trace(m, tree, fuel).end) is Done
}

proof fn lemma_contains_concat_left(a: Seq<EntryModel>, b: Seq<EntryModel>, x: EntryModel)
    requires
        a.contains(x),
    ensures
        (a + b).contains(x),
{
    let i = choose|i: int| 0 <= i < a.len() && a[i] == x;
    assert((a + b)[i] == x);
}

proof fn lemma_contains_concat_right(a: Seq<EntryModel>, b: Seq<EntryModel>, x: EntryModel)
    requires
        b.contains(x),
    ensures
        (a + b).contains(x),
{
    let i = choose|i: int| 0 <= i < b.len() && b[i] == x;
    assert((a + b)[a.len() + i] == x);
}

/// A whole run is a function of the starting state and the tree alone:
/// two identically configured traversers, driven over the same
/// unmodified tree, produce identical result sequences.
pub proof fn lemma_run_deterministic(
    m1: Model,
    m2: Model,
    tree: Map<Seq<char>, (Seq<EntryModel>, Seq<EntryModel>)>,
    fuel: nat,
)
    requires
        m1 == m2,
    ensures
        run_out(m1, tree, fuel) == run_out(m2, tree, fuel),
{
}

/// What a finished run owes for one listed directory `d`: every passing
/// file of its listing was produced; the directory itself was produced
/// when directories are yielded and its path matches; and each of its
/// child directories is either excluded or was itself listed.
pub open spec fn listed_claims(
    m: Model,
    tree: Map<Seq<char>, (Seq<EntryModel>, Seq<EntryModel>)>,
    produced: Seq<EntryModel>,
    listed: Seq<EntryModel>,
    d: EntryModel,
) -> bool {
    let l = tree_listing(tree, d.path);
    &&& (m.is_file_iterator ==> forall|i: int|
        0 <= i < l.1.len() && file_passes(m, #[trigger] l.1[i]) ==> produced.contains(l.1[i]))
    &&& (m.is_dir_iterator && dir_passes(m, d) ==> produced.contains(d))
    &&& (forall|i: int|
        0 <= i < l.0.len() ==> excluded(m, (#[trigger] l.0[i]).name) || listed.contains(l.0[i]))
}

proof fn lemma_claims_grow(
    m: Model,
    m2: Model,
    tree: Map<Seq<char>, (Seq<EntryModel>, Seq<EntryModel>)>,
    d: EntryModel,
    pre: Seq<EntryModel>,
    produced: Seq<EntryModel>,
    listed: Seq<EntryModel>,
    listed2: Seq<EntryModel>,
)
    requires
        same_config(m, m2),
        listed_claims(m2, tree, produced, listed, d),
        forall|x: EntryModel| listed.contains(x) ==> listed2.contains(x),
    ensures
        listed_claims(m, tree, pre + produced, listed2, d),
{
    let l = tree_listing(tree, d.path);
    if m.is_file_iterator {
        assert forall|i: int|
            0 <= i < l.1.len() && file_passes(m, #[trigger] l.1[i]) implies (pre
            + produced).contains(l.1[i]) by {
            assert(file_passes(m2, l.1[i]));
            lemma_contains_concat_right(pre, produced, l.1[i]);
        }
    }
    if m.is_dir_iterator && dir_passes(m, d) {
        lemma_contains_concat_right(pre, produced, d);
    }
    assert forall|i: int|
        0 <= i < l.0.len() && !excluded(m, (#[trigger] l.0[i]).name) implies listed2.contains(
        l.0[i]) by {
        assert(!excluded(m2, l.0[i].name));
    }
}

/// Over a whole run — whatever tree the driver reads, for however many
/// steps — no excluded name is ever produced: hidden entries (while
/// `ignore_hidden` is set) and ignore-list names are absent from the
/// entire output, not only from single steps.
pub proof fn lemma_run_respects_exclusion(
    m: Model,
    tree: Map<Seq<char>, (Seq<EntryModel>, Seq<EntryModel>)>,
    fuel: nat,
)
    requires
        wf(m),
    ensures
        forall|i: int|
            0 <= i < run_out(m, tree, fuel).len() ==> !excluded(
                m,
                (#[trigger] run_out(m, tree, fuel)[i]).name,
            ),
    decreases fuel,
{
    if fuel > 0 {
        let o = run_out(m, tree, fuel);
        let m1 = advance_next(m);
        lemma_exclusion(m);
        match advance_step(m) {
            StepModel::Yielded(e) => {
                let rest = run_out(m1, tree, (fuel - 1) as nat);
                lemma_run_respects_exclusion(m1, tree, (fuel - 1) as nat);
                lemma_config_is_constant(m, Seq::empty(), Seq::empty());
                assert forall|i: int| 0 <= i < o.len() implies !excluded(
                    m,
                    (#[trigger] o[i]).name,
                ) by {
                    if i == 0 {
                        assert(o[0] == e);
                    } else {
                        assert(o[i] == rest[i - 1]);
                        assert(!excluded(m1, rest[i - 1].name));
                    }
                }
            },
            StepModel::Descend(d) => {
                let l = tree_listing(tree, d.path);
                let m2 = listing_next(m1, l.0, l.1);
                assert(m1.awaiting is Some);
                lemma_listing_preserves_wf(m1, l.0, l.1);
                lemma_run_respects_exclusion(m2, tree, (fuel - 1) as nat);
                lemma_config_is_constant(m, l.0, l.1);
                lemma_config_is_constant(m1, l.0, l.1);
                assert forall|i: int| 0 <= i < o.len() implies !excluded(
                    m,
                    (#[trigger] o[i]).name,
                ) by {
                    assert(o[i] == run_out(m2, tree, (fuel - 1) as nat)[i]);
                    assert(!excluded(m2, o[i].name));
                }
            },
            StepModel::InvalidPattern => {},
            StepModel::Done => {},
        }
    }
}

/// Completeness of a finished run, stated over the cursor state: when a
/// drive over a tree reaches the natural end of the sequence, nothing
/// surviving was passed over. Every buffered entry was produced; every
/// queued or awaited directory that survives the exclusion check was
/// listed; and every listed directory's dues — passing files produced,
/// the directory produced when it matches in directory mode, surviving
/// child directories listed in turn — were paid.
pub proof fn lemma_run_complete(
    m: Model,
    tree: Map<Seq<char>, (Seq<EntryModel>, Seq<EntryModel>)>,
    fuel: nat,
)
    requires
        wf(m),
        mode_on(m),
    ensures
        run_ended(m, tree, fuel) ==> forall|i: int|
            0 <= i < m.out.len() ==> run_out(m, tree, fuel).contains(#[trigger] m.out[i]),
        run_ended(m, tree, fuel) ==> forall|j: int|
            0 <= j < m.pending.len() ==> excluded(m, (#[trigger] m.pending[j]).name) || run_trace(
                m,
                tree,
                fuel,
            ).listed.contains(m.pending[j]),
        run_ended(m, tree, fuel) && m.awaiting is Some ==> run_trace(m, tree, fuel).listed.contains(
            m.awaiting->0,
        ),
        run_ended(m, tree, fuel) ==> forall|j: int|
            0 <= j < run_trace(m, tree, fuel).listed.len() ==> listed_claims(
                m,
                tree,
                run_out(m, tree, fuel),
                run_trace(m, tree, fuel).listed,
                #[trigger] run_trace(m, tree, fuel).listed[j],
            ),
    decreases fuel,
{
    broadcast use vstd::seq_lib::group_filter_ensures;

    let r = run_trace(m, tree, fuel);
    if run_ended(m, tree, fuel) {
        if fuel == 0 {
            assert(advance_step(m) is Done);
            lemma_first_live_bounds(m, m.pending);
            assert(m.out.len() == 0);
        } else {
            let m1 = advance_next(m);
            lemma_exclusion(m);
            lemma_config_is_constant(m, Seq::empty(), Seq::empty());
            match advance_step(m) {
                StepModel::Yielded(e) => {
                    let r1 = run_trace(m1, tree, (fuel - 1) as nat);
                    lemma_run_complete(m1, tree, (fuel - 1) as nat);
                    assert(r.produced == seq![e] + r1.produced);
                    assert(r.listed == r1.listed);
                    assert(run_ended(m1, tree, (fuel - 1) as nat));
                    assert forall|i: int| 0 <= i < m.out.len() implies r.produced.contains(
                        #[trigger] m.out[i],
                    ) by {
                        if i == 0 {
                            assert(r.produced[0] == e);
                        } else {
                            assert(m1.out[i - 1] == m.out[i]);
                            assert(r1.produced.contains(m.out[i]));
                            lemma_contains_concat_right(seq![e], r1.produced, m.out[i]);
                        }
                    }
                    assert forall|j: int|
                        0 <= j < m.pending.len() && !excluded(
                            m,
                            (#[trigger] m.pending[j]).name,
                        ) implies r.listed.contains(m.pending[j]) by {
                        assert(m1.pending[j] == m.pending[j]);
                        assert(!excluded(m1, m.pending[j].name));
                    }
                    assert forall|j: int| 0 <= j < r.listed.len() implies listed_claims(
                        m,
                        tree,
                        r.produced,
                        r.listed,
                        #[trigger] r.listed[j],
                    ) by {
                        assert(listed_claims(m1, tree, r1.produced, r1.listed, r1.listed[j]));
                        lemma_claims_grow(
                            m,
                            m1,
                            tree,
                            r1.listed[j],
                            seq![e],
                            r1.produced,
                            r1.listed,
                            r.listed,
                        );
                    }
                },
                StepModel::Descend(d0) => {
                    let l = tree_listing(tree, d0.path);
                    let m2 = listing_next(m1, l.0, l.1);
                    let r1 = run_trace(m2, tree, (fuel - 1) as nat);
                    lemma_first_live_bounds(m, m.pending);
                    assert(m1.awaiting == Some(d0));
                    assert(m.out.len() == 0);
                    assert(m1.out.len() == 0);
                    lemma_listing_preserves_wf(m1, l.0, l.1);
                    lemma_config_is_constant(m1, l.0, l.1);
                    assert(mode_on(m2));
                    lemma_run_complete(m2, tree, (fuel - 1) as nat);
                    assert(r.produced == r1.produced);
                    assert(r.listed == seq![d0] + r1.listed);
                    assert(r.listed[0] == d0);
                    if listing_fails(m1) {
                        assert(advance_step(m2) is InvalidPattern);
                        if fuel - 1 == 0 {
                            assert(r1.end == m2);
                        } else {
                            assert(r1.end == m2);
                        }
                        assert(false);
                    }
                    assert(run_ended(m2, tree, (fuel - 1) as nat));
                    assert forall|x: EntryModel| r1.listed.contains(x) implies r.listed.contains(
                        x,
                    ) by {
                        lemma_contains_concat_right(seq![d0], r1.listed, x);
                    }
                    // the dues of d0 itself
                    let fpart = if m1.is_file_iterator {
                        passing_files(m1, l.1)
                    } else {
                        Seq::<EntryModel>::empty()
                    };
                    let lo = listing_output(m1, d0, l.1);
                    assert(m2.out =~= lo);
                    assert(m2.pending == m1.pending + l.0);
                    if m.is_file_iterator {
                        assert forall|i: int|
                            0 <= i < l.1.len() && file_passes(m, #[trigger] l.1[i]) implies
                        r.produced.contains(l.1[i]) by {
                            assert(file_passes(m1, l.1[i]));
                            assert(passing_files(m1, l.1).contains(l.1[i]));
                            lemma_contains_concat_left(fpart, lo.skip(fpart.len() as int), l.1[i]);
                            assert(fpart + lo.skip(fpart.len() as int) =~= lo);
                            assert(m2.out.contains(l.1[i]));
                            let i2 = choose|i2: int|
                                0 <= i2 < m2.out.len() && m2.out[i2] == l.1[i];
                            assert(r1.produced.contains(m2.out[i2]));
                        }
                    }
                    if m.is_dir_iterator && dir_passes(m, d0) {
                        assert(dir_passes(m1, d0));
                        assert(lo =~= fpart + seq![d0]);
                        lemma_contains_concat_right(fpart, seq![d0], d0);
                        assert(m2.out.contains(d0));
                        let i2 = choose|i2: int| 0 <= i2 < m2.out.len() && m2.out[i2] == d0;
                        assert(r1.produced.contains(m2.out[i2]));
                        assert(r.produced.contains(d0));
                    }
                    assert forall|i: int|
                        0 <= i < l.0.len() && !excluded(m, (#[trigger] l.0[i]).name) implies
                    r.listed.contains(l.0[i]) by {
                        assert(m2.pending[m1.pending.len() + i] == l.0[i]);
                        assert(!excluded(m2, l.0[i].name));
                        assert(r1.listed.contains(l.0[i]));
                    }
                    assert(listed_claims(m, tree, r.produced, r.listed, d0));
                    // the dues of everything listed deeper
                    assert forall|j: int| 0 <= j < r.listed.len() implies listed_claims(
                        m,
                        tree,
                        r.produced,
                        r.listed,
                        #[trigger] r.listed[j],
                    ) by {
                        if j > 0 {
                            assert(r.listed[j] == r1.listed[j - 1]);
                            assert(listed_claims(
                                m2,
                                tree,
                                r1.produced,
                                r1.listed,
                                r1.listed[j - 1],
                            ));
                            lemma_claims_grow(
                                m,
                                m2,
                                tree,
                                r1.listed[j - 1],
                                Seq::<EntryModel>::empty(),
                                r1.produced,
                                r1.listed,
                                r.listed,
                            );
                            assert(Seq::<EntryModel>::empty() + r1.produced =~= r1.produced);
                        }
                    }
                    // the queue and the awaited directory
                    if m.awaiting is Some {
                        assert(m1 == m);
                        assert forall|j: int|
                            0 <= j < m.pending.len() && !excluded(
                                m,
                                (#[trigger] m.pending[j]).name,
                            ) implies r.listed.contains(m.pending[j]) by {
                            assert(m2.pending[j] == m.pending[j]);
                            assert(!excluded(m2, m.pending[j].name));
                            assert(r1.listed.contains(m.pending[j]));
                        }
                    } else {
                        let fl = first_live(m, m.pending);
                        assert(d0 == m.pending[fl]);
                        assert(m1.pending == m.pending.skip(fl + 1));
                        assert forall|j: int|
                            0 <= j < m.pending.len() && !excluded(
                                m,
                                (#[trigger] m.pending[j]).name,
                            ) implies r.listed.contains(m.pending[j]) by {
                            if j == fl {
                                assert(r.listed[0] == d0);
                            } else if j > fl {
                                assert(m1.pending[j - fl - 1] == m.pending[j]);
                                assert(m2.pending[j - fl - 1] == m.pending[j]);
                                assert(!excluded(m2, m.pending[j].name));
                                assert(r1.listed.contains(m.pending[j]));
                            }
                        }
                    }
                },
                StepModel::InvalidPattern => {
                    assert(false);
                },
                StepModel::Done => {
                    lemma_first_live_bounds(m, m.pending);
                    assert(m.out.len() == 0);
                },
            }
        }
    }
}

/// In directory-only mode every produced entry was first buffered or
/// listed: the output never invents a directory. The cursor sends one
/// listing request per dequeued directory, so when the driver's tree
/// hands each directory to a single parent — as a filesystem tree does —
/// no directory is listed twice, and with the completeness law every
/// surviving, matching directory is produced exactly once.
pub proof fn lemma_dirs_only_output_is_listed(
    m: Model,
    tree: Map<Seq<char>, (Seq<EntryModel>, Seq<EntryModel>)>,
    fuel: nat,
)
    requires
        !m.is_file_iterator,
    ensures
        forall|i: int|
            0 <= i < run_out(m, tree, fuel).len() ==> m.out.contains(
                #[trigger] run_out(m, tree, fuel)[i],
            ) || run_trace(m, tree, fuel).listed.contains(run_out(m, tree, fuel)[i]),
    decreases fuel,
{
    if fuel > 0 {
        let r = run_trace(m, tree, fuel);
        let m1 = advance_next(m);
        match advance_step(m) {
            StepModel::Yielded(e) => {
                let r1 = run_trace(m1, tree, (fuel - 1) as nat);
                lemma_dirs_only_output_is_listed(m1, tree, (fuel - 1) as nat);
                assert(r.listed == r1.listed);
                assert forall|i: int| 0 <= i < r.produced.len() implies m.out.contains(
                    #[trigger] r.produced[i],
                ) || r.listed.contains(r.produced[i]) by {
                    if i == 0 {
                        assert(r.produced[0] == e && e == m.out[0]);
                        assert(m.out.contains(r.produced[0]));
                    } else {
                        assert(r.produced[i] == r1.produced[i - 1]);
                        assert(run_out(m1, tree, (fuel - 1) as nat)[i - 1] == r1.produced[i - 1]);
                        assert(m1.out.contains(r1.produced[i - 1]) || r1.listed.contains(
                            r1.produced[i - 1],
                        ));
                        if m1.out.contains(r1.produced[i - 1]) {
                            let w = choose|w: int|
                                0 <= w < m1.out.len() && m1.out[w] == r1.produced[i - 1];
                            assert(m.out[w + 1] == m1.out[w]);
                            assert(m.out.contains(r.produced[i]));
                        } else {
                            assert(r.listed.contains(r.produced[i]));
                        }
                    }
                }
            },
            StepModel::Descend(d0) => {
                let l = tree_listing(tree, d0.path);
                let m2 = listing_next(m1, l.0, l.1);
                let r1 = run_trace(m2, tree, (fuel - 1) as nat);
                lemma_dirs_only_output_is_listed(m2, tree, (fuel - 1) as nat);
                assert(r.produced == r1.produced);
                assert(r.listed == seq![d0] + r1.listed);
                assert(m.out.len() == 0 && m1.out.len() == 0);
                assert forall|i: int| 0 <= i < r.produced.len() implies m.out.contains(
                    #[trigger] r.produced[i],
                ) || r.listed.contains(r.produced[i]) by {
                    assert(run_out(m2, tree, (fuel - 1) as nat)[i] == r1.produced[i]);
                    assert(m2.out.contains(r1.produced[i]) || r1.listed.contains(r1.produced[i]));
                    if m2.out.contains(r1.produced[i]) {
                        if !listing_fails(m1) {
                            assert(m2.out =~= listing_output(m1, d0, l.1));
                            assert(listing_output(m1, d0, l.1) =~= Seq::<EntryModel>::empty() + (
                            if m1.is_dir_iterator && dir_passes(m1, d0) {
                                seq![d0]
                            } else {
                                Seq::<EntryModel>::empty()
                            }));
                            assert(r1.produced[i] == d0);
                            assert(r.listed[0] == d0);
                            assert(r.listed.contains(r.produced[i]));
                        } else {
                            assert(m2.out.len() == 0);
                        }
                    } else {
                        assert(r1.listed.contains(r1.produced[i]));
                        lemma_contains_concat_right(seq![d0], r1.listed, r1.produced[i]);
                        assert(r.listed.contains(r.produced[i]));
                    }
                }
            },
            StepModel::InvalidPattern => {},
            StepModel::Done => {},
        }
    }
}

/// Completeness of a whole traversal: drive a freshly constructed,
/// possibly reconfigured cursor over a tree until it reports the end of
/// the sequence. Then the root was either excluded or listed, and every
/// listed directory paid its dues: its surviving child directories were
/// listed in turn, the directory itself was produced when directories
/// are yielded and its path matches, and its passing files were
/// produced. Together with the exclusion law this pins what a finished
/// traversal reaches: the surviving directories reachable from the
/// root, and their surviving, matching files — each visited through
/// exactly one listing request per dequeued directory.
pub proof fn lemma_traversal_complete(
    m: Model,
    tree: Map<Seq<char>, (Seq<EntryModel>, Seq<EntryModel>)>,
    fuel: nat,
)
    requires
        wf(m),
        mode_on(m),
        not_started(m),
        run_ended(m, tree, fuel),
    ensures
        excluded(m, m.root.name) || run_trace(m, tree, fuel).listed.contains(m.root),
        forall|j: int|
            0 <= j < run_trace(m, tree, fuel).listed.len() ==> listed_claims(
                m,
                tree,
                run_out(m, tree, fuel),
                run_trace(m, tree, fuel).listed,
                #[trigger] run_trace(m, tree, fuel).listed[j],
            ),
{
    lemma_run_complete(m, tree, fuel);
    assert(m.pending[0] == m.root);
}

} // verus!
