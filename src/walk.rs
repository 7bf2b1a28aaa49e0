//! Assembly of repository results, and the depth-bounded walk over nested
//! directories as a state machine: the walker asks for each piece of outside
//! work through an `Action`, and is told its result through `on_inspected`,
//! `on_listed` or `on_discovered`.
use vstd::prelude::*;
use crate::path::{PathError, path_error, components, strings_view};
use crate::status::{StatusFlags, Category, category_of, classification_of, classify, category};
use crate::tree::{Node, NodeView, Branch, Summary, DiffStat, inserted, insert_sorted};

verus! {

/// One record of the status source: a path relative to the repository root
/// (`None` where it could not be read as text) and its raw flags.
pub struct StatusRecord {
    pub path: Option<String>,
    pub flags: StatusFlags,
}

/// How the walk reports what it finds.
#[derive(Clone, Copy, Debug, PartialEq, Eq, Structural)]
pub struct Options {
    /// Keep ignored entries in full mode.
    pub include_ignored: bool,
    /// Levels of plain directories that may be descended below the start.
    pub depth: usize,
    /// Collapse each repository into one summary line.
    pub summary: bool,
    /// In summary mode, leave out repositories without insertions and
    /// deletions.
    pub only_show_changes: bool,
}

/// Why a walk failed.
#[derive(Debug)]
pub enum WalkError {
    /// A status path could not be placed in the tree.
    Path(PathError),
    /// The status source failed, with its message.
    Repository(String),
    /// A directory could not be listed, with the message.
    Listing(String),
    /// No repository contains the start, nor any directory above it.
    NotFound,
}

/// What the status source gave for one repository.
pub enum RepoReport {
    /// The flat list of changed paths (full mode).
    Entries(Vec<StatusRecord>),
    /// The aggregate change counts (summary mode).
    Stats(DiffStat),
    /// The source failed, with its message.
    Failed(String),
}

/// The children of a repository's tree built from its status records, in
/// order; the first record that cannot be placed ends the build with its error.
pub open spec fn entries_of(recs: Seq<StatusRecord>, include_ignored: bool) -> Result<Seq<NodeView>, PathError>
    decreases recs.len(),
{
    if recs.len() == 0 {
        Ok(Seq::empty())
    } else {
        match entries_of(recs.drop_last(), include_ignored) {
            Err(e) => Err(e),
            Ok(cs) => {
                let rec = recs.last();
                if !include_ignored && category_of(rec.flags) == Category::Ignored {
                    Ok(cs)
                } else {
                    match rec.path {
                        None => Err(PathError::Unresolvable),
                        Some(p) => match path_error(p@) {
                            Some(e) => Err(e),
                            None => Ok(
                                inserted(
                                    cs,
                                    components(p@).drop_last(),
                                    NodeView::Leaf {
                                        name: components(p@).last(),
                                        class: classification_of(rec.flags),
                                    },
                                ),
                            ),
                        },
                    }
                }
            },
        }
    }
}

/// Builds the tree named `name` of a repository's status records, leaving
/// out ignored entries unless `include_ignored`.
pub fn entries_tree(name: String, records: &Vec<StatusRecord>, include_ignored: bool) -> (r: Result<Branch, PathError>)
    ensures
        match entries_of(records@, include_ignored) {
            Ok(cs) => r matches Ok(b) && b@ == (NodeView::Branch { name: name@, children: cs }) && b@.wf(),
            Err(e) => r == Err::<Branch, PathError>(e),
        },
{
    let mut root = Branch::new(name);
    let mut i: usize = 0;
    while i < records.len()
        invariant
            0 <= i <= records.len(),
            root@.wf(),
            root.name@ == name@,
            entries_of(records@.take(i as int), include_ignored) == Ok::<Seq<NodeView>, PathError>(root.kids()),
        decreases records.len() - i,
    {
        proof {
            assert(records@.take(i + 1).drop_last() =~= records@.take(i as int));
        }
        let rec = &records[i];
        let keep = include_ignored || !matches!(category(&rec.flags), Category::Ignored);
        if keep {
            match &rec.path {
                None => {
                    proof {
                        lemma_entries_error_stays(records@, i as int + 1, include_ignored);
                    }
                    return Err(PathError::Unresolvable);
                },
                Some(p) => {
                    let class = classify(&rec.flags);
                    match root.add_leaf_at_path(p.as_str(), class) {
                        Ok(()) => {},
                        Err(e) => {
                            proof {
                                lemma_entries_error_stays(records@, i as int + 1, include_ignored);
                            }
                            return Err(e);
                        },
                    }
                },
            }
        }
        i = i + 1;
    }
    proof {
        assert(records@.take(i as int) =~= records@);
    }
    Ok(root)
}

/// Once the build has failed on a prefix of the records, it fails with the
/// same error on all of them.
proof fn lemma_entries_error_stays(recs: Seq<StatusRecord>, i: int, include_ignored: bool)
    requires
        0 <= i <= recs.len(),
        entries_of(recs.take(i), include_ignored) is Err,
    ensures
        entries_of(recs, include_ignored) == entries_of(recs.take(i), include_ignored),
    decreases recs.len() - i,
{
    if i < recs.len() {
        assert(recs.take(i + 1).drop_last() =~= recs.take(i));
        lemma_entries_error_stays(recs, i + 1, include_ignored);
    } else {
        assert(recs.take(i) =~= recs);
    }
}

/// Whether a summary with these counts is shown.
pub open spec fn summary_shown(stats: DiffStat, only_show_changes: bool) -> bool {
    !(only_show_changes && stats.insertions == 0 && stats.deletions == 0)
}

/// The summary node of a repository; none where only repositories with
/// changes are shown and this one has neither insertions nor deletions,
/// whatever its count of changed files.
pub fn summary_node(name: String, stats: DiffStat, only_show_changes: bool) -> (r: Option<Node>)
    ensures
        r is Some == summary_shown(stats, only_show_changes),
        r matches Some(n) ==> n@ == (NodeView::Summary {
            name: name@,
            branch: stats.branch@,
            files_changed: stats.files_changed as nat,
            insertions: stats.insertions as nat,
            deletions: stats.deletions as nat,
        }),
{
    if only_show_changes && stats.insertions == 0 && stats.deletions == 0 {
        None
    } else {
        Some(Node::Summary(Summary { name, stats }))
    }
}

/// The result of describing one location: a node, no node, or an error.
pub open spec fn outcome_view(r: Result<Option<Node>, WalkError>) -> Result<Option<NodeView>, WalkError> {
    match r {
        Ok(Some(n)) => Ok(Some(n@)),
        Ok(None) => Ok(None),
        Err(e) => Err(e),
    }
}

/// What a repository named `name` comes to, given what its status source
/// reported.
pub open spec fn repository_result(name: Seq<char>, report: RepoReport, opts: Options) -> Result<
    Option<NodeView>,
    WalkError,
> {
    match report {
        RepoReport::Entries(recs) => match entries_of(recs@, opts.include_ignored) {
            Ok(cs) => Ok(Some(NodeView::Branch { name, children: cs })),
            Err(e) => Err(WalkError::Path(e)),
        },
        RepoReport::Stats(st) => if summary_shown(st, opts.only_show_changes) {
            Ok(
                Some(
                    NodeView::Summary {
                        name,
                        branch: st.branch@,
                        files_changed: st.files_changed as nat,
                        insertions: st.insertions as nat,
                        deletions: st.deletions as nat,
                    },
                ),
            )
        } else {
            Ok(None)
        },
        RepoReport::Failed(msg) => Err(WalkError::Repository(msg)),
    }
}

/// Describes the repository named `name` from what its status source
/// reported: its entry tree, or its summary, as the options ask.
pub fn repository_node(name: String, report: RepoReport, opts: &Options) -> (r: Result<Option<Node>, WalkError>)
    ensures
        outcome_view(r) == repository_result(name@, report, *opts),
        r matches Ok(Some(n)) ==> n@.wf(),
{
    match report {
        RepoReport::Entries(recs) => match entries_tree(name, &recs, opts.include_ignored) {
            Ok(b) => Ok(Some(Node::Branch(b))),
            Err(e) => Err(WalkError::Path(e)),
        },
        RepoReport::Stats(st) => Ok(summary_node(name, st, opts.only_show_changes)),
        RepoReport::Failed(msg) => Err(WalkError::Repository(msg)),
    }
}

/// What is at a location that the walker asked to inspect.
pub enum Probe {
    /// Nothing, or not a directory.
    NotDirectory,
    /// A directory that is not the root of a repository.
    Directory,
    /// The root of a repository, with what its status source reported.
    Repository(RepoReport),
}

/// The entries of a directory that the walker asked to list.
pub enum Listing {
    /// The names of the entries that could be read.
    Names(Vec<String>),
    /// The directory could not be listed, with the message.
    Failed(String),
}

/// The outcome of looking for a repository that contains the start.
pub enum Discovery {
    Found(RepoReport),
    NotFound,
    Failed(String),
}

/// The outside work that the walker asks for next, or its result.
pub enum Action {
    /// Tell whether the location (names below the start) is a directory and
    /// whether it is a repository root; for a repository, report its summary
    /// counts if `summary`, else its status records.
    Inspect { location: Vec<String>, summary: bool },
    /// List the entries of the directory at the location.
    List(Vec<String>),
    /// Look for a repository that contains the start, and report it as for
    /// `Inspect`.
    Discover { summary: bool },
    /// The walk is over: the tree, no tree, or the error.
    Done(Result<Option<Node>, WalkError>),
}

pub enum ActionView {
    Inspect(Seq<Seq<char>>, bool),
    List(Seq<Seq<char>>),
    Discover(bool),
    Done(Result<Option<NodeView>, WalkError>),
}

pub open spec fn action_view(a: Action) -> ActionView {
    match a {
        Action::Inspect { location, summary } => ActionView::Inspect(strings_view(location@), summary),
        Action::List(location) => ActionView::List(strings_view(location@)),
        Action::Discover { summary } => ActionView::Discover(summary),
        Action::Done(r) => ActionView::Done(outcome_view(r)),
    }
}

/// A directory whose entries are being walked.
pub struct Frame {
    /// The directory as assembled so far.
    pub dir: Branch,
    /// Its names below the start.
    pub location: Vec<String>,
    /// Its depth budget; its entries are walked with one less.
    pub depth: usize,
    /// The names of the entries still to walk, taken from the end.
    pub pending: Vec<String>,
}

pub struct FrameView {
    pub name: Seq<char>,
    pub location: Seq<Seq<char>>,
    pub depth: nat,
    pub dir: Seq<NodeView>,
    pub pending: Seq<Seq<char>>,
}

pub open spec fn frame_view(f: Frame) -> FrameView {
    FrameView {
        name: f.dir.name@,
        location: strings_view(f.location@),
        depth: f.depth as nat,
        dir: f.dir.kids(),
        pending: strings_view(f.pending@),
    }
}

pub open spec fn frames_view(fs: Seq<Frame>) -> Seq<FrameView> {
    fs.map_values(|f: Frame| frame_view(f))
}

/// Walks the next entry of the innermost directory; a directory with no
/// entry left is complete, and is handed to the one around it.
pub open spec fn advance(frames: Seq<FrameView>, opts: Options) -> (Seq<FrameView>, ActionView)
    decreases frames.len(), 0nat,
{
    if frames.len() == 0 {
        (frames, ActionView::Discover(opts.summary))
    } else {
        let top = frames.last();
        if top.pending.len() > 0 {
            (
                frames.drop_last().push(FrameView { pending: top.pending.drop_last(), ..top }),
                ActionView::Inspect(top.location.push(top.pending.last()), opts.summary),
            )
        } else {
            settle(
                frames.drop_last(),
                Ok(Some(NodeView::Branch { name: top.name, children: top.dir })),
                opts,
            )
        }
    }
}

/// Hands the result of a location to the directory being walked: a node
/// joins it under its name, no node and errors are left out. At the start
/// itself, no node means looking for a repository above; anything else ends
/// the walk.
pub open spec fn settle(
    frames: Seq<FrameView>,
    r: Result<Option<NodeView>, WalkError>,
    opts: Options,
) -> (Seq<FrameView>, ActionView)
    decreases frames.len(), 1nat,
{
    if frames.len() == 0 {
        match r {
            Ok(None) => (frames, ActionView::Discover(opts.summary)),
            _ => (frames, ActionView::Done(r)),
        }
    } else {
        let top = frames.last();
        let dir = match r {
            Ok(Some(n)) => insert_sorted(top.dir, n),
            _ => top.dir,
        };
        advance(frames.drop_last().push(FrameView { dir, ..top }), opts)
    }
}

/// Where the walk stands.
#[derive(Clone, Copy, Debug, PartialEq, Eq, Structural)]
pub enum Stage {
    Inspecting,
    Listing,
    Discovering,
    Finished,
}

pub open spec fn stage_of(a: ActionView) -> Stage {
    match a {
        ActionView::Inspect(..) => Stage::Inspecting,
        ActionView::List(..) => Stage::Listing,
        ActionView::Discover(..) => Stage::Discovering,
        ActionView::Done(..) => Stage::Finished,
    }
}

/// The request that a walker that has not finished is waiting on.
pub open spec fn request(w: Walker) -> ActionView {
    match w.stage {
        Stage::Inspecting => ActionView::Inspect(strings_view(w.inspecting@), w.options.summary),
        Stage::Listing => ActionView::List(frames_view(w.frames@).last().location),
        Stage::Discovering => ActionView::Discover(w.options.summary),
        Stage::Finished => ActionView::Discover(w.options.summary),
    }
}

/// The walk from a start location over nested directories, down to a depth
/// budget, in search of repositories.
pub struct Walker {
    pub options: Options,
    /// The name of the start, which names the tree's root.
    pub start_name: String,
    /// The directories being walked, outermost first.
    pub frames: Vec<Frame>,
    /// The location being inspected.
    pub inspecting: Vec<String>,
    pub stage: Stage,
}

/// Each directory being walked is well-formed, has budget left, and lies as
/// many levels below the start as the budget it has used.
pub open spec fn frames_wf(fs: Seq<Frame>, total: usize) -> bool {
    forall|k: int|
        0 <= k < fs.len() ==> {
            &&& (#[trigger] fs[k]).dir@.wf()
            &&& fs[k].depth > 0
            &&& fs[k].location.len() + fs[k].depth == total
        }
}

/// The location under inspection: the start itself, or one level below the
/// innermost directory being walked.
pub open spec fn inspecting_wf(fs: Seq<Frame>, inspecting: Seq<String>) -> bool {
    inspecting.len() == if fs.len() == 0 {
        0
    } else {
        fs.last().location.len() + 1
    }
}

fn copy_strings(v: &Vec<String>) -> (r: Vec<String>)
    ensures
        r@ == v@,
{
    let mut r: Vec<String> = Vec::new();
    let mut i: usize = 0;
    while i < v.len()
        invariant
            0 <= i <= v.len(),
            r@ == v@.take(i as int),
        decreases v.len() - i,
    {
        r.push(v[i].clone());
        proof {
            assert(r@ =~= v@.take(i + 1));
        }
        i = i + 1;
    }
    proof {
        assert(v@.take(i as int) =~= v@);
    }
    r
}


/// The name of the location being inspected: the start's own name at the
/// start, else the last of its names below the start.
pub open spec fn location_name(w: Walker) -> Seq<char> {
    if w.frames.len() == 0 {
        w.start_name@
    } else {
        w.inspecting@.last()@
    }
}

/// The depth budget of the location being inspected.
pub open spec fn location_depth(w: Walker) -> int {
    if w.frames.len() == 0 {
        w.options.depth as int
    } else {
        w.frames@.last().depth - 1
    }
}

/// A repository is described; a directory that is not one is walked while
/// the depth budget is above zero, and gives no node at zero; anything else
/// gives no node.
pub open spec fn after_inspection(w: Walker, p: Probe) -> (Seq<FrameView>, ActionView) {
    let fv = frames_view(w.frames@);
    match p {
        Probe::NotDirectory => settle(fv, Ok(None), w.options),
        Probe::Repository(rep) => settle(fv, repository_result(location_name(w), rep, w.options), w.options),
        Probe::Directory => if location_depth(w) > 0 {
            (
                fv.push(
                    FrameView {
                        name: location_name(w),
                        location: strings_view(w.inspecting@),
                        depth: location_depth(w) as nat,
                        dir: Seq::empty(),
                        pending: Seq::empty(),
                    },
                ),
                ActionView::List(strings_view(w.inspecting@)),
            )
        } else {
            settle(fv, Ok(None), w.options)
        },
    }
}

/// The entries of the innermost directory are walked; a directory that
/// cannot be listed is an error at its own location.
pub open spec fn after_listing(w: Walker, l: Listing) -> (Seq<FrameView>, ActionView) {
    let fv = frames_view(w.frames@);
    match l {
        Listing::Names(ns) => advance(
            fv.drop_last().push(FrameView { pending: strings_view(ns@), ..fv.last() }),
            w.options,
        ),
        Listing::Failed(msg) => settle(fv.drop_last(), Err(WalkError::Listing(msg)), w.options),
    }
}

/// The result of the walk once a repository has been looked for from the
/// start upward.
pub open spec fn after_discovery(w: Walker, d: Discovery) -> Result<Option<NodeView>, WalkError> {
    match d {
        Discovery::Found(rep) => repository_result(w.start_name@, rep, w.options),
        Discovery::NotFound => Err(WalkError::NotFound),
        Discovery::Failed(msg) => Err(WalkError::Repository(msg)),
    }
}

impl Walker {
    pub open spec fn wf(&self) -> bool {
        &&& frames_wf(self.frames@, self.options.depth)
        &&& (self.stage == Stage::Listing ==> self.frames.len() > 0)
        &&& (self.stage == Stage::Inspecting ==> inspecting_wf(self.frames@, self.inspecting@))
    }

    /// A walker at the start, and its first request: to inspect the start.
    pub fn start(options: Options, start_name: String) -> (r: (Walker, Action))
        ensures
            r.0.wf(),
            r.0.options == options,
            r.0.start_name == start_name,
            r.0.frames@.len() == 0,
            r.0.stage == Stage::Inspecting,
            action_view(r.1) == ActionView::Inspect(Seq::empty(), options.summary),
            request(r.0) == action_view(r.1),
    {
        let w = Walker {
            options,
            start_name,
            frames: Vec::new(),
            inspecting: Vec::new(),
            stage: Stage::Inspecting,
        };
        let a = Action::Inspect { location: Vec::new(), summary: options.summary };
        proof {
            assert(strings_view(Seq::<String>::empty()) =~= Seq::<Seq<char>>::empty());
        }
        (w, a)
    }

    fn stage_for(a: &Action) -> (r: Stage)
        ensures
            r == stage_of(action_view(*a)),
    {
        match a {
            Action::Inspect { .. } => Stage::Inspecting,
            Action::List(_) => Stage::Listing,
            Action::Discover { .. } => Stage::Discovering,
            Action::Done(_) => Stage::Finished,
        }
    }

    fn advance_frames(&mut self) -> (a: Action)
        requires
            frames_wf(old(self).frames@, old(self).options.depth),
        ensures
            frames_wf(final(self).frames@, final(self).options.depth),
            final(self).options == old(self).options,
            final(self).start_name == old(self).start_name,
            (frames_view(final(self).frames@), action_view(a)) == advance(frames_view(old(self).frames@), old(self).options),
            action_view(a) matches ActionView::Inspect(loc, _) ==> final(self).inspecting@ == a->location@
                && inspecting_wf(final(self).frames@, final(self).inspecting@) && final(self).frames.len() > 0,
            !(action_view(a) matches ActionView::List(_)),
            a matches Action::Done(Ok(Some(n))) ==> n@.wf(),
            action_view(a) matches ActionView::Inspect(_, summary) ==> summary == old(self).options.summary,
            action_view(a) matches ActionView::Discover(summary) ==> summary == old(self).options.summary,
        decreases old(self).frames.len(), 0nat,
    {
        let ghost fv = frames_view(self.frames@);
        if self.frames.len() == 0 {
            return Action::Discover { summary: self.options.summary };
        }
        let mut top = self.frames.pop().unwrap();
        proof {
            assert(frames_view(self.frames@) =~= fv.drop_last());
            assert(frame_view(top) == fv.last());
        }
        match top.pending.pop() {
            Some(name) => {
                let mut location = copy_strings(&top.location);
                location.push(name);
                self.inspecting = copy_strings(&location);
                let ghost before = self.frames@;
                self.frames.push(top);
                proof {
                    assert(frames_view(self.frames@) =~= frames_view(before).push(frame_view(top)));
                    assert(frame_view(top) == FrameView { pending: fv.last().pending.drop_last(), ..fv.last() })
                        by {
                        assert(strings_view(top.pending@) =~= fv.last().pending.drop_last());
                    }
                    assert(strings_view(location@) =~= fv.last().location.push(fv.last().pending.last()));
                    assert forall|k: int| 0 <= k < self.frames@.len() implies {
                        &&& (#[trigger] self.frames@[k]).dir@.wf()
                        &&& self.frames@[k].depth > 0
                        &&& self.frames@[k].location.len() + self.frames@[k].depth == self.options.depth
                    } by {
                        if k < before.len() {
                            assert(self.frames@[k] == old(self).frames@[k]);
                        }
                    }
                }
                Action::Inspect { location, summary: self.options.summary }
            },
            None => {
                proof {
                    assert(strings_view(top.pending@).len() == 0);
                    assert forall|k: int| 0 <= k < self.frames@.len() implies {
                        &&& (#[trigger] self.frames@[k]).dir@.wf()
                        &&& self.frames@[k].depth > 0
                        &&& self.frames@[k].location.len() + self.frames@[k].depth == self.options.depth
                    } by {
                        assert(self.frames@[k] == old(self).frames@[k]);
                    }
                }
                self.settle(Ok(Some(Node::Branch(top.dir))))
            },
        }
    }

    fn settle(&mut self, r: Result<Option<Node>, WalkError>) -> (a: Action)
        requires
            frames_wf(old(self).frames@, old(self).options.depth),
            r matches Ok(Some(n)) ==> n@.wf(),
        ensures
            frames_wf(final(self).frames@, final(self).options.depth),
            final(self).options == old(self).options,
            final(self).start_name == old(self).start_name,
            (frames_view(final(self).frames@), action_view(a)) == settle(
                frames_view(old(self).frames@),
                outcome_view(r),
                old(self).options,
            ),
            action_view(a) matches ActionView::Inspect(loc, _) ==> final(self).inspecting@ == a->location@
                && inspecting_wf(final(self).frames@, final(self).inspecting@) && final(self).frames.len() > 0,
            !(action_view(a) matches ActionView::List(_)),
            a matches Action::Done(Ok(Some(n))) ==> n@.wf(),
            action_view(a) matches ActionView::Inspect(_, summary) ==> summary == old(self).options.summary,
            action_view(a) matches ActionView::Discover(summary) ==> summary == old(self).options.summary,
        decreases old(self).frames.len(), 1nat,
    {
        let ghost fv = frames_view(self.frames@);
        if self.frames.len() == 0 {
            return match r {
                Ok(None) => Action::Discover { summary: self.options.summary },
                other => Action::Done(other),
            };
        }
        let mut top = self.frames.pop().unwrap();
        proof {
            assert(frames_view(self.frames@) =~= fv.drop_last());
            assert(frame_view(top) == fv.last());
            assert(old(self).frames@[old(self).frames@.len() - 1] == top);
        }
        match r {
            Ok(Some(n)) => {
                top.dir.add_node(n);
            },
            _ => {},
        }
        let ghost before = self.frames@;
        self.frames.push(top);
        proof {
            assert(frames_view(self.frames@) =~= frames_view(before).push(frame_view(top)));
            assert forall|k: int| 0 <= k < self.frames@.len() implies {
                &&& (#[trigger] self.frames@[k]).dir@.wf()
                &&& self.frames@[k].depth > 0
                &&& self.frames@[k].location.len() + self.frames@[k].depth == self.options.depth
            } by {
                if k < before.len() {
                    assert(self.frames@[k] == old(self).frames@[k]);
                }
            }
        }
        self.advance_frames()
    }
    /// Takes what is at the location being inspected.
    pub fn on_inspected(&mut self, probe: Probe) -> (a: Action)
        requires
            old(self).wf(),
            old(self).stage == Stage::Inspecting,
        ensures
            final(self).wf(),
            final(self).options == old(self).options,
            final(self).start_name == old(self).start_name,
            final(self).stage == stage_of(action_view(a)),
            (frames_view(final(self).frames@), action_view(a)) == after_inspection(*old(self), probe),
            a matches Action::Inspect { location, .. } ==> final(self).inspecting@ == location@,
            a matches Action::Inspect { location, .. } ==> location.len() <= final(self).options.depth,
            a matches Action::List(location) ==> location.len() < final(self).options.depth,
            final(self).stage != Stage::Finished ==> request(*final(self)) == action_view(a),
            a matches Action::Done(Ok(Some(n))) ==> n@.wf(),
    {
        let top_level = self.frames.len() == 0;
        let name = if top_level {
            self.start_name.clone()
        } else {
            self.inspecting[self.inspecting.len() - 1].clone()
        };
        let depth = if top_level {
            self.options.depth
        } else {
            self.frames[self.frames.len() - 1].depth - 1
        };
        let ghost fv = frames_view(self.frames@);
        let a = match probe {
            Probe::NotDirectory => self.settle(Ok(None)),
            Probe::Repository(rep) => {
                let r = repository_node(name, rep, &self.options);
                self.settle(r)
            },
            Probe::Directory => {
                if depth > 0 {
                    let location = copy_strings(&self.inspecting);
                    let listed = copy_strings(&location);
                    let ghost before = self.frames@;
                    let frame = Frame { dir: Branch::new(name), location, depth, pending: Vec::new() };
                    self.frames.push(frame);
                    proof {
                        assert(frames_view(self.frames@) =~= fv.push(frame_view(frame)));
                        assert(strings_view(frame.pending@) =~= Seq::<Seq<char>>::empty());
                        assert forall|k: int| 0 <= k < self.frames@.len() implies {
                            &&& (#[trigger] self.frames@[k]).dir@.wf()
                            &&& self.frames@[k].depth > 0
                            &&& self.frames@[k].location.len() + self.frames@[k].depth == self.options.depth
                        } by {
                            if k < before.len() {
                                assert(self.frames@[k] == old(self).frames@[k]);
                            }
                        }
                    }
                    proof {
                        assert(self.frames@.last() == frame);
                    }
                    Action::List(listed)
                } else {
                    self.settle(Ok(None))
                }
            },
        };
        self.stage = Self::stage_for(&a);
        proof {
            if self.frames.len() > 0 {
                let k = self.frames.len() - 1;
                assert(self.frames@[k as int].location.len() + self.frames@[k as int].depth == self.options.depth);
                assert(frames_view(self.frames@).last() == frame_view(self.frames@[k as int]));
            }
            assert(a matches Action::Inspect { location, summary } ==> action_view(a) == ActionView::Inspect(
                strings_view(location@),
                summary,
            ));
            assert(a matches Action::List(location) ==> action_view(a) == ActionView::List(strings_view(location@)));
        }
        a
    }

    /// Takes the entries of the innermost directory.
    pub fn on_listed(&mut self, listing: Listing) -> (a: Action)
        requires
            old(self).wf(),
            old(self).stage == Stage::Listing,
        ensures
            final(self).wf(),
            final(self).options == old(self).options,
            final(self).start_name == old(self).start_name,
            final(self).stage == stage_of(action_view(a)),
            (frames_view(final(self).frames@), action_view(a)) == after_listing(*old(self), listing),
            a matches Action::Inspect { location, .. } ==> final(self).inspecting@ == location@,
            a matches Action::Inspect { location, .. } ==> location.len() <= final(self).options.depth,
            a matches Action::List(location) ==> location.len() < final(self).options.depth,
            final(self).stage != Stage::Finished ==> request(*final(self)) == action_view(a),
            a matches Action::Done(Ok(Some(n))) ==> n@.wf(),
    {
        let ghost fv = frames_view(self.frames@);
        let mut top = self.frames.pop().unwrap();
        proof {
            assert(frames_view(self.frames@) =~= fv.drop_last());
            assert(frame_view(top) == fv.last());
            assert(top.dir@.wf() && top.depth > 0);
            assert forall|k: int| 0 <= k < self.frames@.len() implies {
                &&& (#[trigger] self.frames@[k]).dir@.wf()
                &&& self.frames@[k].depth > 0
                &&& self.frames@[k].location.len() + self.frames@[k].depth == self.options.depth
            } by {
                assert(self.frames@[k] == old(self).frames@[k]);
            }
        }
        let a = match listing {
            Listing::Names(names) => {
                top.pending = names;
                let ghost before = self.frames@;
                self.frames.push(top);
                proof {
                    assert(frames_view(self.frames@) =~= frames_view(before).push(frame_view(top)));
                    assert forall|k: int| 0 <= k < self.frames@.len() implies {
                        &&& (#[trigger] self.frames@[k]).dir@.wf()
                        &&& self.frames@[k].depth > 0
                        &&& self.frames@[k].location.len() + self.frames@[k].depth == self.options.depth
                    } by {
                        if k < before.len() {
                            assert(self.frames@[k] == before[k]);
                        }
                    }
                }
                self.advance_frames()
            },
            Listing::Failed(msg) => self.settle(Err(WalkError::Listing(msg))),
        };
        self.stage = Self::stage_for(&a);
        proof {
            if self.frames.len() > 0 {
                let k = self.frames.len() - 1;
                assert(self.frames@[k as int].location.len() + self.frames@[k as int].depth == self.options.depth);
                assert(frames_view(self.frames@).last() == frame_view(self.frames@[k as int]));
            }
            assert(a matches Action::Inspect { location, summary } ==> action_view(a) == ActionView::Inspect(
                strings_view(location@),
                summary,
            ));
            assert(a matches Action::List(location) ==> action_view(a) == ActionView::List(strings_view(location@)));
        }
        a
    }

    /// Takes the outcome of looking for a repository above the start, and
    /// ends the walk.
    pub fn on_discovered(&mut self, discovery: Discovery) -> (a: Action)
        requires
            old(self).wf(),
            old(self).stage == Stage::Discovering,
        ensures
            final(self).wf(),
            final(self).stage == Stage::Finished,
            action_view(a) == ActionView::Done(after_discovery(*old(self), discovery)),
            a matches Action::Done(Ok(Some(n))) ==> n@.wf(),
    {
        let r = match discovery {
            Discovery::Found(rep) => repository_node(self.start_name.clone(), rep, &self.options),
            Discovery::NotFound => Err(WalkError::NotFound),
            Discovery::Failed(msg) => Err(WalkError::Repository(msg)),
        };
        self.stage = Stage::Finished;
        Action::Done(r)
    }
}


} // verus!
