//! Depth-first enumeration of the regular files under a path.
//!
//! The walker decides; its driver performs the file-system calls. The driver
//! keeps one open directory listing per frame of the walker, pulls the next
//! entry of the innermost listing, reports what it saw as a [`WalkEvent`] and
//! carries out the [`WalkAction`] it gets back. Memory is bounded by the depth
//! of the current descent, never by the breadth of the tree.
use vstd::prelude::*;

verus! {

/// Declares `std::io::Error` so that error records can carry one.
#[verifier::external_type_specification]
#[verifier::external_body]
pub struct ExIoError(std::io::Error);

/// The type of a file-system node. The root is always classified with
/// symbolic links resolved; entries met during the walk are resolved only
/// when the walker follows symbolic links, else a link shows as `Symlink`.
#[derive(Clone, Copy, Debug, PartialEq, Eq, Structural)]
pub enum NodeKind {
    File,
    Dir,
    Symlink,
    Other,
}

/// An error met while walking, with the path it concerns.
pub struct Error {
    pub path: Vec<u8>,
    pub err: std::io::Error,
}

impl Error {
    pub fn new(err: std::io::Error, path: Vec<u8>) -> (r: Error)
        ensures
            r.path@ == path@,
            r.err == err,
    {
        Error { path, err }
    }
}

/// The path of the entry `name` inside directory `dir`: a separator is put
/// between them unless `dir` already ends with one.
pub open spec fn child_path(dir: Seq<u8>, name: Seq<u8>) -> Seq<u8> {
    if dir.len() > 0 && dir.last() == 47u8 {
        dir + name
    } else {
        dir + seq![47u8] + name
    }
}

/// The directory reached from `root` by descending through `names` in turn.
pub open spec fn descend(root: Seq<u8>, names: Seq<Seq<u8>>) -> Seq<u8>
    decreases names.len(),
{
    if names.len() == 0 {
        root
    } else {
        child_path(descend(root, names.drop_last()), names.last())
    }
}

/// What the driver saw when it pulled from the innermost open listing.
#[derive(Debug)]
pub enum WalkEvent {
    /// An entry with this file name, and its type.
    Entry(Vec<u8>, NodeKind),
    /// An entry with this file name whose type could not be read.
    EntryError(Vec<u8>),
    /// The listing has no more entries.
    End,
    /// Reading the listing failed.
    ListError,
    /// The listing asked for by the last `Descend` could not be opened.
    OpenError,
}

/// What the driver is to do next.
#[derive(Debug, PartialEq, Eq)]
pub enum WalkAction {
    /// Hand out this regular file.
    Yield(Vec<u8>),
    /// Report an error for this path; the walk goes on.
    Report(Vec<u8>),
    /// Open the listing of this directory as the new innermost frame.
    Descend(Vec<u8>),
    /// Close the innermost listing.
    Ascend,
    /// Close the innermost listing and report an error for this path.
    AscendReport(Vec<u8>),
    /// Nothing to do for this entry: pull the next one.
    Skip,
    /// The walk is over.
    Done,
}

/// A [`WalkEvent`] as the model sees it.
pub enum EventView {
    Entry(Seq<u8>, NodeKind),
    EntryError(Seq<u8>),
    End,
    ListError,
    OpenError,
}

/// A [`WalkAction`] as the model sees it.
pub enum ActionView {
    Yield(Seq<u8>),
    Report(Seq<u8>),
    Descend(Seq<u8>),
    Ascend,
    AscendReport(Seq<u8>),
    Skip,
    Done,
}

impl View for WalkEvent {
    type V = EventView;

    open spec fn view(&self) -> EventView {
        match self {
            WalkEvent::Entry(n, k) => EventView::Entry(n@, *k),
            WalkEvent::EntryError(n) => EventView::EntryError(n@),
            WalkEvent::End => EventView::End,
            WalkEvent::ListError => EventView::ListError,
            WalkEvent::OpenError => EventView::OpenError,
        }
    }
}

impl View for WalkAction {
    type V = ActionView;

    open spec fn view(&self) -> ActionView {
        match self {
            WalkAction::Yield(p) => ActionView::Yield(p@),
            WalkAction::Report(p) => ActionView::Report(p@),
            WalkAction::Descend(p) => ActionView::Descend(p@),
            WalkAction::Ascend => ActionView::Ascend,
            WalkAction::AscendReport(p) => ActionView::AscendReport(p@),
            WalkAction::Skip => ActionView::Skip,
            WalkAction::Done => ActionView::Done,
        }
    }
}

/// One move of the walk: the open frames after the event, and the action.
/// A regular file is handed out; a directory becomes a new innermost frame;
/// a symbolic link that is not followed, or a special file, is skipped; an
/// entry whose type cannot be read is reported and skipped. A listing that
/// ends is closed; one that fails to be read is closed and reported, its
/// unread entries abandoned; one that cannot be opened is dropped and
/// reported. With no frame open, the walk is over.
pub open spec fn step_spec(frames: Seq<Seq<u8>>, ev: EventView) -> (Seq<Seq<u8>>, ActionView) {
    if frames.len() == 0 {
        (frames, ActionView::Done)
    } else {
        let top = frames.last();
        match ev {
            EventView::Entry(name, NodeKind::File) => (
                frames,
                ActionView::Yield(child_path(top, name)),
            ),
            EventView::Entry(name, NodeKind::Dir) => (
                frames.push(child_path(top, name)),
                ActionView::Descend(child_path(top, name)),
            ),
            EventView::Entry(_, _) => (frames, ActionView::Skip),
            EventView::EntryError(name) => (frames, ActionView::Report(child_path(top, name))),
            EventView::End => (frames.drop_last(), ActionView::Ascend),
            EventView::ListError => (frames.drop_last(), ActionView::AscendReport(top)),
            EventView::OpenError => (frames.drop_last(), ActionView::Report(top)),
        }
    }
}

/// The actions of a walk from `frames` through the events `evs`.
pub open spec fn run_actions(frames: Seq<Seq<u8>>, evs: Seq<EventView>) -> Seq<ActionView>
    decreases evs.len(),
{
    if evs.len() == 0 {
        Seq::empty()
    } else {
        let (next, a) = step_spec(frames, evs[0]);
        seq![a] + run_actions(next, evs.drop_first())
    }
}

/// A walk whose listings hold only directories hands out no file and
/// reports no error: each event gives one action, and every action is a
/// descent, an ascent or the end.
pub proof fn lemma_only_directories_yield_nothing(frames: Seq<Seq<u8>>, evs: Seq<EventView>)
    requires
        forall|i: int|
            0 <= i < evs.len() ==> (#[trigger] evs[i] is End || evs[i] matches EventView::Entry(
                _,
                NodeKind::Dir,
            )),
    ensures
        run_actions(frames, evs).len() == evs.len(),
        forall|j: int|
            0 <= j < evs.len() ==> {
                let a = #[trigger] run_actions(frames, evs)[j];
                a is Descend || a is Ascend || a is Done
            },
    decreases evs.len(),
{
    if evs.len() > 0 {
        let (next, a) = step_spec(frames, evs[0]);
        let tail = evs.drop_first();
        assert forall|i: int| 0 <= i < tail.len() implies (#[trigger] tail[i] is End
            || tail[i] matches EventView::Entry(_, NodeKind::Dir)) by {
            assert(tail[i] == evs[i + 1]);
        }
        lemma_only_directories_yield_nothing(next, tail);
        let r = run_actions(frames, evs);
        assert(r == seq![a] + run_actions(next, tail));
        assert(evs[0] is End || evs[0] matches EventView::Entry(_, NodeKind::Dir));
        assert forall|j: int| 0 <= j < evs.len() implies {
            let b = #[trigger] run_actions(frames, evs)[j];
            b is Descend || b is Ascend || b is Done
        } by {
            if j > 0 {
                assert(r[j] == run_actions(next, tail)[j - 1]);
            }
        }
    }
}

/// A subdirectory that cannot be opened costs exactly one error report, for
/// its own path: the walk then goes on in its parent exactly as if the entry
/// had not been listed, so its siblings are walked as before.
pub proof fn lemma_unopenable_dir_reported_once(
    frames: Seq<Seq<u8>>,
    name: Seq<u8>,
    rest: Seq<EventView>,
)
    requires
        frames.len() > 0,
    ensures
        run_actions(
            frames,
            seq![EventView::Entry(name, NodeKind::Dir), EventView::OpenError] + rest,
        ) == seq![
            ActionView::Descend(child_path(frames.last(), name)),
            ActionView::Report(child_path(frames.last(), name)),
        ] + run_actions(frames, rest),
{
    let c = child_path(frames.last(), name);
    let evs = seq![EventView::Entry(name, NodeKind::Dir), EventView::OpenError] + rest;
    let once = evs.drop_first();
    assert(evs[0] == EventView::Entry(name, NodeKind::Dir));
    assert(once[0] == EventView::OpenError);
    assert(once.drop_first() =~= rest);
    assert(frames.push(c).drop_last() =~= frames);
    assert(run_actions(frames.push(c), once) == seq![ActionView::Report(c)] + run_actions(
        frames,
        rest,
    ));
    assert(seq![ActionView::Descend(c)] + (seq![ActionView::Report(c)] + run_actions(frames, rest))
        =~= seq![ActionView::Descend(c), ActionView::Report(c)] + run_actions(frames, rest));
}

/// The open frames after a walk from `frames` through the events `evs`.
pub open spec fn frames_after(frames: Seq<Seq<u8>>, evs: Seq<EventView>) -> Seq<Seq<u8>>
    decreases evs.len(),
{
    if evs.len() == 0 {
        frames
    } else {
        frames_after(step_spec(frames, evs[0]).0, evs.drop_first())
    }
}

/// The number of files handed out by the actions `acts`.
pub open spec fn yield_count(acts: Seq<ActionView>) -> nat
    decreases acts.len(),
{
    if acts.len() == 0 {
        0
    } else {
        (if acts[0] is Yield {
            1nat
        } else {
            0nat
        }) + yield_count(acts.drop_first())
    }
}

/// The events that listing a directory of the tree of `depth` levels gives:
/// at each level the regular files `files`, then, above the last level, the
/// subdirectory `sub` holding the next level, and the end of the listing.
pub open spec fn level_events(files: Seq<Seq<u8>>, sub: Seq<u8>, depth: nat) -> Seq<EventView>
    decreases depth,
{
    Seq::new(files.len(), |i: int| EventView::Entry(files[i], NodeKind::File)) + (if depth > 1 {
        seq![EventView::Entry(sub, NodeKind::Dir)] + level_events(files, sub, (depth - 1) as nat)
    } else {
        Seq::empty()
    }) + seq![EventView::End]
}

proof fn lemma_run_concat(frames: Seq<Seq<u8>>, a: Seq<EventView>, b: Seq<EventView>)
    ensures
        run_actions(frames, a + b) == run_actions(frames, a) + run_actions(
            frames_after(frames, a),
            b,
        ),
        frames_after(frames, a + b) == frames_after(frames_after(frames, a), b),
    decreases a.len(),
{
    if a.len() == 0 {
        assert(a + b =~= b);
        assert(run_actions(frames, a) + run_actions(frames, b) =~= run_actions(frames, b));
    } else {
        let next = step_spec(frames, a[0]).0;
        assert((a + b)[0] == a[0]);
        assert((a + b).drop_first() =~= a.drop_first() + b);
        lemma_run_concat(next, a.drop_first(), b);
        assert(run_actions(frames, a + b) =~= run_actions(frames, a) + run_actions(
            frames_after(frames, a),
            b,
        ));
    }
}

proof fn lemma_yield_count_concat(x: Seq<ActionView>, y: Seq<ActionView>)
    ensures
        yield_count(x + y) == yield_count(x) + yield_count(y),
    decreases x.len(),
{
    if x.len() == 0 {
        assert(x + y =~= y);
    } else {
        assert((x + y)[0] == x[0]);
        assert((x + y).drop_first() =~= x.drop_first() + y);
        lemma_yield_count_concat(x.drop_first(), y);
    }
}

proof fn lemma_end_step(frames: Seq<Seq<u8>>)
    requires
        frames.len() > 0,
    ensures
        run_actions(frames, seq![EventView::End]) == seq![ActionView::Ascend],
        frames_after(frames, seq![EventView::End]) == frames.drop_last(),
{
    let end = seq![EventView::End];
    assert(end.drop_first() =~= Seq::<EventView>::empty());
    assert(end[0] == EventView::End);
    assert(run_actions(frames.drop_last(), Seq::<EventView>::empty()) == Seq::<
        ActionView,
    >::empty());
    assert(frames_after(frames.drop_last(), Seq::<EventView>::empty()) == frames.drop_last());
    assert(run_actions(frames, end) =~= seq![ActionView::Ascend]);
}

proof fn lemma_yield_count_single(a: ActionView)
    ensures
        yield_count(seq![a]) == (if a is Yield {
            1nat
        } else {
            0nat
        }),
{
    assert(seq![a].drop_first() =~= Seq::<ActionView>::empty());
    assert(yield_count(Seq::<ActionView>::empty()) == 0);
}

proof fn lemma_files_only(frames: Seq<Seq<u8>>, files: Seq<Seq<u8>>)
    requires
        frames.len() > 0,
    ensures
        ({
            let evs = Seq::new(files.len(), |i: int| EventView::Entry(files[i], NodeKind::File));
            &&& yield_count(run_actions(frames, evs)) == files.len()
            &&& frames_after(frames, evs) == frames
        }),
    decreases files.len(),
{
    let evs = Seq::new(files.len(), |i: int| EventView::Entry(files[i], NodeKind::File));
    if files.len() > 0 {
        let rest = files.drop_first();
        let revs = Seq::new(rest.len(), |i: int| EventView::Entry(rest[i], NodeKind::File));
        assert(evs.drop_first() =~= revs);
        lemma_files_only(frames, rest);
        let acts = run_actions(frames, evs);
        assert(acts[0] is Yield);
        assert(acts.drop_first() =~= run_actions(frames, revs));
    }
}

/// A walk through a tree of `depth` levels, each holding the regular files
/// `files` and, above the last level, the subdirectory of the next level,
/// hands out `depth * files.len()` files and ends with the frames it
/// started from, less the one of the directory it walked.
pub proof fn lemma_levels_yield_every_file(
    frames: Seq<Seq<u8>>,
    files: Seq<Seq<u8>>,
    sub: Seq<u8>,
    depth: nat,
)
    requires
        frames.len() > 0,
        depth >= 1,
    ensures
        yield_count(run_actions(frames, level_events(files, sub, depth))) == depth * files.len(),
        frames_after(frames, level_events(files, sub, depth)) == frames.drop_last(),
    decreases depth,
{
    let fevs = Seq::new(files.len(), |i: int| EventView::Entry(files[i], NodeKind::File));
    let end = seq![EventView::End];
    lemma_files_only(frames, files);
    if depth > 1 {
        let down = seq![EventView::Entry(sub, NodeKind::Dir)];
        let inner = level_events(files, sub, (depth - 1) as nat);
        let c = child_path(frames.last(), sub);
        let deeper = frames.push(c);
        lemma_levels_yield_every_file(deeper, files, sub, (depth - 1) as nat);
        assert(deeper.drop_last() =~= frames);
        // the descent, the inner level, then the end
        lemma_run_concat(frames, down, inner);
        assert(down.drop_first() =~= Seq::<EventView>::empty());
        assert(down[0] == EventView::Entry(sub, NodeKind::Dir));
        assert(frames_after(deeper, Seq::<EventView>::empty()) == deeper);
        assert(frames_after(frames, down) == deeper);
        assert(run_actions(deeper, Seq::<EventView>::empty()) == Seq::<ActionView>::empty());
        assert(run_actions(frames, down) =~= seq![ActionView::Descend(c)]);
        let mid = down + inner;
        lemma_run_concat(frames, fevs, mid);
        let head = fevs + mid;
        lemma_run_concat(frames, head, end);
        assert(level_events(files, sub, depth) =~= head + end);
        assert(frames_after(frames, head) == frames);
        lemma_end_step(frames);
        lemma_yield_count_concat(run_actions(frames, head), run_actions(frames, end));
        lemma_yield_count_concat(run_actions(frames, fevs), run_actions(frames, mid));
        lemma_yield_count_concat(run_actions(frames, down), run_actions(deeper, inner));
        lemma_yield_count_single(ActionView::Descend(c));
        lemma_yield_count_single(ActionView::Ascend);
        assert(yield_count(run_actions(frames, mid)) == (depth - 1) * files.len());
        assert(yield_count(run_actions(frames, head)) == files.len() + (depth - 1) * files.len());
        assert(files.len() + (depth - 1) * files.len() == depth * files.len()) by (nonlinear_arith)
            requires
                depth >= 1,
        ;
    } else {
        lemma_run_concat(frames, fevs, end);
        assert(level_events(files, sub, depth) =~= fevs + end);
        lemma_end_step(frames);
        lemma_yield_count_concat(run_actions(frames, fevs), run_actions(frames, end));
        lemma_yield_count_single(ActionView::Ascend);
        assert(yield_count(run_actions(frames, fevs + end)) == files.len());
        assert(depth * files.len() == files.len()) by (nonlinear_arith)
            requires
                depth == 1,
        ;
    }
}

/// Walks a directory: one frame per open listing, outermost first.
pub struct WalkDir {
    follow_symlink: bool,
    root: Vec<u8>,
    frames: Vec<Vec<u8>>,
    names: Ghost<Seq<Seq<u8>>>,
}

/// Walks a path: a single file, or a directory.
pub enum WalkPath {
    File(Vec<u8>),
    Dir(WalkDir),
    Done,
}

impl WalkDir {
    pub closed spec fn root(&self) -> Seq<u8> {
        self.root@
    }

    pub closed spec fn follows_symlinks(&self) -> bool {
        self.follow_symlink
    }

    /// The paths of the open frames, outermost first.
    pub closed spec fn frames(&self) -> Seq<Seq<u8>> {
        self.frames@.map_values(|f: Vec<u8>| f@)
    }

    /// The names descended through from the root to the innermost frame.
    pub closed spec fn names(&self) -> Seq<Seq<u8>> {
        self.names@
    }

    /// Each frame is the directory one level below the frame before it, so
    /// the innermost frame is the root descended through `names`, and the
    /// number of open frames is one more than its depth below the root.
    pub closed spec fn wf(&self) -> bool {
        if self.frames@.len() == 0 {
            self.names@.len() == 0
        } else {
            &&& self.frames@.len() == self.names@.len() + 1
            &&& forall|i: int|
                0 <= i < self.frames@.len() ==> #[trigger] self.frames@[i]@ == descend(
                    self.root@,
                    self.names@.take(i),
                )
        }
    }

    pub open spec fn innermost(&self) -> Seq<u8> {
        self.frames().last()
    }

    /// Whether entries are classified with symbolic links resolved.
    pub fn follow_symlink(&self) -> (r: bool)
        ensures
            r == self.follows_symlinks(),
    {
        self.follow_symlink
    }

    /// Number of open frames, that is of listings the driver holds open.
    pub fn depth(&self) -> (r: usize)
        ensures
            r == self.frames().len(),
    {
        self.frames.len()
    }

    /// Decides what to do with what the driver saw in the innermost listing,
    /// as `step_spec` says.
    pub fn step(&mut self, ev: WalkEvent) -> (r: WalkAction)
        requires
            old(self).wf(),
        ensures
            final(self).wf(),
            final(self).root() == old(self).root(),
            final(self).follows_symlinks() == old(self).follows_symlinks(),
            (final(self).frames(), r@) == step_spec(old(self).frames(), ev@),
            old(self).frames().len() > 0 ==> match ev {
                WalkEvent::Entry(name, NodeKind::Dir) => final(self).names() == old(
                    self,
                ).names().push(name@),
                _ => true,
            },
    {
        let n = self.frames.len();
        if n == 0 {
            return WalkAction::Done;
        }
        match ev {
            WalkEvent::Entry(name, kind) => {
                match kind {
                    NodeKind::File => {
                        let p = join_child(&self.frames[n - 1], &name);
                        WalkAction::Yield(p)
                    },
                    NodeKind::Dir => {
                        let p = join_child(&self.frames[n - 1], &name);
                        let ghost old_frames = self.frames@;
                        let ghost old_names = self.names@;
                        let q = p.clone();
                        proof {
                            assert(q@ == p@);
                            assert(old_names.take(n - 1) =~= old_names);
                            assert(old_frames[n - 1]@ == descend(self.root@, old_names));
                        }
                        self.frames.push(q);
                        self.names = Ghost(old_names.push(name@));
                        proof {
                            let nn = self.names@;
                            assert(nn.drop_last() =~= old_names);
                            assert(nn.take(n as int) =~= nn);
                            assert forall|i: int| 0 <= i < self.frames@.len() implies #[trigger] self.frames@[i]@
                                == descend(self.root@, self.names@.take(i)) by {
                                if i < n {
                                    assert(nn.take(i) =~= old_names.take(i));
                                    assert(self.frames@[i] == old_frames[i]);
                                } else {
                                    assert(nn.take(i) =~= nn);
                                    assert(old_names.take(n - 1) =~= old_names);
                                }
                            }
                            assert(self.frames@.map_values(|f: Vec<u8>| f@) =~= old_frames.map_values(
                                |f: Vec<u8>| f@,
                            ).push(p@));
                        }
                        WalkAction::Descend(p)
                    },
                    _ => WalkAction::Skip,
                }
            },
            WalkEvent::EntryError(name) => {
                let p = join_child(&self.frames[n - 1], &name);
                WalkAction::Report(p)
            },
            WalkEvent::End => {
                self.pop_frame();
                WalkAction::Ascend
            },
            WalkEvent::ListError => {
                let p = self.pop_frame();
                WalkAction::AscendReport(p)
            },
            WalkEvent::OpenError => {
                let p = self.pop_frame();
                WalkAction::Report(p)
            },
        }
    }

    fn pop_frame(&mut self) -> (r: Vec<u8>)
        requires
            old(self).wf(),
            old(self).frames().len() > 0,
        ensures
            final(self).wf(),
            final(self).root() == old(self).root(),
            final(self).follows_symlinks() == old(self).follows_symlinks(),
            r@ == old(self).innermost(),
            final(self).frames() == old(self).frames().drop_last(),
    {
        let ghost old_frames = self.frames@;
        let ghost old_names = self.names@;
        let r = self.frames.pop().unwrap();
        self.names = Ghost(
            if old_names.len() > 0 {
                old_names.drop_last()
            } else {
                old_names
            },
        );
        proof {
            assert forall|i: int| 0 <= i < self.frames@.len() implies #[trigger] self.frames@[i]@
                == descend(self.root@, self.names@.take(i)) by {
                assert(self.frames@[i] == old_frames[i]);
                assert(self.names@.take(i) =~= old_names.take(i));
            }
            assert(self.frames@.map_values(|f: Vec<u8>| f@) =~= old_frames.map_values(
                |f: Vec<u8>| f@,
            ).drop_last());
        }
        r
    }
}

/// At every state of a walk, the open frames are the directories on the one
/// path from the root down to the innermost frame, one per level: the number
/// of listings held open is the innermost frame's depth below the root plus
/// one, whatever the breadth of the tree.
pub proof fn lemma_frames_are_one_descent(wd: &WalkDir)
    requires
        wd.wf(),
    ensures
        wd.frames().len() == 0 ==> wd.names().len() == 0,
        wd.frames().len() > 0 ==> {
            &&& wd.frames().len() == wd.names().len() + 1
            &&& wd.frames()[0] == wd.root()
            &&& wd.innermost() == descend(wd.root(), wd.names())
            &&& forall|i: int|
                0 < i < wd.frames().len() ==> #[trigger] wd.frames()[i] == child_path(
                    wd.frames()[i - 1],
                    wd.names()[i - 1],
                )
        },
{
    if wd.frames().len() > 0 {
        let names = wd.names();
        assert(wd.frames()[0] == wd.frames@[0]@);
        assert(names.take(0) =~= Seq::<Seq<u8>>::empty());
        let n = wd.frames().len() - 1;
        assert(wd.frames()[n as int] == wd.frames@[n as int]@);
        assert(names.take(n as int) =~= names);
        assert forall|i: int| 0 < i < wd.frames().len() implies #[trigger] wd.frames()[i]
            == child_path(wd.frames()[i - 1], wd.names()[i - 1]) by {
            assert(wd.frames()[i] == wd.frames@[i]@);
            assert(wd.frames()[i - 1] == wd.frames@[i - 1]@);
            assert(names.take(i).drop_last() =~= names.take(i - 1));
        }
    }
}

/// The path of entry `name` inside directory `dir`.
pub fn join_child(dir: &Vec<u8>, name: &Vec<u8>) -> (r: Vec<u8>)
    ensures
        r@ == child_path(dir@, name@),
{
    let mut r: Vec<u8> = Vec::new();
    let mut i: usize = 0;
    while i < dir.len()
        invariant
            i <= dir@.len(),
            r@ == dir@.take(i as int),
        decreases dir@.len() - i,
    {
        r.push(dir[i]);
        i = i + 1;
        proof {
            assert(dir@.take(i as int) =~= dir@.take(i - 1) + seq![dir@[i - 1]]);
        }
    }
    proof {
        assert(dir@.take(dir@.len() as int) =~= dir@);
    }
    if !(dir.len() > 0 && dir[dir.len() - 1] == 47u8) {
        r.push(47u8);
    }
    let ghost head = r@;
    let mut j: usize = 0;
    while j < name.len()
        invariant
            j <= name@.len(),
            r@ == head + name@.take(j as int),
        decreases name@.len() - j,
    {
        r.push(name[j]);
        j = j + 1;
        proof {
            assert(name@.take(j as int) =~= name@.take(j - 1) + seq![name@[j - 1]]);
        }
    }
    proof {
        assert(name@.take(name@.len() as int) =~= name@);
        assert(r@ =~= child_path(dir@, name@));
    }
    r
}

/// A walker over the directory `path`, whose listing the driver has opened.
pub fn walk_dir(path: Vec<u8>, follow_symlink: bool) -> (r: WalkDir)
    ensures
        r.wf(),
        r.root() == path@,
        r.follows_symlinks() == follow_symlink,
        r.frames() == seq![path@],
        r.names() == Seq::<Seq<u8>>::empty(),
{
    let root = path.clone();
    let mut frames: Vec<Vec<u8>> = Vec::new();
    frames.push(path);
    let r = WalkDir { follow_symlink, root, frames, names: Ghost(Seq::empty()) };
    proof {
        assert(r.names@.take(0) =~= Seq::<Seq<u8>>::empty());
        assert(r.frames() =~= seq![r.root@]);
    }
    r
}

/// A walker over `path`, whose type, with symbolic links resolved, is
/// `kind`. A directory is walked; anything else is handed out as the single
/// file of the walk, special files included: named explicitly, they are read.
pub fn walk_path(path: Vec<u8>, kind: NodeKind, follow_symlink: bool) -> (r: WalkPath)
    ensures
        kind == NodeKind::Dir ==> (r matches WalkPath::Dir(wd) && wd.wf() && wd.root() == path@
            && wd.follows_symlinks() == follow_symlink && wd.frames() == seq![path@]),
        kind != NodeKind::Dir ==> (r matches WalkPath::File(p) && p@ == path@),
{
    match kind {
        NodeKind::Dir => WalkPath::Dir(walk_dir(path, follow_symlink)),
        _ => WalkPath::File(path),
    }
}

impl WalkPath {
    /// Hands out the single file of a walk over a file, once.
    pub fn take_file(&mut self) -> (r: Option<Vec<u8>>)
        ensures
            match *old(self) {
                WalkPath::File(p) => (r matches Some(q) && q@ == p@) && *final(self) is Done,
                _ => r is None && *final(self) == *old(self),
            },
    {
        match self {
            WalkPath::File(p) => {
                let p = p.clone();
                *self = WalkPath::Done;
                Some(p)
            },
            _ => None,
        }
    }
}

} // verus!
