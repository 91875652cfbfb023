//! The walk over a directory tree, as a sequence of levels: what a listing
//! holds, which of it is loaded, and which directory is listed next.

use vstd::prelude::*;
use crate::error::{ErrorKind, Failure, LoadError, LoadResult};
use crate::strset::StrSet;
use crate::text::{chars_of, lemma_views_push, views};

verus! {

/// What an entry of a directory is.
#[derive(Clone, Debug)]
pub enum EntryKind {
    Dir,
    File,
    /// Neither a directory nor an ordinary file.
    Other,
    /// The type of the entry could not be determined; the reason is given.
    Unknown(String),
}

/// One entry of a directory listing.
#[derive(Clone, Debug)]
pub struct DirEntry {
    pub path: String,
    pub kind: EntryKind,
}

/// Whether a path has the extension of the files that declare artifacts:
/// it ends in `.rsk`, and its file name is more than that.
pub open spec fn is_artifact_file(path: Seq<char>) -> bool {
    let n = path.len() as int;
    &&& n >= 5
    &&& path[n - 5] != '/'
    &&& path[n - 4] == '.'
    &&& path[n - 3] == 'r'
    &&& path[n - 2] == 's'
    &&& path[n - 1] == 'k'
}

/// Whether a path has the extension of the files that declare artifacts.
pub fn has_artifact_extension(path: &str) -> (r: bool)
    ensures
        r == is_artifact_file(path@),
{
    let v = chars_of(path);
    let n = v.len();
    n >= 5 && v[n - 5] != '/' && v[n - 4] == '.' && v[n - 3] == 'r' && v[n - 2] == 's' && v[n - 1]
        == 'k'
}

/// Whether an entry is a file that declares artifacts.
pub open spec fn is_loadable(e: DirEntry) -> bool {
    e.kind is File && is_artifact_file(e.path@)
}

/// The paths of entries.
pub open spec fn paths_of(entries: Seq<DirEntry>) -> Seq<Seq<char>> {
    Seq::new(entries.len(), |i: int| entries[i].path@)
}

/// The files of a listing that declare artifacts, in the order of the listing.
pub open spec fn listed_files(entries: Seq<DirEntry>) -> Seq<Seq<char>> {
    paths_of(entries.filter(|e: DirEntry| is_loadable(e)))
}

/// The directories of a listing, in the order of the listing.
pub open spec fn listed_dirs(entries: Seq<DirEntry>) -> Seq<Seq<char>> {
    paths_of(entries.filter(|e: DirEntry| e.kind is Dir))
}

/// The error for an entry whose type could not be determined.
pub open spec fn unknown_fault(e: DirEntry) -> (Seq<char>, Failure) {
    (e.path@, (ErrorKind::Io, e.kind->Unknown_0@))
}

/// The entries of a listing whose type could not be determined, each with
/// its error.
pub open spec fn listed_faults(entries: Seq<DirEntry>) -> Seq<(Seq<char>, Failure)> {
    let unknown = entries.filter(|e: DirEntry| e.kind is Unknown);
    Seq::new(unknown.len(), |i: int| unknown_fault(unknown[i]))
}

/// One level of a walk: a directory whose listing was read.
#[derive(Debug)]
pub struct Frame {
    /// The files of the directory that declare artifacts.
    pub files: Vec<String>,
    /// How many of the files were loaded.
    pub next_file: usize,
    /// The directories in the directory.
    pub dirs: Vec<String>,
    /// How many of the directories were looked at.
    pub next_dir: usize,
    /// The number of artifacts loaded in the directory and below it.
    pub num_loaded: u64,
    /// Whether anything in the directory or below it failed.
    pub error: bool,
}

/// A level as contracts speak of it.
pub struct FrameView {
    /// The files that are still to be loaded.
    pub files: Seq<Seq<char>>,
    /// The directories that are still to be looked at.
    pub dirs: Seq<Seq<char>>,
    pub num_loaded: nat,
    pub error: bool,
}

impl Frame {
    pub open spec fn in_bounds(&self) -> bool {
        self.next_file <= self.files@.len() && self.next_dir <= self.dirs@.len()
    }
}

impl View for Frame {
    type V = FrameView;

    open spec fn view(&self) -> FrameView {
        FrameView {
            files: views(self.files@).skip(self.next_file as int),
            dirs: views(self.dirs@).skip(self.next_dir as int),
            num_loaded: self.num_loaded as nat,
            error: self.error,
        }
    }
}

/// The level that a listing opens: its files and directories are all still
/// to come, nothing is loaded, and an entry of unknown type is a failure.
pub open spec fn frame_of(entries: Seq<DirEntry>) -> FrameView {
    FrameView {
        files: listed_files(entries),
        dirs: listed_dirs(entries),
        num_loaded: 0,
        error: listed_faults(entries).len() > 0,
    }
}

/// What the walk asks for next.
pub enum ScanView {
    /// The entries of this directory.
    ListDir(Seq<char>),
    /// The text of this file.
    ReadFile(Seq<char>),
    /// Nothing: the walk is over, with the number of artifacts loaded, or
    /// with an error if anything failed.
    Finished(Result<nat, Failure>),
}

/// The error of a walk in which something failed.
pub open spec fn load_failed() -> Failure {
    (ErrorKind::LoadFailed, "ERROR: some files failed to load"@)
}

/// What a level that is complete hands to the level above it.
pub open spec fn outcome(f: FrameView) -> Result<nat, Failure> {
    if f.error {
        Err(load_failed())
    } else {
        Ok(f.num_loaded)
    }
}

/// A level after a directory below it is complete: the artifacts of the
/// directory count for the level too, and its failure is one of the level.
pub open spec fn absorbed(f: FrameView, below: Result<nat, Failure>) -> FrameView {
    match below {
        Ok(n) => FrameView { files: f.files, dirs: f.dirs, num_loaded: f.num_loaded + n, error: f.error },
        Err(_) => FrameView { files: f.files, dirs: f.dirs, num_loaded: f.num_loaded, error: true },
    }
}

/// The levels, the directories visited, and the next request of a walk.
pub struct Settled {
    pub frames: Seq<FrameView>,
    pub visited: Seq<Seq<char>>,
    pub request: ScanView,
}

/// The levels with the innermost replaced.
pub open spec fn with_top(frames: Seq<FrameView>, top: FrameView) -> Seq<FrameView> {
    frames.drop_last().push(top)
}

/// The next request of a walk with the levels `frames`, innermost last.
/// A level first has its files read, one by one. Then, if and only if it has
/// loaded an artifact, its directories are listed, one by one, but for those
/// that were visited before; a directory counts as visited from the moment
/// it is asked for. A level with nothing left is complete and hands its
/// outcome to the level above; the outcome of the outermost is that of the
/// walk.
pub open spec fn settle(frames: Seq<FrameView>, visited: Seq<Seq<char>>) -> Settled
    decreases frames.len(), (if frames.len() > 0 { frames.last().dirs.len() } else { 0 }),
{
    if frames.len() == 0 {
        Settled { frames, visited, request: ScanView::Finished(Ok(0)) }
    } else {
        let top = frames.last();
        if top.files.len() > 0 {
            Settled { frames, visited, request: ScanView::ReadFile(top.files[0]) }
        } else if top.num_loaded > 0 && top.dirs.len() > 0 {
            let d = top.dirs[0];
            let rest = with_top(
                frames,
                FrameView {
                    files: top.files,
                    dirs: top.dirs.drop_first(),
                    num_loaded: top.num_loaded,
                    error: top.error,
                },
            );
            if visited.contains(d) {
                settle(rest, visited)
            } else {
                Settled { frames: rest, visited: visited.push(d), request: ScanView::ListDir(d) }
            }
        } else if frames.len() == 1 {
            Settled { frames: Seq::empty(), visited, request: ScanView::Finished(outcome(top)) }
        } else {
            let above = frames.drop_last();
            settle(with_top(above, absorbed(above.last(), outcome(top))), visited)
        }
    }
}

/// The number of artifacts that the levels have loaded between them.
pub open spec fn total_loaded(frames: Seq<FrameView>) -> nat
    decreases frames.len(),
{
    if frames.len() == 0 {
        0
    } else {
        total_loaded(frames.drop_last()) + frames.last().num_loaded
    }
}

/// What the levels have loaded once the innermost is replaced.
pub proof fn lemma_total_with_top(frames: Seq<FrameView>, top: FrameView)
    requires
        frames.len() > 0,
    ensures
        total_loaded(with_top(frames, top)) == total_loaded(frames.drop_last()) + top.num_loaded,
{
    assert(with_top(frames, top).drop_last() =~= frames.drop_last());
}

/// Settling never adds to what the levels have loaded.
pub proof fn lemma_settle_total(frames: Seq<FrameView>, visited: Seq<Seq<char>>)
    ensures
        total_loaded(settle(frames, visited).frames) <= total_loaded(frames),
    decreases frames.len(), (if frames.len() > 0 { frames.last().dirs.len() } else { 0 }),
{
    if frames.len() > 0 {
        let top = frames.last();
        if top.files.len() > 0 {
        } else if top.num_loaded > 0 && top.dirs.len() > 0 {
            let rest = with_top(
                frames,
                FrameView {
                    files: top.files,
                    dirs: top.dirs.drop_first(),
                    num_loaded: top.num_loaded,
                    error: top.error,
                },
            );
            lemma_total_with_top(frames, rest.last());
            if visited.contains(top.dirs[0]) {
                lemma_settle_total(rest, visited);
            }
        } else if frames.len() == 1 {
            assert(total_loaded(Seq::<FrameView>::empty()) == 0);
        } else {
            let above = frames.drop_last();
            let next = with_top(above, absorbed(above.last(), outcome(top)));
            lemma_total_with_top(above, next.last());
            lemma_settle_total(next, visited);
            assert(total_loaded(frames) == total_loaded(above) + top.num_loaded);
            assert(total_loaded(above) == total_loaded(above.drop_last())
                + above.last().num_loaded);
        }
    }
}

/// A walk that asks for a file has a level with that file to come, and a
/// walk that is over has no level.
pub proof fn lemma_settle_shape(frames: Seq<FrameView>, visited: Seq<Seq<char>>)
    ensures
        settle(frames, visited).request is ReadFile ==> settle(frames, visited).frames.len() > 0
            && settle(frames, visited).frames.last().files.len() > 0,
        settle(frames, visited).request is Finished ==> settle(frames, visited).frames.len() == 0,
    decreases frames.len(), (if frames.len() > 0 { frames.last().dirs.len() } else { 0 }),
{
    if frames.len() > 0 {
        let top = frames.last();
        if top.files.len() > 0 {
        } else if top.num_loaded > 0 && top.dirs.len() > 0 {
            let rest = with_top(
                frames,
                FrameView {
                    files: top.files,
                    dirs: top.dirs.drop_first(),
                    num_loaded: top.num_loaded,
                    error: top.error,
                },
            );
            if visited.contains(top.dirs[0]) {
                lemma_settle_shape(rest, visited);
            }
        } else if frames.len() == 1 {
        } else {
            let above = frames.drop_last();
            lemma_settle_shape(with_top(above, absorbed(above.last(), outcome(top))), visited);
        }
    }
}

/// A level that has no file to come and has loaded nothing is complete: none
/// of its directories is asked for, whatever they are. Its outcome goes to
/// the level above, or ends the walk.
pub proof fn lemma_nothing_loaded_no_descent(frames: Seq<FrameView>, visited: Seq<Seq<char>>)
    requires
        frames.len() > 0,
        frames.last().files.len() == 0,
        frames.last().num_loaded == 0,
    ensures
        settle(frames, visited) == if frames.len() == 1 {
            Settled {
                frames: Seq::empty(),
                visited,
                request: ScanView::Finished(outcome(frames.last())),
            }
        } else {
            settle(
                with_top(
                    frames.drop_last(),
                    absorbed(frames.drop_last().last(), outcome(frames.last())),
                ),
                visited,
            )
        },
{
}

/// A directory whose listing holds no file that declares artifacts is
/// complete as soon as it is listed: none of its directories is asked for.
pub proof fn lemma_listing_without_files(
    frames: Seq<FrameView>,
    entries: Seq<DirEntry>,
    visited: Seq<Seq<char>>,
)
    requires
        listed_files(entries).len() == 0,
    ensures
        settle(frames.push(frame_of(entries)), visited) == if frames.len() == 0 {
            Settled {
                frames: Seq::empty(),
                visited,
                request: ScanView::Finished(outcome(frame_of(entries))),
            }
        } else {
            settle(with_top(frames, absorbed(frames.last(), outcome(frame_of(entries)))), visited)
        },
{
    let pushed = frames.push(frame_of(entries));
    assert(pushed.drop_last() =~= frames);
    lemma_nothing_loaded_no_descent(pushed, visited);
}

/// A level that has loaded an artifact and has no file to come asks for its
/// next directory, unless that one was visited; then it goes on to the one
/// after it.
pub proof fn lemma_loaded_descends(frames: Seq<FrameView>, visited: Seq<Seq<char>>)
    requires
        frames.len() > 0,
        frames.last().files.len() == 0,
        frames.last().num_loaded > 0,
        frames.last().dirs.len() > 0,
    ensures
        ({
            let top = frames.last();
            let rest = with_top(
                frames,
                FrameView {
                    files: top.files,
                    dirs: top.dirs.drop_first(),
                    num_loaded: top.num_loaded,
                    error: top.error,
                },
            );
            settle(frames, visited) == if visited.contains(top.dirs[0]) {
                settle(rest, visited)
            } else {
                Settled {
                    frames: rest,
                    visited: visited.push(top.dirs[0]),
                    request: ScanView::ListDir(top.dirs[0]),
                }
            }
        }),
{
}

/// A walk asks only for a directory that was not visited, and the directory
/// counts as visited from then on; no other request visits anything.
pub proof fn lemma_settle_visits_once(frames: Seq<FrameView>, visited: Seq<Seq<char>>)
    ensures
        match settle(frames, visited).request {
            ScanView::ListDir(d) => !visited.contains(d) && settle(frames, visited).visited
                == visited.push(d),
            _ => settle(frames, visited).visited == visited,
        },
    decreases frames.len(), (if frames.len() > 0 { frames.last().dirs.len() } else { 0 }),
{
    if frames.len() > 0 {
        let top = frames.last();
        if top.files.len() > 0 {
        } else if top.num_loaded > 0 && top.dirs.len() > 0 {
            let rest = with_top(
                frames,
                FrameView {
                    files: top.files,
                    dirs: top.dirs.drop_first(),
                    num_loaded: top.num_loaded,
                    error: top.error,
                },
            );
            if visited.contains(top.dirs[0]) {
                lemma_settle_visits_once(rest, visited);
            }
        } else if frames.len() == 1 {
        } else {
            let above = frames.drop_last();
            lemma_settle_visits_once(
                with_top(above, absorbed(above.last(), outcome(top))),
                visited,
            );
        }
    }
}

/// The views of levels.
pub open spec fn frame_views(frames: Seq<Frame>) -> Seq<FrameView> {
    Seq::new(frames.len(), |i: int| frames[i]@)
}

/// Whether the counters of every level are within its lists.
pub open spec fn frames_in_bounds(frames: Seq<Frame>) -> bool {
    forall|i: int| 0 <= i < frames.len() ==> (#[trigger] frames[i]).in_bounds()
}

/// The errors of a load, each with the path of what failed.
pub open spec fn fault_views(faults: Seq<(String, LoadError)>) -> Seq<(Seq<char>, Failure)> {
    Seq::new(faults.len(), |i: int| (faults[i].0@, faults[i].1@))
}

/// What a walk asks for next.
#[derive(Debug)]
pub enum Scan {
    /// The entries of this directory.
    ListDir(String),
    /// The text of this file.
    ReadFile(String),
    /// Nothing: the walk is over.
    Finished(LoadResult<u64>),
}

impl View for Scan {
    type V = ScanView;

    open spec fn view(&self) -> ScanView {
        match self {
            Scan::ListDir(d) => ScanView::ListDir(d@),
            Scan::ReadFile(f) => ScanView::ReadFile(f@),
            Scan::Finished(Ok(n)) => ScanView::Finished(Ok(*n as nat)),
            Scan::Finished(Err(e)) => ScanView::Finished(Err(e@)),
        }
    }
}

/// Opens the level of a listing, and records the entries of unknown type as
/// errors.
pub(crate) fn open_frame(entries: &Vec<DirEntry>, faults: &mut Vec<(String, LoadError)>) -> (frame: Frame)
    ensures
        frame@ == frame_of(entries@),
        frame.in_bounds(),
        fault_views(final(faults)@) == fault_views(old(faults)@) + listed_faults(entries@),
{
    let mut files: Vec<String> = Vec::new();
    let mut dirs: Vec<String> = Vec::new();
    let mut error = false;
    let ghost faults0 = fault_views(faults@);
    let ghost loadable = |e: DirEntry| is_loadable(e);
    let ghost is_dir = |e: DirEntry| e.kind is Dir;
    let ghost is_unknown = |e: DirEntry| e.kind is Unknown;
    let mut i: usize = 0;
    proof {
        reveal(Seq::filter);
        assert(entries@.take(0) =~= Seq::<DirEntry>::empty());
        assert(views(files@) =~= listed_files(entries@.take(0)));
        assert(views(dirs@) =~= listed_dirs(entries@.take(0)));
        assert(fault_views(faults@) =~= faults0 + listed_faults(entries@.take(0)));
    }
    while i < entries.len()
        invariant
            i <= entries.len(),
            loadable == |e: DirEntry| is_loadable(e),
            is_dir == |e: DirEntry| e.kind is Dir,
            is_unknown == |e: DirEntry| e.kind is Unknown,
            views(files@) == listed_files(entries@.take(i as int)),
            views(dirs@) == listed_dirs(entries@.take(i as int)),
            fault_views(faults@) == faults0 + listed_faults(entries@.take(i as int)),
            error == (listed_faults(entries@.take(i as int)).len() > 0),
        decreases entries.len() - i,
    {
        let entry = &entries[i];
        let ghost before = entries@.take(i as int);
        let ghost after = entries@.take(i + 1);
        proof {
            reveal(Seq::filter);
            assert(after.drop_last() =~= before);
            assert(after.last() == *entry);
        }
        match &entry.kind {
            EntryKind::Dir => {
                proof {
                    lemma_views_push(dirs@, entry.path);
                    assert(after.filter(is_dir) == before.filter(is_dir).push(*entry));
                    assert(paths_of(before.filter(is_dir).push(*entry)) =~= paths_of(
                        before.filter(is_dir),
                    ).push(entry.path@));
                }
                dirs.push(entry.path.clone());
            },
            EntryKind::File => {
                if has_artifact_extension(entry.path.as_str()) {
                    proof {
                        lemma_views_push(files@, entry.path);
                        assert(after.filter(loadable) == before.filter(loadable).push(*entry));
                        assert(paths_of(before.filter(loadable).push(*entry)) =~= paths_of(
                            before.filter(loadable),
                        ).push(entry.path@));
                    }
                    files.push(entry.path.clone());
                }
            },
            EntryKind::Other => {},
            EntryKind::Unknown(reason) => {
                let ghost old_faults = faults@;
                let e = LoadError::new(ErrorKind::Io, reason.clone());
                let owner = entry.path.clone();
                faults.push((owner, e));
                error = true;
                proof {
                    assert(after.filter(is_unknown) == before.filter(is_unknown).push(*entry));
                    assert(fault_views(faults@) =~= fault_views(old_faults).push(
                        unknown_fault(*entry),
                    ));
                    assert(listed_faults(after) =~= listed_faults(before).push(
                        unknown_fault(*entry),
                    ));
                    assert(faults0 + listed_faults(before).push(unknown_fault(*entry)) =~= (faults0
                        + listed_faults(before)).push(unknown_fault(*entry)));
                }
            },
        }
        i += 1;
    }
    assert(entries@.take(entries.len() as int) =~= entries@);
    let frame = Frame { files, next_file: 0, dirs, next_dir: 0, num_loaded: 0, error };
    assert(frame@.files =~= views(files@));
    assert(frame@.dirs =~= views(dirs@));
    frame
}

/// The views of levels with one more level are the views of the levels with
/// one more view.
pub proof fn lemma_frame_views_push(frames: Seq<Frame>, f: Frame)
    ensures
        frame_views(frames.push(f)) == frame_views(frames).push(f@),
{
    assert(frame_views(frames.push(f)) =~= frame_views(frames).push(f@));
}

/// The views of all levels but the innermost.
pub proof fn lemma_frame_views_drop_last(frames: Seq<Frame>)
    requires
        frames.len() > 0,
    ensures
        frame_views(frames.drop_last()) == frame_views(frames).drop_last(),
        frame_views(frames).last() == frames.last()@,
{
    assert(frame_views(frames.drop_last()) =~= frame_views(frames).drop_last());
}

fn load_failed_error() -> (e: LoadError)
    ensures
        e@ == load_failed(),
{
    LoadError::new(ErrorKind::LoadFailed, String::from_str("ERROR: some files failed to load"))
}

/// Finds the next request of a walk (see `settle`).
pub(crate) fn settle_frames(frames: &mut Vec<Frame>, loaded_dirs: &mut StrSet) -> (r: Scan)
    requires
        frames_in_bounds(old(frames)@),
        total_loaded(frame_views(old(frames)@)) <= u64::MAX,
    ensures
        frames_in_bounds(final(frames)@),
        settle(frame_views(old(frames)@), old(loaded_dirs)@) == (Settled {
            frames: frame_views(final(frames)@),
            visited: final(loaded_dirs)@,
            request: r@,
        }),
{
    loop
        invariant
            frames_in_bounds(frames@),
            total_loaded(frame_views(frames@)) <= u64::MAX,
            settle(frame_views(frames@), loaded_dirs@) == settle(
                frame_views(old(frames)@),
                old(loaded_dirs)@,
            ),
        decreases
            frames@.len(),
            (if frames@.len() > 0 {
                frames@.last().dirs@.len() - frames@.last().next_dir
            } else {
                0
            }),
    {
        let ghost all = frames@;
        let ghost levels = frame_views(all);
        let ghost visited = loaded_dirs@;
        let mut top = match frames.pop() {
            None => {
                assert(frame_views(frames@) =~= levels);
                return Scan::Finished(Ok(0));
            },
            Some(t) => t,
        };
        proof {
            lemma_frame_views_drop_last(all);
            assert(top.in_bounds());
            lemma_frame_views_push(frames@, top);
            assert(frames@.push(top) =~= all);
        }
        if top.next_file < top.files.len() {
            let file = top.files[top.next_file].clone();
            frames.push(top);
            return Scan::ReadFile(file);
        } else if top.num_loaded > 0 && top.next_dir < top.dirs.len() {
            let d = top.dirs[top.next_dir].clone();
            let ghost old_top = top@;
            top.next_dir = top.next_dir + 1;
            proof {
                assert(top@.dirs =~= old_top.dirs.drop_first());
                assert(top@.files == old_top.files);
                lemma_frame_views_push(frames@, top);
                lemma_total_with_top(levels, top@);
                assert(total_loaded(levels) == total_loaded(levels.drop_last())
                    + levels.last().num_loaded);
            }
            frames.push(top);
            assert(frame_views(frames@) == with_top(levels, top@));
            let added = loaded_dirs.insert(d.clone());
            if added {
                return Scan::ListDir(d);
            }
        } else {
            let ghost below = outcome(top@);
            match frames.pop() {
                None => {
                    assert(frame_views(frames@) =~= Seq::<FrameView>::empty());
                    if top.error {
                        return Scan::Finished(Err(load_failed_error()));
                    } else {
                        return Scan::Finished(Ok(top.num_loaded));
                    }
                },
                Some(mut parent) => {
                    let ghost above = levels.drop_last();
                    let ghost old_parent = parent@;
                    proof {
                        lemma_frame_views_drop_last(all.drop_last());
                        assert(total_loaded(levels) == total_loaded(above)
                            + levels.last().num_loaded);
                        assert(total_loaded(above) == total_loaded(above.drop_last())
                            + above.last().num_loaded);
                    }
                    if top.error {
                        parent.error = true;
                    } else {
                        parent.num_loaded = parent.num_loaded + top.num_loaded;
                    }
                    proof {
                        assert(parent@ == absorbed(old_parent, below));
                        lemma_frame_views_push(frames@, parent);
                        lemma_total_with_top(above, parent@);
                    }
                    frames.push(parent);
                    assert(frame_views(frames@) == with_top(above, absorbed(above.last(), below)));
                },
            }
        }
    }
}

} // verus!
