//! A load in progress: what has been loaded so far, and the decisions of the
//! walk over a directory and of the load of a path. The session reads no file
//! itself. It asks for a listing or for a text, and is handed the reply.

use std::collections::VecDeque;
use vstd::prelude::*;
use crate::artifact::{Artifact, ArtifactView, Artifacts, Settings, SettingsView, Variables};
use crate::error::{ErrorKind, Failure, LoadError};
use crate::load::{
    artifact_views, lemma_file_outcome_grows, load_file, load_file_outcome, read_view, recorded,
    settings_fragments, variables_fragments, VariablesView,
};
use crate::map::StrMap;
use crate::name::{ArtType, NameSet};
use crate::scan::{
    absorbed, fault_views, frame_of, frame_views, frames_in_bounds, lemma_frame_views_drop_last,
    lemma_listing_without_files, listed_files, outcome,
    lemma_frame_views_push, lemma_settle_shape, lemma_settle_total, lemma_settle_visits_once,
    lemma_total_with_top,
    listed_faults, open_frame, settle, settle_frames, total_loaded, with_top, DirEntry, Frame,
    FrameView, Scan, ScanView, Settled,
};
use crate::strset::StrSet;
use crate::text::{lemma_views_push, views};

verus! {

/// What a session waits for.
#[derive(Clone, Copy, PartialEq, Eq, Debug, Structural)]
pub enum Awaits {
    /// A path to load or a directory to walk.
    Start,
    /// The text of the file that was given as the path to load.
    RootText,
    /// The listing of a directory.
    Listing,
    /// The text of a file of the directory that is walked.
    Text,
    /// The settings, merged with those that the last walk found.
    Settings,
    /// The texts of the artifacts, with their variables filled in.
    Texts,
    /// Nothing: the load is over.
    Done,
}

/// What a path is.
#[derive(Clone, Copy, PartialEq, Eq, Debug, Structural)]
pub enum PathKind {
    File,
    Dir,
    Other,
}

/// What a session is handed.
#[derive(Debug)]
pub enum Event {
    /// The path to load, and what it is.
    Start { path: String, kind: PathKind },
    /// A directory to walk.
    Enter(String),
    /// The entries of the directory that was asked for.
    Listing(Vec<DirEntry>),
    /// The directory that was asked for could not be listed; the reason.
    ListFailed(String),
    /// The text of the file that was asked for.
    Text(String),
    /// The file that was asked for could not be read; the reason.
    ReadFailed(String),
    /// The settings after the merge that was asked for.
    Settings(Settings),
    /// The text of every artifact, in the order of the artifacts, after the
    /// resolution that was asked for.
    Texts(Vec<String>),
    /// The merge or the resolution that was asked for failed; the reason.
    Failed(String),
}

/// What has been loaded, as contracts speak of it.
pub struct Loads {
    pub names: Seq<Seq<char>>,
    pub arts: Seq<ArtifactView>,
    pub settings: Seq<(Seq<char>, SettingsView)>,
    pub variables: Seq<(Seq<char>, VariablesView)>,
}

/// A load in progress.
#[derive(Debug)]
pub struct Session {
    artifacts: Artifacts,
    settings: Settings,
    loaded_settings: Vec<(String, Settings)>,
    loaded_variables: Vec<(String, Variables)>,
    loaded_dirs: StrSet,
    faults: Vec<(String, LoadError)>,
    frames: Vec<Frame>,
    root: String,
    awaits: Awaits,
}

/// What the session waits for once the walk has made a request.
pub open spec fn awaited(request: ScanView) -> Awaits {
    match request {
        ScanView::ListDir(_) => Awaits::Listing,
        ScanView::ReadFile(_) => Awaits::Text,
        ScanView::Finished(_) => Awaits::Start,
    }
}

/// The error of a reply that answers no request.
pub open spec fn unexpected() -> Failure {
    (ErrorKind::Unexpected, "the reply answers no request"@)
}

/// The error of a directory that could not be listed.
pub open spec fn list_failed(reason: Seq<char>) -> Failure {
    (ErrorKind::Io, "E001: "@ + reason)
}

/// A level after one of its files is dealt with: the file is no longer to
/// come; what it loaded counts, and its failure is one of the level.
pub open spec fn after_file(top: FrameView, loaded: Option<nat>) -> FrameView {
    FrameView {
        files: top.files.drop_first(),
        dirs: top.dirs,
        num_loaded: match loaded {
            Some(n) => top.num_loaded + n,
            None => top.num_loaded,
        },
        error: top.error || loaded is None,
    }
}

/// What a reply holds of a file: its text, or the reason for which it could
/// not be read.
pub open spec fn read_of(event: Event) -> Result<Seq<char>, Seq<char>> {
    match event {
        Event::Text(text) => Ok(text@),
        Event::ReadFailed(reason) => Err(reason@),
        _ => Err(Seq::empty()),
    }
}

/// Whether a reply holds what reading a file gave.
pub open spec fn is_read(event: Event) -> bool {
    event is Text || event is ReadFailed
}

/// What is loaded once the file `file` is loaded with what reading it gave.
pub open spec fn file_loads(file: Seq<char>, read: Result<Seq<char>, Seq<char>>, before: Loads) -> Loads {
    let o = load_file_outcome(file, read, before.names, before.arts);
    Loads {
        names: o.names,
        arts: o.arts,
        settings: before.settings + recorded(file, o.settings),
        variables: before.variables + recorded(file, o.variables),
    }
}

/// The number of artifacts that loading the file adds, where it succeeds.
pub open spec fn file_count(file: Seq<char>, read: Result<Seq<char>, Seq<char>>, before: Loads) -> Option<
    nat,
> {
    match load_file_outcome(file, read, before.names, before.arts).result {
        Ok(n) => Some(n),
        Err(_) => None,
    }
}

/// The errors with that of loading the file, where it fails: the error names
/// the file and is recorded under its path.
pub open spec fn file_faults(
    file: Seq<char>,
    read: Result<Seq<char>, Seq<char>>,
    before: Loads,
    faults: Seq<(Seq<char>, Failure)>,
) -> Seq<(Seq<char>, Failure)> {
    match load_file_outcome(file, read, before.names, before.arts).result {
        Ok(_) => faults,
        Err(f) => faults.push((file, f)),
    }
}

impl Session {
    /// The levels of the walk, innermost last.
    pub closed spec fn levels(&self) -> Seq<FrameView> {
        frame_views(self.frames@)
    }

    /// The directories that were asked for, in that order.
    pub closed spec fn visited(&self) -> Seq<Seq<char>> {
        self.loaded_dirs@
    }

    /// What has been loaded.
    pub closed spec fn loads(&self) -> Loads {
        Loads {
            names: self.artifacts.keys(),
            arts: artifact_views(self.artifacts.values()),
            settings: settings_fragments(self.loaded_settings@),
            variables: variables_fragments(self.loaded_variables@),
        }
    }

    /// The errors of files and entries, each with its path.
    pub closed spec fn fault_list(&self) -> Seq<(Seq<char>, Failure)> {
        fault_views(self.faults@)
    }

    /// The merged settings.
    pub closed spec fn merged(&self) -> SettingsView {
        self.settings@
    }

    /// The path that is being loaded: the file, or the directory that is
    /// walked.
    pub closed spec fn root(&self) -> Seq<char> {
        self.root@
    }

    pub closed spec fn awaiting(&self) -> Awaits {
        self.awaits
    }

    /// The session is consistent: the levels have loaded no more artifacts
    /// than there are, and there are levels only during a walk.
    pub closed spec fn wf(&self) -> bool {
        &&& frames_in_bounds(self.frames@)
        &&& total_loaded(frame_views(self.frames@)) <= self.artifacts.keys().len()
        &&& self.awaits == Awaits::Text ==> self.frames@.len() > 0
            && frame_views(self.frames@).last().files.len() > 0
        &&& self.awaits != Awaits::Text && self.awaits != Awaits::Listing ==> self.frames@.len()
            == 0
    }

    /// A session in which nothing is loaded.
    pub fn new() -> (s: Session)
        ensures
            s.wf(),
            s.awaiting() == Awaits::Start,
            s.levels().len() == 0,
            s.visited().len() == 0,
            s.loads().names.len() == 0,
            s.loads().arts.len() == 0,
            s.loads().settings.len() == 0,
            s.loads().variables.len() == 0,
            s.fault_list().len() == 0,
            s.root().len() == 0,
            s.merged() == (SettingsView {
                disabled: false,
                paths: Seq::empty(),
                repo_names: default_repo_names_spec(),
                color: true,
            }),
    {
        let settings = Settings {
            disabled: false,
            paths: VecDeque::new(),
            repo_names: default_repo_names(),
            color: true,
        };
        assert(views(settings.paths@) =~= Seq::<Seq<char>>::empty());
        let s = Session {
            artifacts: StrMap::new(),
            settings,
            loaded_settings: Vec::new(),
            loaded_variables: Vec::new(),
            loaded_dirs: StrSet::new(),
            faults: Vec::new(),
            frames: Vec::new(),
            root: String::new(),
            awaits: Awaits::Start,
        };
        assert(frame_views(s.frames@) =~= Seq::<FrameView>::empty());
        s
    }

    pub fn awaits(&self) -> (a: Awaits)
        ensures
            a == self.awaiting(),
    {
        self.awaits
    }

    /// The artifacts loaded so far.
    pub fn artifacts(&self) -> (a: &Artifacts)
        ensures
            a.keys() == self.loads().names,
            artifact_views(a.values()) == self.loads().arts,
    {
        &self.artifacts
    }

    /// The merged settings.
    pub fn settings(&self) -> (s: &Settings)
        ensures
            s@ == self.merged(),
    {
        &self.settings
    }

    /// The settings that the files declared, each with the path of its file.
    pub fn loaded_settings(&self) -> (v: &Vec<(String, Settings)>)
        ensures
            settings_fragments(v@) == self.loads().settings,
    {
        &self.loaded_settings
    }

    /// The variables that the files declared, each with the path of its file.
    pub fn loaded_variables(&self) -> (v: &Vec<(String, Variables)>)
        ensures
            variables_fragments(v@) == self.loads().variables,
    {
        &self.loaded_variables
    }

    /// The errors of files and entries so far, each with its path.
    pub fn faults(&self) -> (v: &Vec<(String, LoadError)>)
        ensures
            fault_views(v@) == self.fault_list(),
    {
        &self.faults
    }

    /// The directories that were asked for so far.
    pub fn loaded_dirs(&self) -> (d: &StrSet)
        ensures
            d@ == self.visited(),
    {
        &self.loaded_dirs
    }

    /// The artifacts and the settings of the session.
    pub fn into_parts(self) -> (parts: (Artifacts, Settings))
        ensures
            parts.0.keys() == self.loads().names,
            artifact_views(parts.0.values()) == self.loads().arts,
            parts.1@ == self.merged(),
    {
        (self.artifacts, self.settings)
    }
}

/// The names of the directories that mark the root of a repository, unless
/// settings name others.
pub open spec fn default_repo_names_spec() -> Seq<Seq<char>> {
    seq![".git"@, ".hg"@, ".svn"@]
}

/// The default names of the directories that mark the root of a repository.
pub fn default_repo_names() -> (names: StrSet)
    ensures
        names@ == default_repo_names_spec(),
{
    let mut repo_names = StrSet::new();
    proof {
        reveal_strlit(".git");
        reveal_strlit(".hg");
        reveal_strlit(".svn");
        assert(".git"@.len() == 4 && ".hg"@.len() == 3 && ".svn"@[1] == 's' && ".git"@[1] == 'g');
    }
    repo_names.insert(String::from_str(".git"));
    assert(repo_names@ =~= seq![".git"@]);
    repo_names.insert(String::from_str(".hg"));
    assert(repo_names@ =~= seq![".git"@, ".hg"@]);
    repo_names.insert(String::from_str(".svn"));
    assert(repo_names@ =~= seq![".git"@, ".hg"@, ".svn"@]);
    repo_names
}

/// Whether nothing of the session changed but what it waits for.
pub open spec fn same_but_awaits(pre: Session, post: Session) -> bool {
    &&& post.levels() == pre.levels()
    &&& post.visited() == pre.visited()
    &&& post.loads() == pre.loads()
    &&& post.fault_list() == pre.fault_list()
}

/// Whether a reply answers what a walk waits for.
pub open spec fn fits_walk(awaiting: Awaits, event: Event) -> bool {
    match event {
        Event::Enter(_) => awaiting == Awaits::Start,
        Event::Listing(_) => awaiting == Awaits::Listing,
        Event::ListFailed(_) => awaiting == Awaits::Listing,
        Event::Text(_) => awaiting == Awaits::Text,
        Event::ReadFailed(_) => awaiting == Awaits::Text,
        _ => false,
    }
}

/// The walk after a reply that answers its request. A directory that is
/// entered is asked for. A listing opens a level. A directory that cannot be
/// listed is a failure of the level above it, and of the walk if it is the
/// directory walked. A text is loaded as the file that was asked for, and
/// what it loads counts for its level; a file that cannot be loaded or read
/// is a failure of its level. Then the walk settles.
pub open spec fn stepped(pre: Session, event: Event) -> Settled {
    let levels = pre.levels();
    let visited = pre.visited();
    match event {
        Event::Enter(dir) => Settled { frames: levels, visited, request: ScanView::ListDir(dir@) },
        Event::Listing(entries) => settle(levels.push(frame_of(entries@)), visited),
        Event::ListFailed(reason) => if levels.len() == 0 {
            Settled {
                frames: levels,
                visited,
                request: ScanView::Finished(Err(list_failed(reason@))),
            }
        } else {
            settle(with_top(levels, absorbed(levels.last(), Err(list_failed(reason@)))), visited)
        },
        Event::Text(_) | Event::ReadFailed(_) => settle(
            with_top(
                levels,
                after_file(
                    levels.last(),
                    file_count(levels.last().files[0], read_of(event), pre.loads()),
                ),
            ),
            visited,
        ),
        _ => Settled { frames: levels, visited, request: ScanView::Finished(Err(unexpected())) },
    }
}

/// What is loaded after a reply that answers the request of a walk: what
/// was read is loaded as the file that was asked for, and nothing else loads
/// anything.
pub open spec fn stepped_loads(pre: Session, event: Event) -> Loads {
    if is_read(event) {
        file_loads(pre.levels().last().files[0], read_of(event), pre.loads())
    } else {
        pre.loads()
    }
}

/// The errors after a reply that answers the request of a walk: the entries
/// of unknown type of a listing are recorded, and so is a file that cannot be
/// loaded or read, with the error that names it.
pub open spec fn stepped_faults(pre: Session, event: Event) -> Seq<(Seq<char>, Failure)> {
    match event {
        Event::Listing(entries) => pre.fault_list() + listed_faults(entries@),
        Event::Text(_) | Event::ReadFailed(_) => file_faults(
            pre.levels().last().files[0],
            read_of(event),
            pre.loads(),
            pre.fault_list(),
        ),
        _ => pre.fault_list(),
    }
}

/// What one reply does to a walk: where it answers the request, the walk
/// goes on as `stepped` says, and the session waits for what is asked next.
/// A reply that answers no request changes nothing, and is an error.
pub open spec fn scan_step(pre: Session, event: Event, post: Session, request: ScanView) -> bool {
    if fits_walk(pre.awaiting(), event) {
        &&& stepped(pre, event) == (Settled {
            frames: post.levels(),
            visited: post.visited(),
            request,
        })
        &&& post.awaiting() == awaited(request)
        &&& post.loads() == stepped_loads(pre, event)
        &&& post.fault_list() == stepped_faults(pre, event)
    } else {
        &&& request == ScanView::Finished(Err(unexpected()))
        &&& post.awaiting() == pre.awaiting()
        &&& same_but_awaits(pre, post)
    }
}

fn unexpected_error() -> (e: LoadError)
    ensures
        e@ == unexpected(),
{
    LoadError::new(ErrorKind::Unexpected, String::from_str("the reply answers no request"))
}

/// Loads the file that the walk asked for, with what reading it gave, and
/// notes the outcome in its level.
fn file_reply(session: &mut Session, read: Result<String, String>)
    requires
        old(session).wf(),
        old(session).awaits == Awaits::Text,
    ensures
        frames_in_bounds(final(session).frames@),
        total_loaded(final(session).levels()) <= final(session).loads().names.len(),
        final(session).levels() == with_top(
            old(session).levels(),
            after_file(
                old(session).levels().last(),
                file_count(
                    old(session).levels().last().files[0],
                    read_view(read),
                    old(session).loads(),
                ),
            ),
        ),
        final(session).loads() == file_loads(
            old(session).levels().last().files[0],
            read_view(read),
            old(session).loads(),
        ),
        final(session).fault_list() == file_faults(
            old(session).levels().last().files[0],
            read_view(read),
            old(session).loads(),
            old(session).fault_list(),
        ),
        final(session).visited() == old(session).visited(),
        final(session).merged() == old(session).merged(),
        final(session).root() == old(session).root(),
        final(session).awaits == old(session).awaits,
{
    let ghost pre = *session;
    let ghost levels = session.levels();
    let n_arts = session.artifacts.len();
    let mut top = match session.frames.pop() {
        None => {
            return ;
        },
        Some(t) => t,
    };
    proof {
        lemma_frame_views_drop_last(pre.frames@);
        assert(total_loaded(levels) == total_loaded(levels.drop_last())
            + levels.last().num_loaded);
        lemma_file_outcome_grows(
            top@.files[0],
            read_view(read),
            pre.loads().names,
            pre.loads().arts,
        );
    }
    let ghost old_top = top@;
    assert(top.in_bounds() && old_top.files.len() > 0);
    let n_files = top.files.len();
    assert(top.next_file < n_files);
    let file = top.files[top.next_file].clone();
    assert(file@ == old_top.files[0]);
    let loaded = load_file(
        file.as_str(),
        read,
        &mut session.artifacts,
        &mut session.loaded_settings,
        &mut session.loaded_variables,
    );
    let n_after = session.artifacts.len();
    match loaded {
        Ok(n) => {
            top.num_loaded = top.num_loaded + n;
        },
        Err(e) => {
            top.error = true;
            let ghost before = session.faults@;
            session.faults.push((file, e));
            assert(fault_views(session.faults@) =~= fault_views(before).push((file@, e@)));
        },
    }
    top.next_file = top.next_file + 1;
    proof {
        assert(top@.files =~= old_top.files.drop_first());
        lemma_frame_views_push(session.frames@, top);
        lemma_total_with_top(levels, top@);
    }
    session.frames.push(top);
}

/// Takes the walk over a directory one step further: hands the session the
/// reply to what the walk last asked for, and returns what it asks for next
/// (see `scan_step`). The merged settings and the path that is loaded stay
/// as they are.
pub fn load_dir(session: &mut Session, event: Event) -> (res: Scan)
    requires
        old(session).wf(),
    ensures
        final(session).wf(),
        final(session).merged() == old(session).merged(),
        final(session).root() == old(session).root(),
        scan_step(*old(session), event, *final(session), res@),
{
    let ghost pre = *session;
    let ghost levels = session.levels();
    let n_arts = session.artifacts.len();
    match event {
        Event::Enter(dir) => {
            if session.awaits != Awaits::Start {
                return Scan::Finished(Err(unexpected_error()));
            }
            session.awaits = Awaits::Listing;
            return Scan::ListDir(dir);
        },
        Event::Listing(entries) => {
            if session.awaits != Awaits::Listing {
                return Scan::Finished(Err(unexpected_error()));
            }
            let frame = open_frame(&entries, &mut session.faults);
            proof {
                lemma_frame_views_push(session.frames@, frame);
                assert(frame_views(session.frames@.push(frame)).drop_last() =~= levels);
            }
            session.frames.push(frame);
        },
        Event::ListFailed(reason) => {
            if session.awaits != Awaits::Listing {
                return Scan::Finished(Err(unexpected_error()));
            }
            match session.frames.pop() {
                None => {
                    session.awaits = Awaits::Start;
                    let mut desc = String::from_str("E001: ");
                    desc.append(reason.as_str());
                    assert(frame_views(session.frames@) =~= levels);
                    return Scan::Finished(Err(LoadError::new(ErrorKind::Io, desc)));
                },
                Some(mut top) => {
                    proof {
                        lemma_frame_views_drop_last(pre.frames@);
                    }
                    top.error = true;
                    proof {
                        lemma_frame_views_push(session.frames@, top);
                        lemma_total_with_top(levels, top@);
                        assert(total_loaded(levels) == total_loaded(levels.drop_last())
                            + levels.last().num_loaded);
                    }
                    session.frames.push(top);
                },
            }
        },
        Event::Text(text) => {
            if session.awaits != Awaits::Text {
                return Scan::Finished(Err(unexpected_error()));
            }
            file_reply(session, Ok(text));
        },
        Event::ReadFailed(reason) => {
            if session.awaits != Awaits::Text {
                return Scan::Finished(Err(unexpected_error()));
            }
            file_reply(session, Err(reason));
        },
        _ => {
            return Scan::Finished(Err(unexpected_error()));
        },
    }
    proof {
        lemma_settle_total(frame_views(session.frames@), session.loaded_dirs@);
        lemma_settle_shape(frame_views(session.frames@), session.loaded_dirs@);
    }
    let n_now = session.artifacts.len();
    let r = settle_frames(&mut session.frames, &mut session.loaded_dirs);
    session.awaits =
    match &r {
        Scan::ListDir(_) => Awaits::Listing,
        Scan::ReadFile(_) => Awaits::Text,
        Scan::Finished(_) => Awaits::Start,
    };
    r
}

/// What a load asks for next.
#[derive(Debug)]
pub enum Action {
    /// The entries of this directory.
    ListDir(String),
    /// The text of this file.
    ReadFile(String),
    /// The settings, merged with those that the last walk found.
    ResolveSettings,
    /// The texts of the artifacts, with the variables resolved and filled in.
    ResolveVariables,
    /// Nothing: everything is loaded.
    Loaded,
    /// Nothing: the load failed.
    Failed(LoadError),
}

/// A request of a load as contracts speak of it.
pub enum ActionView {
    ListDir(Seq<char>),
    ReadFile(Seq<char>),
    ResolveSettings,
    ResolveVariables,
    Loaded,
    Failed(Failure),
}

impl View for Action {
    type V = ActionView;

    open spec fn view(&self) -> ActionView {
        match self {
            Action::ListDir(d) => ActionView::ListDir(d@),
            Action::ReadFile(f) => ActionView::ReadFile(f@),
            Action::ResolveSettings => ActionView::ResolveSettings,
            Action::ResolveVariables => ActionView::ResolveVariables,
            Action::Loaded => ActionView::Loaded,
            Action::Failed(e) => ActionView::Failed(e@),
        }
    }
}

/// The first of the directories `paths` that was not visited, with the
/// directories behind it.
pub open spec fn next_root(paths: Seq<Seq<char>>, visited: Seq<Seq<char>>) -> (
    Seq<Seq<char>>,
    Option<Seq<char>>,
)
    decreases paths.len(),
{
    if paths.len() == 0 {
        (paths, None)
    } else if visited.contains(paths[0]) {
        next_root(paths.drop_first(), visited)
    } else {
        (paths.drop_first(), Some(paths[0]))
    }
}

/// The settings with other directories to load.
pub open spec fn with_paths(base: SettingsView, paths: Seq<Seq<char>>) -> SettingsView {
    SettingsView { disabled: base.disabled, paths, repo_names: base.repo_names, color: base.color }
}

/// What is loaded, without the settings that files declared.
pub open spec fn without_settings(loads: Loads) -> Loads {
    Loads {
        names: loads.names,
        arts: loads.arts,
        settings: Seq::empty(),
        variables: loads.variables,
    }
}

/// Whether the load went on with the next directory of the settings `base`:
/// the first that was not visited is taken off the queue with those before
/// it, counts as visited, and is asked for; the settings that files declared
/// are forgotten, as they are merged by now. With no such directory, the
/// queue is empty and the texts of the artifacts are asked for.
pub open spec fn continued(base: SettingsView, pre: Session, post: Session, action: ActionView) -> bool {
    let (rest, dir) = next_root(base.paths, pre.visited());
    &&& post.merged() == with_paths(base, rest)
    &&& post.levels() == pre.levels()
    &&& post.fault_list() == pre.fault_list()
    &&& match dir {
        Some(d) => {
            &&& action == ActionView::ListDir(d)
            &&& post.awaiting() == Awaits::Listing
            &&& post.visited() == pre.visited().push(d)
            &&& post.root() == d
            &&& post.loads() == without_settings(pre.loads())
        },
        None => {
            &&& action == ActionView::ResolveVariables
            &&& post.awaiting() == Awaits::Texts
            &&& post.visited() == pre.visited()
            &&& post.root() == pre.root()
            &&& post.loads() == pre.loads()
        },
    }
}

/// The error of a path that is neither a file nor a directory.
pub open spec fn invalid_path(path: Seq<char>) -> Failure {
    (ErrorKind::InvalidPath, "File is not valid type: "@ + path)
}

/// The error of a directory whose walk failed with `f`.
pub open spec fn root_failed(root: Seq<char>, f: Failure) -> Failure {
    (f.0, "Error loading <"@ + root + ">: "@ + f.1)
}

/// The error of a list of texts that does not match the artifacts.
pub open spec fn texts_mismatch() -> Failure {
    (ErrorKind::Resolve, "the texts do not match the artifacts"@)
}

/// The artifacts with the texts `texts`, one for each.
pub open spec fn with_texts(arts: Seq<ArtifactView>, texts: Seq<Seq<char>>) -> Seq<ArtifactView> {
    Seq::new(
        arts.len(),
        |i: int|
            ArtifactView {
                ty: arts[i].ty,
                path: arts[i].path,
                text: texts[i],
                refs: arts[i].refs,
                partof: arts[i].partof,
                loc: arts[i].loc,
                parts: arts[i].parts,
                completed: arts[i].completed,
                tested: arts[i].tested,
            },
    )
}

/// Whether nothing of the session changed but what it waits for and what it
/// has loaded.
pub open spec fn same_walk(pre: Session, post: Session) -> bool {
    &&& post.levels() == pre.levels()
    &&& post.visited() == pre.visited()
    &&& post.fault_list() == pre.fault_list()
    &&& post.merged() == pre.merged()
    &&& post.root() == pre.root()
}

/// What one reply does to a load.
///
/// At the start, a file is asked for, a directory is put on the queue of the
/// settings and the load goes on with the queue, and any other path is an
/// error. The file is loaded with what reading it gave; then the settings
/// are to be merged, unless the file failed: then the load fails with the
/// error of the file, which names it.
/// During a walk, a reply takes the walk one step further; when the walk is
/// over, the settings are to be merged, unless it failed: then the load
/// fails. With the merged settings the load goes on with the queue. The
/// texts, at last, replace those of the artifacts one for one. A merge or a
/// resolution that failed fails the load, and so does a reply that answers no
/// request.
pub open spec fn load_step(pre: Session, event: Event, post: Session, action: ActionView) -> bool {
    match event {
        Event::Start { path, kind } if pre.awaiting() == Awaits::Start => match kind {
            PathKind::File => {
                &&& action == ActionView::ReadFile(path@)
                &&& post.awaiting() == Awaits::RootText
                &&& post.root() == path@
                &&& post.merged() == pre.merged()
                &&& same_but_awaits(pre, post)
            },
            PathKind::Dir => continued(
                with_paths(pre.merged(), pre.merged().paths.push(path@)),
                pre,
                post,
                action,
            ),
            PathKind::Other => {
                &&& action == ActionView::Failed(invalid_path(path@))
                &&& post.awaiting() == Awaits::Done
                &&& same_walk(pre, post)
                &&& post.loads() == pre.loads()
            },
        },
        Event::Settings(s) if pre.awaiting() == Awaits::Settings => continued(s@, pre, post, action),
        Event::Texts(texts) if pre.awaiting() == Awaits::Texts => {
            &&& same_walk(pre, post)
            &&& post.awaiting() == Awaits::Done
            &&& if texts@.len() == pre.loads().names.len() {
                &&& action == ActionView::Loaded
                &&& post.loads() == (Loads {
                    names: pre.loads().names,
                    arts: with_texts(pre.loads().arts, views(texts@)),
                    settings: pre.loads().settings,
                    variables: pre.loads().variables,
                })
            } else {
                &&& action == ActionView::Failed(texts_mismatch())
                &&& post.loads() == pre.loads()
            }
        },
        Event::Failed(reason) if pre.awaiting() == Awaits::Settings || pre.awaiting()
            == Awaits::Texts => {
            &&& action == ActionView::Failed((ErrorKind::Resolve, reason@))
            &&& post.awaiting() == Awaits::Done
            &&& same_walk(pre, post)
            &&& post.loads() == pre.loads()
        },
        _ => if pre.awaiting() == Awaits::RootText && is_read(event) {
            &&& same_walk(pre, post)
            &&& post.loads() == file_loads(pre.root(), read_of(event), pre.loads())
            &&& match load_file_outcome(
                pre.root(),
                read_of(event),
                pre.loads().names,
                pre.loads().arts,
            ).result {
                Ok(_) => action == ActionView::ResolveSettings && post.awaiting()
                    == Awaits::Settings,
                Err(f) => action == ActionView::Failed(f) && post.awaiting() == Awaits::Done,
            }
        } else if pre.awaiting() != Awaits::Start && fits_walk(pre.awaiting(), event) {
            let s = stepped(pre, event);
            &&& post.levels() == s.frames
            &&& post.visited() == s.visited
            &&& post.loads() == stepped_loads(pre, event)
            &&& post.fault_list() == stepped_faults(pre, event)
            &&& post.merged() == pre.merged()
            &&& post.root() == pre.root()
            &&& match s.request {
                ScanView::ListDir(d) => action == ActionView::ListDir(d) && post.awaiting()
                    == Awaits::Listing,
                ScanView::ReadFile(f) => action == ActionView::ReadFile(f) && post.awaiting()
                    == Awaits::Text,
                ScanView::Finished(Ok(_)) => action == ActionView::ResolveSettings
                    && post.awaiting() == Awaits::Settings,
                ScanView::Finished(Err(f)) => action == ActionView::Failed(
                    root_failed(pre.root(), f),
                ) && post.awaiting() == Awaits::Done,
            }
        } else {
            &&& action == ActionView::Failed(unexpected())
            &&& post.awaiting() == pre.awaiting()
            &&& same_walk(pre, post)
            &&& post.loads() == pre.loads()
        },
    }
}

fn fits(awaits: Awaits, event: &Event) -> (r: bool)
    ensures
        r == fits_walk(awaits, *event),
{
    match event {
        Event::Enter(_) => awaits == Awaits::Start,
        Event::Listing(_) => awaits == Awaits::Listing,
        Event::ListFailed(_) => awaits == Awaits::Listing,
        Event::Text(_) => awaits == Awaits::Text,
        Event::ReadFailed(_) => awaits == Awaits::Text,
        _ => false,
    }
}

/// Goes on with the queue of directories (see `continued`).
fn next_directory(session: &mut Session) -> (action: Action)
    requires
        old(session).wf(),
        old(session).awaiting() != Awaits::Text,
        old(session).awaiting() != Awaits::Listing,
    ensures
        final(session).wf(),
        continued(old(session).merged(), *old(session), *final(session), action@),
{
    let ghost base = session.merged();
    loop
        invariant
            session.wf(),
            session.frames@.len() == 0,
            session.levels() == old(session).levels(),
            session.fault_list() == old(session).fault_list(),
            session.visited() == old(session).visited(),
            session.root() == old(session).root(),
            session.loads() == old(session).loads(),
            base == old(session).merged(),
            session.merged() == with_paths(base, session.merged().paths),
            next_root(session.merged().paths, session.visited()) == next_root(
                base.paths,
                old(session).visited(),
            ),
        decreases session.settings.paths@.len(),
    {
        let ghost paths = views(session.settings.paths@);
        match session.settings.paths.pop_front() {
            None => {
                session.awaits = Awaits::Texts;
                return Action::ResolveVariables;
            },
            Some(dir) => {
                assert(views(session.settings.paths@) =~= paths.drop_first());
                assert(dir@ == paths[0]);
                if !session.loaded_dirs.contains(dir.as_str()) {
                    session.loaded_settings.clear();
                    session.loaded_dirs.insert(dir.clone());
                    session.root = dir.clone();
                    session.awaits = Awaits::Listing;
                    assert(settings_fragments(session.loaded_settings@) =~= Seq::<
                        (Seq<char>, SettingsView),
                    >::empty());
                    return Action::ListDir(dir);
                }
            },
        }
    }
}

/// An artifact that holds nothing.
fn blank_artifact() -> (a: Artifact)
    ensures
        a@ == (ArtifactView {
            ty: ArtType::Other,
            path: Seq::empty(),
            text: Seq::empty(),
            refs: Seq::empty(),
            partof: Seq::empty(),
            loc: None,
            parts: Seq::empty(),
            completed: None,
            tested: None,
        }),
{
    let refs: Vec<String> = Vec::new();
    assert(views(refs@) =~= Seq::<Seq<char>>::empty());
    Artifact {
        ty: ArtType::Other,
        path: String::new(),
        text: String::new(),
        refs,
        partof: NameSet::new(),
        loc: None,
        parts: NameSet::new(),
        completed: None,
        tested: None,
    }
}

/// The artifacts of which the first `i` have their text of `texts`.
spec fn with_first_texts(arts: Seq<ArtifactView>, texts: Seq<Seq<char>>, i: int) -> Seq<
    ArtifactView,
> {
    Seq::new(
        arts.len(),
        |j: int|
            if j < i {
                with_texts(arts, texts)[j]
            } else {
                arts[j]
            },
    )
}

/// Gives every artifact its text of `texts`.
fn install_texts(artifacts: &mut Artifacts, texts: &Vec<String>)
    requires
        texts@.len() == old(artifacts).keys().len(),
    ensures
        final(artifacts).keys() == old(artifacts).keys(),
        artifact_views(final(artifacts).values()) == with_texts(
            artifact_views(old(artifacts).values()),
            views(texts@),
        ),
{
    let n = artifacts.len();
    let ghost arts0 = artifact_views(artifacts.values());
    let mut slot = blank_artifact();
    let mut i: usize = 0;
    assert(arts0 =~= with_first_texts(arts0, views(texts@), 0));
    while i < n
        invariant
            i <= n,
            n == texts@.len(),
            n == arts0.len(),
            artifacts.keys() == old(artifacts).keys(),
            artifacts.keys().len() == n,
            artifacts.values().len() == n,
            arts0 == artifact_views(old(artifacts).values()),
            artifact_views(artifacts.values()) == with_first_texts(arts0, views(texts@), i as int),
        decreases n - i,
    {
        let ghost vals = artifacts.values();
        artifacts.swap_value_at(i, &mut slot);
        slot.text = texts[i].clone();
        let ghost changed = slot;
        artifacts.swap_value_at(i, &mut slot);
        proof {
            assert(artifacts.values() =~= vals.update(i as int, changed));
            assert(artifact_views(vals)[i as int] == arts0[i as int]);
            assert(changed@ == with_texts(arts0, views(texts@))[i as int]);
            assert(artifact_views(artifacts.values()) =~= with_first_texts(
                arts0,
                views(texts@),
                i + 1,
            )) by {
                assert forall|j: int| 0 <= j < n implies artifact_views(artifacts.values())[j]
                    == with_first_texts(arts0, views(texts@), i + 1)[j] by {
                    if j != i {
                        assert(artifact_views(vals)[j] == with_first_texts(
                            arts0,
                            views(texts@),
                            i as int,
                        )[j]);
                    }
                }
            }
        }
        i += 1;
    }
    assert(with_first_texts(arts0, views(texts@), n as int) =~= with_texts(arts0, views(texts@)));
}

/// Loads the file that was given as the path to load, with what reading it
/// gave.
fn root_reply(session: &mut Session, read: Result<String, String>) -> (action: Action)
    requires
        old(session).wf(),
        old(session).awaits == Awaits::RootText,
    ensures
        final(session).wf(),
        same_walk(*old(session), *final(session)),
        final(session).loads() == file_loads(
            old(session).root(),
            read_view(read),
            old(session).loads(),
        ),
        match load_file_outcome(
            old(session).root(),
            read_view(read),
            old(session).loads().names,
            old(session).loads().arts,
        ).result {
            Ok(_) => action@ == ActionView::ResolveSettings && final(session).awaits
                == Awaits::Settings,
            Err(f) => action@ == ActionView::Failed(f) && final(session).awaits == Awaits::Done,
        },
{
    let file = session.root.clone();
    proof {
        lemma_file_outcome_grows(
            file@,
            read_view(read),
            session.loads().names,
            session.loads().arts,
        );
    }
    match load_file(
        file.as_str(),
        read,
        &mut session.artifacts,
        &mut session.loaded_settings,
        &mut session.loaded_variables,
    ) {
        Ok(_) => {
            session.awaits = Awaits::Settings;
            Action::ResolveSettings
        },
        Err(e) => {
            session.awaits = Awaits::Done;
            Action::Failed(e)
        },
    }
}

/// Takes the load of a path one step further: hands the session the reply to
/// what it last asked for, and returns what it asks for next (see
/// `load_step`).
pub fn load_path_raw(session: &mut Session, event: Event) -> (action: Action)
    requires
        old(session).wf(),
    ensures
        final(session).wf(),
        load_step(*old(session), event, *final(session), action@),
{
    let awaits = session.awaits;
    match event {
        Event::Start { path, kind } => {
            if awaits != Awaits::Start {
                return Action::Failed(unexpected_error());
            }
            match kind {
                PathKind::File => {
                    session.root = path.clone();
                    session.awaits = Awaits::RootText;
                    Action::ReadFile(path)
                },
                PathKind::Dir => {
                    proof {
                        lemma_views_push(session.settings.paths@, path);
                    }
                    session.settings.paths.push_back(path);
                    next_directory(session)
                },
                PathKind::Other => {
                    let mut desc = String::from_str("File is not valid type: ");
                    desc.append(path.as_str());
                    session.awaits = Awaits::Done;
                    Action::Failed(LoadError::new(ErrorKind::InvalidPath, desc))
                },
            }
        },
        Event::Settings(s) => {
            if awaits != Awaits::Settings {
                return Action::Failed(unexpected_error());
            }
            session.settings = s;
            next_directory(session)
        },
        Event::Texts(texts) => {
            if awaits != Awaits::Texts {
                return Action::Failed(unexpected_error());
            }
            session.awaits = Awaits::Done;
            if texts.len() == session.artifacts.len() {
                install_texts(&mut session.artifacts, &texts);
                Action::Loaded
            } else {
                Action::Failed(
                    LoadError::new(
                        ErrorKind::Resolve,
                        String::from_str("the texts do not match the artifacts"),
                    ),
                )
            }
        },
        Event::Failed(reason) => {
            if awaits != Awaits::Settings && awaits != Awaits::Texts {
                return Action::Failed(unexpected_error());
            }
            session.awaits = Awaits::Done;
            Action::Failed(LoadError::new(ErrorKind::Resolve, reason))
        },
        Event::Text(text) if awaits == Awaits::RootText => root_reply(session, Ok(text)),
        Event::ReadFailed(reason) if awaits == Awaits::RootText => root_reply(
            session,
            Err(reason),
        ),
        walk => {
            if awaits == Awaits::Start || !fits(awaits, &walk) {
                return Action::Failed(unexpected_error());
            }
            match load_dir(session, walk) {
                Scan::ListDir(d) => Action::ListDir(d),
                Scan::ReadFile(f) => Action::ReadFile(f),
                Scan::Finished(Ok(_)) => {
                    session.awaits = Awaits::Settings;
                    Action::ResolveSettings
                },
                Scan::Finished(Err(e)) => {
                    session.awaits = Awaits::Done;
                    let mut desc = String::from_str("Error loading <");
                    desc.append(session.root.as_str());
                    desc.append(">: ");
                    desc.append(e.desc.as_str());
                    Action::Failed(LoadError::new(e.kind, desc))
                },
            }
        },
    }
}

/// What a consistent session has of levels: there are levels only while it
/// waits for a listing or for the text of a file of the walk; while it waits
/// for such a text, the innermost level has that file to come; and the levels
/// have loaded no more artifacts than there are.
pub proof fn lemma_wf_levels(s: Session)
    requires
        s.wf(),
    ensures
        s.awaiting() != Awaits::Text && s.awaiting() != Awaits::Listing ==> s.levels().len() == 0,
        s.awaiting() == Awaits::Text ==> s.levels().len() > 0 && s.levels().last().files.len() > 0,
        total_loaded(s.levels()) <= s.loads().names.len(),
{
}

/// A directory that holds no file that declares artifacts loads nothing, and
/// none of its directories is asked for: a walk that is entered with it ends
/// as soon as it is listed, with no artifact, and nothing is loaded, visited
/// or recorded. (An entry of unknown type would be recorded, and fail the
/// walk.)
pub proof fn lemma_directory_without_files(
    pre: Session,
    dir: String,
    mid: Session,
    entries: Vec<DirEntry>,
    post: Session,
    first: ScanView,
    second: ScanView,
)
    requires
        pre.wf(),
        pre.awaiting() == Awaits::Start,
        scan_step(pre, Event::Enter(dir), mid, first),
        scan_step(mid, Event::Listing(entries), post, second),
        listed_files(entries@).len() == 0,
        listed_faults(entries@).len() == 0,
    ensures
        first == ScanView::ListDir(dir@),
        second == ScanView::Finished(Ok(0)),
        post.loads() == pre.loads(),
        post.visited() == pre.visited(),
        post.fault_list() == pre.fault_list(),
        post.levels().len() == 0,
        post.awaiting() == Awaits::Start,
{
    lemma_wf_levels(pre);
    lemma_listing_without_files(mid.levels(), entries@, mid.visited());
    assert(pre.fault_list() + listed_faults(entries@) =~= pre.fault_list());
}

/// In a walk, a directory that holds no file that declares artifacts is
/// complete as soon as it is listed, wherever it stands in the tree: none of
/// its directories is asked for, and the walk goes on with the level above
/// it, or is over.
pub proof fn lemma_listing_without_files_closes(
    pre: Session,
    entries: Vec<DirEntry>,
    post: Session,
    request: ScanView,
)
    requires
        pre.awaiting() == Awaits::Listing,
        scan_step(pre, Event::Listing(entries), post, request),
        listed_files(entries@).len() == 0,
    ensures
        post.loads() == pre.loads(),
        (Settled { frames: post.levels(), visited: post.visited(), request }) == if pre.levels().len()
            == 0 {
            Settled {
                frames: Seq::empty(),
                visited: pre.visited(),
                request: ScanView::Finished(outcome(frame_of(entries@))),
            }
        } else {
            settle(
                with_top(
                    pre.levels(),
                    absorbed(pre.levels().last(), outcome(frame_of(entries@))),
                ),
                pre.visited(),
            )
        },
{
    lemma_listing_without_files(pre.levels(), entries@, pre.visited());
}

/// The directory that is taken off the queue was not visited.
pub proof fn lemma_next_root_unvisited(paths: Seq<Seq<char>>, visited: Seq<Seq<char>>)
    ensures
        next_root(paths, visited).1 matches Some(d) ==> !visited.contains(d) && paths.contains(d),
    decreases paths.len(),
{
    if paths.len() > 0 && visited.contains(paths[0]) {
        lemma_next_root_unvisited(paths.drop_first(), visited);
        if let Some(d) = next_root(paths, visited).1 {
            let i = choose|i: int| 0 <= i < paths.drop_first().len() && paths.drop_first()[i] == d;
            assert(paths[i + 1] == d);
        }
    } else if paths.len() > 0 {
        assert(paths[0] == next_root(paths, visited).1->0);
    }
}

/// The walk after a reply asks only for a directory that was not visited,
/// and adds it to the visited ones; no other request visits anything.
proof fn lemma_stepped_visits_once(pre: Session, event: Event)
    requires
        fits_walk(pre.awaiting(), event),
        !(event is Enter),
    ensures
        match stepped(pre, event).request {
            ScanView::ListDir(d) => !pre.visited().contains(d) && stepped(pre, event).visited
                == pre.visited().push(d),
            _ => stepped(pre, event).visited == pre.visited(),
        },
{
    let levels = pre.levels();
    match event {
        Event::Listing(entries) => {
            lemma_settle_visits_once(levels.push(frame_of(entries@)), pre.visited());
        },
        Event::ListFailed(reason) => {
            if levels.len() > 0 {
                lemma_settle_visits_once(
                    with_top(levels, absorbed(levels.last(), Err(list_failed(reason@)))),
                    pre.visited(),
                );
            }
        },
        Event::Text(_) | Event::ReadFailed(_) => {
            lemma_settle_visits_once(
                with_top(
                    levels,
                    after_file(
                        levels.last(),
                        file_count(levels.last().files[0], read_of(event), pre.loads()),
                    ),
                ),
                pre.visited(),
            );
        },
        _ => {},
    }
}

/// A step of a walk asks only for a directory that was not visited, and adds
/// it to the visited ones; no other step visits anything. (The directory
/// that a walk is entered with is not asked of the session: it counts as
/// visited or not as the caller has it.)
pub proof fn lemma_walk_visits_once(pre: Session, event: Event, post: Session, request: ScanView)
    requires
        scan_step(pre, event, post, request),
        !(event is Enter),
    ensures
        match request {
            ScanView::ListDir(d) => !pre.visited().contains(d) && post.visited()
                == pre.visited().push(d),
            _ => post.visited() == pre.visited(),
        },
{
    if fits_walk(pre.awaiting(), event) {
        lemma_stepped_visits_once(pre, event);
    }
}

/// A step of a load asks only for a directory that was not visited, and adds
/// it to the visited ones; no other step visits anything.
pub proof fn lemma_load_visits_once(pre: Session, event: Event, post: Session, action: ActionView)
    requires
        load_step(pre, event, post, action),
    ensures
        match action {
            ActionView::ListDir(d) => !pre.visited().contains(d) && post.visited()
                == pre.visited().push(d),
            _ => post.visited() == pre.visited(),
        },
{
    match event {
        Event::Start { path, kind } => {
            if pre.awaiting() == Awaits::Start && kind == PathKind::Dir {
                lemma_next_root_unvisited(pre.merged().paths.push(path@), pre.visited());
            }
        },
        Event::Settings(s) => {
            if pre.awaiting() == Awaits::Settings {
                lemma_next_root_unvisited(s@.paths, pre.visited());
            }
        },
        Event::Texts(_) => {},
        Event::Failed(_) => {},
        Event::Enter(_) => {},
        _ => {
            if pre.awaiting() != Awaits::RootText && pre.awaiting() != Awaits::Start && fits_walk(
                pre.awaiting(),
                event,
            ) {
                lemma_stepped_visits_once(pre, event);
            }
        },
    }
}

/// Whether the sessions, replies and requests are a run of a load: every
/// reply takes a session to the next, with its request.
pub open spec fn is_run(sessions: Seq<Session>, events: Seq<Event>, actions: Seq<ActionView>) -> bool {
    &&& sessions.len() == events.len() + 1
    &&& actions.len() == events.len()
    &&& forall|i: int|
        0 <= i < events.len() ==> #[trigger] load_step(
            sessions[i],
            events[i],
            sessions[i + 1],
            actions[i],
        )
}

/// The directories that the requests ask for, in order.
pub open spec fn asked(actions: Seq<ActionView>) -> Seq<Seq<char>>
    decreases actions.len(),
{
    if actions.len() == 0 {
        Seq::empty()
    } else {
        match actions.last() {
            ActionView::ListDir(d) => asked(actions.drop_last()).push(d),
            _ => asked(actions.drop_last()),
        }
    }
}

/// In a run of a load no directory is asked for twice, nor one that was
/// visited before the run: the directories visited at its end are those
/// visited at its start and then those asked for, each once.
pub proof fn lemma_run_lists_once(
    sessions: Seq<Session>,
    events: Seq<Event>,
    actions: Seq<ActionView>,
)
    requires
        is_run(sessions, events, actions),
        sessions[0].visited().no_duplicates(),
    ensures
        sessions.last().visited() == sessions[0].visited() + asked(actions),
        (sessions[0].visited() + asked(actions)).no_duplicates(),
    decreases events.len(),
{
    let start = sessions[0].visited();
    if events.len() == 0 {
        assert(start + asked(actions) =~= start);
    } else {
        let n = events.len() as int;
        let sessions0 = sessions.drop_last();
        let events0 = events.drop_last();
        let actions0 = actions.drop_last();
        assert(is_run(sessions0, events0, actions0)) by {
            assert forall|i: int| 0 <= i < events0.len() implies #[trigger] load_step(
                sessions0[i],
                events0[i],
                sessions0[i + 1],
                actions0[i],
            ) by {
                assert(load_step(sessions[i], events[i], sessions[i + 1], actions[i]));
            }
        }
        lemma_run_lists_once(sessions0, events0, actions0);
        assert(load_step(sessions[n - 1], events[n - 1], sessions[n], actions[n - 1]));
        lemma_load_visits_once(sessions[n - 1], events[n - 1], sessions[n], actions[n - 1]);
        let before = start + asked(actions0);
        assert(sessions0.last() == sessions[n - 1]);
        match actions.last() {
            ActionView::ListDir(d) => {
                assert(start + asked(actions0).push(d) =~= before.push(d));
                assert(before.push(d).no_duplicates());
            },
            _ => {},
        }
    }
}

} // verus!
