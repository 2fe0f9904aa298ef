//! Repository descriptors and the synchronisation of one local bare mirror.
//!
//! `RepoMirror::sync` does no I/O: it starts a `SyncRun`, a state machine that
//! names each filesystem or git operation to perform and is fed its outcome.
//! Whether the mirror is initialised is asked anew on every sync.
//!
//! Refspec policy: the origin remote is created with the full-mirror refspec
//! `+refs/*:refs/*` and its mirror flag set; fetches ask for branches and tags,
//! `+refs/heads/*:refs/heads/*` and `+refs/tags/*:refs/tags/*`.
use vstd::prelude::*;

use crate::text::{concat, str_chars};

verus! {

/// The last `/`-separated segment of `p`.
pub open spec fn last_segment(p: Seq<char>) -> Seq<char>
    decreases p.len(),
{
    if p.len() == 0 {
        p
    } else if p.last() == '/' {
        seq![]
    } else {
        last_segment(p.drop_last()).push(p.last())
    }
}

/// How a path segment moves the depth below the root: `..` goes up one, an
/// empty segment and `.` stay, a name goes down one.
pub open spec fn segment_step(seg: Seq<char>) -> int {
    if seg == seq!['.', '.'] {
        -1
    } else if seg.len() == 0 || seg == seq!['.'] {
        0
    } else {
        1
    }
}

/// Walking `p` from the root one segment at a time: the lowest depth reached
/// at a separator, and the depth before the last segment.
pub open spec fn walk(p: Seq<char>) -> (int, int)
    decreases p.len(),
{
    if p.len() == 0 {
        (0, 0)
    } else {
        let (low, depth) = walk(p.drop_last());
        if p.last() == '/' {
            let d = depth + segment_step(last_segment(p.drop_last()));
            (
                if d < low {
                    d
                } else {
                    low
                },
                d,
            )
        } else {
            (low, depth)
        }
    }
}

/// A path relative to the storage root that stays below it: not empty, not
/// starting with `/`, never climbing above the root through `..`, and ending
/// in a name (a segment other than ``, `.` and `..`).
pub open spec fn is_mirror_path(p: Seq<char>) -> bool {
    &&& p.len() > 0
    &&& p[0] != '/'
    &&& walk(p).0 >= 0
    &&& segment_step(last_segment(p)) == 1
}

/// Whether a file name has an extension: a `.` after its first character.
pub open spec fn has_extension(name: Seq<char>) -> bool {
    exists|i: int| 0 < i < name.len() && name[i] == '.'
}

/// `rel` under `base`, with one `/` between them.
pub open spec fn join_path(base: Seq<char>, rel: Seq<char>) -> Seq<char> {
    if base.len() == 0 {
        rel
    } else if base.last() == '/' {
        base + rel
    } else {
        base + "/"@ + rel
    }
}

/// The on-disk directory of a mirror: the mirror path under the storage
/// root, with `.git` added when its last segment has no extension.
pub open spec fn mirror_dir(base: Seq<char>, path: Seq<char>) -> Seq<char> {
    if has_extension(last_segment(path)) {
        join_path(base, path)
    } else {
        join_path(base, path + ".git"@)
    }
}

/// One repository to mirror.
pub struct RepoConfig {
    url: String,
    path: String,
    mirror_urls: Vec<String>,
}

/// A `RepoConfig` as the contracts see it.
pub struct RepoConfigModel {
    pub url: Seq<char>,
    pub path: Seq<char>,
    pub mirror_urls: Seq<Seq<char>>,
}

impl View for RepoConfig {
    type V = RepoConfigModel;

    closed spec fn view(&self) -> RepoConfigModel {
        RepoConfigModel {
            url: self.url@,
            path: self.path@,
            mirror_urls: self.mirror_urls@.map_values(|u: String| u@),
        }
    }
}

/// Appending characters other than `/` leaves the walk where it is and
/// grows the last segment.
pub proof fn lemma_walk_plain_suffix(p: Seq<char>, s: Seq<char>)
    requires
        forall|k: int| 0 <= k < s.len() ==> s[k] != '/',
    ensures
        walk(p + s) == walk(p),
        last_segment(p + s) == last_segment(p) + s,
    decreases s.len(),
{
    if s.len() == 0 {
        assert(p + s =~= p);
        assert(last_segment(p) + s =~= last_segment(p));
    } else {
        lemma_walk_plain_suffix(p, s.drop_last());
        assert((p + s).drop_last() =~= p + s.drop_last());
        assert((p + s).last() == s.last());
        assert(last_segment(p) + s =~= (last_segment(p) + s.drop_last()).push(s.last()));
    }
}

/// A separator closes the last segment: the walk takes its step.
pub proof fn lemma_walk_separator(p: Seq<char>)
    ensures
        walk(p.push('/')).1 == walk(p).1 + segment_step(last_segment(p)),
        walk(p.push('/')).0 == if walk(p).1 + segment_step(last_segment(p)) < walk(p).0 {
            walk(p).1 + segment_step(last_segment(p))
        } else {
            walk(p).0
        },
        last_segment(p.push('/')) == Seq::<char>::empty(),
{
    assert(p.push('/').drop_last() =~= p);
}

proof fn lemma_last_segment_step(p: Seq<char>, i: int)
    requires
        0 <= i < p.len(),
        p[i] != '/',
    ensures
        last_segment(p.take(i + 1)) == last_segment(p.take(i)).push(p[i]),
{
    assert(p.take(i + 1).drop_last() =~= p.take(i));
}

proof fn lemma_last_segment_slash(p: Seq<char>, i: int)
    requires
        0 <= i < p.len(),
        p[i] == '/',
    ensures
        last_segment(p.take(i + 1)) == Seq::<char>::empty(),
{
}

/// Start index of the last segment of `p`.
fn last_segment_start(p: &[char]) -> (r: usize)
    ensures
        r <= p.len(),
        last_segment(p@) == p@.skip(r as int),
{
    let mut start: usize = 0;
    let mut i: usize = 0;
    assert(p@.take(0) =~= seq![]);
    while i < p.len()
        invariant
            start <= i <= p.len(),
            last_segment(p@.take(i as int)) == p@.subrange(start as int, i as int),
        decreases p.len() - i,
    {
        if p[i] == '/' {
            proof {
                lemma_last_segment_slash(p@, i as int);
            }
            start = i + 1;
            assert(p@.subrange(start as int, (i + 1) as int) =~= seq![]);
        } else {
            proof {
                lemma_last_segment_step(p@, i as int);
                assert(p@.subrange(start as int, (i + 1) as int) =~= p@.subrange(
                    start as int,
                    i as int,
                ).push(p@[i as int]));
            }
        }
        i = i + 1;
    }
    assert(p@.take(p.len() as int) =~= p@);
    assert(p@.subrange(start as int, p.len() as int) =~= p@.skip(start as int));
    start
}

proof fn lemma_walk_low_shrinks(p: Seq<char>, k: int)
    requires
        0 <= k <= p.len(),
    ensures
        walk(p).0 <= walk(p.take(k)).0,
    decreases p.len(),
{
    if k == p.len() {
        assert(p.take(k) =~= p);
    } else {
        lemma_walk_low_shrinks(p.drop_last(), k);
        assert(p.drop_last().take(k) =~= p.take(k));
    }
}

/// How the segment `c[from..to]` moves the depth.
fn segment_step_of(c: &[char], from: usize, to: usize) -> (r: i8)
    requires
        from <= to <= c.len(),
    ensures
        r as int == segment_step(c@.subrange(from as int, to as int)),
{
    let ghost seg = c@.subrange(from as int, to as int);
    let len = to - from;
    proof {
        assert(seq!['.', '.'].len() == 2);
        assert(seq!['.'].len() == 1);
        if seg == seq!['.', '.'] {
            assert(seg.len() == 2 && seg[0] == '.' && seg[1] == '.');
        }
        if seg == seq!['.'] {
            assert(seg.len() == 1 && seg[0] == '.');
        }
    }
    if len == 2 && c[from] == '.' && c[from + 1] == '.' {
        assert(seg =~= seq!['.', '.']);
        return -1;
    }
    if len == 0 {
        return 0;
    }
    if len == 1 && c[from] == '.' {
        assert(seg =~= seq!['.']);
        return 0;
    }
    1
}

/// Whether `p` is a mirror path (see `is_mirror_path`).
pub fn check_mirror_path(p: &str) -> (r: bool)
    ensures
        r == is_mirror_path(p@),
{
    let chars = str_chars(p);
    let c = chars.as_slice();
    if c.len() == 0 || c[0] == '/' {
        return false;
    }
    let mut depth: usize = 0;
    let mut seg_start: usize = 0;
    let mut i: usize = 0;
    assert(c@.take(0) =~= seq![]);
    while i < c.len()
        invariant
            c@ == p@,
            seg_start <= i <= c.len(),
            depth <= i,
            walk(c@.take(i as int)).0 >= 0,
            walk(c@.take(i as int)).1 == depth,
            last_segment(c@.take(i as int)) == c@.subrange(seg_start as int, i as int),
        decreases c.len() - i,
    {
        let ghost before = c@.take(i as int);
        let ghost after = c@.take(i + 1 as int);
        assert(after.drop_last() =~= before);
        assert(after.last() == c@[i as int]);
        if c[i] == '/' {
            let step = segment_step_of(c, seg_start, i);
            if step < 0 && depth == 0 {
                proof {
                    assert(segment_step(last_segment(before)) == -1);
                    assert(walk(after).1 == -1);
                    assert(walk(after).0 <= -1);
                    lemma_walk_low_shrinks(c@, i + 1);
                    assert(walk(c@).0 < 0);
                }
                return false;
            }
            if step < 0 {
                depth = depth - 1;
            } else if step > 0 {
                depth = depth + 1;
            }
            seg_start = i + 1;
            proof {
                lemma_last_segment_slash(c@, i as int);
                assert(c@.subrange(seg_start as int, (i + 1) as int) =~= seq![]);
            }
        } else {
            proof {
                lemma_last_segment_step(c@, i as int);
                assert(c@.subrange(seg_start as int, (i + 1) as int) =~= c@.subrange(
                    seg_start as int,
                    i as int,
                ).push(c@[i as int]));
            }
        }
        i = i + 1;
    }
    assert(c@.take(c.len() as int) =~= c@);
    segment_step_of(c, seg_start, c.len()) == 1
}

/// Whether the name `c[from..]` has an extension.
fn name_has_extension(c: &[char], from: usize) -> (r: bool)
    requires
        from <= c.len(),
    ensures
        r == has_extension(c@.skip(from as int)),
{
    let ghost name = c@.skip(from as int);
    if from >= c.len() {
        return false;
    }
    let mut i: usize = from + 1;
    while i < c.len()
        invariant
            from < i <= c.len(),
            name == c@.skip(from as int),
            forall|k: int| 0 < k < i - from ==> name[k] != '.',
        decreases c.len() - i,
    {
        if c[i] == '.' {
            assert(name[i - from] == '.');
            return true;
        }
        i = i + 1;
    }
    false
}

impl RepoConfig {
    #[verifier::type_invariant]
    spec fn well_formed(&self) -> bool {
        is_mirror_path(self.path@)
    }

    /// A descriptor, if `path` is a mirror path.
    pub fn new(url: String, path: String, mirror_urls: Vec<String>) -> (r: Option<RepoConfig>)
        ensures
            match r {
                Some(cfg) => is_mirror_path(path@) && cfg@ == (RepoConfigModel {
                    url: url@,
                    path: path@,
                    mirror_urls: mirror_urls@.map_values(|u: String| u@),
                }),
                None => !is_mirror_path(path@),
            },
    {
        if check_mirror_path(path.as_str()) {
            Some(RepoConfig { url, path, mirror_urls })
        } else {
            None
        }
    }

    /// A descriptor from parts already known to be valid.
    pub(crate) fn from_parts(url: String, path: String) -> (r: RepoConfig)
        requires
            is_mirror_path(path@),
        ensures
            r@ == (RepoConfigModel { url: url@, path: path@, mirror_urls: seq![] }),
    {
        let cfg = RepoConfig { url, path, mirror_urls: Vec::new() };
        assert(cfg@.mirror_urls =~= seq![]);
        cfg
    }

    /// The URL of the main remote.
    pub fn url(&self) -> (r: &String)
        ensures
            r@ == self@.url,
    {
        &self.url
    }

    /// The mirror's path relative to the storage root.
    pub fn path(&self) -> (r: &String)
        ensures
            r@ == self@.path,
            is_mirror_path(r@),
    {
        proof {
            use_type_invariant(self);
        }
        &self.path
    }

    /// Fallback URLs to fetch from, first one first.
    pub fn mirror_urls(&self) -> (r: &Vec<String>)
        ensures
            r@.map_values(|u: String| u@) == self@.mirror_urls,
    {
        &self.mirror_urls
    }
}

/// Why a sync failed.
#[derive(Clone, Copy, Debug, PartialEq, Eq, Structural)]
pub enum SyncError {
    /// Creating the directory, the bare repository or its origin failed.
    Init,
    /// The origin recorded on disk is not the configured URL.
    OriginDrift,
    /// Opening the repository, finding its origin, or the fetch failed.
    Fetch,
}

/// Where a sync stands.
#[derive(Clone, Copy, Debug, PartialEq, Eq, Structural)]
pub enum SyncPhase {
    CheckingPath,
    Initializing,
    ReadingOrigin,
    Fetching,
    Synced,
    Failed(SyncError),
}

/// The outcome of the last operation asked for.
pub enum SyncEvent {
    /// Whether the mirror directory exists.
    PathExists(bool),
    /// Whether initialisation succeeded.
    Initialized(bool),
    /// The URL of the `origin` remote on disk, if the repository opened and has one.
    OriginUrl(Option<String>),
    /// Whether the fetch succeeded.
    Fetched(bool),
}

/// A `SyncEvent` as the contracts see it.
pub enum SyncEventModel {
    PathExists(bool),
    Initialized(bool),
    OriginUrl(Option<Seq<char>>),
    Fetched(bool),
}

impl View for SyncEvent {
    type V = SyncEventModel;

    open spec fn view(&self) -> SyncEventModel {
        match self {
            SyncEvent::PathExists(b) => SyncEventModel::PathExists(*b),
            SyncEvent::Initialized(b) => SyncEventModel::Initialized(*b),
            SyncEvent::OriginUrl(u) => SyncEventModel::OriginUrl(
                match u {
                    Some(s) => Some(s@),
                    None => None,
                },
            ),
            SyncEvent::Fetched(b) => SyncEventModel::Fetched(*b),
        }
    }
}

/// Where a fetch reads from.
pub enum FetchSource {
    /// The `origin` remote recorded in the repository.
    Origin,
    /// An anonymous remote at this URL.
    Url(String),
}

/// The next operation a sync asks for.
pub enum SyncAction {
    /// Tell whether the mirror directory exists.
    CheckPath,
    /// Create the directory and a bare repository in it, add an `origin`
    /// remote at `remote_url` with the fetch refspec `refspec`, and set its
    /// mirror flag.
    Initialize { remote_url: String, refspec: String },
    /// Open the bare repository and read the URL of its `origin` remote.
    ReadOrigin,
    /// Fetch these refspecs from `source`.
    Fetch { source: FetchSource, refspecs: Vec<String> },
    /// The sync is over, with this outcome.
    Finish(Result<(), SyncError>),
}

/// A `SyncAction` as the contracts see it; a fetch source of `None` is the origin.
pub enum SyncActionModel {
    CheckPath,
    Initialize { remote_url: Seq<char>, refspec: Seq<char> },
    ReadOrigin,
    Fetch { source: Option<Seq<char>>, refspecs: Seq<Seq<char>> },
    Finish(Result<(), SyncError>),
}

impl View for SyncAction {
    type V = SyncActionModel;

    open spec fn view(&self) -> SyncActionModel {
        match self {
            SyncAction::CheckPath => SyncActionModel::CheckPath,
            SyncAction::Initialize { remote_url, refspec } => SyncActionModel::Initialize {
                remote_url: remote_url@,
                refspec: refspec@,
            },
            SyncAction::ReadOrigin => SyncActionModel::ReadOrigin,
            SyncAction::Fetch { source, refspecs } => SyncActionModel::Fetch {
                source: match source {
                    FetchSource::Origin => None,
                    FetchSource::Url(u) => Some(u@),
                },
                refspecs: refspecs@.map_values(|r: String| r@),
            },
            SyncAction::Finish(r) => SyncActionModel::Finish(*r),
        }
    }
}

/// The refspec the origin remote is created with.
pub open spec fn mirror_refspec() -> Seq<char> {
    "+refs/*:refs/*"@
}

/// The refspecs every fetch asks for: branches and tags.
pub open spec fn fetch_refspecs() -> Seq<Seq<char>> {
    seq!["+refs/heads/*:refs/heads/*"@, "+refs/tags/*:refs/tags/*"@]
}

/// Where fetches of `cfg` read from: the first fallback URL, else the origin.
pub open spec fn fetch_source(cfg: RepoConfigModel) -> Option<Seq<char>> {
    if cfg.mirror_urls.len() > 0 {
        Some(cfg.mirror_urls[0])
    } else {
        None
    }
}

/// What a sync in `phase` is waiting on.
pub open spec fn pending_action(cfg: RepoConfigModel, phase: SyncPhase) -> SyncActionModel {
    match phase {
        SyncPhase::CheckingPath => SyncActionModel::CheckPath,
        SyncPhase::Initializing => SyncActionModel::Initialize {
            remote_url: cfg.url,
            refspec: mirror_refspec(),
        },
        SyncPhase::ReadingOrigin => SyncActionModel::ReadOrigin,
        SyncPhase::Fetching => SyncActionModel::Fetch {
            source: fetch_source(cfg),
            refspecs: fetch_refspecs(),
        },
        SyncPhase::Synced => SyncActionModel::Finish(Ok(())),
        SyncPhase::Failed(e) => SyncActionModel::Finish(Err(e)),
    }
}

/// How a sync of `cfg` in `phase` answers `e`. An outcome that does not
/// answer the pending operation leaves the sync where it is.
pub open spec fn sync_step(cfg: RepoConfigModel, phase: SyncPhase, e: SyncEventModel) -> SyncPhase {
    match (phase, e) {
        (SyncPhase::CheckingPath, SyncEventModel::PathExists(exists)) => if exists {
            SyncPhase::ReadingOrigin
        } else {
            SyncPhase::Initializing
        },
        (SyncPhase::Initializing, SyncEventModel::Initialized(ok)) => if ok {
            SyncPhase::ReadingOrigin
        } else {
            SyncPhase::Failed(SyncError::Init)
        },
        (SyncPhase::ReadingOrigin, SyncEventModel::OriginUrl(url)) => match url {
            None => SyncPhase::Failed(SyncError::Fetch),
            Some(u) => if u == cfg.url {
                SyncPhase::Fetching
            } else {
                SyncPhase::Failed(SyncError::OriginDrift)
            },
        },
        (SyncPhase::Fetching, SyncEventModel::Fetched(ok)) => if ok {
            SyncPhase::Synced
        } else {
            SyncPhase::Failed(SyncError::Fetch)
        },
        _ => phase,
    }
}

/// A mirror of one repository under a storage root.
pub struct RepoMirror {
    config: RepoConfig,
    repo_dir: String,
}

/// A `RepoMirror` as the contracts see it.
pub struct MirrorModel {
    pub config: RepoConfigModel,
    pub repo_dir: Seq<char>,
}

impl View for RepoMirror {
    type V = MirrorModel;

    closed spec fn view(&self) -> MirrorModel {
        MirrorModel { config: self.config@, repo_dir: self.repo_dir@ }
    }
}

/// One run of `RepoMirror::sync`.
pub struct SyncRun {
    phase: SyncPhase,
}

impl View for SyncRun {
    type V = SyncPhase;

    closed spec fn view(&self) -> SyncPhase {
        self.phase
    }
}

impl RepoMirror {
    /// The mirror of `cfg` under the storage root `base_storage_dir`.
    pub fn new(cfg: RepoConfig, base_storage_dir: &str) -> (r: RepoMirror)
        ensures
            r@.config == cfg@,
            r@.repo_dir == mirror_dir(base_storage_dir@, cfg@.path),
    {
        let path = cfg.path();
        let chars = str_chars(path.as_str());
        let start = last_segment_start(chars.as_slice());
        let rel = if name_has_extension(chars.as_slice(), start) {
            String::from_str(path.as_str())
        } else {
            concat(path.as_str(), ".git")
        };
        let base_chars = str_chars(base_storage_dir);
        let repo_dir = if base_chars.len() == 0 {
            rel
        } else if base_chars[base_chars.len() - 1] == '/' {
            concat(base_storage_dir, rel.as_str())
        } else {
            let with_sep = concat(base_storage_dir, "/");
            concat(with_sep.as_str(), rel.as_str())
        };
        RepoMirror { config: cfg, repo_dir }
    }

    /// The mirror's on-disk directory.
    pub fn repo_dir(&self) -> (r: &String)
        ensures
            r@ == self@.repo_dir,
    {
        &self.repo_dir
    }

    /// The descriptor the mirror was made from.
    pub fn config(&self) -> (r: &RepoConfig)
        ensures
            r@ == self@.config,
    {
        &self.config
    }

    /// Starts a sync: first ask whether the mirror directory exists.
    pub fn sync(&self) -> (r: (SyncRun, SyncAction))
        ensures
            r.0@ == SyncPhase::CheckingPath,
            r.1@ == SyncActionModel::CheckPath,
    {
        (SyncRun { phase: SyncPhase::CheckingPath }, SyncAction::CheckPath)
    }

    fn action_for(&self, phase: SyncPhase) -> (r: SyncAction)
        ensures
            r@ == pending_action(self@.config, phase),
    {
        match phase {
            SyncPhase::CheckingPath => SyncAction::CheckPath,
            SyncPhase::Initializing => SyncAction::Initialize {
                remote_url: self.config.url().clone(),
                refspec: String::from_str("+refs/*:refs/*"),
            },
            SyncPhase::ReadingOrigin => SyncAction::ReadOrigin,
            SyncPhase::Fetching => {
                let fallbacks = self.config.mirror_urls();
                let source = if fallbacks.len() > 0 {
                    FetchSource::Url(fallbacks[0].clone())
                } else {
                    FetchSource::Origin
                };
                let mut refspecs: Vec<String> = Vec::new();
                refspecs.push(String::from_str("+refs/heads/*:refs/heads/*"));
                refspecs.push(String::from_str("+refs/tags/*:refs/tags/*"));
                proof {
                    assert(refspecs@.map_values(|r: String| r@) =~= fetch_refspecs());
                }
                SyncAction::Fetch { source, refspecs }
            },
            SyncPhase::Synced => SyncAction::Finish(Ok(())),
            SyncPhase::Failed(e) => SyncAction::Finish(Err(e)),
        }
    }
}

impl SyncRun {
    /// Where the sync stands.
    pub fn phase(&self) -> (r: SyncPhase)
        ensures
            r == self@,
    {
        self.phase
    }

    /// Feeds the outcome of the last operation; returns the next one.
    pub fn step(&mut self, mirror: &RepoMirror, event: SyncEvent) -> (r: SyncAction)
        ensures
            final(self)@ == sync_step(mirror@.config, old(self)@, event@),
            r@ == pending_action(mirror@.config, final(self)@),
    {
        let next = match (self.phase, event) {
            (SyncPhase::CheckingPath, SyncEvent::PathExists(exists)) => if exists {
                SyncPhase::ReadingOrigin
            } else {
                SyncPhase::Initializing
            },
            (SyncPhase::Initializing, SyncEvent::Initialized(ok)) => if ok {
                SyncPhase::ReadingOrigin
            } else {
                SyncPhase::Failed(SyncError::Init)
            },
            (SyncPhase::ReadingOrigin, SyncEvent::OriginUrl(url)) => match url {
                None => SyncPhase::Failed(SyncError::Fetch),
                Some(u) => if u == *mirror.config.url() {
                    SyncPhase::Fetching
                } else {
                    SyncPhase::Failed(SyncError::OriginDrift)
                },
            },
            (SyncPhase::Fetching, SyncEvent::Fetched(ok)) => if ok {
                SyncPhase::Synced
            } else {
                SyncPhase::Failed(SyncError::Fetch)
            },
            (phase, _) => phase,
        };
        self.phase = next;
        mirror.action_for(next)
    }
}

} // verus!

verus! {

/// Feeds `events` to a sync of `cfg` in `phase`: the phase reached, and every
/// action asked for on the way.
pub open spec fn run_sync(cfg: RepoConfigModel, phase: SyncPhase, events: Seq<SyncEventModel>) -> (
    SyncPhase,
    Seq<SyncActionModel>,
)
    decreases events.len(),
{
    if events.len() == 0 {
        (phase, seq![])
    } else {
        let next = sync_step(cfg, phase, events[0]);
        let (last, rest) = run_sync(cfg, next, events.drop_first());
        (last, seq![pending_action(cfg, next)] + rest)
    }
}

/// Phases a sync can be in once the directory is known to hold a repository.
pub open spec fn past_initialization(phase: SyncPhase) -> bool {
    !(phase is CheckingPath || phase is Initializing)
}

proof fn lemma_run_stays_past_initialization(
    cfg: RepoConfigModel,
    phase: SyncPhase,
    events: Seq<SyncEventModel>,
)
    requires
        past_initialization(phase),
    ensures
        past_initialization(run_sync(cfg, phase, events).0),
        forall|i: int|
            0 <= i < run_sync(cfg, phase, events).1.len() ==> !(#[trigger] run_sync(
                cfg,
                phase,
                events,
            ).1[i] is Initialize),
    decreases events.len(),
{
    if events.len() > 0 {
        let next = sync_step(cfg, phase, events[0]);
        lemma_run_stays_past_initialization(cfg, next, events.drop_first());
        let rest = run_sync(cfg, next, events.drop_first()).1;
        let all = seq![pending_action(cfg, next)] + rest;
        assert forall|i: int| 0 <= i < all.len() implies !(#[trigger] all[i] is Initialize) by {
            if i > 0 {
                assert(all[i] == rest[i - 1]);
            }
        }
    }
}

proof fn lemma_failed_run_is_final(cfg: RepoConfigModel, e: SyncError, events: Seq<SyncEventModel>)
    ensures
        run_sync(cfg, SyncPhase::Failed(e), events).0 == SyncPhase::Failed(e),
        forall|i: int|
            0 <= i < run_sync(cfg, SyncPhase::Failed(e), events).1.len() ==> #[trigger] run_sync(
                cfg,
                SyncPhase::Failed(e),
                events,
            ).1[i] == SyncActionModel::Finish(Err(e)),
    decreases events.len(),
{
    if events.len() > 0 {
        lemma_failed_run_is_final(cfg, e, events.drop_first());
        let rest = run_sync(cfg, SyncPhase::Failed(e), events.drop_first()).1;
        let all = seq![SyncActionModel::Finish(Err(e))] + rest;
        assert forall|i: int| 0 <= i < all.len() implies #[trigger] all[i] == SyncActionModel::Finish(
            Err(e),
        ) by {
            if i > 0 {
                assert(all[i] == rest[i - 1]);
            }
        }
    }
}

/// Origin drift: when the origin URL recorded on disk differs from the
/// configured one, the sync fails with `OriginDrift` and no fetch is asked
/// for, then or later.
pub proof fn lemma_origin_drift_blocks_fetch(
    cfg: RepoConfigModel,
    recorded: Seq<char>,
    later: Seq<SyncEventModel>,
)
    requires
        recorded != cfg.url,
    ensures
        sync_step(cfg, SyncPhase::ReadingOrigin, SyncEventModel::OriginUrl(Some(recorded)))
            == SyncPhase::Failed(SyncError::OriginDrift),
        ({
            let (last, actions) = run_sync(
                cfg,
                SyncPhase::ReadingOrigin,
                seq![SyncEventModel::OriginUrl(Some(recorded))] + later,
            );
            &&& last == SyncPhase::Failed(SyncError::OriginDrift)
            &&& forall|i: int| 0 <= i < actions.len() ==> !(#[trigger] actions[i] is Fetch)
        }),
{
    let events = seq![SyncEventModel::OriginUrl(Some(recorded))] + later;
    assert(events.drop_first() =~= later);
    let failed = SyncPhase::Failed(SyncError::OriginDrift);
    lemma_failed_run_is_final(cfg, SyncError::OriginDrift, later);
    let rest = run_sync(cfg, failed, later).1;
    let all = seq![pending_action(cfg, failed)] + rest;
    assert forall|i: int| 0 <= i < all.len() implies !(#[trigger] all[i] is Fetch) by {
        if i > 0 {
            assert(all[i] == rest[i - 1]);
        }
    }
}

/// A sync of a mirror whose directory already exists never asks to
/// initialise it, whatever outcomes follow.
pub proof fn lemma_existing_mirror_is_not_reinitialized(
    cfg: RepoConfigModel,
    later: Seq<SyncEventModel>,
)
    ensures
        ({
            let (last, actions) = run_sync(
                cfg,
                SyncPhase::CheckingPath,
                seq![SyncEventModel::PathExists(true)] + later,
            );
            forall|i: int| 0 <= i < actions.len() ==> !(#[trigger] actions[i] is Initialize)
        }),
{
    let events = seq![SyncEventModel::PathExists(true)] + later;
    assert(events.drop_first() =~= later);
    lemma_run_stays_past_initialization(cfg, SyncPhase::ReadingOrigin, later);
    let rest = run_sync(cfg, SyncPhase::ReadingOrigin, later).1;
    let all = seq![SyncActionModel::ReadOrigin] + rest;
    assert forall|i: int| 0 <= i < all.len() implies !(#[trigger] all[i] is Initialize) by {
        if i > 0 {
            assert(all[i] == rest[i - 1]);
        }
    }
}

/// Every fetch a sync of `cfg` asks for, in any run, is the same request:
/// the configured source and the branch and tag refspecs.
pub proof fn lemma_fetch_request_is_fixed(
    cfg: RepoConfigModel,
    phase: SyncPhase,
    events: Seq<SyncEventModel>,
)
    ensures
        forall|i: int|
            0 <= i < run_sync(cfg, phase, events).1.len() && (#[trigger] run_sync(
                cfg,
                phase,
                events,
            ).1[i]) is Fetch ==> run_sync(cfg, phase, events).1[i] == (SyncActionModel::Fetch {
                source: fetch_source(cfg),
                refspecs: fetch_refspecs(),
            }),
    decreases events.len(),
{
    if events.len() > 0 {
        let next = sync_step(cfg, phase, events[0]);
        lemma_fetch_request_is_fixed(cfg, next, events.drop_first());
        let rest = run_sync(cfg, next, events.drop_first()).1;
        let all = seq![pending_action(cfg, next)] + rest;
        assert forall|i: int| 0 <= i < all.len() && (#[trigger] all[i]) is Fetch implies all[i]
            == (SyncActionModel::Fetch { source: fetch_source(cfg), refspecs: fetch_refspecs() }) by {
            if i > 0 {
                assert(all[i] == rest[i - 1]);
            }
        }
    }
}

} // verus!
