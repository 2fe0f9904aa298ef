//! Resolution of short repository identifiers against the GitHub API.
//!
//! Network requests are not made here: a listing is a state machine that
//! names the next request to make and is fed the decoded response.
use vstd::prelude::*;

use crate::mirror::{
    is_mirror_path, last_segment, lemma_walk_plain_suffix, lemma_walk_separator, segment_step,
    RepoConfig, RepoConfigModel,
};
use crate::text::{
    char_index, concat, decimal, find_char, lemma_char_index, lemma_char_index_facts, str_chars,
    string_from_chars, usize_to_string,
};

verus! {

/// Number of entries asked for per page of the repository listing.
pub const PAGE_SIZE: usize = 50;

/// Largest public-repository count that a listing will page through.
pub const MAX_PUBLIC_REPOS: usize = 100;

/// Why a remote listing did not complete.
#[derive(Clone, Copy, Debug, PartialEq, Eq, Structural)]
pub enum RemoteApiError {
    /// The owner has more public repositories than the ceiling allows.
    TooManyRepos { count: usize },
    /// A request failed or its response could not be decoded.
    RequestFailed,
    /// A response that the listing did not ask for, or a page larger than asked for.
    UnexpectedResponse,
}

/// How many pages a listing reads at most. Either way forks are left out.
#[derive(Clone, Copy, Debug, PartialEq, Eq, Structural)]
pub enum ListingPolicy {
    /// The page bound follows from the reported count.
    PagesFromCount,
    /// At most two pages are read.
    TwoPages,
}

/// Where a listing stands.
#[derive(Clone, Copy, Debug, PartialEq, Eq, Structural)]
pub enum ListingPhase {
    AwaitingCount,
    AwaitingPage,
    Finished,
    Failed(RemoteApiError),
}

/// One entry of a page of the repository listing.
pub struct RepoEntry {
    pub name: String,
    pub fork: bool,
}

impl View for RepoEntry {
    type V = (Seq<char>, bool);

    open spec fn view(&self) -> (Seq<char>, bool) {
        (self.name@, self.fork)
    }
}

/// A decoded response handed to a listing.
pub enum ListingEvent {
    /// The owner's public-repository count.
    RepoCount(usize),
    /// One page of the listing, in the order the server gave it.
    Page(Vec<RepoEntry>),
    /// The request failed, or its body could not be decoded.
    RequestFailed,
}

/// What a listing asks for next.
pub enum ListingAction {
    /// Fetch the owner's record (at this URL) and report its repository count.
    FetchRepoCount(String),
    /// Fetch this page of the listing and report its entries.
    FetchPage(String),
    /// The listing is complete.
    Done,
    /// The listing failed.
    Abort(RemoteApiError),
}

/// A `ListingEvent` as the contracts see it.
pub enum EventModel {
    RepoCount(usize),
    Page(Seq<(Seq<char>, bool)>),
    RequestFailed,
}

/// A `ListingAction` as the contracts see it.
pub enum ActionModel {
    FetchRepoCount(Seq<char>),
    FetchPage(Seq<char>),
    Done,
    Abort(RemoteApiError),
}

impl View for ListingEvent {
    type V = EventModel;

    open spec fn view(&self) -> EventModel {
        match self {
            ListingEvent::RepoCount(n) => EventModel::RepoCount(*n),
            ListingEvent::Page(v) => EventModel::Page(v@.map_values(|e: RepoEntry| e@)),
            ListingEvent::RequestFailed => EventModel::RequestFailed,
        }
    }
}

impl View for ListingAction {
    type V = ActionModel;

    open spec fn view(&self) -> ActionModel {
        match self {
            ListingAction::FetchRepoCount(u) => ActionModel::FetchRepoCount(u@),
            ListingAction::FetchPage(u) => ActionModel::FetchPage(u@),
            ListingAction::Done => ActionModel::Done,
            ListingAction::Abort(e) => ActionModel::Abort(*e),
        }
    }
}

/// The state of a listing, as the contracts see it.
pub struct ListingModel {
    pub user: Seq<char>,
    pub policy: ListingPolicy,
    pub phase: ListingPhase,
    pub repo_count: nat,
    pub pages_requested: nat,
    pub names: Seq<Seq<char>>,
    pub skipped: nat,
}

/// URL of an owner's record.
pub open spec fn user_url(user: Seq<char>) -> Seq<char> {
    "https://api.github.com/users/"@ + user
}

/// URL of page `page` (counted from one) of an owner's repository listing.
pub open spec fn page_url(user: Seq<char>, page: nat) -> Seq<char> {
    "https://api.github.com/users/"@ + user + "/repos?per_page=50&page="@ + decimal(page)
}


/// Names of the entries that are not forks, in order.
pub open spec fn kept_names(entries: Seq<(Seq<char>, bool)>) -> Seq<Seq<char>> {
    entries.filter_map(
        |e: (Seq<char>, bool)|
            if e.1 {
                None
            } else {
                Some(e.0)
            },
    )
}

/// Number of forks among the entries.
pub open spec fn skipped_count(entries: Seq<(Seq<char>, bool)>) -> nat {
    entries.filter(|e: (Seq<char>, bool)| e.1).len()
}

/// Most pages a listing reads for an owner who reports `count` repositories.
pub open spec fn max_pages(policy: ListingPolicy, count: nat) -> nat {
    match policy {
        ListingPolicy::PagesFromCount => count / (PAGE_SIZE as nat) + 1,
        ListingPolicy::TwoPages => 2,
    }
}

/// A listing that has not asked anything yet.
pub open spec fn listing_start(user: Seq<char>, policy: ListingPolicy) -> ListingModel {
    ListingModel {
        user,
        policy,
        phase: ListingPhase::AwaitingCount,
        repo_count: 0,
        pages_requested: 0,
        names: seq![],
        skipped: 0,
    }
}

/// A listing that fails with `e`, and the action that reports it.
pub open spec fn listing_failed(s: ListingModel, e: RemoteApiError) -> (ListingModel, ActionModel) {
    (ListingModel { phase: ListingPhase::Failed(e), ..s }, ActionModel::Abort(e))
}

/// How a listing in state `s` answers event `e`: its next state and what it asks for.
pub open spec fn listing_step(s: ListingModel, e: EventModel) -> (ListingModel, ActionModel) {
    match s.phase {
        ListingPhase::AwaitingCount => match e {
            EventModel::RepoCount(n) => {
                if n > MAX_PUBLIC_REPOS {
                    listing_failed(
                        ListingModel { repo_count: n as nat, ..s },
                        RemoteApiError::TooManyRepos { count: n },
                    )
                } else {
                    (
                        ListingModel {
                            phase: ListingPhase::AwaitingPage,
                            repo_count: n as nat,
                            pages_requested: 1,
                            ..s
                        },
                        ActionModel::FetchPage(page_url(s.user, 1)),
                    )
                }
            },
            EventModel::Page(_) => listing_failed(s, RemoteApiError::UnexpectedResponse),
            EventModel::RequestFailed => listing_failed(s, RemoteApiError::RequestFailed),
        },
        ListingPhase::AwaitingPage => match e {
            EventModel::Page(entries) => {
                if entries.len() > PAGE_SIZE {
                    listing_failed(s, RemoteApiError::UnexpectedResponse)
                } else {
                    let grown = ListingModel {
                        names: s.names + kept_names(entries),
                        skipped: s.skipped + skipped_count(entries),
                        ..s
                    };
                    if entries.len() < PAGE_SIZE || s.pages_requested >= max_pages(
                        s.policy,
                        s.repo_count,
                    ) {
                        (ListingModel { phase: ListingPhase::Finished, ..grown }, ActionModel::Done)
                    } else {
                        (
                            ListingModel { pages_requested: s.pages_requested + 1, ..grown },
                            ActionModel::FetchPage(page_url(s.user, s.pages_requested + 1)),
                        )
                    }
                }
            },
            EventModel::RepoCount(_) => listing_failed(s, RemoteApiError::UnexpectedResponse),
            EventModel::RequestFailed => listing_failed(s, RemoteApiError::RequestFailed),
        },
        ListingPhase::Finished => (s, ActionModel::Done),
        ListingPhase::Failed(err) => (s, ActionModel::Abort(err)),
    }
}

/// The counters of a listing, replaced as a whole on every step.
#[derive(Clone, Copy)]
struct ListingCounters {
    policy: ListingPolicy,
    phase: ListingPhase,
    repo_count: usize,
    pages_requested: usize,
    skipped: usize,
}

/// A listing of an owner's repositories, driven one response at a time.
pub struct UserRepoListing {
    user: String,
    names: Vec<String>,
    counters: ListingCounters,
}

impl View for UserRepoListing {
    type V = ListingModel;

    closed spec fn view(&self) -> ListingModel {
        ListingModel {
            user: self.user@,
            policy: self.counters.policy,
            phase: self.counters.phase,
            repo_count: self.counters.repo_count as nat,
            pages_requested: self.counters.pages_requested as nat,
            names: self.names@.map_values(|s: String| s@),
            skipped: self.counters.skipped as nat,
        }
    }
}

impl ListingCounters {
    #[verifier::type_invariant]
    spec fn bounded(&self) -> bool {
        &&& self.pages_requested <= 3
        &&& self.phase == ListingPhase::AwaitingCount ==> self.pages_requested == 0
            && self.skipped == 0
        &&& self.phase == ListingPhase::AwaitingPage ==> {
            &&& 1 <= self.pages_requested <= max_pages(self.policy, self.repo_count as nat)
            &&& self.repo_count <= MAX_PUBLIC_REPOS
            &&& self.skipped + PAGE_SIZE <= self.pages_requested * PAGE_SIZE
        }
    }
}

impl UserRepoListing {
    /// A listing of `user`'s repositories under `policy`, with its first request.
    pub fn start(user: &str, policy: ListingPolicy) -> (r: (UserRepoListing, ListingAction))
        ensures
            r.0@ == listing_start(user@, policy),
            r.1@ == ActionModel::FetchRepoCount(user_url(user@)),
    {
        let listing = UserRepoListing {
            user: String::from_str(user),
            names: Vec::new(),
            counters: ListingCounters {
                policy,
                phase: ListingPhase::AwaitingCount,
                repo_count: 0,
                pages_requested: 0,
                skipped: 0,
            },
        };
        proof {
            assert(listing@.names =~= seq![]);
        }
        let url = concat("https://api.github.com/users/", user);
        (listing, ListingAction::FetchRepoCount(url))
    }

    /// The owner whose repositories are listed.
    pub fn user(&self) -> (r: &String)
        ensures
            r@ == self@.user,
    {
        &self.user
    }

    /// Where the listing stands.
    pub fn phase(&self) -> (r: ListingPhase)
        ensures
            r == self@.phase,
    {
        self.counters.phase
    }

    /// The repository count the owner reported (zero before it is known).
    pub fn repo_count(&self) -> (r: usize)
        ensures
            r == self@.repo_count,
    {
        self.counters.repo_count
    }

    /// Names kept so far, in listing order.
    pub fn names(&self) -> (r: &Vec<String>)
        ensures
            r@.map_values(|s: String| s@) == self@.names,
    {
        &self.names
    }

    /// Number of entries left out so far.
    pub fn skipped(&self) -> (r: usize)
        ensures
            r == self@.skipped,
    {
        self.counters.skipped
    }

    /// Feeds the answer to the last request; returns what to do next.
    pub fn step(&mut self, event: ListingEvent) -> (r: ListingAction)
        ensures
            (final(self)@, r@) == listing_step(old(self)@, event@),
    {
        proof {
            use_type_invariant(&self.counters);
        }
        let c = self.counters;
        match c.phase {
            ListingPhase::AwaitingCount => match event {
                ListingEvent::RepoCount(n) => {
                    if n > MAX_PUBLIC_REPOS {
                        let err = RemoteApiError::TooManyRepos { count: n };
                        self.counters = ListingCounters {
                            phase: ListingPhase::Failed(err),
                            repo_count: n,
                            ..c
                        };
                        ListingAction::Abort(err)
                    } else {
                        self.counters = ListingCounters {
                            policy: c.policy,
                            phase: ListingPhase::AwaitingPage,
                            repo_count: n,
                            pages_requested: 1,
                            skipped: 0,
                        };
                        ListingAction::FetchPage(self.page_url(1))
                    }
                },
                ListingEvent::Page(_) => self.fail(RemoteApiError::UnexpectedResponse),
                ListingEvent::RequestFailed => self.fail(RemoteApiError::RequestFailed),
            },
            ListingPhase::AwaitingPage => match event {
                ListingEvent::Page(entries) => self.absorb_page(entries),
                ListingEvent::RepoCount(_) => self.fail(RemoteApiError::UnexpectedResponse),
                ListingEvent::RequestFailed => self.fail(RemoteApiError::RequestFailed),
            },
            ListingPhase::Finished => ListingAction::Done,
            ListingPhase::Failed(err) => ListingAction::Abort(err),
        }
    }

    fn fail(&mut self, err: RemoteApiError) -> (r: ListingAction)
        ensures
            (final(self)@, r@) == listing_failed(old(self)@, err),
    {
        proof {
            use_type_invariant(&self.counters);
        }
        self.counters = ListingCounters { phase: ListingPhase::Failed(err), ..self.counters };
        ListingAction::Abort(err)
    }

    fn page_url(&self, page: usize) -> (r: String)
        ensures
            r@ == page_url(self@.user, page as nat),
    {
        let mut url = concat("https://api.github.com/users/", self.user.as_str());
        url.append("/repos?per_page=50&page=");
        let digits = usize_to_string(page);
        url.append(digits.as_str());
        url
    }

    fn absorb_page(&mut self, entries: Vec<RepoEntry>) -> (r: ListingAction)
        requires
            old(self)@.phase == ListingPhase::AwaitingPage,
        ensures
            (final(self)@, r@) == listing_step(
                old(self)@,
                EventModel::Page(entries@.map_values(|e: RepoEntry| e@)),
            ),
    {
        proof {
            use_type_invariant(&self.counters);
        }
        let ghost model = entries@.map_values(|e: RepoEntry| e@);
        if entries.len() > PAGE_SIZE {
            return self.fail(RemoteApiError::UnexpectedResponse);
        }
        let (kept, skipped) = filter_page(&entries);
        let ghost old_names = self.names@;
        let mut kept = kept;
        self.names.append(&mut kept);
        proof {
            assert(self.names@.map_values(|s: String| s@) =~= old_names.map_values(
                |s: String| s@,
            ) + kept_names(model));
        }
        let c = self.counters;
        let total_skipped = c.skipped + skipped;
        if entries.len() < PAGE_SIZE || c.pages_requested >= self.page_bound() {
            self.counters = ListingCounters {
                phase: ListingPhase::Finished,
                skipped: total_skipped,
                ..c
            };
            ListingAction::Done
        } else {
            let next_page = c.pages_requested + 1;
            self.counters = ListingCounters {
                pages_requested: next_page,
                skipped: total_skipped,
                ..c
            };
            ListingAction::FetchPage(self.page_url(next_page))
        }
    }

    fn page_bound(&self) -> (r: usize)
        requires
            self@.repo_count <= MAX_PUBLIC_REPOS,
        ensures
            r == max_pages(self@.policy, self@.repo_count),
    {
        match self.counters.policy {
            ListingPolicy::PagesFromCount => self.counters.repo_count / PAGE_SIZE + 1,
            ListingPolicy::TwoPages => 2,
        }
    }
}

/// Splits one page into the names of its non-forks and the number of forks.
pub fn filter_page(entries: &Vec<RepoEntry>) -> (r: (Vec<String>, usize))
    ensures
        r.0@.map_values(|s: String| s@) == kept_names(entries@.map_values(|e: RepoEntry| e@)),
        r.1 == skipped_count(entries@.map_values(|e: RepoEntry| e@)),
{
    let ghost model = entries@.map_values(|e: RepoEntry| e@);
    let mut kept: Vec<String> = Vec::new();
    let mut skipped: usize = 0;
    let mut i: usize = 0;
    while i < entries.len()
        invariant
            i <= entries.len(),
            model == entries@.map_values(|e: RepoEntry| e@),
            kept@.map_values(|s: String| s@) == kept_names(model.take(i as int)),
            skipped == skipped_count(model.take(i as int)),
            skipped <= i,
        decreases entries.len() - i,
    {
        let ghost prefix = model.take(i as int);
        let ghost next = model.take(i as int + 1);
        proof {
            assert(next.drop_last() =~= prefix);
            assert(next.last() == model[i as int]);
            reveal(Seq::filter);
        }
        let entry = &entries[i];
        if entry.fork {
            skipped = skipped + 1;
        } else {
            let ghost before = kept@;
            kept.push(entry.name.clone());
            proof {
                assert(kept@.map_values(|s: String| s@) =~= before.map_values(|s: String| s@).push(
                    entry.name@,
                ));
            }
        }
        i = i + 1;
    }
    proof {
        assert(model.take(entries.len() as int) =~= model);
    }
    (kept, skipped)
}

/// Starts listing `user`'s public repositories, forks left out.
pub fn list_github_user_repos(user: &str) -> (r: (UserRepoListing, ListingAction))
    ensures
        r.0@ == listing_start(user@, ListingPolicy::PagesFromCount),
        r.1@ == ActionModel::FetchRepoCount(user_url(user@)),
{
    UserRepoListing::start(user, ListingPolicy::PagesFromCount)
}

} // verus!

verus! {

/// Feeds `events` one after another to a listing in state `s`: the state
/// reached, and every action asked for on the way.
pub open spec fn run_listing(s: ListingModel, events: Seq<EventModel>) -> (ListingModel, Seq<ActionModel>)
    decreases events.len(),
{
    if events.len() == 0 {
        (s, seq![])
    } else {
        let (next, action) = listing_step(s, events[0]);
        let (last, rest) = run_listing(next, events.drop_first());
        (last, seq![action] + rest)
    }
}

/// Number of page requests among `actions`.
pub open spec fn page_requests(actions: Seq<ActionModel>) -> nat
    decreases actions.len(),
{
    if actions.len() == 0 {
        0
    } else {
        (if actions[0] is FetchPage { 1nat } else { 0nat }) + page_requests(actions.drop_first())
    }
}

/// The events that hand these pages over, in order.
pub open spec fn page_events(pages: Seq<Seq<(Seq<char>, bool)>>) -> Seq<EventModel> {
    pages.map_values(|p: Seq<(Seq<char>, bool)>| EventModel::Page(p))
}

/// A listing that has finished or failed stays as it is and asks for no page,
/// whatever it is fed.
pub proof fn lemma_settled_listing_is_final(s: ListingModel, events: Seq<EventModel>)
    requires
        s.phase == ListingPhase::Finished || s.phase is Failed,
    ensures
        run_listing(s, events).0 == s,
        page_requests(run_listing(s, events).1) == 0,
    decreases events.len(),
{
    if events.len() > 0 {
        lemma_settled_listing_is_final(s, events.drop_first());
        let (last, rest) = run_listing(s, events.drop_first());
        let all = seq![listing_step(s, events[0]).1] + rest;
        assert(all.drop_first() =~= rest);
    }
}

/// An owner who reports more public repositories than the ceiling makes the
/// listing fail with `TooManyRepos` right after the count, and no page is
/// requested then or later.
pub proof fn lemma_ceiling_stops_listing(
    user: Seq<char>,
    policy: ListingPolicy,
    count: usize,
    later: Seq<EventModel>,
)
    requires
        count > MAX_PUBLIC_REPOS,
    ensures
        listing_step(listing_start(user, policy), EventModel::RepoCount(count)).1
            == ActionModel::Abort(RemoteApiError::TooManyRepos { count }),
        run_listing(listing_start(user, policy), seq![EventModel::RepoCount(count)] + later).0.phase
            == ListingPhase::Failed(RemoteApiError::TooManyRepos { count }),
        page_requests(
            run_listing(listing_start(user, policy), seq![EventModel::RepoCount(count)] + later).1,
        ) == 0,
{
    let start = listing_start(user, policy);
    let events = seq![EventModel::RepoCount(count)] + later;
    let (failed, first) = listing_step(start, EventModel::RepoCount(count));
    assert(events[0] == EventModel::RepoCount(count));
    assert(events.drop_first() =~= later);
    lemma_settled_listing_is_final(failed, later);
    let rest = run_listing(failed, later).1;
    assert((seq![first] + rest).drop_first() =~= rest);
}

/// Paging from a listing that awaits page `s.pages_requested`: full pages
/// followed by one short page finish the listing with exactly one request
/// per page handed over, and nothing fed later asks for more.
proof fn lemma_pages_until_short(
    s: ListingModel,
    pages: Seq<Seq<(Seq<char>, bool)>>,
    later: Seq<EventModel>,
)
    requires
        s.phase == ListingPhase::AwaitingPage,
        s.pages_requested >= 1,
        pages.len() >= 1,
        s.pages_requested + pages.len() <= max_pages(s.policy, s.repo_count) + 1,
        forall|i: int| 0 <= i < pages.len() - 1 ==> #[trigger] pages[i].len() == PAGE_SIZE,
        pages.last().len() < PAGE_SIZE,
    ensures
        run_listing(s, page_events(pages) + later).0.phase == ListingPhase::Finished,
        run_listing(s, page_events(pages) + later).0.pages_requested == s.pages_requested
            + pages.len() - 1,
        page_requests(run_listing(s, page_events(pages) + later).1) == pages.len() - 1,
        run_listing(s, page_events(pages) + later).0.names == s.names + kept_names(pages.flatten()),
        run_listing(s, page_events(pages) + later).0.skipped == s.skipped + skipped_count(
            pages.flatten(),
        ),
    decreases pages.len(),
{
    let events = page_events(pages) + later;
    assert(events[0] == EventModel::Page(pages[0]));
    let (next, action) = listing_step(s, events[0]);
    let tail = pages.drop_first();
    lemma_kept_names_concat(pages[0], tail.flatten());
    if pages.len() == 1 {
        assert(tail.len() == 0);
        assert(pages.flatten() =~= pages[0]);
        assert(events.drop_first() =~= later);
        lemma_settled_listing_is_final(next, later);
        let rest = run_listing(next, later).1;
        assert((seq![action] + rest).drop_first() =~= rest);
    } else {
        assert(pages[0].len() == PAGE_SIZE);
        let tail = pages.drop_first();
        assert(tail.last() == pages.last());
        assert forall|i: int| 0 <= i < tail.len() - 1 implies #[trigger] tail[i].len() == PAGE_SIZE by {
            assert(tail[i] == pages[i + 1]);
        }
        assert(events.drop_first() =~= page_events(tail) + later);
        lemma_pages_until_short(next, tail, later);
        let rest = run_listing(next, page_events(tail) + later).1;
        assert((seq![action] + rest).drop_first() =~= rest);
        assert(pages.flatten() == pages[0] + tail.flatten());
        assert(s.names + kept_names(pages[0]) + kept_names(tail.flatten()) =~= s.names
            + kept_names(pages.flatten()));
    }
}

/// Kept names and fork counts add up over concatenated entries.
proof fn lemma_kept_names_concat(a: Seq<(Seq<char>, bool)>, b: Seq<(Seq<char>, bool)>)
    ensures
        kept_names(a + b) == kept_names(a) + kept_names(b),
        skipped_count(a + b) == skipped_count(a) + skipped_count(b),
    decreases b.len(),
{
    reveal(Seq::filter);
    if b.len() == 0 {
        assert(a + b =~= a);
        assert(kept_names(a) + kept_names(b) =~= kept_names(a));
    } else {
        lemma_kept_names_concat(a, b.drop_last());
        assert((a + b).drop_last() =~= a + b.drop_last());
        assert((a + b).last() == b.last());
        if !b.last().1 {
            assert(kept_names(a) + kept_names(b) =~= (kept_names(a) + kept_names(b.drop_last())).push(
                b.last().0,
            ));
        }
    }
}

/// Pagination ends at the first short page: after the count, full pages
/// followed by one page shorter than the page size (no more pages in all than
/// the count allows) finish the listing with exactly one request per page,
/// for pages 1 to k in order, and nothing fed later asks for another. The
/// names gathered are those of the non-fork entries of all pages, in order,
/// and the forks are counted.
pub proof fn lemma_pagination_stops_at_short_page(
    user: Seq<char>,
    policy: ListingPolicy,
    count: usize,
    pages: Seq<Seq<(Seq<char>, bool)>>,
    later: Seq<EventModel>,
)
    requires
        count <= MAX_PUBLIC_REPOS,
        1 <= pages.len() <= max_pages(policy, count as nat),
        forall|i: int| 0 <= i < pages.len() - 1 ==> #[trigger] pages[i].len() == PAGE_SIZE,
        pages.last().len() < PAGE_SIZE,
    ensures
        ({
            let (last, actions) = run_listing(
                listing_start(user, policy),
                seq![EventModel::RepoCount(count)] + page_events(pages) + later,
            );
            &&& last.phase == ListingPhase::Finished
            &&& last.pages_requested == pages.len()
            &&& page_requests(actions) == pages.len()
            &&& page_urls(actions) == page_url_run(user, 1, pages.len())
            &&& last.names == kept_names(pages.flatten())
            &&& last.skipped == skipped_count(pages.flatten())
            &&& last.names.len() + last.skipped == pages.flatten().len()
        }),
{
    let start = listing_start(user, policy);
    lemma_page_requests_in_order(user, policy, seq![EventModel::RepoCount(count)] + page_events(pages) + later);
    lemma_fork_filtering(pages.flatten());
    let events = seq![EventModel::RepoCount(count)] + page_events(pages) + later;
    assert(events[0] == EventModel::RepoCount(count));
    let (next, action) = listing_step(start, events[0]);
    assert(events.drop_first() =~= page_events(pages) + later);
    lemma_pages_until_short(next, pages, later);
    let rest = run_listing(next, page_events(pages) + later).1;
    assert((seq![action] + rest).drop_first() =~= rest);
}

/// Fork filtering: a page's forks are left out and counted, every other entry
/// is kept by name, in order, and kept plus skipped is the page's length.
pub proof fn lemma_fork_filtering(entries: Seq<(Seq<char>, bool)>)
    ensures
        kept_names(entries) == entries.filter(
            |e: (Seq<char>, bool)| !e.1,
        ).map_values(|e: (Seq<char>, bool)| e.0),
        kept_names(entries).len() + skipped_count(entries) == entries.len(),
    decreases entries.len(),
{
    reveal(Seq::filter);
    if entries.len() > 0 {
        lemma_fork_filtering(entries.drop_last());
        let keep = |e: (Seq<char>, bool)| !e.1;
        let prev = entries.drop_last().filter(keep);
        if !entries.last().1 {
            assert(entries.filter(keep) == prev.push(entries.last()));
            assert(prev.push(entries.last()).map_values(|e: (Seq<char>, bool)| e.0) =~= prev.map_values(
                |e: (Seq<char>, bool)| e.0,
            ).push(entries.last().0));
        }
    }
}

} // verus!

verus! {

/// URL of the GitHub repository `owner/repo`.
pub open spec fn repo_url(owner: Seq<char>, repo: Seq<char>) -> Seq<char> {
    "https://github.com/"@ + owner + "/"@ + repo + ".git"@
}

/// Where the mirror of `owner/repo` lives under the storage root.
pub open spec fn repo_mirror_path(owner: Seq<char>, repo: Seq<char>) -> Seq<char> {
    "github/"@ + owner + "/"@ + repo + ".git"@
}

/// The descriptor of the GitHub repository `owner/repo`.
pub open spec fn descriptor(owner: Seq<char>, repo: Seq<char>) -> RepoConfigModel {
    RepoConfigModel {
        url: repo_url(owner, repo),
        path: repo_mirror_path(owner, repo),
        mirror_urls: seq![],
    }
}

/// The shapes of a short identifier.
pub enum RepoIdModel {
    /// `owner/repo`: one separator.
    Repo(Seq<char>, Seq<char>),
    /// A bare owner name: no separator.
    Owner(Seq<char>),
    /// Anything else: empty, an empty owner or repository, or two separators or more.
    Invalid,
}

/// How a short identifier is read: split at `/`.
pub open spec fn parse_repo_id(id: Seq<char>) -> RepoIdModel {
    match char_index(id, '/') {
        None => if id.len() > 0 {
            RepoIdModel::Owner(id)
        } else {
            RepoIdModel::Invalid
        },
        Some(i) => {
            let repo = id.skip(i + 1 as int);
            if i > 0 && repo.len() > 0 && char_index(repo, '/') is None {
                RepoIdModel::Repo(id.take(i as int), repo)
            } else {
                RepoIdModel::Invalid
            }
        },
    }
}

/// Why an identifier could not be resolved.
#[derive(Clone, Copy, Debug, PartialEq, Eq, Structural)]
pub enum ResolveError {
    /// The identifier is not `owner/repo` nor a bare owner, both non-empty.
    InvalidId,
    /// Listing the owner's repositories failed.
    RemoteApi(RemoteApiError),
}

/// What an identifier resolves to.
pub enum Resolution {
    /// The repositories named, with their descriptors.
    Repos(Vec<RepoConfig>),
    /// An owner whose repositories are still to be listed: the listing and
    /// its first request.
    Listing(UserRepoListing, ListingAction),
}

/// The descriptors of `user`'s repositories `names`, in order, leaving out
/// a name whose mirror path would not stay below the storage root.
pub open spec fn user_descriptors(user: Seq<char>, names: Seq<Seq<char>>) -> Seq<RepoConfigModel> {
    names.filter_map(
        |n: Seq<char>|
            if is_mirror_path(repo_mirror_path(user, n)) {
                Some(descriptor(user, n))
            } else {
                None
            },
    )
}

/// For an owner and a repository name without `/`, the mirror path is
/// relative and stays below the storage root.
pub proof fn lemma_repo_mirror_path_stays_below_root(owner: Seq<char>, repo: Seq<char>)
    requires
        char_index(owner, '/') is None,
        char_index(repo, '/') is None,
    ensures
        is_mirror_path(repo_mirror_path(owner, repo)),
{
    lemma_char_index_facts(owner, '/');
    lemma_char_index_facts(repo, '/');
    reveal_strlit("github/");
    reveal_strlit("/");
    reveal_strlit(".git");
    let name = seq!['g', 'i', 't', 'h', 'u', 'b'];
    let empty = Seq::<char>::empty();
    lemma_walk_plain_suffix(empty, name);
    assert(empty + name =~= name);
    assert(last_segment(empty) =~= empty);
    assert(segment_step(name) == 1) by {
        assert(name.len() != seq!['.'].len());
        assert(name.len() != seq!['.', '.'].len());
    }
    lemma_walk_separator(name);
    let g = name.push('/');
    assert("github/"@ =~= g);
    lemma_walk_plain_suffix(g, owner);
    let go = g + owner;
    lemma_walk_separator(go);
    let gos = go.push('/');
    lemma_walk_plain_suffix(gos, repo);
    let gosr = gos + repo;
    lemma_walk_plain_suffix(gosr, ".git"@);
    let path = gosr + ".git"@;
    assert(repo_mirror_path(owner, repo) =~= path);
    let last = last_segment(path);
    assert(last =~= repo + ".git"@) by {
        assert(last_segment(gos) =~= empty);
        assert(last_segment(gosr) =~= repo);
    }
    assert(segment_step(last) == 1) by {
        assert(last.len() >= 4);
        assert(last.len() != seq!['.'].len());
        assert(last.len() != seq!['.', '.'].len());
    }
    assert(path[0] == 'g');
}

/// The descriptor of `owner/repo`, when its mirror path stays below the
/// storage root.
pub fn repo_descriptor(owner: &str, repo: &str) -> (r: Option<RepoConfig>)
    ensures
        match r {
            Some(c) => is_mirror_path(repo_mirror_path(owner@, repo@)) && c@ == descriptor(
                owner@,
                repo@,
            ),
            None => !is_mirror_path(repo_mirror_path(owner@, repo@)),
        },
{
    let url_head = concat("https://github.com/", owner);
    let url_mid = concat(url_head.as_str(), "/");
    let url_stem = concat(url_mid.as_str(), repo);
    let url = concat(url_stem.as_str(), ".git");
    let path_head = concat("github/", owner);
    let path_mid = concat(path_head.as_str(), "/");
    let path_stem = concat(path_mid.as_str(), repo);
    let path = concat(path_stem.as_str(), ".git");
    let no_fallbacks: Vec<String> = Vec::new();
    proof {
        assert(no_fallbacks@.map_values(|u: String| u@) =~= seq![]);
    }
    RepoConfig::new(url, path, no_fallbacks)
}

/// The descriptors of `user`'s repositories `names`, in order; a name whose
/// mirror path would climb above the storage root is left out.
pub fn repos_of_user(user: &str, names: &Vec<String>) -> (r: Vec<RepoConfig>)
    ensures
        r@.map_values(|c: RepoConfig| c@) == user_descriptors(
            user@,
            names@.map_values(|n: String| n@),
        ),
{
    let ghost model = names@.map_values(|n: String| n@);
    let mut out: Vec<RepoConfig> = Vec::new();
    let mut i: usize = 0;
    while i < names.len()
        invariant
            i <= names.len(),
            model == names@.map_values(|n: String| n@),
            out@.map_values(|c: RepoConfig| c@) == user_descriptors(user@, model.take(i as int)),
        decreases names.len() - i,
    {
        let ghost before = out@;
        proof {
            assert(model.take(i + 1 as int).drop_last() =~= model.take(i as int));
            assert(model.take(i + 1 as int).last() == names@[i as int]@);
        }
        match repo_descriptor(user, names[i].as_str()) {
            Some(cfg) => {
                out.push(cfg);
                proof {
                    assert(out@.map_values(|c: RepoConfig| c@) =~= before.map_values(
                        |c: RepoConfig| c@,
                    ).push(out@.last()@));
                }
            },
            None => {},
        }
        i = i + 1;
    }
    proof {
        assert(model.take(names.len() as int) =~= model);
    }
    out
}

/// Resolves a short identifier: `owner/repo` gives its one descriptor; a bare
/// owner gives the listing of their non-fork repositories, to be driven with
/// `UserRepoListing::step`; any other shape (an empty identifier, owner or
/// repository, or more than one `/`) is an error.
pub fn github_repos(id: &str) -> (r: Result<Resolution, ResolveError>)
    ensures
        match parse_repo_id(id@) {
            RepoIdModel::Repo(owner, repo) => r matches Ok(Resolution::Repos(v)) && v@.len() == 1
                && v@[0]@ == descriptor(owner, repo),
            RepoIdModel::Owner(owner) => r matches Ok(Resolution::Listing(l, a)) && l@
                == listing_start(owner, ListingPolicy::PagesFromCount) && a@ == ActionModel::FetchRepoCount(
                user_url(owner),
            ),
            RepoIdModel::Invalid => r == Err::<Resolution, ResolveError>(ResolveError::InvalidId),
        },
{
    let chars = str_chars(id);
    let c = chars.as_slice();
    match find_char(c, '/') {
        None => {
            if c.len() == 0 {
                return Err(ResolveError::InvalidId);
            }
            let (listing, first) = list_github_user_repos(id);
            Ok(Resolution::Listing(listing, first))
        },
        Some(i) => {
            let (head, tail) = c.split_at(i);
            let (_, rest) = tail.split_at(1);
            proof {
                assert(rest@ =~= c@.skip(i + 1 as int));
                assert(head@ =~= c@.take(i as int));
            }
            if i == 0 || rest.len() == 0 {
                return Err(ResolveError::InvalidId);
            }
            match find_char(rest, '/') {
                Some(_) => Err(ResolveError::InvalidId),
                None => {
                    let owner = string_from_chars(head);
                    let repo = string_from_chars(rest);
                    proof {
                        lemma_char_index_facts(c@, '/');
                        lemma_char_index(head@, '/', head@.len() as int);
                        lemma_repo_mirror_path_stays_below_root(owner@, repo@);
                    }
                    let cfg = match repo_descriptor(owner.as_str(), repo.as_str()) {
                        Some(cfg) => cfg,
                        None => {
                            return Err(ResolveError::InvalidId);
                        },
                    };
                    let mut v: Vec<RepoConfig> = Vec::new();
                    v.push(cfg);
                    Ok(Resolution::Repos(v))
                },
            }
        },
    }
}

} // verus!

verus! {

/// URLs of the page requests among `actions`, in order.
pub open spec fn page_urls(actions: Seq<ActionModel>) -> Seq<Seq<char>>
    decreases actions.len(),
{
    if actions.len() == 0 {
        seq![]
    } else {
        let rest = page_urls(actions.drop_first());
        match actions[0] {
            ActionModel::FetchPage(u) => seq![u] + rest,
            _ => rest,
        }
    }
}

/// The URLs of pages `first`, `first + 1`, … (`n` of them).
pub open spec fn page_url_run(user: Seq<char>, first: nat, n: nat) -> Seq<Seq<char>> {
    Seq::new(n, |j: int| page_url(user, (first + j) as nat))
}

/// What holds of every state a listing reaches from its start.
pub open spec fn listing_bounded(s: ListingModel) -> bool {
    &&& s.phase == ListingPhase::AwaitingCount ==> s.pages_requested == 0
    &&& s.phase == ListingPhase::AwaitingPage ==> 1 <= s.pages_requested
    &&& s.pages_requested <= max_pages(s.policy, s.repo_count)
    &&& s.pages_requested > 0 ==> s.repo_count <= MAX_PUBLIC_REPOS
}

proof fn lemma_run_requests_pages_in_order(s: ListingModel, events: Seq<EventModel>)
    requires
        listing_bounded(s),
    ensures
        ({
            let (last, actions) = run_listing(s, events);
            &&& listing_bounded(last)
            &&& last.user == s.user
            &&& last.policy == s.policy
            &&& last.pages_requested >= s.pages_requested
            &&& page_urls(actions) == page_url_run(
                s.user,
                s.pages_requested + 1,
                (last.pages_requested - s.pages_requested) as nat,
            )
        }),
    decreases events.len(),
{
    if events.len() == 0 {
        assert(page_url_run(s.user, s.pages_requested + 1, 0) =~= seq![]);
    } else {
        let (next, action) = listing_step(s, events[0]);
        assert(next.user == s.user && next.policy == s.policy);
        assert(listing_bounded(next));
        assert(next.pages_requested == s.pages_requested || (next.pages_requested
            == s.pages_requested + 1 && action == ActionModel::FetchPage(
            page_url(s.user, s.pages_requested + 1),
        )));
        assert(action is FetchPage ==> next.pages_requested == s.pages_requested + 1);
        lemma_run_requests_pages_in_order(next, events.drop_first());
        let (last, rest) = run_listing(next, events.drop_first());
        let all = seq![action] + rest;
        assert(all.drop_first() =~= rest);
        let n = (last.pages_requested - s.pages_requested) as nat;
        if action is FetchPage {
            assert(page_url_run(s.user, s.pages_requested + 1, n) =~= seq![
                page_url(s.user, s.pages_requested + 1),
            ] + page_url_run(next.user, next.pages_requested + 1, (n - 1) as nat));
        }
    }
}

/// Under any server behaviour, a listing asks for pages 1, 2, 3, … in this
/// order, and never for more pages than its bound allows: at most three.
pub proof fn lemma_page_requests_in_order(
    user: Seq<char>,
    policy: ListingPolicy,
    events: Seq<EventModel>,
)
    ensures
        ({
            let (last, actions) = run_listing(listing_start(user, policy), events);
            &&& page_urls(actions) == page_url_run(user, 1, last.pages_requested)
            &&& last.pages_requested <= max_pages(policy, last.repo_count)
            &&& last.pages_requested <= 3
        }),
{
    lemma_run_requests_pages_in_order(listing_start(user, policy), events);
    let last = run_listing(listing_start(user, policy), events).0;
    if last.pages_requested > 0 {
        assert(last.repo_count / (PAGE_SIZE as nat) <= 2);
    }
}

} // verus!
