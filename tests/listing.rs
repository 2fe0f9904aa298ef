use git_mirror::github::{
    github_repos, list_github_user_repos, repos_of_user, ListingAction, ListingEvent, ListingPhase,
    RemoteApiError, RepoEntry, Resolution, ResolveError, UserRepoListing,
};
use git_mirror::github_helper;

fn entries(n: usize, fork_every: usize) -> Vec<RepoEntry> {
    (0..n)
        .map(|i| RepoEntry { name: format!("r{}", i), fork: fork_every > 0 && i % fork_every == 0 })
        .collect()
}

fn page_url(user: &str, page: usize) -> String {
    format!("https://api.github.com/users/{}/repos?per_page=50&page={}", user, page)
}

fn expect_page(action: ListingAction) -> String {
    match action {
        ListingAction::FetchPage(url) => url,
        ListingAction::FetchRepoCount(url) => panic!("unexpected count request {}", url),
        ListingAction::Done => panic!("unexpected end"),
        ListingAction::Abort(e) => panic!("unexpected failure {:?}", e),
    }
}

fn counted(user: &str, count: usize) -> UserRepoListing {
    let (mut listing, first) = list_github_user_repos(user);
    match first {
        ListingAction::FetchRepoCount(url) => assert_eq!(url, format!("https://api.github.com/users/{}", user)),
        _ => panic!("listing must start with the count"),
    }
    assert_eq!(expect_page(listing.step(ListingEvent::RepoCount(count))), page_url(user, 1));
    listing
}

#[test]
fn too_many_repos_fails_without_pages() {
    let (mut listing, _) = list_github_user_repos("big");
    match listing.step(ListingEvent::RepoCount(101)) {
        ListingAction::Abort(e) => assert_eq!(e, RemoteApiError::TooManyRepos { count: 101 }),
        _ => panic!("expected the ceiling to stop the listing"),
    }
    match listing.step(ListingEvent::Page(entries(3, 0))) {
        ListingAction::Abort(e) => assert_eq!(e, RemoteApiError::TooManyRepos { count: 101 }),
        _ => panic!("a failed listing stays failed"),
    }
    assert_eq!(listing.phase(), ListingPhase::Failed(RemoteApiError::TooManyRepos { count: 101 }));
    assert!(listing.names().is_empty());
}

#[test]
fn ceiling_itself_is_allowed() {
    let mut listing = counted("edge", 100);
    assert_eq!(listing.repo_count(), 100);
    assert_eq!(expect_page(listing.step(ListingEvent::Page(entries(50, 0)))), page_url("edge", 2));
}

#[test]
fn stops_at_short_page() {
    let mut listing = counted("octo", 60);
    assert_eq!(expect_page(listing.step(ListingEvent::Page(entries(50, 0)))), page_url("octo", 2));
    assert!(matches!(listing.step(ListingEvent::Page(entries(10, 0))), ListingAction::Done));
    assert_eq!(listing.phase(), ListingPhase::Finished);
    assert_eq!(listing.names().len(), 60);
    assert!(matches!(listing.step(ListingEvent::Page(entries(50, 0))), ListingAction::Done));
    assert_eq!(listing.names().len(), 60);
}

#[test]
fn exact_multiple_reads_one_empty_page() {
    let mut listing = counted("even", 100);
    assert_eq!(expect_page(listing.step(ListingEvent::Page(entries(50, 0)))), page_url("even", 2));
    assert_eq!(expect_page(listing.step(ListingEvent::Page(entries(50, 0)))), page_url("even", 3));
    assert!(matches!(listing.step(ListingEvent::Page(Vec::new())), ListingAction::Done));
    assert_eq!(listing.names().len(), 100);
}

#[test]
fn page_bound_follows_reported_count() {
    let mut listing = counted("liar", 0);
    assert!(matches!(listing.step(ListingEvent::Page(entries(50, 0))), ListingAction::Done));
    assert_eq!(listing.names().len(), 50);
}

#[test]
fn forks_are_skipped_and_counted() {
    let mut listing = counted("forky", 7);
    let page = vec![
        RepoEntry { name: "a".to_string(), fork: false },
        RepoEntry { name: "b".to_string(), fork: true },
        RepoEntry { name: "c".to_string(), fork: false },
        RepoEntry { name: "d".to_string(), fork: true },
        RepoEntry { name: "e".to_string(), fork: true },
        RepoEntry { name: "f".to_string(), fork: false },
        RepoEntry { name: "g".to_string(), fork: false },
    ];
    assert!(matches!(listing.step(ListingEvent::Page(page)), ListingAction::Done));
    assert_eq!(listing.names(), &vec!["a".to_string(), "c".to_string(), "f".to_string(), "g".to_string()]);
    assert_eq!(listing.skipped(), 3);
    assert_eq!(listing.names().len() + listing.skipped(), 7);
}

#[test]
fn request_failure_aborts() {
    let mut listing = counted("flaky", 70);
    match listing.step(ListingEvent::RequestFailed) {
        ListingAction::Abort(e) => assert_eq!(e, RemoteApiError::RequestFailed),
        _ => panic!("expected an abort"),
    }
    let (mut other, _) = list_github_user_repos("flaky");
    match other.step(ListingEvent::RequestFailed) {
        ListingAction::Abort(e) => assert_eq!(e, RemoteApiError::RequestFailed),
        _ => panic!("expected an abort"),
    }
}

#[test]
fn unexpected_responses_abort() {
    let (mut listing, _) = list_github_user_repos("odd");
    match listing.step(ListingEvent::Page(entries(1, 0))) {
        ListingAction::Abort(e) => assert_eq!(e, RemoteApiError::UnexpectedResponse),
        _ => panic!("a page before the count is unexpected"),
    }
    let mut listing = counted("odd", 20);
    match listing.step(ListingEvent::Page(entries(51, 0))) {
        ListingAction::Abort(e) => assert_eq!(e, RemoteApiError::UnexpectedResponse),
        _ => panic!("a page larger than asked for is unexpected"),
    }
    let mut listing = counted("odd", 20);
    match listing.step(ListingEvent::RepoCount(3)) {
        ListingAction::Abort(e) => assert_eq!(e, RemoteApiError::UnexpectedResponse),
        _ => panic!("a second count is unexpected"),
    }
}

#[test]
fn helper_listing_skips_forks_and_reads_two_pages() {
    let (mut listing, first) = github_helper::list_github_user_repos("two");
    assert!(matches!(first, ListingAction::FetchRepoCount(_)));
    assert_eq!(expect_page(listing.step(ListingEvent::RepoCount(100))), page_url("two", 1));
    assert_eq!(expect_page(listing.step(ListingEvent::Page(entries(50, 2)))), page_url("two", 2));
    assert!(matches!(listing.step(ListingEvent::Page(entries(50, 2))), ListingAction::Done));
    assert_eq!(listing.names().len(), 50);
    assert_eq!(listing.skipped(), 50);
    assert!(listing.names().iter().all(|n| n.trim_start_matches('r').parse::<usize>().unwrap() % 2 == 1));
}

#[test]
fn helper_listing_leaves_out_a_lone_fork() {
    let (mut listing, _) = github_helper::list_github_user_repos("one");
    listing.step(ListingEvent::RepoCount(1));
    let page = vec![RepoEntry { name: "forked".to_string(), fork: true }];
    assert!(matches!(listing.step(ListingEvent::Page(page)), ListingAction::Done));
    assert!(listing.names().is_empty());
    assert_eq!(listing.skipped(), 1);
}

#[test]
fn helper_listing_has_the_same_ceiling() {
    let (mut listing, _) = github_helper::list_github_user_repos("big");
    match listing.step(ListingEvent::RepoCount(250)) {
        ListingAction::Abort(e) => assert_eq!(e, RemoteApiError::TooManyRepos { count: 250 }),
        _ => panic!("expected the ceiling to stop the listing"),
    }
}

#[test]
fn owner_and_repo_gives_one_descriptor() {
    match github_repos("octo/hello") {
        Ok(Resolution::Repos(v)) => {
            assert_eq!(v.len(), 1);
            assert_eq!(v[0].url(), "https://github.com/octo/hello.git");
            assert_eq!(v[0].path(), "github/octo/hello.git");
            assert!(v[0].mirror_urls().is_empty());
        }
        _ => panic!("expected one descriptor"),
    }
}

#[test]
fn same_identifier_same_descriptor() {
    let a = match github_repos("x/y") {
        Ok(Resolution::Repos(v)) => v[0].path().clone(),
        _ => panic!("expected one descriptor"),
    };
    let b = match github_repos("x/y") {
        Ok(Resolution::Repos(v)) => v[0].path().clone(),
        _ => panic!("expected one descriptor"),
    };
    assert_eq!(a, b);
    assert!(!a.starts_with('/'));
}

#[test]
fn bare_owner_starts_a_listing() {
    match github_repos("octo") {
        Ok(Resolution::Listing(listing, ListingAction::FetchRepoCount(url))) => {
            assert_eq!(url, "https://api.github.com/users/octo");
            assert_eq!(listing.user(), "octo");
            assert_eq!(listing.phase(), ListingPhase::AwaitingCount);
        }
        _ => panic!("expected a listing"),
    }
}

#[test]
fn two_separators_is_invalid() {
    assert!(matches!(github_repos("a/b/c"), Err(ResolveError::InvalidId)));
    assert!(matches!(github_repos("a//"), Err(ResolveError::InvalidId)));
}

#[test]
fn empty_parts_are_invalid() {
    assert!(matches!(github_repos(""), Err(ResolveError::InvalidId)));
    assert!(matches!(github_repos("/x"), Err(ResolveError::InvalidId)));
    assert!(matches!(github_repos("x/"), Err(ResolveError::InvalidId)));
    assert!(matches!(github_repos("/"), Err(ResolveError::InvalidId)));
}

#[test]
fn dot_dot_owner_stays_under_root() {
    match github_repos("../x") {
        Ok(Resolution::Repos(v)) => assert_eq!(v[0].path(), "github/../x.git"),
        _ => panic!("expected one descriptor"),
    }
}

#[test]
fn repos_of_user_builds_descriptors() {
    let v = repos_of_user("octo", &vec!["one".to_string(), "two".to_string()]);
    assert_eq!(v.len(), 2);
    assert_eq!(v[0].url(), "https://github.com/octo/one.git");
    assert_eq!(v[1].path(), "github/octo/two.git");
    assert!(repos_of_user("octo", &Vec::new()).is_empty());
}

#[test]
fn repos_of_user_leaves_out_escaping_names() {
    let names = vec!["ok".to_string(), "../../../etc".to_string(), "../fine".to_string()];
    let v = repos_of_user("octo", &names);
    assert_eq!(v.len(), 2);
    assert_eq!(v[0].path(), "github/octo/ok.git");
    assert_eq!(v[1].path(), "github/octo/../fine.git");
}
