use git_mirror::config::{default_storage_dir, AppConfig};
use git_mirror::github::{github_repos, Resolution};
use git_mirror::mirror::{
    check_mirror_path, FetchSource, RepoConfig, RepoMirror, SyncAction, SyncError, SyncEvent, SyncPhase,
};

fn config(path: &str, fallbacks: Vec<String>) -> RepoConfig {
    RepoConfig::new("https://example.com/a/b.git".to_string(), path.to_string(), fallbacks)
        .expect("valid mirror path")
}

fn finish(action: SyncAction) -> Result<(), SyncError> {
    match action {
        SyncAction::Finish(r) => r,
        _ => panic!("expected the sync to finish"),
    }
}

#[test]
fn mirror_paths_are_checked() {
    assert!(check_mirror_path("github/o/r.git"));
    assert!(check_mirror_path("a"));
    assert!(!check_mirror_path(""));
    assert!(!check_mirror_path("/abs/r.git"));
    assert!(!check_mirror_path("a/"));
    assert!(!check_mirror_path("a/."));
    assert!(!check_mirror_path("a/.."));
    assert!(check_mirror_path("a/..b"));
    assert!(check_mirror_path("a/../b"));
    assert!(check_mirror_path("./a//b"));
    assert!(!check_mirror_path("../x"));
    assert!(!check_mirror_path("a/../../x"));
    assert!(!check_mirror_path("a/../.."));
    assert!(check_mirror_path("github/../x.git"));
    assert!(RepoConfig::new("u".to_string(), "/x".to_string(), Vec::new()).is_none());
}

#[test]
fn mirror_dir_joins_root_and_path() {
    let m = RepoMirror::new(config("github/o/r.git", Vec::new()), "/srv/mirrors");
    assert_eq!(m.repo_dir(), "/srv/mirrors/github/o/r.git");
    let m = RepoMirror::new(config("github/o/r.git", Vec::new()), "/srv/mirrors/");
    assert_eq!(m.repo_dir(), "/srv/mirrors/github/o/r.git");
    let m = RepoMirror::new(config("plain/name", Vec::new()), "root");
    assert_eq!(m.repo_dir(), "root/plain/name.git");
    let m = RepoMirror::new(config(".hidden", Vec::new()), "");
    assert_eq!(m.repo_dir(), ".hidden.git");
    let m = RepoMirror::new(config("v1.2/tool.tar", Vec::new()), "r");
    assert_eq!(m.repo_dir(), "r/v1.2/tool.tar");
}

#[test]
fn first_sync_initializes_then_fetches() {
    let m = RepoMirror::new(config("a/b.git", Vec::new()), "/m");
    let (mut run, first) = m.sync();
    assert!(matches!(first, SyncAction::CheckPath));
    match run.step(&m, SyncEvent::PathExists(false)) {
        SyncAction::Initialize { remote_url, refspec } => {
            assert_eq!(remote_url, "https://example.com/a/b.git");
            assert_eq!(refspec, "+refs/*:refs/*");
        }
        _ => panic!("a missing mirror is initialised"),
    }
    assert!(matches!(run.step(&m, SyncEvent::Initialized(true)), SyncAction::ReadOrigin));
    match run.step(&m, SyncEvent::OriginUrl(Some("https://example.com/a/b.git".to_string()))) {
        SyncAction::Fetch { source, refspecs } => {
            assert!(matches!(source, FetchSource::Origin));
            assert_eq!(refspecs, vec!["+refs/heads/*:refs/heads/*".to_string(), "+refs/tags/*:refs/tags/*".to_string()]);
        }
        _ => panic!("expected a fetch"),
    }
    assert_eq!(finish(run.step(&m, SyncEvent::Fetched(true))), Ok(()));
    assert_eq!(run.phase(), SyncPhase::Synced);
}

#[test]
fn existing_mirror_skips_initialization() {
    let m = RepoMirror::new(config("a/b.git", Vec::new()), "/m");
    for _ in 0..2 {
        let (mut run, _) = m.sync();
        assert!(matches!(run.step(&m, SyncEvent::PathExists(true)), SyncAction::ReadOrigin));
        assert!(matches!(
            run.step(&m, SyncEvent::OriginUrl(Some("https://example.com/a/b.git".to_string()))),
            SyncAction::Fetch { .. }
        ));
        assert_eq!(finish(run.step(&m, SyncEvent::Fetched(true))), Ok(()));
    }
}

#[test]
fn origin_drift_fails_without_fetch() {
    let m = RepoMirror::new(config("a/b.git", Vec::new()), "/m");
    let (mut run, _) = m.sync();
    run.step(&m, SyncEvent::PathExists(true));
    let r = run.step(&m, SyncEvent::OriginUrl(Some("https://example.com/other.git".to_string())));
    assert_eq!(finish(r), Err(SyncError::OriginDrift));
    assert_eq!(finish(run.step(&m, SyncEvent::Fetched(true))), Err(SyncError::OriginDrift));
    assert_eq!(run.phase(), SyncPhase::Failed(SyncError::OriginDrift));
}

#[test]
fn init_failure_is_terminal() {
    let m = RepoMirror::new(config("a/b.git", Vec::new()), "/m");
    let (mut run, _) = m.sync();
    run.step(&m, SyncEvent::PathExists(false));
    assert_eq!(finish(run.step(&m, SyncEvent::Initialized(false))), Err(SyncError::Init));
    assert_eq!(finish(run.step(&m, SyncEvent::Initialized(true))), Err(SyncError::Init));
}

#[test]
fn fetch_failures_are_reported() {
    let m = RepoMirror::new(config("a/b.git", Vec::new()), "/m");
    let (mut run, _) = m.sync();
    run.step(&m, SyncEvent::PathExists(true));
    assert_eq!(finish(run.step(&m, SyncEvent::OriginUrl(None))), Err(SyncError::Fetch));
    let (mut run, _) = m.sync();
    run.step(&m, SyncEvent::PathExists(true));
    run.step(&m, SyncEvent::OriginUrl(Some("https://example.com/a/b.git".to_string())));
    assert_eq!(finish(run.step(&m, SyncEvent::Fetched(false))), Err(SyncError::Fetch));
}

#[test]
fn outcome_out_of_turn_repeats_the_request() {
    let m = RepoMirror::new(config("a/b.git", Vec::new()), "/m");
    let (mut run, _) = m.sync();
    assert!(matches!(run.step(&m, SyncEvent::Fetched(true)), SyncAction::CheckPath));
    assert_eq!(run.phase(), SyncPhase::CheckingPath);
}

#[test]
fn fallback_url_is_fetched_first() {
    let m = RepoMirror::new(
        config("a/b.git", vec!["https://mirror.one/b.git".to_string(), "https://mirror.two/b.git".to_string()]),
        "/m",
    );
    let (mut run, _) = m.sync();
    run.step(&m, SyncEvent::PathExists(true));
    match run.step(&m, SyncEvent::OriginUrl(Some("https://example.com/a/b.git".to_string()))) {
        SyncAction::Fetch { source: FetchSource::Url(u), .. } => assert_eq!(u, "https://mirror.one/b.git"),
        _ => panic!("expected a fetch from the first fallback"),
    }
}

#[test]
fn resolved_descriptor_makes_mirror_under_root() {
    let cfg = match github_repos("octo/hello") {
        Ok(Resolution::Repos(mut v)) => v.remove(0),
        _ => panic!("expected one descriptor"),
    };
    let m = RepoMirror::new(cfg, "./mirrors");
    assert_eq!(m.repo_dir(), "./mirrors/github/octo/hello.git");
    assert_eq!(m.config().url(), "https://github.com/octo/hello.git");
}

#[test]
fn default_configuration() {
    assert_eq!(default_storage_dir(), "./mirrors");
    let c = AppConfig::new(vec!["octo".to_string()]);
    assert_eq!(c.storage_dir, "./mirrors");
    assert_eq!(c.mirrors, vec!["octo".to_string()]);
}
