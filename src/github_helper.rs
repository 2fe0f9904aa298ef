//! A second listing of an owner's repositories: forks left out, as in
//! `github`, under the same ceiling, but over at most two pages.
use vstd::prelude::*;

use crate::github::{listing_start, user_url, ActionModel, ListingAction, ListingPolicy, UserRepoListing};

verus! {

/// Starts listing `user`'s public repositories over at most two pages,
/// forks left out. Each page adds its non-fork names (`kept_names`) and its
/// fork count (`skipped_count`), as `listing_step` states. The caller compares
/// names plus skipped forks with `repo_count` to spot a partial listing.
pub fn list_github_user_repos(user: &str) -> (r: (UserRepoListing, ListingAction))
    ensures
        r.0@ == listing_start(user@, ListingPolicy::TwoPages),
        r.1@ == ActionModel::FetchRepoCount(user_url(user@)),
{
    UserRepoListing::start(user, ListingPolicy::TwoPages)
}

} // verus!
