//! Update checks: whether a published release differs from the running
//! version, and whether the last check is recent enough to skip a new one.

use vstd::prelude::*;
use crate::text::owned;

verus! {

/// Seconds in a day.
pub const SECONDS_PER_DAY: u64 = 86400;

/// Days that must pass between two checks.
pub const CHECK_INTERVAL_DAYS: u64 = 1;

/// A release newer than the running version.
pub struct UpdateInfo {
    pub current_version: String,
    pub latest_version: String,
    pub is_update_available: bool,
    pub release_url: String,
    pub release_notes: String,
    pub last_checked: u64,
}

/// `tag` without the `v`s it starts with.
pub open spec fn version_of_tag(tag: Seq<char>) -> Seq<char>
    decreases tag.len(),
{
    if tag.len() > 0 && tag[0] == 'v' {
        version_of_tag(tag.drop_first())
    } else {
        tag
    }
}

/// Whether `latest` differs from `current`: any difference counts as an
/// update.
pub fn compare_versions(current: &str, latest: &str) -> (r: bool)
    ensures
        r == (current@ != latest@),
{
    let n = current.unicode_len();
    if n != latest.unicode_len() {
        return true;
    }
    let mut i: usize = 0;
    while i < n
        invariant
            n == current@.len(),
            n == latest@.len(),
            i <= n,
            forall|k: int| 0 <= k < i ==> current@[k] == latest@[k],
        decreases n - i,
    {
        if current.get_char(i) != latest.get_char(i) {
            return true;
        }
        i = i + 1;
    }
    assert(current@ =~= latest@);
    false
}

/// Whether a check is to be skipped at time `now`, the last one having been
/// made at `last_check` (both in seconds since the Unix epoch): less than a
/// day has passed since.
pub fn should_skip_check(last_check: u64, now: u64) -> (r: bool)
    ensures
        r == (last_check <= now && (now - last_check) / (SECONDS_PER_DAY as int)
            < CHECK_INTERVAL_DAYS),
{
    if now < last_check {
        return false;
    }
    let days_since_check = (now - last_check) / SECONDS_PER_DAY;
    days_since_check < CHECK_INTERVAL_DAYS
}

/// The version that a release tag names: the tag without its leading `v`s.
pub fn tag_version(tag: &str) -> (r: &str)
    ensures
        r@ == version_of_tag(tag@),
{
    let n = tag.unicode_len();
    let mut i: usize = 0;
    assert(tag@.subrange(0, n as int) =~= tag@);
    while i < n && tag.get_char(i) == 'v'
        invariant
            n == tag@.len(),
            i <= n,
            version_of_tag(tag@) == version_of_tag(tag@.subrange(i as int, n as int)),
        decreases n - i,
    {
        assert(tag@.subrange(i as int, n as int).drop_first() =~= tag@.subrange(i + 1, n as int));
        i = i + 1;
    }
    proof {
        if i < n {
            assert(tag@.subrange(i as int, n as int)[0] == tag@[i as int]);
        }
    }
    tag.substring_char(i, n)
}

/// What a fetched release means for the running version `current_version`:
/// an update, checked at `now`, when the release's version differs.
pub fn evaluate_release(
    current_version: &str,
    tag_name: &str,
    release_url: &str,
    release_notes: &str,
    now: u64,
) -> (r: Option<UpdateInfo>)
    ensures
        r is Some == (current_version@ != version_of_tag(tag_name@)),
        r is Some ==> ({
            let u = r->Some_0;
            &&& u.current_version@ == current_version@
            &&& u.latest_version@ == version_of_tag(tag_name@)
            &&& u.is_update_available
            &&& u.release_url@ == release_url@
            &&& u.release_notes@ == release_notes@
            &&& u.last_checked == now
        }),
{
    let latest = tag_version(tag_name);
    if compare_versions(current_version, latest) {
        Some(
            UpdateInfo {
                current_version: owned(current_version),
                latest_version: owned(latest),
                is_update_available: true,
                release_url: owned(release_url),
                release_notes: owned(release_notes),
                last_checked: now,
            },
        )
    } else {
        None
    }
}

} // verus!
