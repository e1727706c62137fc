//! Checking for a newer release of the tool.
use vstd::prelude::*;
use crate::strings::{chars_eq, chars_of, sub_chars};

verus! {

/// Whether the latest release tag (such as "v1.4.3") names a version other
/// than the running one.  A tag without the leading "v" always does.
pub open spec fn is_other_version(latest: Seq<char>, current: Seq<char>) -> bool {
    !(latest.len() > 0 && latest[0] == 'v' && latest.drop_first() == current)
}

/// Whether to tell the user that another release is available
/// (`latest.strip_prefix("v") != Some(current)`).
pub fn is_update_available(latest: &str, current: &str) -> (r: bool)
    ensures
        r == is_other_version(latest@, current@),
{
    let l = chars_of(latest);
    let c = chars_of(current);
    if l.len() > 0 && l[0] == 'v' {
        let rest = sub_chars(&l, 1, l.len());
        assert(rest@ =~= latest@.drop_first());
        !chars_eq(&rest, &c)
    } else {
        true
    }
}

/// How long a step took, in the form it is reported.
#[derive(Debug, Clone, Copy, PartialEq, Eq, Structural)]
pub enum ElapsedReport {
    /// "done in <1ms"
    UnderOneMillisecond,
    /// "done in {n}ms"
    Milliseconds(u128),
    /// "done in {s:.1}s", with the seconds to one decimal place
    Seconds,
}

/// The form in which a duration of `secs` whole seconds (and `millis` whole
/// milliseconds in all) is reported.
pub fn elapsed_report(secs: u64, millis: u128) -> (r: ElapsedReport)
    ensures
        secs == 0 && millis == 0 ==> r == ElapsedReport::UnderOneMillisecond,
        secs == 0 && millis != 0 ==> r == ElapsedReport::Milliseconds(millis),
        secs != 0 ==> r == ElapsedReport::Seconds,
{
    if secs == 0 && millis == 0 {
        ElapsedReport::UnderOneMillisecond
    } else if secs == 0 {
        ElapsedReport::Milliseconds(millis)
    } else {
        ElapsedReport::Seconds
    }
}

/// The release tag of the running version ("v" and the version) never
/// prompts an update.
pub proof fn law_own_release_is_not_an_update(current: Seq<char>)
    ensures
        !is_other_version(seq!['v'] + current, current),
{
    assert((seq!['v'] + current).drop_first() =~= current);
}

} // verus!
