//! From the metadata of the host to an element.
//!
//! The host reports the times of an element as points on its own clock. An
//! element carries them as date-times in the local offset of the server,
//! where that offset can be found, and in UTC where it cannot. A time that
//! cannot be converted is left out of the element.

use vstd::prelude::*;
use std::time::{Duration, SystemTime};
use time::{OffsetDateTime, UtcOffset};
use crate::fs::{ElementView, FSElement};

verus! {

/// A point on the clock of the host, as its metadata reports it.
#[verifier::external_type_specification]
#[verifier::external_body]
pub struct ExSystemTime(SystemTime);

/// An offset from UTC, as `time` holds it.
#[verifier::external_type_specification]
#[verifier::external_body]
pub struct ExUtcOffset(UtcOffset);

/// The time that has passed since the Unix epoch at `time`, where `time` is not
/// before the epoch: what `SystemTime::duration_since` gives for the epoch.
pub uninterp spec fn since_epoch(time: SystemTime) -> Option<Duration>;

/// The whole seconds in `duration`: what `Duration::as_secs` gives.
pub uninterp spec fn whole_seconds(duration: Duration) -> u64;

/// The date-time in UTC that lies `timestamp` seconds after the Unix epoch,
/// where `time` supports it: what `OffsetDateTime::from_unix_timestamp`
/// gives.
pub uninterp spec fn utc_date_time(timestamp: i64) -> Option<OffsetDateTime>;

/// The same moment as `moment` in another offset, where `time` supports the
/// local date-time there: what `OffsetDateTime::checked_to_offset` gives.
pub uninterp spec fn in_offset(moment: OffsetDateTime, offset: UtcOffset) -> Option<
    OffsetDateTime,
>;

/// Calls `SystemTime::duration_since` with the Unix epoch, which fails where
/// `time` lies before the epoch. The contract names the result and claims
/// nothing else of it.
#[verifier::external_body]
fn duration_since_epoch(time: SystemTime) -> (elapsed: Option<Duration>)
    ensures
        elapsed == since_epoch(time),
{
    time.duration_since(SystemTime::UNIX_EPOCH).ok()
}

/// Calls `Duration::as_secs`. The contract names the result and claims
/// nothing else of it.
#[verifier::external_body]
fn seconds_of(duration: Duration) -> (seconds: u64)
    ensures
        seconds == whole_seconds(duration),
{
    duration.as_secs()
}

/// Calls `OffsetDateTime::from_unix_timestamp` of `time`, which fails where
/// the timestamp lies outside the years that the crate supports. The contract
/// names the result and claims nothing else of it.
#[verifier::external_body]
fn date_time_at(timestamp: i64) -> (moment: Option<OffsetDateTime>)
    ensures
        moment == utc_date_time(timestamp),
{
    OffsetDateTime::from_unix_timestamp(timestamp).ok()
}

/// Calls `UtcOffset::current_local_offset` of `time`, which asks the system
/// for its offset from UTC and fails where that cannot be determined. The
/// answer depends on the system and on the moment, so nothing is claimed of
/// it.
#[verifier::external_body]
fn local_offset() -> Option<UtcOffset> {
    UtcOffset::current_local_offset().ok()
}

/// Calls `OffsetDateTime::checked_to_offset` of `time`, which gives nothing
/// where the local date-time in the new offset lies outside the years that
/// the crate supports. The contract names the result and claims nothing else
/// of it.
#[verifier::external_body]
fn shift_to_offset(moment: OffsetDateTime, offset: UtcOffset) -> (shifted: Option<
    OffsetDateTime,
>)
    ensures
        shifted == in_offset(moment, offset),
{
    moment.checked_to_offset(offset)
}

/// Why a time of the host cannot be carried by an element.
#[derive(Debug, PartialEq, Eq, Clone, Copy)]
pub enum TimeError {
    /// The time lies before the Unix epoch: too small for conversion.
    TooSmall,
    /// The time lies more seconds after the epoch than a timestamp can
    /// count: too large for conversion.
    TooLarge,
    /// The time lies outside the years that date-times can stand for.
    OutOfRange,
}

/// The timestamp for the whole seconds that have passed since the Unix
/// epoch, `None` standing for a time before the epoch. A count of seconds
/// that a signed timestamp cannot hold is too large.
pub open spec fn timestamp_for(elapsed: Option<u64>) -> Result<i64, TimeError> {
    match elapsed {
        None => Err(TimeError::TooSmall),
        Some(seconds) => if seconds > i64::MAX {
            Err(TimeError::TooLarge)
        } else {
            Ok(seconds as i64)
        },
    }
}

/// The whole seconds that have passed since the Unix epoch at `time`, `None`
/// standing for a time before the epoch.
pub open spec fn elapsed_seconds(time: SystemTime) -> Option<u64> {
    match since_epoch(time) {
        Some(elapsed) => Some(whole_seconds(elapsed)),
        None => None,
    }
}

/// The date-time that stands for `time` where the local offset is `local`,
/// `None` standing for an offset that cannot be found: the whole seconds
/// since the epoch as a date-time in UTC, moved to the local offset if there
/// is one.
pub open spec fn converted(time: SystemTime, local: Option<UtcOffset>) -> Result<
    OffsetDateTime,
    TimeError,
> {
    match timestamp_for(elapsed_seconds(time)) {
        Err(refusal) => Err(refusal),
        Ok(timestamp) => match utc_date_time(timestamp) {
            None => Err(TimeError::OutOfRange),
            Some(moment) => match local {
                None => Ok(moment),
                Some(offset) => match in_offset(moment, offset) {
                    Some(shifted) => Ok(shifted),
                    None => Err(TimeError::OutOfRange),
                },
            },
        },
    }
}

/// The time that an element carries for what the host reports: nothing where
/// the host reports nothing or the time cannot be converted.
pub open spec fn carried(reported: Option<SystemTime>, local: Option<UtcOffset>) -> Option<
    OffsetDateTime,
> {
    match reported {
        Some(time) => match converted(time, local) {
            Ok(moment) => Some(moment),
            Err(_) => None,
        },
        None => None,
    }
}

/// The timestamp for the whole seconds that have passed since the Unix
/// epoch, `None` standing for a time before the epoch.
pub fn epoch_timestamp(elapsed: Option<u64>) -> (timestamp: Result<i64, TimeError>)
    ensures
        timestamp == timestamp_for(elapsed),
{
    match elapsed {
        None => Err(TimeError::TooSmall),
        Some(seconds) => {
            if seconds > i64::MAX as u64 {
                Err(TimeError::TooLarge)
            } else {
                Ok(seconds as i64)
            }
        },
    }
}

/// Converts a time of the host into a date-time in the offset `local`, or in
/// UTC where `local` is `None`.
pub fn convert_time_in(time: SystemTime, local: Option<UtcOffset>) -> (moment: Result<
    OffsetDateTime,
    TimeError,
>)
    ensures
        moment == converted(time, local),
{
    let elapsed = match duration_since_epoch(time) {
        Some(elapsed) => Some(seconds_of(elapsed)),
        None => None,
    };
    let timestamp = match epoch_timestamp(elapsed) {
        Ok(timestamp) => timestamp,
        Err(refusal) => {
            return Err(refusal);
        },
    };
    let moment = match date_time_at(timestamp) {
        Some(moment) => moment,
        None => {
            return Err(TimeError::OutOfRange);
        },
    };
    match local {
        None => Ok(moment),
        Some(offset) => match shift_to_offset(moment, offset) {
            Some(shifted) => Ok(shifted),
            None => Err(TimeError::OutOfRange),
        },
    }
}

/// Convert a time of the host into a date-time with the local offset. If the
/// local offset cannot be obtained, the date-time is in UTC.
pub fn convert_time(time: SystemTime) -> (moment: Result<OffsetDateTime, TimeError>)
    ensures
        exists|local: Option<UtcOffset>| moment == #[trigger] converted(time, local),
{
    // If we are capable of obtaining the system offset, use it to adjust the timestamp
    let local = local_offset();
    convert_time_in(time, local)
}

/// What the host reports of a file or directory: the two times on its own
/// clock, where it knows them, the size in bytes and the kind.
#[derive(Debug, PartialEq, Eq, Clone, Copy)]
pub struct HostMetadata {
    pub created: Option<SystemTime>,
    pub modified: Option<SystemTime>,
    pub size: u64,
    /// True for a file, false for a directory
    pub is_file: bool,
}

/// `element` stands under `name` for what the host reports: it carries the
/// name, the size and the kind, and the two times as they are converted for
/// some local offset.
pub open spec fn describes(element: ElementView, name: Seq<u8>, reported: HostMetadata) -> bool {
    exists|at_creation: Option<UtcOffset>, at_change: Option<UtcOffset>|
        element == (ElementView {
            name,
            created: #[trigger] carried(reported.created, at_creation),
            modified: #[trigger] carried(reported.modified, at_change),
            size: reported.size,
            is_file: reported.is_file,
        })
}

/// The element that stands for what the host reports under `name`: the size
/// and the kind as reported, and the two times converted where that is
/// possible.
pub fn element_from_metadata(
    name: Vec<u8>,
    created: Option<SystemTime>,
    modified: Option<SystemTime>,
    size: u64,
    is_file: bool,
) -> (element: FSElement)
    ensures
        describes(element@, name@, (HostMetadata { created, modified, size, is_file })),
{
    let ghost mut at_creation: Option<UtcOffset> = None;
    let ghost mut at_change: Option<UtcOffset> = None;
    let created_at = match created {
        Some(time) => {
            let local = local_offset();
            proof {
                at_creation = local;
            }
            match convert_time_in(time, local) {
                Ok(moment) => Some(moment),
                Err(_) => None,
            }
        },
        None => None,
    };
    let modified_at = match modified {
        Some(time) => {
            let local = local_offset();
            proof {
                at_change = local;
            }
            match convert_time_in(time, local) {
                Ok(moment) => Some(moment),
                Err(_) => None,
            }
        },
        None => None,
    };
    let element = FSElement { name, created: created_at, modified: modified_at, size, is_file };
    assert(element@ == (ElementView {
        name: name@,
        created: carried(created, at_creation),
        modified: carried(modified, at_change),
        size,
        is_file,
    }));
    element
}

} // verus!
