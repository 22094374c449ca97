use std::time::{Duration, SystemTime};

use simple_file_transfer_v2::fs::metadata::{
    convert_time, convert_time_in, element_from_metadata, epoch_timestamp, TimeError,
};
use time::{OffsetDateTime, UtcOffset};

fn after_epoch(seconds: u64) -> SystemTime {
    SystemTime::UNIX_EPOCH + Duration::from_secs(seconds)
}

#[test]
fn timestamps_count_seconds_since_the_epoch() {
    assert_eq!(epoch_timestamp(Some(0)), Ok(0));
    assert_eq!(epoch_timestamp(Some(1_546_300_800)), Ok(1_546_300_800));
    assert_eq!(epoch_timestamp(Some(9_223_372_036_854_775_807)), Ok(i64::MAX));
}

#[test]
fn timestamps_refuse_what_they_cannot_count() {
    assert_eq!(epoch_timestamp(None), Err(TimeError::TooSmall));
    assert_eq!(epoch_timestamp(Some(9_223_372_036_854_775_808)), Err(TimeError::TooLarge));
    assert_eq!(epoch_timestamp(Some(u64::MAX)), Err(TimeError::TooLarge));
}

#[test]
fn conversion_without_a_local_offset_is_in_utc() {
    assert_eq!(convert_time_in(SystemTime::UNIX_EPOCH, None), Ok(OffsetDateTime::UNIX_EPOCH));
    let converted = convert_time_in(after_epoch(1_546_300_800), None).unwrap();
    assert_eq!(converted.unix_timestamp(), 1_546_300_800);
    assert_eq!(converted.offset(), UtcOffset::UTC);
    assert_eq!((converted.year(), converted.ordinal(), converted.hour()), (2019, 1, 0));
}

#[test]
fn conversion_drops_the_fraction_of_a_second() {
    let time = SystemTime::UNIX_EPOCH + Duration::from_millis(5_999);
    let converted = convert_time_in(time, None).unwrap();
    assert_eq!(converted.unix_timestamp(), 5);
    assert_eq!(converted.nanosecond(), 0);
}

#[test]
fn conversion_moves_to_the_local_offset() {
    let offset = UtcOffset::from_hms(-1, 0, 0).unwrap();
    let converted = convert_time_in(after_epoch(946_684_800), Some(offset)).unwrap();
    assert_eq!(converted.unix_timestamp(), 946_684_800);
    assert_eq!(converted.offset(), offset);
    assert_eq!((converted.year(), converted.hour()), (1999, 23));
}

#[test]
fn conversion_refuses_times_before_the_epoch() {
    let time = SystemTime::UNIX_EPOCH - Duration::from_secs(1);
    assert_eq!(convert_time_in(time, None), Err(TimeError::TooSmall));
    assert_eq!(convert_time(time), Err(TimeError::TooSmall));
}

#[test]
fn conversion_refuses_years_beyond_the_calendar() {
    let last = 253_402_300_799;
    assert!(convert_time_in(after_epoch(last), None).is_ok());
    assert_eq!(convert_time_in(after_epoch(last + 1), None), Err(TimeError::OutOfRange));
    let east = UtcOffset::from_hms(1, 0, 0).unwrap();
    assert_eq!(convert_time_in(after_epoch(last), Some(east)), Err(TimeError::OutOfRange));
}

#[test]
fn conversion_with_the_system_offset_keeps_the_moment() {
    let converted = convert_time(after_epoch(1_000_000_000)).unwrap();
    assert_eq!(converted.unix_timestamp(), 1_000_000_000);
}

#[test]
fn elements_carry_what_the_host_reports() {
    let element = element_from_metadata(
        b"a.txt".to_vec(),
        Some(after_epoch(10)),
        Some(SystemTime::UNIX_EPOCH - Duration::from_secs(10)),
        42,
        true,
    );
    assert_eq!(element.name, b"a.txt".to_vec());
    assert_eq!(element.created.map(|created| created.unix_timestamp()), Some(10));
    assert_eq!(element.modified, None);
    assert_eq!(element.size, 42);
    assert!(element.is_file);
    let bare = element_from_metadata(b"d".to_vec(), None, None, 0, false);
    assert_eq!((bare.created, bare.modified, bare.size, bare.is_file), (None, None, 0, false));
}
