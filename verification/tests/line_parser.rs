use chrono::{NaiveDate, NaiveDateTime};
use rsynclog::line::{
    find_byte, read_kind, split_fields, starts_with, token_of, RsyncLogKind, RsyncLogLine,
    KIND_WIDTH,
};
use rsynclog::timestamp::{
    is_timestamp_shaped, read_timestamp, separator, TIMESTAMP_MAX, TIMESTAMP_MIN, TIMESTAMP_WIDTH,
};

fn seconds(year: i32, month: u32, day: u32, hour: u32, minute: u32, second: u32) -> i64 {
    NaiveDate::from_ymd_opt(year, month, day)
        .unwrap()
        .and_hms_opt(hour, minute, second)
        .unwrap()
        .and_utc()
        .timestamp()
}

#[test]
fn parses_a_file_line() {
    let line = "2023/07/04 03:50:55 [14417] >f+++++++++ projects/临时/xvd0605/20191/tps/boost_1_64_0/boost/signals2/detail/auto_buffer.hpp\n";
    let entry = RsyncLogLine::new(line.as_bytes()).unwrap();
    assert_eq!(entry.time, seconds(2023, 7, 4, 3, 50, 55));
    assert_eq!(entry.kind, RsyncLogKind::FP);
    assert_eq!(
        entry.path,
        "projects/临时/xvd0605/20191/tps/boost_1_64_0/boost/signals2/detail/auto_buffer.hpp"
            .as_bytes()
            .to_vec()
    );
}

#[test]
fn parses_a_directory_line() {
    let line = "2023/07/04 03:50:55 [14417] cd+++++++++ projects/临时/xvd0605/20191/tps/boost_1_64_0/boost/serialization/\n";
    let entry = RsyncLogLine::new(line.as_bytes()).unwrap();
    assert_eq!(entry.time, 1688442655);
    assert_eq!(entry.kind, RsyncLogKind::CD);
    assert_eq!(
        entry.path,
        "projects/临时/xvd0605/20191/tps/boost_1_64_0/boost/serialization/".as_bytes().to_vec()
    );
}

#[test]
fn timestamp_counts_seconds_from_1970() {
    let entry = RsyncLogLine::new(b"1970/01/01 00:00:00 [1] >f+++++++++ a\n").unwrap();
    assert_eq!(entry.time, 0);
    let entry = RsyncLogLine::new(b"1970/01/02 00:00:01 [1] >f+++++++++ a\n").unwrap();
    assert_eq!(entry.time, 86_401);
    let entry = RsyncLogLine::new(b"1969/12/31 23:59:59 [1] >f+++++++++ a\n").unwrap();
    assert_eq!(entry.time, -1);
}

#[test]
fn rejects_a_banner() {
    assert!(RsyncLogLine::new(b"2023/07/04 03:40:27 [14417] building file list\n").is_none());
    assert!(RsyncLogLine::new(
        b"2023/07/04 03:52:01 [14417] sent 1024 bytes  received 35 bytes  total size 4096\n"
    )
    .is_none());
}

#[test]
fn terminator_may_be_missing() {
    let with = RsyncLogLine::new(b"2023/07/04 03:50:55 [14417] >f+++++++++ a/b.txt\n").unwrap();
    let without = RsyncLogLine::new(b"2023/07/04 03:50:55 [14417] >f+++++++++ a/b.txt").unwrap();
    assert_eq!(with.path, b"a/b.txt".to_vec());
    assert_eq!(without.path, b"a/b.txt".to_vec());
    assert_eq!(with.time, without.time);
    assert_eq!(with.kind, without.kind);
}

#[test]
fn only_the_line_feed_is_a_terminator() {
    let entry = RsyncLogLine::new(b"2023/07/04 03:50:55 [14417] >f+++++++++ a/b.txt\r\n").unwrap();
    assert_eq!(entry.path, b"a/b.txt\r".to_vec());
}

#[test]
fn rejects_a_line_that_stops_short() {
    assert!(RsyncLogLine::new(b"").is_none());
    assert!(RsyncLogLine::new(b"\n").is_none());
    assert!(RsyncLogLine::new(b"2023/07/04 03:50:55 [14417]").is_none());
    assert!(RsyncLogLine::new(b"2023/07/04 03:50:55 [14417]\n").is_none());
    assert!(RsyncLogLine::new(b"2023/07/04 03:50:55 [14417] >f+++\n").is_none());
    assert!(RsyncLogLine::new(b"2023/07/04 03:50:55 [14417] >f+++++++++").is_none());
    assert!(RsyncLogLine::new(b"2023/07/04 03:50:55 [14417] >f+++++++++\n").is_none());
}

#[test]
fn rejects_an_empty_path() {
    assert!(RsyncLogLine::new(b"2023/07/04 03:50:55 [14417] >f+++++++++ \n").is_none());
    assert!(RsyncLogLine::new(b"2023/07/04 03:50:55 [14417] >f+++++++++ ").is_none());
    let entry = RsyncLogLine::new(b"2023/07/04 03:50:55 [14417] >f+++++++++ x\n").unwrap();
    assert_eq!(entry.path, b"x".to_vec());
}

#[test]
fn rejects_a_line_without_brackets() {
    assert!(RsyncLogLine::new(b"2023/07/04 03:50:55 14417 >f+++++++++ a/b.txt\n").is_none());
    assert!(RsyncLogLine::new(b"2023/07/04 03:50:55 [14417 >f+++++++++ a/b.txt\n").is_none());
    assert!(RsyncLogLine::new(b"2023/07/04 03:50:55 14417] >f+++++++++ a/b.txt\n").is_none());
    assert!(RsyncLogLine::new(b"2023/07/04 03:50:55 ]14417[ >f+++++++++ a/b.txt\n").is_none());
}

#[test]
fn rejects_a_malformed_timestamp() {
    assert!(RsyncLogLine::new(b"2023/13/04 03:50:55 [14417] >f+++++++++ a\n").is_none());
    assert!(RsyncLogLine::new(b"2023/02/30 03:50:55 [14417] >f+++++++++ a\n").is_none());
    assert!(RsyncLogLine::new(b"2023/07/04 24:00:00 [14417] >f+++++++++ a\n").is_none());
    assert!(RsyncLogLine::new(b"2023-07-04 03:50:55 [14417] >f+++++++++ a\n").is_none());
    assert!(RsyncLogLine::new(b"2023/07/04 03:50 [14417] >f+++++++++ a\n").is_none());
    assert!(RsyncLogLine::new(b"2023/07/04 03:50:55.5 [14417] >f+++++++++ a\n").is_none());
    assert!(RsyncLogLine::new(b"2023/07/04 03:50:55 +0800 [14417] >f+++++++++ a\n").is_none());
    assert!(RsyncLogLine::new(b"yesterday [14417] >f+++++++++ a\n").is_none());
    assert!(RsyncLogLine::new(b" [14417] >f+++++++++ a\n").is_none());
    assert!(RsyncLogLine::new(b"[14417] >f+++++++++ a\n").is_none());
}

#[test]
fn rejects_a_timestamp_that_is_not_text() {
    let mut line = vec![0xff, 0xfe];
    line.extend_from_slice(b"2023/07/04 03:50:55 [14417] >f+++++++++ a\n");
    assert!(RsyncLogLine::new(&line).is_none());
    assert!(read_timestamp(&[0xc3, 0x28]).is_none());
}

#[test]
fn one_space_parts_the_timestamp_from_the_bracket() {
    let entry = RsyncLogLine::new(b"2023/07/04 03:50:55 [14417] >f+++++++++ a\n").unwrap();
    assert_eq!(entry.time, 1688442655);
    assert!(RsyncLogLine::new(b"2023/07/04 03:50:55[14417] >f+++++++++ a\n").is_none());
    assert!(RsyncLogLine::new(b"2023/07/04 03:50:55  [14417] >f+++++++++ a\n").is_none());
    assert!(RsyncLogLine::new(b"2023/07/04 03:50:55\t[14417] >f+++++++++ a\n").is_none());
    assert!(RsyncLogLine::new(b"2023/07/04 03:50:55\t [14417] >f+++++++++ a\n").is_none());
    assert!(RsyncLogLine::new(b"2023/07/04 03:50:55 \t[14417] >f+++++++++ a\n").is_none());
    assert!(RsyncLogLine::new(b"2023/07/04 03:50:55_[14417] >f+++++++++ a\n").is_none());
    assert!(RsyncLogLine::new(b"[14417] >f+++++++++ a\n").is_none());
    assert!(RsyncLogLine::new(b" [14417] >f+++++++++ a\n").is_none());
}

#[test]
fn the_timestamp_field_is_read_as_it_stands() {
    assert_eq!(read_timestamp(b"2023/07/04 03:50:55"), Some(1688442655));
    assert_eq!(read_timestamp(b"2023/07/04 03:50:55 "), None);
    assert_eq!(read_timestamp(b"2023/07/04 03:50:55\n"), None);
    assert_eq!(read_timestamp(b"2023/07/04 03:50:55x"), None);
    assert_eq!(read_timestamp(b""), None);
}

#[test]
fn rejects_an_unknown_kind() {
    assert!(RsyncLogLine::new(b"2023/07/04 03:50:55 [14417] cL+++++++++ a -> b\n").is_none());
    assert!(RsyncLogLine::new(b"2023/07/04 03:50:55 [14417] >f.st...... a/b.txt\n").is_none());
    assert!(RsyncLogLine::new(b"2023/07/04 03:50:55 [14417] *deleting   a/b.txt\n").is_none());
    assert!(RsyncLogLine::new(b"2023/07/04 03:50:55 [14417]>f+++++++++ a/b.txt\n").is_none());
    assert!(RsyncLogLine::new(b"2023/07/04 03:50:55 [14417]  >f+++++++++ a/b.txt\n").is_none());
}

#[test]
fn rejects_a_path_that_is_not_set_off_by_a_space() {
    assert!(RsyncLogLine::new(b"2023/07/04 03:50:55 [14417] >f+++++++++/a/b.txt\n").is_none());
    assert!(RsyncLogLine::new(b"2023/07/04 03:50:55 [14417] >f++++++++++a/b.txt\n").is_none());
}

#[test]
fn path_is_taken_byte_for_byte() {
    let mut line = b"2023/07/04 03:50:55 [14417] >f+++++++++ ".to_vec();
    let path = vec![b' ', 0xff, b'[', b']', 0x00, b'\\', b'n', b' '];
    line.extend_from_slice(&path);
    line.push(b'\n');
    let entry = RsyncLogLine::new(&line).unwrap();
    assert_eq!(entry.path, path);
}

#[test]
fn cuts_at_the_first_brackets() {
    let entry = RsyncLogLine::new(b"2023/07/04 03:50:55 [1]] >f+++++++++ a\n");
    assert!(entry.is_none());
    let entry = RsyncLogLine::new(b"2023/07/04 03:50:55 [[1] >f+++++++++ a[1]/b]\n").unwrap();
    assert_eq!(entry.path, b"a[1]/b]".to_vec());
    let entry = RsyncLogLine::new(b"2023/07/04 03:50:55 [] cd+++++++++ a\n").unwrap();
    assert_eq!(entry.kind, RsyncLogKind::CD);
}

#[test]
fn split_fields_gives_the_three_fields() {
    let line = b"2023/07/04 03:50:55 [14417] cd+++++++++ a/b/\n";
    let (stamp, kind, path) = split_fields(line).unwrap();
    assert_eq!(stamp, b"2023/07/04 03:50:55");
    assert_eq!(kind, RsyncLogKind::CD);
    assert_eq!(path, b"a/b/");
    assert!(RsyncLogLine::new(b"no time [x] >f+++++++++ p").is_none());
    let (stamp, kind, path) = split_fields(b"no time [x] >f+++++++++ p").unwrap();
    assert_eq!(stamp, b"no time");
    assert_eq!(kind, RsyncLogKind::FP);
    assert_eq!(path, b"p");
    assert!(split_fields(b"no time [x] >f+++++++++ ").is_none());
    assert!(split_fields(b"no time[x] >f+++++++++ p").is_none());
    let (stamp, _, _) = split_fields(b" [x] >f+++++++++ p").unwrap();
    assert_eq!(stamp, b"");
}

#[test]
fn a_second_of_sixty_counts_as_fifty_nine() {
    let leap = RsyncLogLine::new(b"2016/12/31 23:59:60 [1] >f+++++++++ a\n").unwrap();
    let before = RsyncLogLine::new(b"2016/12/31 23:59:59 [1] >f+++++++++ a\n").unwrap();
    assert_eq!(leap.time, before.time);
    assert!(RsyncLogLine::new(b"2016/12/31 23:59:61 [1] >f+++++++++ a\n").is_none());
}

#[test]
fn timestamps_stay_in_the_range_of_the_calendar() {
    assert_eq!(TIMESTAMP_MIN, NaiveDateTime::MIN.and_utc().timestamp());
    assert_eq!(TIMESTAMP_MAX, NaiveDateTime::MAX.and_utc().timestamp());
    let last = RsyncLogLine::new(b"9999/12/31 23:59:59 [1] >f+++++++++ a\n").unwrap();
    assert_eq!(last.time, seconds(9999, 12, 31, 23, 59, 59));
    assert_eq!(last.time, 253_402_300_799);
    let first = RsyncLogLine::new(b"0000/01/01 00:00:00 [1] >f+++++++++ a\n").unwrap();
    assert_eq!(first.time, seconds(0, 1, 1, 0, 0, 0));
    assert_eq!(first.time, -62_167_219_200);
    assert!(TIMESTAMP_MIN <= first.time && last.time <= TIMESTAMP_MAX);
}

#[test]
fn a_timestamp_is_written_in_nineteen_bytes() {
    assert_eq!(TIMESTAMP_WIDTH, 19);
    assert!(is_timestamp_shaped(b"2023/07/04 03:50:55"));
    assert!(is_timestamp_shaped(b"0000/00/00 00:00:00"));
    assert!(is_timestamp_shaped(b"9999/99/99 99:99:99"));
    assert!(!is_timestamp_shaped(b""));
    assert!(!is_timestamp_shaped(b"2023/07/04 03:50:5"));
    assert!(!is_timestamp_shaped(b"2023/07/04 03:50:555"));
    assert!(!is_timestamp_shaped(b"2023/7/4 3:50:55"));
    assert!(!is_timestamp_shaped(b"2023-07-04 03:50:55"));
    assert!(!is_timestamp_shaped(b"2023/07/04T03:50:55"));
    assert!(!is_timestamp_shaped(b"2023/07/04 03.50.55"));
    assert!(!is_timestamp_shaped(b"2023/07/04\t03:50:55"));
    assert!(!is_timestamp_shaped(b"+023/07/04 03:50:55"));
    assert!(!is_timestamp_shaped(b" 023/07/04 03:50:55"));
    assert!(!is_timestamp_shaped(b"2023/07/04 03:50:5x"));
    assert!(!is_timestamp_shaped(b"2023/07/04 03:50:5/"));
    assert!(!is_timestamp_shaped(b"2023/07/04 03:50:5:"));
    for place in 0..19 {
        let mut field = b"2023/07/04 03:50:55".to_vec();
        field[place] = b'a';
        assert!(!is_timestamp_shaped(&field));
        assert_eq!(read_timestamp(&field), None);
    }
    assert_eq!(separator(4), Some(b'/'));
    assert_eq!(separator(7), Some(b'/'));
    assert_eq!(separator(10), Some(b' '));
    assert_eq!(separator(13), Some(b':'));
    assert_eq!(separator(16), Some(b':'));
    assert_eq!(separator(0), None);
    assert_eq!(separator(18), None);
}

#[test]
fn a_timestamp_of_another_shape_is_rejected() {
    assert!(RsyncLogLine::new(b"2023/7/4 3:50:55 [1] >f+++++++++ a\n").is_none());
    assert!(RsyncLogLine::new(b" 2023/07/04 03:50:55 [1] >f+++++++++ a\n").is_none());
    assert!(RsyncLogLine::new(b"+2023/07/04 03:50:55 [1] >f+++++++++ a\n").is_none());
    assert!(RsyncLogLine::new(b"+262142/12/31 23:59:59 [1] >f+++++++++ a\n").is_none());
    assert!(RsyncLogLine::new(b"-0001/12/31 23:59:59 [1] >f+++++++++ a\n").is_none());
    assert!(RsyncLogLine::new(b"2023/07/04  03:50:55 [1] >f+++++++++ a\n").is_none());
}

#[test]
fn kind_tokens_are_twelve_bytes_wide() {
    assert_eq!(KIND_WIDTH, 12);
    assert_eq!(&token_of(RsyncLogKind::CD), b" cd+++++++++");
    assert_eq!(&token_of(RsyncLogKind::FP), b" >f+++++++++");
    assert_eq!(read_kind(b" cd+++++++++"), Some(RsyncLogKind::CD));
    assert_eq!(read_kind(b" >f+++++++++"), Some(RsyncLogKind::FP));
    assert_eq!(read_kind(b" cd++++++++."), None);
    assert_eq!(read_kind(b" >d+++++++++"), None);
    assert_eq!(read_kind(b"cd++++++++++"), None);
    assert_eq!(read_kind(b" cd++++++++"), None);
    assert_eq!(read_kind(b" cd++++++++++"), None);
    assert_eq!(read_kind(b""), None);
}

#[test]
fn find_byte_gives_the_first_place() {
    assert_eq!(find_byte(b"a[b[c", b'['), Some(1));
    assert_eq!(find_byte(b"[", b'['), Some(0));
    assert_eq!(find_byte(b"abc", b'['), None);
    assert_eq!(find_byte(b"", b'['), None);
}

#[test]
fn starts_with_compares_prefixes() {
    assert!(starts_with(b"a/b/c", b"a/b"));
    assert!(starts_with(b"a/b", b"a/b"));
    assert!(starts_with(b"a/b", b""));
    assert!(starts_with(b"", b""));
    assert!(!starts_with(b"a/b", b"a/b/c"));
    assert!(!starts_with(b"a/b", b"a/c"));
    assert!(!starts_with(b"", b"a"));
}

fn entry(path: &[u8]) -> RsyncLogLine {
    RsyncLogLine { time: 0, kind: RsyncLogKind::CD, path: path.to_vec() }
}

#[test]
fn is_root_of_compares_paths() {
    let root = entry("projects/临时/xvd0605/20191/tps/boost_1_64_0/boost/".as_bytes());
    let dir = entry("projects/临时/xvd0605/20191/tps/boost_1_64_0/boost/signals2/detail/".as_bytes());
    let file = entry(
        "projects/临时/xvd0605/20191/tps/boost_1_64_0/boost/signals2/detail/auto_buffer.hpp"
            .as_bytes(),
    );
    assert!(root.is_root_of(&dir));
    assert!(root.is_root_of(&file));
    assert!(dir.is_root_of(&file));
    assert!(!dir.is_root_of(&root));
    assert!(!file.is_root_of(&dir));
    assert!(root.is_root_of(&root));
}

#[test]
fn is_root_of_looks_at_bytes_only() {
    assert!(entry(b"a/b").is_root_of(&entry(b"a/bc/d")));
    assert!(!entry(b"a/b/").is_root_of(&entry(b"a/bc/d")));
    assert!(!entry(b"d/").is_root_of(&entry(b"a/d/")));
    let mut late = entry(b"a/");
    late.time = 99;
    late.kind = RsyncLogKind::FP;
    assert!(late.is_root_of(&entry(b"a/b")));
}

#[test]
fn a_clone_is_the_same_entry() {
    let entry = RsyncLogLine::new(b"2023/07/04 03:50:55 [14417] >f+++++++++ a/b.txt\n").unwrap();
    let copy = entry.clone();
    assert_eq!((copy.time, copy.kind, copy.path), (entry.time, entry.kind, entry.path));
}
