use self_recorder_packet::duration::DurationParts;
use self_recorder_packet::report::{report_rows, ReportRow};
use self_recorder_packet::{DataPacketHeader, PrettyDuration};

#[test]
fn duration_parts_split_units() {
    assert_eq!(
        PrettyDuration(90_061_001).parts(),
        DurationParts { days: 1, hours: 1, minutes: 1, seconds: 1, millis: 1 }
    );
    assert_eq!(
        PrettyDuration(86_399_999).parts(),
        DurationParts { days: 0, hours: 23, minutes: 59, seconds: 59, millis: 999 }
    );
    assert_eq!(
        PrettyDuration(0).parts(),
        DurationParts { days: 0, hours: 0, minutes: 0, seconds: 0, millis: 0 }
    );
    let p = PrettyDuration(u64::MAX).parts();
    assert_eq!(p.days, u64::MAX / 86_400_000);
    assert_eq!(p.millis, u64::MAX % 1000);
}

fn header(ratios: [u32; 2], base: u32, ts: u64) -> DataPacketHeader {
    DataPacketHeader {
        prev_block_id: 0,
        this_block_id: 0,
        timestamp: ts,
        targets: [0, 0],
        base_interval_ms: base,
        interleave_ratio: ratios,
        t_cpu_bits: 0,
        v_bat_bits: 0,
        data_len: 0,
        data_crc32: 0,
    }
}

#[test]
fn report_lines_follow_both_channels() {
    // Four records sampled every 2nd index, two every 3rd: the report stops
    // at index 6, where the second channel has run out.
    let rows = report_rows(&header([2, 3], 10, 1000), 4, 2);
    let want = vec![
        ReportRow { index: 0, timestamp: 1000, p: Some(0), t: Some(0) },
        ReportRow { index: 2, timestamp: 1020, p: Some(1), t: Some(0) },
        ReportRow { index: 3, timestamp: 1030, p: Some(1), t: Some(1) },
        ReportRow { index: 4, timestamp: 1040, p: Some(2), t: Some(1) },
    ];
    assert_eq!(rows, want);
}

#[test]
fn report_with_empty_channel_or_zero_ratio() {
    let rows = report_rows(&header([1, 1], 10, 0), 0, 3);
    assert_eq!(rows, vec![ReportRow { index: 0, timestamp: 0, p: None, t: Some(0) }]);
    let rows = report_rows(&header([0, 2], 10, 5), 3, 3);
    assert_eq!(rows, vec![ReportRow { index: 0, timestamp: 5, p: Some(0), t: Some(0) }]);
    let rows = report_rows(&header([1, 1], 1000, 0), 3, 3);
    assert_eq!(rows.iter().map(|r| r.index).collect::<Vec<_>>(), vec![0, 1, 2]);
    assert_eq!(rows[2], ReportRow { index: 2, timestamp: 2000, p: Some(2), t: Some(2) });
}
