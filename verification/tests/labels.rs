use mobile_zipper::labels::{countdown_pill, countdown_seconds, format_hms, truncated_label};

#[test]
fn long_titles_are_cut_with_ellipsis() {
    assert_eq!(truncated_label("Creator Growth Loop", 18), "Creator Growth Loo…");
    assert_eq!(truncated_label("Ship MVP", 18), "Ship MVP");
    assert_eq!(truncated_label("exactly", 7), "exactly");
    assert_eq!(truncated_label("héllo wörld", 5), "héllo…");
    assert_eq!(truncated_label("abc", 0), "…");
}

#[test]
fn hms_pads_each_part() {
    assert_eq!(format_hms(0), "00:00:00");
    assert_eq!(format_hms(3661), "01:01:01");
    assert_eq!(format_hms(86399), "23:59:59");
    assert_eq!(format_hms(360000), "100:00:00");
}

#[test]
fn hms_reads_negative_as_zero() {
    assert_eq!(format_hms(-42), "00:00:00");
    assert_eq!(format_hms(i64::MIN), "00:00:00");
}

#[test]
fn countdown_counts_whole_seconds() {
    assert_eq!(countdown_seconds(10_500, 0), 10);
    assert_eq!(countdown_seconds(999, 0), 0);
    assert_eq!(countdown_seconds(0, 5_000), 0);
    assert_eq!(countdown_seconds(1_700_000_060_000, 1_700_000_000_000), 60);
}

#[test]
fn pill_text_depends_on_card() {
    assert_eq!(
        countdown_pill(3725, Some("daily")),
        "Next card in 01:02:05 • UTC reset • mode: daily"
    );
    assert_eq!(countdown_pill(5, None), "Next card: —");
}
