use recomb_windows::aggregate::{compute_average, table_is_valid, Chromosome, ChromosomeWindows};
use recomb_windows::interval::{Interval, RATE_SCALE};
use recomb_windows::loader::{parse_file, parse_line, LoadError};
use recomb_windows::window::{window_intervals, AggregateError, Window};

fn sample_lines() -> Vec<String> {
    vec![
        "chromosome\tstart\tend\tmap\trate".to_string(),
        "chr1\t0\t200\t0.0\t0.1".to_string(),
        "chr1\t200\t300\t0.02\t0.4".to_string(),
        "chr2\t0\t0\t0.0\t0.7".to_string(),
        "chr2\t0\t100\t0.0\t0.5".to_string(),
    ]
}

fn find<'a>(data: &'a [Chromosome], name: &str) -> &'a Chromosome {
    data.iter().find(|c| c.name == name).unwrap()
}

fn find_windows<'a>(data: &'a [ChromosomeWindows], name: &str) -> &'a ChromosomeWindows {
    data.iter().find(|c| c.name == name).unwrap()
}

fn mean(w: &Window) -> f64 {
    w.weighted_rate as f64 / (w.end - w.start) as f64 / RATE_SCALE as f64
}

fn chr1() -> Vec<Chromosome> {
    vec![Chromosome {
        name: "chr1".to_string(),
        intervals: vec![Interval::new(0, 200, 100_000_000), Interval::new(200, 300, 400_000_000)],
    }]
}

#[test]
fn test_parse_file() {
    let data = parse_file(&sample_lines()).unwrap();
    assert_eq!(data.len(), 2);
    assert_eq!(find(&data, "chr1").intervals.len(), 2);
    assert_eq!(find(&data, "chr1").intervals[0].start, 0);
    assert_eq!(find(&data, "chr1").intervals[0].end, 200);
    assert_eq!(find(&data, "chr1").intervals[0].rate, 100_000_000);
    assert_eq!(find(&data, "chr1").intervals[1].start, 200);
    assert_eq!(find(&data, "chr1").intervals[1].end, 300);
    assert_eq!(find(&data, "chr1").intervals[1].rate, 400_000_000);
}

#[test]
fn test_compute_average() {
    let data = parse_file(&sample_lines()).unwrap();
    let average = compute_average(&data, 300).unwrap();
    assert_eq!(average.len(), 2);
    assert_eq!(find_windows(&average, "chr1").windows[0].start, 0);
    assert_eq!(find_windows(&average, "chr1").windows[0].end, 300);
    assert_eq!(mean(&find_windows(&average, "chr1").windows[0]), 0.2);
}

#[test]
fn single_window_scenario() {
    let out = compute_average(&chr1(), 300).unwrap();
    assert_eq!(out.len(), 1);
    assert_eq!(out[0].name, "chr1");
    assert_eq!(out[0].windows, vec![Window { start: 0, end: 300, weighted_rate: 60_000_000_000 }]);
    assert_eq!(out[0].windows[0].weighted_rate / 300, 200_000_000);
}

#[test]
fn multi_window_scenario() {
    let out = compute_average(&chr1(), 150).unwrap();
    assert_eq!(out[0].windows.len(), 2);
    assert_eq!(out[0].windows[0], Window { start: 0, end: 200, weighted_rate: 20_000_000_000 });
    assert_eq!(out[0].windows[1], Window { start: 200, end: 300, weighted_rate: 40_000_000_000 });
    assert_eq!(mean(&out[0].windows[0]), 0.1);
    assert_eq!(mean(&out[0].windows[1]), 0.4);
}

#[test]
fn rerun_on_windows_gives_same_windows() {
    let first = compute_average(&chr1(), 150).unwrap();
    let as_intervals: Vec<Interval> = first[0]
        .windows
        .iter()
        .map(|w| {
            let span = (w.end - w.start) as u128;
            Interval::new(w.start, w.end, (w.weighted_rate / span) as u64)
        })
        .collect();
    let again = window_intervals(&as_intervals, 150).unwrap();
    assert_eq!(again, first[0].windows);
}

#[test]
fn zero_end_rows_are_dropped() {
    let data = parse_file(&sample_lines()).unwrap();
    let chr2 = find(&data, "chr2");
    assert_eq!(chr2.intervals, vec![Interval::new(0, 100, 500_000_000)]);
    let only_dropped = vec!["header".to_string(), "chrX 5 0 x 1.0".to_string()];
    assert_eq!(parse_file(&only_dropped).unwrap().len(), 0);
}

#[test]
fn windows_never_straddle_chromosomes() {
    let data = parse_file(&sample_lines()).unwrap();
    let out = compute_average(&data, 1000).unwrap();
    assert_eq!(out.len(), 2);
    assert_eq!(find_windows(&out, "chr1").windows, vec![Window { start: 0, end: 300, weighted_rate: 60_000_000_000 }]);
    assert_eq!(find_windows(&out, "chr2").windows, vec![Window { start: 0, end: 100, weighted_rate: 50_000_000_000 }]);
}

#[test]
fn windows_tile_the_chromosome() {
    let ivs: Vec<Interval> = (0..10).map(|k| Interval::new(k * 10, k * 10 + 10, 1)).collect();
    let out = window_intervals(&ivs, 25).unwrap();
    assert_eq!(out.len(), 4);
    assert_eq!(out[0].start, 0);
    for k in 1..out.len() {
        assert_eq!(out[k].start, out[k - 1].end);
        assert!(out[k - 1].end - out[k - 1].start >= 25);
    }
    assert_eq!(out[3].end, 100);
    assert_eq!(out[3], Window { start: 90, end: 100, weighted_rate: 10 });
}

#[test]
fn long_interval_is_its_own_window() {
    let ivs = vec![Interval::new(0, 10, 1), Interval::new(10, 500, 2), Interval::new(500, 510, 3)];
    let out = window_intervals(&ivs, 100).unwrap();
    assert_eq!(out, vec![Window { start: 0, end: 500, weighted_rate: 990 }, Window { start: 500, end: 510, weighted_rate: 30 }]);
}

#[test]
fn empty_chromosome_is_skipped() {
    let data = vec![Chromosome { name: "chrE".to_string(), intervals: vec![] }];
    assert_eq!(compute_average(&data, 10).unwrap().len(), 0);
}

#[test]
fn zero_span_window_is_an_error() {
    let data = vec![Chromosome { name: "c".to_string(), intervals: vec![Interval::new(5, 5, 7)] }];
    assert_eq!(compute_average(&data, 10).unwrap_err(), AggregateError::InvalidWindow);
}

#[test]
fn huge_weight_is_an_error() {
    let big = usize::MAX;
    let ivs: Vec<Interval> = (0..300).map(|_| Interval::new(0, big, u64::MAX)).collect();
    let data = vec![Chromosome { name: "c".to_string(), intervals: ivs }];
    // every interval closes its own window here, so no sum overflows
    assert_eq!(compute_average(&data, big).unwrap()[0].windows.len(), 300);
    let ivs2: Vec<Interval> = vec![Interval::new(0, big / 2, u64::MAX); 3];
    assert_eq!(window_intervals(&ivs2, usize::MAX).unwrap_err(), AggregateError::WeightOverflow);
}

#[test]
fn malformed_row_is_an_error() {
    let lines = vec!["h".to_string(), "chr1 0 10 x 0.1".to_string(), "chr1 10 20 0.1".to_string()];
    assert_eq!(parse_file(&lines).unwrap_err(), LoadError::MalformedRow { index: 2, fields: 4 });
}

#[test]
fn unparsable_fields_read_as_zero() {
    let (name, iv) = parse_line("  chr7 +12 abc - 1e-3 ").unwrap();
    assert_eq!(name, "chr7");
    assert_eq!(iv, Interval::new(12, 0, 1_000_000));
    let (_, iv) = parse_line("c 1 2 x 0.1234567891").unwrap();
    assert_eq!(iv.rate, 123_456_789);
    let (_, iv) = parse_line("c 1 2 x 3.").unwrap();
    assert_eq!(iv.rate, 3 * RATE_SCALE);
    let (_, iv) = parse_line("c 1 2 x .5").unwrap();
    assert_eq!(iv.rate, 500_000_000);
    let (_, iv) = parse_line("c 99999999999999999999999 2 x 1.2.3").unwrap();
    assert_eq!(iv, Interval::new(0, 2, 0));
    assert_eq!(parse_line("a b").unwrap_err(), 2);
}

#[test]
fn invalid_table_is_detected() {
    let bad = vec![Chromosome { name: "c".to_string(), intervals: vec![Interval::new(9, 3, 1)] }];
    assert!(!table_is_valid(&bad));
    assert!(table_is_valid(&chr1()));
}

#[test]
fn chromosomes_come_in_name_order() {
    let lines: Vec<String> = ["h", "chr2 0 10 x 1", "chr10 0 10 x 1", "chr1 0 10 x 1", "chr2 10 20 x 2", "chr1a 0 5 x 1"]
        .iter()
        .map(|l| l.to_string())
        .collect();
    let data = parse_file(&lines).unwrap();
    let names: Vec<&str> = data.iter().map(|c| c.name.as_str()).collect();
    assert_eq!(names, vec!["chr1", "chr10", "chr1a", "chr2"]);
    assert_eq!(data[3].intervals, vec![Interval::new(0, 10, RATE_SCALE), Interval::new(10, 20, 2 * RATE_SCALE)]);
}

#[test]
fn rates_with_exponents() {
    let rate = |text: &str| parse_line(&format!("c 1 2 x {}", text)).unwrap().1.rate;
    assert_eq!(rate("1e-3"), 1_000_000);
    assert_eq!(rate("2.5E-8"), 25);
    assert_eq!(rate("1.5e2"), 150 * RATE_SCALE);
    assert_eq!(rate("+4e+0"), 4 * RATE_SCALE);
    assert_eq!(rate("0.0001e4"), RATE_SCALE);
    assert_eq!(rate("1.26e-8"), 12);
    assert_eq!(rate("1e-20"), 0);
    assert_eq!(rate("1e400"), 0);
    assert_eq!(rate("0e400"), 0);
    assert_eq!(rate("-1e-3"), 0);
    assert_eq!(rate("inf"), 0);
    assert_eq!(rate("1e"), 0);
    assert_eq!(rate("e5"), 0);
    assert_eq!(rate("1e5.0"), 0);
}

#[test]
fn sorted_overlapping_input_gives_ordered_windows() {
    let ivs = vec![
        Interval::new(0, 50, 1),
        Interval::new(10, 30, 1),
        Interval::new(40, 120, 1),
        Interval::new(100, 130, 1),
    ];
    let out = window_intervals(&ivs, 60).unwrap();
    assert_eq!(out, vec![Window { start: 0, end: 120, weighted_rate: 150 }, Window { start: 100, end: 130, weighted_rate: 30 }]);
    assert!(out[0].start <= out[1].start);
}

#[test]
fn gapped_sorted_input_gives_disjoint_windows() {
    let ivs = vec![Interval::new(0, 10, 2), Interval::new(20, 30, 2), Interval::new(40, 50, 2)];
    let out = window_intervals(&ivs, 25).unwrap();
    assert_eq!(out, vec![Window { start: 0, end: 30, weighted_rate: 40 }, Window { start: 40, end: 50, weighted_rate: 20 }]);
    assert!(out[0].end <= out[1].start);
}

#[test]
fn kept_rows_are_counted_per_chromosome() {
    let lines: Vec<String> = ["h", "chr1 0 10 x 1", "chr2 0 0 x 1", "chr1 10 0 x 1", "chr1 10 20 x 1", "chr3 5 abc x 1"]
        .iter()
        .map(|l| l.to_string())
        .collect();
    let data = parse_file(&lines).unwrap();
    assert_eq!(data.len(), 1);
    assert_eq!(data[0].name, "chr1");
    assert_eq!(data[0].intervals.len(), 2);
}
