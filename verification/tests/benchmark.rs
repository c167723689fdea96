use similarity_search::{mean_duration, report_line, Benchmark, BenchmarkConfig, Report};

#[test]
fn standard_configuration() {
    let config = BenchmarkConfig::standard();
    assert_eq!(config.corpus_size, 16384);
    assert_eq!(config.dimension, 512);
    assert_eq!(config.component_bound, 100000);
    assert_eq!(config.top_ks, vec![1, 2, 5, 25]);
    assert_eq!(config.repeats, 10);
}

#[test]
fn mean_rounds_down() {
    assert_eq!(mean_duration(&vec![1, 2, 3, 4]), Some(2));
    assert_eq!(mean_duration(&vec![10, 20, 30]), Some(20));
    assert_eq!(mean_duration(&vec![7]), Some(7));
    assert_eq!(mean_duration(&vec![0, 0, 1]), Some(0));
    assert_eq!(mean_duration(&vec![1, 1, 1, 1, 1, 1, 1, 1, 1, 0]), Some(0));
}

#[test]
fn mean_of_nothing() {
    assert_eq!(mean_duration(&Vec::new()), None);
}

#[test]
fn mean_of_the_largest_durations() {
    assert_eq!(mean_duration(&vec![u64::MAX, u64::MAX, u64::MAX]), Some(u64::MAX));
    assert_eq!(mean_duration(&vec![u64::MAX, 0]), Some(u64::MAX / 2));
    assert_eq!(mean_duration(&vec![u64::MAX, u64::MAX - 1]), Some(u64::MAX - 1));
}

#[test]
fn no_benchmark_without_repeats() {
    assert!(Benchmark::new(vec![1, 2], 0).is_none());
    assert!(Benchmark::new(Vec::new(), 0).is_none());
}

#[test]
fn benchmark_without_rounds_is_finished() {
    let mut benchmark = Benchmark::new(Vec::new(), 3).unwrap();
    assert_eq!(benchmark.next_search(), None);
    assert_eq!(benchmark.record(5), None);
    assert_eq!(benchmark.next_search(), None);
}

#[test]
fn rounds_report_their_own_mean() {
    let mut benchmark = Benchmark::new(vec![1, 25], 3).unwrap();
    assert_eq!(benchmark.next_search(), Some(1));
    assert_eq!(benchmark.record(10), None);
    assert_eq!(benchmark.next_search(), Some(1));
    assert_eq!(benchmark.record(20), None);
    assert_eq!(benchmark.next_search(), Some(1));
    assert_eq!(benchmark.record(31), Some(Report { top_k: 1, mean_ns: 20 }));
    assert_eq!(benchmark.next_search(), Some(25));
    assert_eq!(benchmark.record(100), None);
    assert_eq!(benchmark.record(200), None);
    assert_eq!(benchmark.next_search(), Some(25));
    assert_eq!(benchmark.record(300), Some(Report { top_k: 25, mean_ns: 200 }));
    assert_eq!(benchmark.next_search(), None);
    assert_eq!(benchmark.record(1), None);
    assert_eq!(benchmark.record(1), None);
    assert_eq!(benchmark.record(1), None);
    assert_eq!(benchmark.next_search(), None);
}

#[test]
fn single_repeat_reports_every_search() {
    let mut benchmark = Benchmark::new(vec![5, 2], 1).unwrap();
    assert_eq!(benchmark.next_search(), Some(5));
    assert_eq!(benchmark.record(42), Some(Report { top_k: 5, mean_ns: 42 }));
    assert_eq!(benchmark.next_search(), Some(2));
    assert_eq!(benchmark.record(u64::MAX), Some(Report { top_k: 2, mean_ns: u64::MAX }));
    assert_eq!(benchmark.next_search(), None);
}

#[test]
fn standard_benchmark_runs_forty_searches() {
    let config = BenchmarkConfig::standard();
    let mut benchmark = Benchmark::new(config.top_ks.clone(), config.repeats).unwrap();
    let mut searches: Vec<usize> = Vec::new();
    let mut reports: Vec<Report> = Vec::new();
    let mut clock: u64 = 0;
    while let Some(top_k) = benchmark.next_search() {
        searches.push(top_k);
        clock += 1;
        if let Some(report) = benchmark.record(clock * 1000) {
            reports.push(report);
        }
    }
    assert_eq!(searches.len(), 40);
    for (at, top_k) in searches.iter().enumerate() {
        assert_eq!(*top_k, [1usize, 2, 5, 25][at / 10]);
    }
    assert_eq!(
        reports,
        vec![
            Report { top_k: 1, mean_ns: 5500 },
            Report { top_k: 2, mean_ns: 15500 },
            Report { top_k: 5, mean_ns: 25500 },
            Report { top_k: 25, mean_ns: 35500 },
        ]
    );
}

#[test]
fn report_line_text() {
    assert_eq!(report_line(25, 123456), "Average time for top_k = 25: 123456 ns");
    assert_eq!(report_line(1, 9), "Average time for top_k = 1: 9 ns");
    assert_eq!(report_line(2, 10), "Average time for top_k = 2: 10 ns");
    assert_eq!(report_line(5, 1090807060504030201), "Average time for top_k = 5: 1090807060504030201 ns");
}

#[test]
fn report_line_of_zero_and_of_the_largest_values() {
    assert_eq!(report_line(0, 0), "Average time for top_k = 0: 0 ns");
    assert_eq!(
        report_line(usize::MAX, u64::MAX),
        format!("Average time for top_k = {}: {} ns", usize::MAX, u64::MAX)
    );
}

#[test]
fn report_line_of_a_round() {
    let mut benchmark = Benchmark::new(vec![2], 2).unwrap();
    assert_eq!(benchmark.record(1500), None);
    let report = benchmark.record(2501).unwrap();
    assert_eq!(report_line(report.top_k, report.mean_ns), "Average time for top_k = 2: 2000 ns");
}
