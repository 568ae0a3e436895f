use rust_1brc::generator::{
    generate, Generator, Generators, Parallel1, Parallel2, Parallel3, Serial, StationList,
};
use rust_1brc::processor::baseline::Baseline;
use rust_1brc::processor::process;
use rust_1brc::{Error, Station};

const CATALOG: &[u8] = b"Oslo;5.3\nDakar;28.0\nLima;-2.5\n";

fn catalog() -> StationList {
    StationList::read(CATALOG).unwrap()
}

fn check_corpus(out: &[u8], count: usize, names: &[&str]) {
    let text = std::str::from_utf8(out).unwrap();
    let lines: Vec<&str> = text.lines().collect();
    assert_eq!(lines.len(), count);
    if count > 0 {
        assert!(text.ends_with('\n'));
    }
    for line in lines {
        let (name, value) = line.split_once(';').unwrap();
        assert!(names.contains(&name), "unknown entity {name}");
        let (whole, frac) = value.split_once('.').unwrap();
        let digits = whole.strip_prefix('-').unwrap_or(whole);
        assert!(!digits.is_empty() && digits.bytes().all(|b| b.is_ascii_digit()));
        assert_eq!(frac.len(), 1, "exactly one fractional digit in {value}");
        assert!(frac.bytes().all(|b| b.is_ascii_digit()));
    }
}

#[test]
fn catalog_reads_names_and_baselines() {
    let sl = catalog();
    assert_eq!(sl.stations.len(), 3);
    assert_eq!(sl.stations[0].city, b"Oslo".to_vec());
    assert_eq!(sl.stations[0].temp, 53);
    assert_eq!(sl.stations[2].city, b"Lima".to_vec());
    assert_eq!(sl.stations[2].temp, -25);
}

#[test]
fn catalog_rejects_malformed_rows() {
    assert!(matches!(StationList::read(b"Oslo;5.3\nbroken\n"), Err(Error::Parse)));
    assert!(matches!(StationList::read(b"Oslo,5.3\n"), Err(Error::Parse)));
}

#[test]
fn catalog_accepts_integer_baselines() {
    let sl = StationList::read(b"Abha;18\nAden;-3\nOslo;5.3\n").unwrap();
    assert_eq!(sl.stations[0].temp, 180);
    assert_eq!(sl.stations[1].temp, -30);
    assert_eq!(sl.stations[2].temp, 53);
}

#[test]
fn catalog_refuses_precision_finer_than_tenths() {
    // the value model holds tenths exactly, so a hundredths spelling is
    // refused rather than rounded
    assert!(matches!(StationList::read(b"Abha;18.25\n"), Err(Error::Parse)));
    assert!(matches!(StationList::read(b"Abha;18.\n"), Err(Error::Parse)));
}

#[test]
fn corpus_lines_still_demand_one_fractional_digit() {
    // the integer spelling belongs to the reference table only
    let sl = StationList::read(b"Abha;18\n").unwrap();
    assert_eq!(sl.stations[0].temp, 180);
    assert!(matches!(
        rust_1brc::processor::process(rust_1brc::processor::baseline::Baseline, b"Abha;18\n"),
        Err(Error::Parse)
    ));
}

#[test]
fn generated_values_stay_near_their_baselines() {
    let out = Serial.generate(300, &catalog());
    let text = std::str::from_utf8(&out).unwrap();
    for line in text.lines() {
        let (name, value) = line.split_once(';').unwrap();
        let baseline: i64 = match name {
            "Oslo" => 53,
            "Dakar" => 280,
            "Lima" => -25,
            other => panic!("unknown entity {other}"),
        };
        let (whole, frac) = value.split_once('.').unwrap();
        let tenths: i64 = format!("{whole}{frac}").parse().unwrap();
        assert!((tenths - baseline).abs() <= 594, "{value} too far from {baseline}");
    }
}

#[test]
fn rand_station_picks_a_catalog_entry() {
    let sl = StationList::read(b"Solo;1.0\n").unwrap();
    for _ in 0..10 {
        let st = sl.rand_station();
        assert_eq!(st.city, b"Solo".to_vec());
    }
}

#[test]
fn serial_generates_exactly_count_lines() {
    let out = Serial.generate(137, &catalog());
    check_corpus(&out, 137, &["Oslo", "Dakar", "Lima"]);
}

#[test]
fn parallel_strategies_generate_exactly_count_lines() {
    // counts that do and do not divide evenly across six workers
    for count in [0usize, 1, 5, 6, 7, 100, 233] {
        let out = Parallel1::new(6).generate(count, &catalog());
        check_corpus(&out, count, &["Oslo", "Dakar", "Lima"]);
        let out = Parallel2::new(6).generate(count, &catalog());
        check_corpus(&out, count, &["Oslo", "Dakar", "Lima"]);
        let out = Parallel3::new(6).generate(count, &catalog());
        check_corpus(&out, count, &["Oslo", "Dakar", "Lima"]);
    }
}

#[test]
fn generated_corpus_aggregates_cleanly() {
    let out = generate(Parallel3::new(4), 400, &catalog());
    let summary = process(Baseline, &out).unwrap();
    let text = String::from_utf8(summary).unwrap();
    assert!(text.starts_with('{') && text.ends_with('}'));
    // every sampled value stays within the noise span of its baseline,
    // so each entity must appear with plausible extremes
    assert!(text.contains("Dakar=") && text.contains("Lima=") && text.contains("Oslo="));
}

#[test]
fn measurement_stays_within_the_noise_span() {
    let st = Station { city: b"A".to_vec(), temp: 200 };
    for _ in 0..1000 {
        let v = st.measurement();
        assert!((v - 200).abs() <= 594);
    }
}

#[test]
fn sampling_matches_the_declared_distribution() {
    // baseline 20.0 units: the empirical mean must come out near 20.0 and
    // the empirical standard deviation near 10.0
    let st = Station { city: b"A".to_vec(), temp: 200 };
    let n = 100_000usize;
    let mut sum = 0.0f64;
    let mut sumsq = 0.0f64;
    for _ in 0..n {
        let units = st.measurement() as f64 / 10.0;
        sum += units;
        sumsq += units * units;
    }
    let mean = sum / n as f64;
    let var = sumsq / n as f64 - mean * mean;
    let sd = var.sqrt();
    assert!((mean - 20.0).abs() < 0.5, "empirical mean {mean}");
    assert!((sd - 10.0).abs() < 0.5, "empirical sd {sd}");
}

#[test]
fn station_from_str_parses_a_row() {
    let st = Station::from_str("Lima;-2.5").unwrap();
    assert_eq!(st.city, b"Lima".to_vec());
    assert_eq!(st.temp, -25);
    assert!(matches!(Station::from_str("Lima"), Err(Error::Parse)));
    assert!(matches!(Station::from_str("Lima;x"), Err(Error::Parse)));
}

#[test]
fn strategy_names_parse() {
    assert!(matches!(Generators::from_str("serial"), Ok(Generators::Serial(_))));
    assert!(matches!(Generators::from_str("s"), Ok(Generators::Serial(_))));
    assert!(matches!(Generators::from_str("parallel-1"), Ok(Generators::Parallel1(_))));
    assert!(matches!(Generators::from_str("p1"), Ok(Generators::Parallel1(_))));
    assert!(matches!(Generators::from_str("parallel-2"), Ok(Generators::Parallel2(_))));
    assert!(matches!(Generators::from_str("p2"), Ok(Generators::Parallel2(_))));
    assert!(matches!(Generators::from_str("parallel-3"), Ok(Generators::Parallel3(_))));
    assert!(matches!(Generators::from_str("p3"), Ok(Generators::Parallel3(_))));
    assert!(matches!(Generators::from_str("warp"), Err(Error::Config)));
    assert!(matches!(Generators::from_str(""), Err(Error::Config)));
    assert!(matches!(Generators::from_str("p4"), Err(Error::Config)));
}

#[test]
fn strategy_names_report_themselves() {
    assert_eq!(Generators::from_str("s").unwrap().name(), "Serial");
    assert_eq!(Generators::from_str("p1").unwrap().name(), "Parallel1");
    assert_eq!(Generators::from_str("p2").unwrap().name(), "Parallel2");
    assert_eq!(Generators::from_str("p3").unwrap().name(), "Parallel3");
}

#[test]
fn generators_enum_generates_through_dispatch() {
    let g = Generators::from_str("p2").unwrap();
    let out = g.generate(29, &catalog());
    check_corpus(&out, 29, &["Oslo", "Dakar", "Lima"]);
}
