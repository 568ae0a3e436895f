use rust_1brc::processor::baseline::Baseline;
use rust_1brc::processor::rayon_mmap_string::RayonMmapString;
use rust_1brc::processor::rayon_string::RayonString;
use rust_1brc::processor::{fold_chunked, fold_range, format_results, process};
use rust_1brc::Error;

fn run(data: &[u8]) -> Result<Vec<u8>, Error> {
    process(Baseline, data)
}

#[test]
fn round_trip_small_corpus() {
    let out = run(b"A;10.0\nA;20.0\nB;5.0\n").unwrap();
    assert_eq!(out, b"{A=10.0/15.0/20.0, B=5.0/5.0/5.0}".to_vec());
}

#[test]
fn wrong_delimiter_is_a_parse_error() {
    let r = run(b"A,10.0\n");
    assert_eq!(r, Err(Error::Parse));
}

#[test]
fn empty_corpus_formats_as_empty_braces() {
    let out = run(b"").unwrap();
    assert_eq!(out, b"{}".to_vec());
}

#[test]
fn all_strategies_agree_on_the_same_corpus() {
    let mut data = Vec::new();
    for i in 0..500 {
        let city = match i % 4 {
            0 => "Oslo",
            1 => "Dakar",
            2 => "Lima",
            _ => "Quito",
        };
        let whole = (i * 7) % 40;
        let frac = i % 10;
        data.extend_from_slice(format!("{city};{whole}.{frac}\n").as_bytes());
    }
    let a = process(Baseline, &data).unwrap();
    let b = process(RayonString, &data).unwrap();
    let c = process(RayonMmapString, &data).unwrap();
    assert_eq!(a, b);
    assert_eq!(a, c);
}

#[test]
fn strategies_agree_on_parse_failure() {
    let data = b"A;1.0\nB;2.0\nbroken\nC;3.0\n";
    assert_eq!(process(Baseline, data), Err(Error::Parse));
    assert_eq!(process(RayonString, data), Err(Error::Parse));
    assert_eq!(process(RayonMmapString, data), Err(Error::Parse));
}

#[test]
fn output_is_sorted_by_name() {
    let out = run(b"Zurich;1.0\nAnkara;2.0\nMinsk;3.0\n").unwrap();
    assert_eq!(
        out,
        b"{Ankara=2.0/2.0/2.0, Minsk=3.0/3.0/3.0, Zurich=1.0/1.0/1.0}".to_vec()
    );
}

#[test]
fn last_line_may_lack_a_newline() {
    let out = run(b"A;1.0\nA;2.0").unwrap();
    assert_eq!(out, b"{A=1.0/1.5/2.0}".to_vec());
}

#[test]
fn negative_values_aggregate() {
    let out = run(b"A;-10.0\nA;-20.0\n").unwrap();
    assert_eq!(out, b"{A=-20.0/-15.0/-10.0}".to_vec());
}

#[test]
fn mean_rounds_ties_away_from_zero() {
    // total 0.3 over two records: mean 0.15 rounds to 0.2
    let out = run(b"A;0.1\nA;0.2\n").unwrap();
    assert_eq!(out, b"{A=0.1/0.2/0.2}".to_vec());
    let out = run(b"B;-0.1\nB;-0.2\n").unwrap();
    assert_eq!(out, b"{B=-0.2/-0.2/-0.1}".to_vec());
}

#[test]
fn invalid_utf8_name_is_a_parse_error() {
    let data = vec![0xffu8, 0xfe, b';', b'1', b'.', b'0', b'\n'];
    assert_eq!(run(&data), Err(Error::Parse));
}

#[test]
fn multibyte_names_pass_through() {
    let out = run("Zürich;1.0\n".as_bytes()).unwrap();
    assert_eq!(out, "{Zürich=1.0/1.0/1.0}".as_bytes().to_vec());
}

#[test]
fn value_grammar_is_exactly_one_fractional_digit() {
    assert!(run(b"A;10\n").is_err());
    assert!(run(b"A;10.\n").is_err());
    assert!(run(b"A;10.00\n").is_err());
    assert!(run(b"A;.5\n").is_err());
    assert!(run(b"A;1e3\n").is_err());
    assert!(run(b"A;abc\n").is_err());
    assert!(run(b"A;\n").is_err());
    assert!(run(b"A;--1.0\n").is_err());
    assert!(run(b"A;1.0 \n").is_err());
    assert!(run(b"A;007.5\n").is_ok());
}

#[test]
fn empty_line_is_a_parse_error() {
    assert_eq!(run(b"A;1.0\n\nB;2.0\n"), Err(Error::Parse));
}

#[test]
fn value_with_second_separator_is_a_parse_error() {
    assert_eq!(run(b"A;1.0;2.0\n"), Err(Error::Parse));
}

#[test]
fn fold_range_and_chunked_describe_the_same_map() {
    let data = b"K;1.0\nL;2.0\nK;3.0\nM;-4.0\nL;0.5\n";
    let a = fold_range(data, 0, data.len()).unwrap();
    let b = fold_chunked(data, 3).unwrap();
    assert_eq!(format_results(&a), format_results(&b));
}

#[test]
fn merging_chunk_maps_in_any_order_gives_one_result() {
    let d1: &[u8] = b"A;1.0\nB;2.0\n";
    let d2: &[u8] = b"B;4.0\nC;1.0\n";
    let d3: &[u8] = b"A;-3.0\nC;0.5\n";
    let fold = |d: &[u8]| fold_range(d, 0, d.len()).unwrap();
    let left = fold(d1).merge(&fold(d2)).merge(&fold(d3));
    let right = fold(d1).merge(&fold(d2).merge(&fold(d3)));
    let swapped = fold(d3).merge(&fold(d2)).merge(&fold(d1));
    assert_eq!(format_results(&left), format_results(&right));
    assert_eq!(format_results(&left), format_results(&swapped));
}

#[test]
fn chunked_folds_agree_with_the_sequential_scan() {
    let data = b"A;1.0\nB;2.0\nA;3.0\nC;-1.5\nB;0.0\nA;2.5\n";
    let whole = fold_range(data, 0, data.len()).unwrap();
    // split at the line boundary after the second record
    let cut = 12;
    assert_eq!(data[cut - 1], b'\n');
    let first = fold_range(data, 0, cut).unwrap();
    let second = fold_range(data, cut, data.len()).unwrap();
    let merged = first.merge(&second);
    assert_eq!(format_results(&whole), format_results(&merged));
}

#[test]
fn fold_range_entries_are_accessible() {
    let data = b"K;1.0\nL;2.0\nK;3.0\n";
    let m = fold_range(data, 0, data.len()).unwrap();
    let entries = m.into_inner();
    assert_eq!(entries.len(), 2);
    assert_eq!(entries[0].name, b"K".to_vec());
    assert_eq!(entries[0].result.min, 10);
    assert_eq!(entries[0].result.max, 30);
    assert_eq!(entries[0].result.total, 40);
    assert_eq!(entries[0].result.count, 2);
    assert_eq!(entries[1].name, b"L".to_vec());
    assert_eq!(entries[1].result.count, 1);
}
