use sosu_seisei_sieve::config::{Config, OutputFormat, WorkerMessage};
use sosu_seisei_sieve::generator::generate_primes;
use sosu_seisei_sieve::output::{file_count, file_name, push_decimal, render_body, render_file};

fn text(bytes: Vec<u8>) -> String {
    String::from_utf8(bytes).unwrap()
}

#[test]
fn decimal_digits() {
    let mut out = b"x=".to_vec();
    push_decimal(&mut out, 0);
    assert_eq!(out, b"x=0".to_vec());
    let mut out = Vec::new();
    push_decimal(&mut out, u64::MAX);
    assert_eq!(text(out), "18446744073709551615");
    let mut out = Vec::new();
    push_decimal(&mut out, 1090);
    assert_eq!(text(out), "1090");
}

#[test]
fn formats_of_one_file() {
    let ps = [2u64, 3, 5];
    assert_eq!(text(render_body(&ps, OutputFormat::Text)), "2\n3\n5\n");
    assert_eq!(text(render_body(&ps, OutputFormat::CSV)), "2,3,5\n");
    assert_eq!(text(render_body(&ps, OutputFormat::JSON)), "[2,3,5]");
    assert_eq!(text(render_body(&[], OutputFormat::Text)), "");
    assert_eq!(text(render_body(&[], OutputFormat::CSV)), "");
    assert_eq!(text(render_body(&[], OutputFormat::JSON)), "[]");
    assert_eq!(text(render_body(&[7], OutputFormat::JSON)), "[7]");
}

#[test]
fn split_rotation_35_primes_by_10() {
    let primes = generate_primes(2, 149, 1000);
    assert_eq!(primes.len(), 35);
    assert_eq!(file_count(35, 10), 4);
    let counts: Vec<usize> = (0..4)
        .map(|i| text(render_file(&primes, OutputFormat::Text, 10, i)).lines().count())
        .collect();
    assert_eq!(counts, vec![10, 10, 10, 5]);
    for i in 0..4u64 {
        let body = text(render_file(&primes, OutputFormat::JSON, 10, i));
        assert!(body.starts_with('[') && body.ends_with(']'), "{}", body);
        let inner = &body[1..body.len() - 1];
        let items: Vec<u64> = inner.split(',').map(|s| s.parse().unwrap()).collect();
        let lo = (i * 10) as usize;
        let hi = std::cmp::min(lo + 10, 35);
        assert_eq!(items, primes[lo..hi].to_vec());
    }
    assert_eq!(text(render_file(&primes, OutputFormat::JSON, 10, 3)), "[127,131,137,139,149]");
}

#[test]
fn split_rotation_edges() {
    let primes = generate_primes(2, 29, 100);
    assert_eq!(file_count(10, 0), 1);
    assert_eq!(text(render_file(&primes, OutputFormat::CSV, 0, 0)), "2,3,5,7,11,13,17,19,23,29\n");
    // A full last file is followed by an empty one.
    assert_eq!(file_count(10, 5), 3);
    assert_eq!(text(render_file(&primes, OutputFormat::JSON, 5, 2)), "[]");
    assert_eq!(file_count(0, 3), 1);
    assert_eq!(text(render_file(&[], OutputFormat::JSON, 3, 0)), "[]");
}

#[test]
fn output_file_names() {
    assert_eq!(text(file_name(OutputFormat::Text, 0, 1)), "primes.txt");
    assert_eq!(text(file_name(OutputFormat::CSV, 10, 3)), "primes_0003.csv");
    assert_eq!(text(file_name(OutputFormat::JSON, 1, 12)), "primes_0012.json");
    assert_eq!(text(file_name(OutputFormat::Text, 5, 12345)), "primes_12345.txt");
    assert_eq!(text(file_name(OutputFormat::Text, 5, 0)), "primes_0000.txt");
}

#[test]
fn config_defaults() {
    let c = Config::default();
    assert_eq!(c.segment_size, 10_000_000);
    assert_eq!(c.chunk_size, 16_384);
    assert_eq!(c.writer_buffer_size, 8 * 1024 * 1024);
    assert_eq!(c.prime_min, "1");
    assert_eq!(c.prime_max, "1000000");
    assert_eq!(c.output_format, OutputFormat::Text);
    assert_eq!(c.output_dir, "");
    assert_eq!(c.split_count, 0);
    let m = WorkerMessage::FoundPrimeIndex(7, 4);
    assert!(matches!(m.clone(), WorkerMessage::FoundPrimeIndex(7, 4)));
}
