use buddhabrot::histogram::{max_count, new_histogram};
use buddhabrot::pgm::{encode_pgm, parse_pgm, read_number};
use buddhabrot::rng::Rng;
use buddhabrot::sampler::{buddhabrot, Config};

#[test]
fn read_number_reads_maximal_digit_run() {
    let b = b"123 45".to_vec();
    assert_eq!(read_number(&b, 0, 1000), Some((123, 3)));
    assert_eq!(read_number(&b, 4, 1000), Some((45, 6)));
    assert_eq!(read_number(&b, 1, 1000), Some((23, 3)));
    assert_eq!(read_number(&b, 0, 122), None);
    assert_eq!(read_number(&b, 0, 123), Some((123, 3)));
    assert_eq!(read_number(&b, 3, 1000), None);
    assert_eq!(read_number(&b, 6, 1000), None);
}

#[test]
fn read_number_rejects_leading_zero() {
    assert_eq!(read_number(&b"0 ".to_vec(), 0, 10), Some((0, 1)));
    assert_eq!(read_number(&b"007".to_vec(), 0, 10), None);
    assert_eq!(read_number(&b"4294967295".to_vec(), 0, u32::MAX as u64), Some((4294967295, 10)));
    assert_eq!(read_number(&b"4294967296".to_vec(), 0, u32::MAX as u64), None);
}

#[test]
fn parse_small_image() {
    let p = parse_pgm(&b"P2\n2 1\n7\n0 7 ".to_vec()).unwrap();
    assert_eq!((p.width, p.height, p.max), (2, 1, 7));
    assert_eq!(p.data, vec![0, 7]);
    let p = parse_pgm(&b"P2\n0 0\n0\n".to_vec()).unwrap();
    assert_eq!((p.width, p.height, p.max), (0, 0, 0));
    assert!(p.data.is_empty());
}

#[test]
fn parse_rejects_malformed_text() {
    for text in [
        &b""[..],
        b"P2",
        b"P5\n2 1\n7\n0 7 ",
        b"P2\n2 1\n7\n0 7",
        b"P2\n2 1\n7\n0 7 1 ",
        b"P2\n2 1\n7\n0 ",
        b"P2\n02 1\n7\n0 7 ",
        b"P2\n2  1\n7\n0 7 ",
        b"P2\n2 1\n7\n0  7 ",
        b"P2\n2 1\n4294967296\n0 7 ",
        b"P2\n2 1 7\n0 7 ",
        b"P2\n2 1\n7\n0\n7 ",
    ] {
        assert!(parse_pgm(&text.to_vec()).is_none(), "{:?}", String::from_utf8_lossy(text));
    }
}

#[test]
fn written_image_reads_back() {
    let mut rng = Rng::new(2024);
    let hist = buddhabrot(16, 9, 400, 60, &mut rng);
    let max = max_count(&hist);
    let text = encode_pgm(16, 9, max, &hist);
    let p = parse_pgm(&text).unwrap();
    assert_eq!((p.width, p.height, p.max), (16, 9, max));
    assert_eq!(p.data, hist);
    assert_eq!(p.max, *p.data.iter().max().unwrap());
}

#[test]
fn written_zero_image_reads_back() {
    let hist = new_histogram(12);
    let p = parse_pgm(&encode_pgm(4, 3, max_count(&hist), &hist)).unwrap();
    assert_eq!((p.width, p.height, p.max), (4, 3, 0));
    assert_eq!(p.data, vec![0; 12]);
    let data = vec![u32::MAX, 0, 10, 100];
    let p = parse_pgm(&encode_pgm(2, 2, u32::MAX, &data)).unwrap();
    assert_eq!(p.data, data);
    assert_eq!(p.max, u32::MAX);
}

#[test]
fn standard_config() {
    let c = Config::standard();
    assert_eq!((c.width, c.height, c.samples, c.max_iter), (1000, 1000, 1_000_000, 1000));
    assert!(c.is_supported());
    let c = Config { width: 10, height: 10, samples: 5_000_000, max_iter: 1000 };
    assert!(!c.is_supported());
    let c = Config { width: usize::MAX, height: 2, samples: 1, max_iter: 1 };
    assert!(!c.is_supported());
}

#[test]
fn render_writes_histogram_with_its_maximum() {
    let c = Config { width: 10, height: 10, samples: 100, max_iter: 50 };
    let mut a = Rng::new(5);
    let text = c.render(&mut a);
    let mut b = Rng::new(5);
    let hist = buddhabrot(10, 10, 100, 50, &mut b);
    assert_eq!(text, encode_pgm(10, 10, max_count(&hist), &hist));
    assert_eq!(a.state(), b.state());
    let p = parse_pgm(&text).unwrap();
    assert_eq!(p.data, hist);
}
