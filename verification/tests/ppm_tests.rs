use scop::error::LoadError;
use scop::ppm::{decode_ppm, ppm_pixels_available, read_max_value_line, read_size_line};

fn ppm(header: &str, pixels: &[u8]) -> Vec<u8> {
    let mut v = header.as_bytes().to_vec();
    v.extend_from_slice(pixels);
    v
}

#[test]
fn a_well_formed_texture_decodes_to_its_pixels() {
    let pixels: Vec<u8> = (0u8..12).collect();
    let data = ppm("P6\n2 2\n255\n", &pixels);
    assert!(ppm_pixels_available(&data));
    let img = decode_ppm(&data).unwrap();
    assert_eq!(img.pixels, pixels);
    assert_eq!((img.width, img.height), (2, 2));
}

#[test]
fn only_the_counted_pixel_bytes_are_read() {
    let data = ppm("P6\n1 1\n255\n", &[1, 2, 3, 4, 5]);
    let img = decode_ppm(&data).unwrap();
    assert_eq!(img.pixels, vec![1, 2, 3]);
}

#[test]
fn an_empty_size_still_reads_one_byte() {
    let data = ppm("P6\n0 5\n255\n", &[9, 8]);
    let img = decode_ppm(&data).unwrap();
    assert_eq!(img.pixels, vec![9]);
    assert_eq!((img.width, img.height), (0, 5));
    // With no byte after the header the viewer reads past the end.
    assert!(!ppm_pixels_available(b"P6\n0 5\n255\n"));
}

#[test]
fn a_short_texture_is_flagged() {
    let data = ppm("P6\n2 2\n255\n", &[0; 11]);
    assert!(!ppm_pixels_available(&data));
}

#[test]
fn an_unfinished_header_gives_an_empty_texture() {
    for data in [&b""[..], b"P6", b"P6\n3 2\n", b"P6\n3 2\n255"] {
        let img = decode_ppm(data).unwrap();
        assert!(img.pixels.is_empty());
        assert_eq!((img.width, img.height), (0, 0));
    }
}

#[test]
fn header_errors() {
    assert_eq!(decode_ppm(b"P3\n1 1\n255\nabc").err(), Some(LoadError::PpmMagic));
    assert_eq!(decode_ppm(b"P6\r\n1 1\n255\nabc").err(), Some(LoadError::PpmMagic));
    assert_eq!(decode_ppm(b"P6\n1 x\n255\nabc").err(), Some(LoadError::PpmSize));
    assert_eq!(decode_ppm(b"P6\n1 \xff\n255\nabc").err(), Some(LoadError::PpmSize));
    assert_eq!(decode_ppm(b"P6\n1 1\n256\nabc").err(), Some(LoadError::PpmMaxValue));
    assert_eq!(decode_ppm(b"P6\n1 1\n0\nabc").err(), Some(LoadError::PpmMaxValue));
    assert_eq!(decode_ppm(b"P6\n1 1\n 255\nabc").err(), Some(LoadError::PpmMaxValue));
    assert_eq!(decode_ppm(b"P6\n1 1\n70000\nabc").err(), Some(LoadError::PpmMaxValue));
}

#[test]
fn size_lines() {
    assert_eq!(read_size_line(b"640 480"), Some((640, 480)));
    assert_eq!(read_size_line(b"  7  "), Some((7, 0)));
    assert_eq!(read_size_line(b""), Some((0, 0)));
    assert_eq!(read_size_line(b"1 2 3"), Some((1, 2)));
    assert_eq!(read_size_line(b"1 2 x"), None);
    assert_eq!(read_size_line("3\u{a0}4".as_bytes()), Some((3, 4)));
    assert_eq!(read_size_line(b"3\r"), Some((3, 0)));
}

#[test]
fn max_value_lines() {
    assert!(read_max_value_line(b"255"));
    assert!(read_max_value_line(b"1"));
    assert!(read_max_value_line(b"+255"));
    assert!(!read_max_value_line(b"255\r"));
    assert!(!read_max_value_line(b""));
}
