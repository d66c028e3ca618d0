use lib::ppm::{format_row, ppm_document, ppm_header};

#[test]
fn header_has_magic_size_and_maximum() {
    assert_eq!(ppm_header(400, 225), b"P3\n400 225\n255\n".to_vec());
    assert_eq!(ppm_header(0, 0), b"P3\n0 0\n255\n".to_vec());
}

#[test]
fn row_separates_components_and_pixels_by_spaces() {
    let row = format_row(&vec![(255, 0, 12), (1, 2, 3)]);
    assert_eq!(row, b"255 0 12 1 2 3".to_vec());
}

#[test]
fn single_pixel_row() {
    assert_eq!(format_row(&vec![(7, 8, 9)]), b"7 8 9".to_vec());
}

#[test]
fn empty_row_is_empty() {
    assert_eq!(format_row(&vec![]), Vec::<u8>::new());
}

#[test]
fn row_matches_format_macro() {
    let pixels = vec![(0, 128, 255), (34, 5, 67), (255, 255, 255)];
    let mut expected = String::new();
    for (i, p) in pixels.iter().enumerate() {
        if i > 0 {
            expected.push(' ');
        }
        expected.push_str(&format!("{} {} {}", p.0, p.1, p.2));
    }
    assert_eq!(format_row(&pixels), expected.into_bytes());
}

#[test]
fn joined_runs_are_joined_by_one_space() {
    let a = vec![(1, 2, 3)];
    let b = vec![(4, 5, 6), (7, 8, 9)];
    let mut ab = a.clone();
    ab.extend(b.iter().copied());
    let mut expected = format_row(&a);
    expected.push(b' ');
    expected.extend(format_row(&b));
    assert_eq!(format_row(&ab), expected);
}

#[test]
fn document_is_header_then_rows() {
    let rows = vec![format_row(&vec![(1, 2, 3), (4, 5, 6)]), format_row(&vec![(7, 8, 9), (10, 11, 12)])];
    let doc = ppm_document(2, 2, &rows);
    assert_eq!(doc, b"P3\n2 2\n255\n1 2 3 4 5 6\n7 8 9 10 11 12\n".to_vec());
}

#[test]
fn document_has_one_line_per_row_after_header() {
    let rows: Vec<Vec<u8>> = (0..5).map(|j| format_row(&vec![(j, 255 - j, 0); 3])).collect();
    let doc = ppm_document(3, 5, &rows);
    assert_eq!(doc.iter().filter(|&&b| b == b'\n').count(), 5 + 3);
}

#[test]
fn document_without_rows_is_header() {
    assert_eq!(ppm_document(4, 0, &vec![]), ppm_header(4, 0));
}
