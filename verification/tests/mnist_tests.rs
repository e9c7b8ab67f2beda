use bolt::datasets::mnist::{
    check_images_match_labels, decode_images, decode_labels, gather_batch, Cursor, Error,
};

fn be(v: u32) -> [u8; 4] {
    v.to_be_bytes()
}

fn image_file(n: u32, rows: u32, cols: u32, pixels: usize) -> Vec<u8> {
    let mut b = Vec::new();
    b.extend_from_slice(&be(2051));
    b.extend_from_slice(&be(n));
    b.extend_from_slice(&be(rows));
    b.extend_from_slice(&be(cols));
    b.extend((0..pixels).map(|i| (i % 251) as u8));
    b
}

#[test]
fn cursor_reads_big_endian() {
    let mut c = Cursor::new("f".to_string(), vec![0, 0, 8, 3, 1]);
    assert_eq!(c.read_u32_be().unwrap(), 2051);
    match c.read_u32_be() {
        Err(Error::Format(msg)) => assert_eq!(msg, "unexpected eof reading u32 in f"),
        _ => panic!("expected a format error"),
    }
}

#[test]
fn decode_image_files() {
    let good = image_file(2, 28, 28, 2 * 784);
    let px = decode_images("img".to_string(), good.clone()).unwrap();
    assert_eq!(px.len(), 2 * 784);
    assert_eq!(px[..], good[16..]);
    assert!(matches!(decode_images("img".to_string(), image_file(2, 28, 27, 2 * 784)), Err(Error::Format(_))));
    assert!(matches!(decode_images("img".to_string(), image_file(2, 28, 28, 784)), Err(Error::Format(_))));
    let mut bad_magic = image_file(1, 28, 28, 784);
    bad_magic[3] = 1;
    assert!(matches!(decode_images("img".to_string(), bad_magic), Err(Error::Format(_))));
    assert!(matches!(decode_images("img".to_string(), vec![0, 0]), Err(Error::Format(_))));
}

#[test]
fn decode_label_files() {
    let mut b = Vec::new();
    b.extend_from_slice(&be(2049));
    b.extend_from_slice(&be(3));
    b.extend_from_slice(&[7, 1, 9]);
    assert_eq!(decode_labels("lbl".to_string(), b.clone()).unwrap(), vec![7, 1, 9]);
    b.push(0);
    assert!(matches!(decode_labels("lbl".to_string(), b), Err(Error::Format(_))));
}

#[test]
fn pairing_rule() {
    assert!(check_images_match_labels(2 * 784, 2, "train").is_ok());
    match check_images_match_labels(784, 2, "train") {
        Err(Error::Format(msg)) => assert_eq!(msg, "train images/labels length mismatch"),
        _ => panic!("expected a format error"),
    }
}

#[test]
fn batches_gather_rows_and_labels() {
    let images: Vec<u32> = (0..3 * 784).map(|i| i as u32).collect();
    let labels = vec![5u8, 6, 7];
    let (x, y) = gather_batch(&images, &labels, &[2, 0]);
    assert_eq!(y, vec![7, 5]);
    assert_eq!(x.len(), 2 * 784);
    assert_eq!(x[0], 2 * 784);
    assert_eq!(x[783], 3 * 784 - 1);
    assert_eq!(x[784], 0);
    let (fx, fy) = gather_batch(&[0.5f32; 784], &[1u8], &[0, 0]);
    assert_eq!(fx.len(), 2 * 784);
    assert_eq!(fy, vec![1, 1]);
}

fn format_message<T: std::fmt::Debug>(r: Result<T, Error>) -> String {
    match r {
        Err(Error::Format(m)) => m,
        other => panic!("expected a format error, got {other:?}"),
    }
}

#[test]
fn decode_errors_carry_values() {
    let mut bad_magic = image_file(1, 28, 28, 784);
    bad_magic[3] = 4;
    assert_eq!(
        format_message(decode_images("img".to_string(), bad_magic)),
        "bad images magic 2052 in img"
    );
    assert_eq!(
        format_message(decode_images("img".to_string(), image_file(2, 28, 27, 2 * 784))),
        "expected 28x28 images, got 28x27"
    );
    assert_eq!(
        format_message(decode_images("img".to_string(), image_file(2, 28, 28, 784))),
        "unexpected images file size: expected 1584, got 800"
    );
    assert_eq!(
        format_message(decode_images("img".to_string(), vec![0, 0, 8, 3, 0])),
        "unexpected eof reading u32 in img"
    );
    let mut b = Vec::new();
    b.extend_from_slice(&be(2050));
    b.extend_from_slice(&be(3));
    assert_eq!(format_message(decode_labels("lbl".to_string(), b)), "bad labels magic 2050 in lbl");
    let mut c = Vec::new();
    c.extend_from_slice(&be(2049));
    c.extend_from_slice(&be(3));
    c.push(1);
    assert_eq!(
        format_message(decode_labels("lbl".to_string(), c)),
        "unexpected labels file size: expected 11, got 9"
    );
}
