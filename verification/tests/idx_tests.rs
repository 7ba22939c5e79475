use mnist_nn::idx::{
    decode_labels, decode_pictures, labels_header_valid, pictures_header_valid, read_be_u32,
};

fn image_file(count: u32, rows: u32, cols: u32, pixels: &[u8]) -> Vec<u8> {
    let mut buf = vec![0, 0, 8, 3];
    buf.extend_from_slice(&count.to_be_bytes());
    buf.extend_from_slice(&rows.to_be_bytes());
    buf.extend_from_slice(&cols.to_be_bytes());
    buf.extend_from_slice(pixels);
    buf
}

fn label_file(labels: &[u8]) -> Vec<u8> {
    let mut buf = vec![0, 0, 8, 1];
    buf.extend_from_slice(&(labels.len() as u32).to_be_bytes());
    buf.extend_from_slice(labels);
    buf
}

#[test]
fn read_be_u32_is_big_endian() {
    let buf = [0xde, 0x12, 0x34, 0x56, 0x78, 0x9a];
    assert_eq!(read_be_u32(&buf, 1), 0x1234_5678);
    assert_eq!(read_be_u32(&buf, 2), 0x3456_789a);
    assert_eq!(read_be_u32(&[0xff, 0xff, 0xff, 0xff], 0), u32::MAX);
    assert_eq!(read_be_u32(&[0, 0, 0xea, 0x60], 0), 60000);
}

#[test]
fn decode_pictures_splits_images() {
    let buf = image_file(3, 2, 2, &[1, 2, 3, 4, 5, 6, 7, 8, 9, 10, 11, 12]);
    assert!(pictures_header_valid(&buf));
    let images = decode_pictures(&buf);
    assert_eq!(images, vec![vec![1, 2, 3, 4], vec![5, 6, 7, 8], vec![9, 10, 11, 12]]);
}

#[test]
fn decode_pictures_ignores_trailing_bytes() {
    let buf = image_file(1, 1, 2, &[200, 201, 99, 98]);
    assert_eq!(decode_pictures(&buf), vec![vec![200, 201]]);
}

#[test]
fn decode_pictures_with_no_images() {
    let buf = image_file(0, 28, 28, &[]);
    assert!(pictures_header_valid(&buf));
    assert!(decode_pictures(&buf).is_empty());
}

#[test]
fn pictures_header_rejects_short_or_truncated_files() {
    assert!(!pictures_header_valid(&[0, 0, 8, 3, 0, 0, 0, 1]));
    let truncated = image_file(2, 2, 2, &[1, 2, 3, 4, 5, 6, 7]);
    assert!(!pictures_header_valid(&truncated));
    let exact = image_file(2, 2, 2, &[1, 2, 3, 4, 5, 6, 7, 8]);
    assert!(pictures_header_valid(&exact));
    let huge = image_file(u32::MAX, u32::MAX, u32::MAX, &[]);
    assert!(!pictures_header_valid(&huge));
}

#[test]
fn decode_labels_reads_announced_labels() {
    let mut buf = label_file(&[5, 0, 4, 1, 9]);
    buf.push(3); // not announced
    assert!(labels_header_valid(&buf));
    assert_eq!(decode_labels(&buf), vec![5, 0, 4, 1, 9]);
}

#[test]
fn labels_header_rejects_short_files() {
    assert!(!labels_header_valid(&[0, 0, 8, 1, 0, 0]));
    let mut buf = label_file(&[1, 2, 3]);
    buf.pop();
    assert!(!labels_header_valid(&buf));
    assert!(labels_header_valid(&label_file(&[])));
}
