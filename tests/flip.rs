use image_flip::image::{Image, ImageError};
use image_flip::layout::exchange_two_pixels;
use image_flip::partition::partition;
use image_flip::utils::four_u8_to_i32;

fn image_of(width: u32, height: u32, channel: u32, data: &[u8]) -> Image {
    Image::new(&[1, 2], &[9], width, height, channel, data).unwrap()
}

fn numbered(width: u32, height: u32, channel: u32) -> Image {
    let n = (width * height * channel) as usize;
    let data: Vec<u8> = (0..n).map(|i| (i * 7 % 251) as u8).collect();
    image_of(width, height, channel, &data)
}

fn pixel(img: &Image, row: u32, col: u32) -> Vec<u8> {
    let ch = img.channel();
    let at = (ch * (row * img.width() + col)) as usize;
    img.data()[at..at + ch as usize].to_vec()
}

fn row_bytes(img: &Image, row: u32) -> Vec<u8> {
    let span = (img.width() * img.channel()) as usize;
    let at = row as usize * span;
    img.data()[at..at + span].to_vec()
}

fn marker_image() -> Image {
    let mut data = vec![0u8; 4 * 4 * 3];
    data[0] = 10;
    data[1] = 20;
    data[2] = 30;
    image_of(4, 4, 3, &data)
}

#[test]
fn partition_seventeen_by_five() {
    assert_eq!(partition(17, 5), vec![(0, 3), (3, 6), (6, 9), (9, 12), (12, 17)]);
}

#[test]
fn partition_even_split() {
    assert_eq!(partition(12, 4), vec![(0, 3), (3, 6), (6, 9), (9, 12)]);
}

#[test]
fn partition_one_worker() {
    assert_eq!(partition(7, 1), vec![(0, 7)]);
}

#[test]
fn partition_more_workers_than_indices() {
    assert_eq!(partition(3, 5), vec![(0, 0), (0, 0), (0, 0), (0, 0), (0, 3)]);
}

#[test]
fn exchange_corner_pixels() {
    let data: Vec<u8> = (0..48).collect();
    let mut img = image_of(4, 4, 3, &data);
    img.exchange_two_pixels((0, 0, 3, 3));
    let mut expected = data.clone();
    expected[0..3].copy_from_slice(&[45, 46, 47]);
    expected[45..48].copy_from_slice(&[0, 1, 2]);
    assert_eq!(img.data(), &expected[..]);
}

#[test]
fn exchange_out_of_range_is_noop() {
    let data: Vec<u8> = (0..48).collect();
    let mut img = image_of(4, 4, 3, &data);
    img.exchange_two_pixels((0, 0, 4, 4));
    assert_eq!(img.data(), &data[..]);
}

#[test]
fn exchange_same_pixel_is_noop() {
    let data: Vec<u8> = (0..48).collect();
    let mut img = image_of(4, 4, 3, &data);
    img.exchange_two_pixels((2, 1, 2, 1));
    assert_eq!(img.data(), &data[..]);
}

#[test]
fn exchange_in_one_row_buffer() {
    let mut buf: Vec<u8> = vec![1, 2, 3, 4, 5, 6];
    exchange_two_pixels(&mut buf, (0, 0, 0, 2), 3, 1, 2);
    assert_eq!(buf, vec![5, 6, 3, 4, 1, 2]);
    exchange_two_pixels(&mut buf, (0, 1, 0, 3), 3, 1, 2);
    assert_eq!(buf, vec![5, 6, 3, 4, 1, 2]);
}

#[test]
fn new_rejects_length_mismatch() {
    let r = Image::new(&[], &[], 2, 2, 3, &[0u8; 11]);
    assert!(matches!(r, Err(ImageError::LengthMismatch)));
}

#[test]
fn new_keeps_parts() {
    let img = Image::new(&[7], &[8, 9], 1, 2, 3, &[1, 2, 3, 4, 5, 6]).unwrap();
    assert_eq!((img.width(), img.height(), img.channel()), (1, 2, 3));
    assert_eq!(img.to_bytes(), vec![7, 1, 2, 3, 4, 5, 6, 8, 9]);
}

#[test]
fn vertical_buffered_moves_marker_to_last_row() {
    let mut img = marker_image();
    img.flip_vertical_cocurrently_memory_friendly(2);
    assert_eq!(pixel(&img, 3, 0), vec![10, 20, 30]);
    assert_eq!(pixel(&img, 0, 0), vec![0, 0, 0]);
    assert_eq!(img.data().iter().filter(|b| **b != 0).count(), 3);
}

#[test]
fn vertical_direct_leaves_row_zero() {
    let mut img = marker_image();
    img.flip_vertical();
    assert_eq!(pixel(&img, 0, 0), vec![10, 20, 30]);
    assert_eq!(img.data().iter().filter(|b| **b != 0).count(), 3);
    let mut img = marker_image();
    img.flip_vertical_cocurrently(3);
    assert_eq!(pixel(&img, 0, 0), vec![10, 20, 30]);
}

#[test]
fn vertical_direct_moves_row_one_to_last() {
    let mut data = vec![0u8; 4 * 4 * 3];
    data[12..15].copy_from_slice(&[10, 20, 30]);
    let mut img = image_of(4, 4, 3, &data);
    img.flip_vertical();
    assert_eq!(pixel(&img, 3, 0), vec![10, 20, 30]);
    assert_eq!(pixel(&img, 1, 0), vec![0, 0, 0]);
}

#[test]
fn vertical_exact_results() {
    let mut direct = image_of(1, 4, 1, &[0, 1, 2, 3]);
    direct.flip_vertical();
    assert_eq!(direct.data(), &[0, 3, 2, 1]);
    let mut buffered = image_of(1, 4, 1, &[0, 1, 2, 3]);
    buffered.flip_vertical_cocurrently_memory_friendly(1);
    assert_eq!(buffered.data(), &[3, 2, 1, 0]);
    let mut odd = image_of(1, 5, 1, &[0, 1, 2, 3, 4]);
    odd.flip_vertical_cocurrently_memory_friendly(2);
    assert_eq!(odd.data(), &[4, 3, 2, 1, 0]);
}

#[test]
fn horizontal_exact_results() {
    let data: Vec<u8> = vec![0, 1, 2, 3, 10, 11, 12, 13, 20, 21, 22, 23];
    let mut direct = image_of(4, 3, 1, &data);
    direct.flip_horizontal();
    assert_eq!(direct.data(), &[10, 3, 2, 1, 20, 13, 12, 11, 0, 23, 22, 21]);
    let mut buffered = image_of(4, 3, 1, &data);
    buffered.flip_horizontal_cocurrently_memory_friendly(2);
    assert_eq!(buffered.data(), &[0, 3, 2, 1, 10, 13, 12, 11, 20, 23, 22, 21]);
}

#[test]
fn narrow_images_stay() {
    let data: Vec<u8> = vec![4, 5, 6];
    let mut img = image_of(1, 1, 3, &data);
    img.flip_horizontal();
    img.flip_vertical();
    img.flip_horizontal_cocurrently(1);
    img.flip_vertical_cocurrently_memory_friendly(1);
    assert_eq!(img.data(), &data[..]);
}

#[test]
fn vertical_buffered_twice_restores() {
    let mut img = numbered(7, 9, 3);
    let before = img.data().to_vec();
    img.flip_vertical_cocurrently_memory_friendly(3);
    assert_ne!(img.data(), &before[..]);
    img.flip_vertical_cocurrently_memory_friendly(4);
    assert_eq!(img.data(), &before[..]);
}

#[test]
fn horizontal_buffered_twice_restores() {
    let mut img = numbered(9, 6, 3);
    let before = img.data().to_vec();
    img.flip_horizontal_cocurrently_memory_friendly(2);
    assert_ne!(img.data(), &before[..]);
    img.flip_horizontal_cocurrently_memory_friendly(5);
    assert_eq!(img.data(), &before[..]);
}

#[test]
fn vertical_strategies_differ_by_one_row() {
    let base = numbered(3, 7, 3);
    let mut direct = numbered(3, 7, 3);
    direct.flip_vertical_cocurrently(2);
    let mut buffered = numbered(3, 7, 3);
    buffered.flip_vertical_cocurrently_memory_friendly(2);
    assert_eq!(row_bytes(&direct, 0), row_bytes(&base, 0));
    assert_ne!(row_bytes(&direct, 0), row_bytes(&buffered, 0));
    for r in [1u32, 2, 5, 6] {
        assert_eq!(row_bytes(&direct, r), row_bytes(&buffered, r - 1));
    }
    for r in [3u32, 4] {
        assert_eq!(row_bytes(&direct, r), row_bytes(&base, r));
    }
}

#[test]
fn worker_count_does_not_change_result() {
    for n in [2usize, 3, 10] {
        let mut a = numbered(13, 11, 3);
        let mut b = numbered(13, 11, 3);
        a.flip_vertical_cocurrently(1);
        b.flip_vertical_cocurrently(n);
        assert_eq!(a.data(), b.data());
        let mut c = numbered(13, 11, 3);
        c.flip_vertical();
        assert_eq!(a.data(), c.data());

        let mut a = numbered(13, 11, 3);
        let mut b = numbered(13, 11, 3);
        a.flip_vertical_cocurrently_memory_friendly(1);
        b.flip_vertical_cocurrently_memory_friendly(n);
        assert_eq!(a.data(), b.data());

        let mut a = numbered(13, 11, 3);
        let mut b = numbered(13, 11, 3);
        a.flip_horizontal_cocurrently(1);
        b.flip_horizontal_cocurrently(n);
        assert_eq!(a.data(), b.data());
        let mut c = numbered(13, 11, 3);
        c.flip_horizontal();
        assert_eq!(a.data(), c.data());

        let mut a = numbered(13, 11, 3);
        let mut b = numbered(13, 11, 3);
        a.flip_horizontal_cocurrently_memory_friendly(1);
        b.flip_horizontal_cocurrently_memory_friendly(n);
        assert_eq!(a.data(), b.data());
    }
}

#[test]
fn reads_little_endian_u32() {
    assert_eq!(four_u8_to_i32(&[1, 2, 0, 0]), 513);
    assert_eq!(four_u8_to_i32(&[0x78, 0x56, 0x34, 0x12, 0xff]), 0x1234_5678);
}

fn bitmap(width: u32, height: u32, pixels: &[u8], trailer: &[u8]) -> Vec<u8> {
    let mut content = vec![0u8; 54];
    content[0] = b'B';
    content[1] = b'M';
    content[18..22].copy_from_slice(&width.to_le_bytes());
    content[22..26].copy_from_slice(&height.to_le_bytes());
    content.extend_from_slice(pixels);
    content.extend_from_slice(trailer);
    content
}

#[test]
fn bitmap_round_trip() {
    let content = bitmap(2, 1, &[1, 2, 3, 4, 5, 6], &[7, 8]);
    let img = Image::from_bitmap(&content).unwrap();
    assert_eq!((img.width(), img.height(), img.channel()), (2, 1, 3));
    assert_eq!(img.data(), &[1, 2, 3, 4, 5, 6]);
    assert_eq!(img.to_bytes(), content);
}

#[test]
fn bitmap_flip_writes_pixels_only() {
    let content = bitmap(2, 1, &[1, 2, 3, 4, 5, 6], &[7, 8]);
    let mut img = Image::from_bitmap(&content).unwrap();
    img.flip_horizontal_cocurrently_memory_friendly(1);
    assert_eq!(img.to_bytes(), content);
    let content = bitmap(1, 2, &[1, 2, 3, 4, 5, 6], &[7, 8]);
    let mut img = Image::from_bitmap(&content).unwrap();
    img.flip_vertical_cocurrently_memory_friendly(1);
    assert_eq!(img.to_bytes(), bitmap(1, 2, &[4, 5, 6, 1, 2, 3], &[7, 8]));
}

#[test]
fn bitmap_truncated() {
    assert!(matches!(Image::from_bitmap(&[0u8; 53]), Err(ImageError::Truncated)));
    let content = bitmap(2, 2, &[1, 2, 3, 4, 5, 6], &[]);
    assert!(matches!(Image::from_bitmap(&content), Err(ImageError::Truncated)));
}

#[test]
fn mirror_one_row() {
    let mut buf: Vec<u8> = vec![0, 1, 2, 3, 4];
    image_flip::image::mirror_row(&mut buf, 5, 1);
    assert_eq!(buf, vec![0, 4, 2, 3, 1]);
}

#[test]
fn set_pixels_checks_length() {
    let mut img = image_of(2, 1, 1, &[1, 2]);
    assert!(matches!(img.set_pixels(vec![3]), Err(ImageError::LengthMismatch)));
    assert_eq!(img.data(), &[1, 2]);
    assert!(img.set_pixels(vec![3, 4]).is_ok());
    assert_eq!(img.data(), &[3, 4]);
}
