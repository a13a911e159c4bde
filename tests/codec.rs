use qoi::pixel::pixel_hash;
use qoi::{Channels, Chunk, ColorSpace, DecodeError, DiffRGB, Luma, PixelRGB, PixelRGBA, QOIImage};

fn px(r: u8, g: u8, b: u8, a: u8) -> PixelRGBA {
    PixelRGBA(r, g, b, a)
}

fn image_of(width: u32, height: u32, data: Vec<Chunk>) -> QOIImage {
    QOIImage { width, height, channels: Channels::RGBA, color_space: ColorSpace::SRGB, data }
}

fn header(width: u32, height: u32, channels: u8, color_space: u8) -> Vec<u8> {
    let mut v = vec![b'q', b'o', b'i', b'f'];
    v.extend_from_slice(&width.to_be_bytes());
    v.extend_from_slice(&height.to_be_bytes());
    v.push(channels);
    v.push(color_space);
    v
}

const TRAILER: [u8; 8] = [0, 0, 0, 0, 0, 0, 0, 1];

fn round_trip(grid: &Vec<Vec<PixelRGBA>>, width: usize, height: usize) -> Vec<Vec<PixelRGBA>> {
    let img = QOIImage::from_rgba_mat(grid, width, height);
    let bytes = img.serialize();
    let back = QOIImage::from_qoi_file(&bytes).unwrap();
    assert_eq!(back.data, img.data);
    back.to_rgba_mat().unwrap()
}

#[test]
fn single_red_pixel_stream() {
    // Against the initial previous pixel (0,0,0,255) the red delta is 255, outside
    // both the small-diff and the luma-diff ranges: a literal-RGB chunk.
    let grid = vec![vec![px(255, 0, 0, 255)]];
    let img = QOIImage::from_rgba_mat(&grid, 1, 1);
    assert_eq!(img.data, vec![Chunk::RGB(PixelRGB(255, 0, 0))]);
    assert_eq!(img.channels, Channels::RGB);
    assert_eq!(img.width, 1);
    assert_eq!(img.height, 1);
    let bytes = img.serialize();
    let mut expected = header(1, 1, 3, 1);
    expected.extend_from_slice(&[0b1111_1110, 255, 0, 0]);
    expected.extend_from_slice(&TRAILER);
    assert_eq!(bytes, expected);
    assert_eq!(bytes.len(), 26);
    assert_eq!(round_trip(&grid, 1, 1), grid);
}

#[test]
fn small_deltas_give_small_diff() {
    let grid = vec![vec![px(1, 0, 255, 255), px(0, 1, 253, 255)]];
    let img = QOIImage::from_rgba_mat(&grid, 2, 1);
    // (1,0,255) against (0,0,0) is no small diff; then deltas -1, +1, -2
    assert_eq!(img.data[1], Chunk::Diff(DiffRGB(1, 3, 0)));
    assert_eq!(round_trip(&grid, 2, 1), grid);
}

#[test]
fn literal_rgb_chunk_stream() {
    let img = image_of(1, 1, vec![Chunk::RGB(PixelRGB(255, 0, 0))]);
    let bytes = img.serialize();
    let mut expected = header(1, 1, 4, 0);
    expected.extend_from_slice(&[0b1111_1110, 255, 0, 0]);
    expected.extend_from_slice(&TRAILER);
    assert_eq!(bytes, expected);
    assert_eq!(bytes.len(), 26);
    assert_eq!(img.to_rgba_mat().unwrap(), vec![vec![px(255, 0, 0, 255)]]);
}

#[test]
fn long_row_splits_runs() {
    let grid = vec![vec![px(9, 9, 9, 255); 200]];
    let img = QOIImage::from_rgba_mat(&grid, 200, 1);
    let runs: Vec<u8> = img
        .data
        .iter()
        .filter_map(|c| if let Chunk::Run(n) = c { Some(*n) } else { None })
        .collect();
    assert_eq!(runs, vec![61, 61, 61, 12]);
    assert_eq!(img.data.len(), 5);
    assert_eq!(round_trip(&grid, 200, 1), grid);
}

#[test]
fn long_row_of_initial_pixel_splits_runs() {
    let grid = vec![vec![px(0, 0, 0, 255); 200]];
    let img = QOIImage::from_rgba_mat(&grid, 200, 1);
    assert_eq!(img.data, vec![Chunk::Run(61), Chunk::Run(61), Chunk::Run(61), Chunk::Run(13)]);
    assert_eq!((200 + 61) / 62, img.data.len());
    assert_eq!(round_trip(&grid, 200, 1), grid);
}

#[test]
fn run_of_exactly_sixty_two() {
    let grid = vec![vec![px(0, 0, 0, 255); 62], vec![px(0, 0, 0, 255); 1]];
    let img = QOIImage::from_rgba_mat(&grid, 63, 1);
    assert_eq!(img.data, vec![Chunk::Run(61), Chunk::Run(0)]);
}

#[test]
fn small_diff_wraps_around() {
    let img = image_of(2, 1, vec![Chunk::RGB(PixelRGB(255, 255, 255)), Chunk::Diff(DiffRGB(3, 3, 3))]);
    let rows = img.to_rgba_mat().unwrap();
    assert_eq!(rows, vec![vec![px(255, 255, 255, 255), px(0, 0, 0, 255)]]);
    // the encoder takes 255 -> 0 as the plain difference -255: a literal
    let img = QOIImage::from_rgba_mat(&rows, 2, 1);
    assert_eq!(img.data[1], Chunk::RGB(PixelRGB(0, 0, 0)));
    assert_eq!(round_trip(&rows, 2, 1), rows);
}

#[test]
fn luma_diff_wraps_around() {
    // green +5 (bias 32); red and blue move as green does (bias 8), wrapping past 255
    let img = image_of(2, 1, vec![Chunk::RGB(PixelRGB(255, 100, 255)), Chunk::Luma(Luma(33 + 4, 8, 8))]);
    let rows = img.to_rgba_mat().unwrap();
    assert_eq!(rows, vec![vec![px(255, 100, 255, 255), px(4, 105, 4, 255)]]);
    let img = QOIImage::from_rgba_mat(&rows, 2, 1);
    assert_eq!(img.data[1], Chunk::RGB(PixelRGB(4, 105, 4)));
    let near = vec![vec![px(200, 100, 50, 255), px(203, 105, 60, 255)]];
    let img = QOIImage::from_rgba_mat(&near, 2, 1);
    // dg = 5, dr - dg = -2, db - dg = 5
    assert_eq!(img.data[1], Chunk::Luma(Luma(37, 6, 13)));
    assert_eq!(round_trip(&near, 2, 1), near);
    assert_eq!(round_trip(&rows, 2, 1), rows);
}

#[test]
fn luma_decode_formula() {
    let img = image_of(2, 1, vec![Chunk::RGB(PixelRGB(10, 20, 30)), Chunk::Luma(Luma(40, 3, 12))]);
    // green + (40 - 32) = 28; red + (3 - 8) + 8 = 13; blue + (12 - 8) + 8 = 42
    assert_eq!(img.to_rgba_mat().unwrap()[0][1], px(13, 28, 42, 255));
}

#[test]
fn cache_hit_after_other_pixel() {
    let a = px(10, 20, 30, 255);
    let b = px(200, 100, 50, 255);
    let grid = vec![vec![a, b, a]];
    let img = QOIImage::from_rgba_mat(&grid, 3, 1);
    assert_eq!(img.data[2], Chunk::Index(pixel_hash(a) as u8));
    assert_eq!(round_trip(&grid, 3, 1), grid);
}

#[test]
fn colliding_pixels_are_not_cache_hits() {
    let x = px(64, 0, 0, 255);
    let z = px(128, 0, 0, 255);
    assert_eq!(pixel_hash(x), pixel_hash(z));
    let grid = vec![vec![x, px(10, 10, 10, 255), z]];
    let img = QOIImage::from_rgba_mat(&grid, 3, 1);
    assert_eq!(img.data[2], Chunk::RGB(PixelRGB(128, 0, 0)));
    assert!(!img.data.iter().any(|c| matches!(c, Chunk::Index(_))));
    assert_eq!(round_trip(&grid, 3, 1), grid);
}

#[test]
fn hash_values() {
    assert_eq!(pixel_hash(px(0, 0, 0, 0)), 0);
    assert_eq!(pixel_hash(px(255, 0, 0, 255)), 50);
    assert_eq!(pixel_hash(px(1, 1, 1, 1)), 26);
}

#[test]
fn alpha_change_gives_literal_rgba() {
    let grid = vec![vec![px(1, 2, 3, 4), px(1, 2, 3, 5)]];
    let img = QOIImage::from_rgba_mat(&grid, 2, 1);
    assert_eq!(img.channels, Channels::RGBA);
    assert_eq!(img.color_space, ColorSpace::Linear);
    assert_eq!(img.data, vec![Chunk::RGBA(px(1, 2, 3, 4)), Chunk::RGBA(px(1, 2, 3, 5))]);
    assert_eq!(round_trip(&grid, 2, 1), grid);
}

#[test]
fn mixed_grid_round_trip() {
    let mut grid = Vec::new();
    for y in 0..7u32 {
        let mut row = Vec::new();
        for x in 0..9u32 {
            let v = (x * 37 + y * 11) as u8;
            row.push(px(v, v.wrapping_add(x as u8), 255 - v, if (x + y) % 5 == 0 { 128 } else { 255 }));
        }
        grid.push(row);
    }
    assert_eq!(round_trip(&grid, 9, 7), grid);
}

#[test]
fn bytes_round_trip() {
    let mut bytes = header(3, 2, 4, 1);
    bytes.extend_from_slice(&[0xff, 1, 2, 3, 4, 0xfe, 9, 8, 7, 0x05, 0x6a, 0x9f, 0x3c, 0xc2]);
    bytes.extend_from_slice(&TRAILER);
    let img = QOIImage::from_qoi_file(&bytes).unwrap();
    assert_eq!(img.width, 3);
    assert_eq!(img.height, 2);
    assert_eq!(img.channels, Channels::RGBA);
    assert_eq!(img.color_space, ColorSpace::Linear);
    assert_eq!(
        img.data,
        vec![
            Chunk::RGBA(px(1, 2, 3, 4)),
            Chunk::RGB(PixelRGB(9, 8, 7)),
            Chunk::Index(5),
            Chunk::Diff(DiffRGB(2, 2, 2)),
            Chunk::Luma(Luma(31, 3, 12)),
            Chunk::Run(2),
        ]
    );
    assert_eq!(img.serialize(), bytes);
}

#[test]
fn stream_without_trailer_is_read() {
    let mut bytes = header(1, 1, 3, 0);
    bytes.push(0xc0);
    let img = QOIImage::from_qoi_file(&bytes).unwrap();
    assert_eq!(img.data, vec![Chunk::Run(0)]);
    assert_eq!(img.to_rgba_mat().unwrap(), vec![vec![px(0, 0, 0, 255)]]);
}

#[test]
fn index_zeros_then_one_read_as_trailer() {
    let mut data = vec![Chunk::RGBA(px(1, 1, 1, 1))];
    data.extend(vec![Chunk::Index(0); 7]);
    data.push(Chunk::Index(1));
    data.push(Chunk::Run(0));
    let img = image_of(10, 1, data);
    let back = QOIImage::from_qoi_file(&img.serialize()).unwrap();
    assert_eq!(back.data, vec![Chunk::RGBA(px(1, 1, 1, 1))]);
}

#[test]
fn more_zero_tags_before_trailer() {
    let mut bytes = header(1, 1, 3, 0);
    bytes.push(0);
    bytes.extend_from_slice(&TRAILER);
    let img = QOIImage::from_qoi_file(&bytes).unwrap();
    assert_eq!(img.data, vec![Chunk::Index(0)]);
    assert_eq!(img.serialize(), bytes);
}

#[test]
fn header_errors() {
    let full = {
        let mut b = header(1, 1, 3, 0);
        b.extend_from_slice(&TRAILER);
        b
    };
    assert!(QOIImage::from_qoi_file(&full).is_ok());
    assert_eq!(QOIImage::from_qoi_file(&full[..13]).err(), Some(DecodeError::IncompleteHeader));
    assert_eq!(QOIImage::from_qoi_file(&[]).err(), Some(DecodeError::IncompleteHeader));
    let mut bad = full.clone();
    bad[3] = b'g';
    assert_eq!(QOIImage::from_qoi_file(&bad).err(), Some(DecodeError::BadMagic));
    let mut bad = full.clone();
    bad[12] = 5;
    assert_eq!(QOIImage::from_qoi_file(&bad).err(), Some(DecodeError::InvalidChannels));
    let mut bad = full.clone();
    bad[13] = 2;
    assert_eq!(QOIImage::from_qoi_file(&bad).err(), Some(DecodeError::InvalidColorspace));
}

#[test]
fn truncated_chunks_are_errors() {
    for tail in [vec![0xffu8, 1, 2, 3], vec![0xfe, 1, 2], vec![0x80]] {
        let mut bytes = header(1, 1, 4, 0);
        bytes.extend_from_slice(&tail);
        assert_eq!(QOIImage::from_qoi_file(&bytes).err(), Some(DecodeError::UnexpectedEndOfStream));
    }
}

#[test]
fn header_big_endian() {
    let mut bytes = header(0x0102_0304, 0xa0b0_c0d0, 3, 0);
    bytes.extend_from_slice(&TRAILER);
    let img = QOIImage::from_qoi_file(&bytes).unwrap();
    assert_eq!(img.width, 0x0102_0304);
    assert_eq!(img.height, 0xa0b0_c0d0);
    assert_eq!(&bytes[4..8], &[1, 2, 3, 4]);
    assert_eq!(img.serialize(), bytes);
}

#[test]
fn too_few_pixels_decode_to_none() {
    let img = image_of(2, 2, vec![Chunk::Run(2)]);
    assert!(img.to_rgba_mat().is_none());
}

#[test]
fn extra_pixels_are_dropped() {
    let img = image_of(2, 1, vec![Chunk::Run(4)]);
    assert_eq!(img.to_rgba_mat().unwrap(), vec![vec![px(0, 0, 0, 255); 2]]);
}

#[test]
fn empty_image() {
    let grid: Vec<Vec<PixelRGBA>> = Vec::new();
    let img = QOIImage::from_rgba_mat(&grid, 0, 0);
    assert!(img.data.is_empty());
    assert_eq!(img.serialize().len(), 22);
    assert_eq!(img.to_rgba_mat().unwrap(), grid);
}

#[test]
fn validity_of_chunks() {
    assert!(image_of(1, 1, vec![Chunk::Index(63), Chunk::Run(61), Chunk::Luma(Luma(63, 15, 15))]).is_valid());
    assert!(!image_of(1, 1, vec![Chunk::Index(64)]).is_valid());
    assert!(!image_of(1, 1, vec![Chunk::Run(62)]).is_valid());
    assert!(!image_of(1, 1, vec![Chunk::Diff(DiffRGB(0, 4, 0))]).is_valid());
    assert!(!image_of(1, 1, vec![Chunk::Luma(Luma(0, 0, 16))]).is_valid());
    let grid = vec![vec![px(3, 4, 5, 6); 70]];
    assert!(QOIImage::from_rgba_mat(&grid, 70, 1).is_valid());
}
