use chr_reatlas::chr::{flip_x, flip_y, read_bytes, read_single_chr, transpose, ChrPixelPattern};
use chr_reatlas::Error;

fn sample() -> ChrPixelPattern {
    let mut p = [[0u8; 8]; 8];
    for y in 0..8 {
        for x in 0..8 {
            p[y][x] = ((x + 3 * y + x * y) % 4) as u8;
        }
    }
    p
}

#[test]
fn decode_all_zero_chunk() {
    assert_eq!(read_single_chr([0; 16]), [[0u8; 8]; 8]);
}

#[test]
fn decode_plane0_full_row() {
    let mut b = [0u8; 16];
    b[0] = 0xFF;
    let p = read_single_chr(b);
    assert_eq!(p[0], [1u8; 8]);
    assert_eq!(p[1], [0u8; 8]);
}

#[test]
fn decode_plane1_full_row() {
    let mut b = [0u8; 16];
    b[8] = 0xFF;
    assert_eq!(read_single_chr(b)[0], [2u8; 8]);
}

#[test]
fn decode_both_planes_full_row() {
    let mut b = [0u8; 16];
    b[0] = 0xFF;
    b[8] = 0xFF;
    assert_eq!(read_single_chr(b)[0], [3u8; 8]);
}

#[test]
fn decode_reads_most_significant_bit_first() {
    let mut b = [0u8; 16];
    b[0] = 0x80;
    b[8] = 0x01;
    assert_eq!(read_single_chr(b)[0], [1, 0, 0, 0, 0, 0, 0, 2]);
}

#[test]
fn decode_combines_planes_per_row() {
    let mut b = [0u8; 16];
    b[3] = 0x0F;
    b[11] = 0x3C;
    let p = read_single_chr(b);
    assert_eq!(p[3], [0, 0, 2, 2, 3, 3, 1, 1]);
    assert_eq!(p[2], [0u8; 8]);
}

#[test]
fn decode_is_deterministic() {
    let b = [0x12, 0x34, 0x56, 0x78, 0x9A, 0xBC, 0xDE, 0xF0, 0x0F, 0xED, 0xCB, 0xA9, 0x87, 0x65, 0x43, 0x21];
    assert_eq!(read_single_chr(b), read_single_chr(b));
}

#[test]
fn flip_x_reverses_each_row() {
    let p = sample();
    let mut q = p;
    flip_x(&mut q);
    for y in 0..8 {
        for x in 0..8 {
            assert_eq!(q[y][x], p[y][7 - x]);
        }
    }
}

#[test]
fn flip_y_reverses_row_order() {
    let p = sample();
    let mut q = p;
    flip_y(&mut q);
    for y in 0..8 {
        assert_eq!(q[y], p[7 - y]);
    }
}

#[test]
fn transpose_swaps_across_diagonal() {
    let p = sample();
    let mut q = p;
    transpose(&mut q);
    for y in 0..8 {
        for x in 0..8 {
            assert_eq!(q[y][x], p[x][y]);
        }
    }
}

#[test]
fn transforms_are_self_inverse() {
    let p = sample();
    let mut q = p;
    flip_x(&mut q);
    assert_ne!(q, p);
    flip_x(&mut q);
    assert_eq!(q, p);
    flip_y(&mut q);
    assert_ne!(q, p);
    flip_y(&mut q);
    assert_eq!(q, p);
    transpose(&mut q);
    assert_ne!(q, p);
    transpose(&mut q);
    assert_eq!(q, p);
}

#[test]
fn transpose_and_flip_do_not_commute() {
    let p = sample();
    let mut a = p;
    transpose(&mut a);
    flip_x(&mut a);
    let mut b = p;
    flip_x(&mut b);
    transpose(&mut b);
    assert_ne!(a, b);
}

#[test]
fn read_bytes_decodes_each_chunk() {
    let mut b = vec![0u8; 32];
    b[16] = 0xFF;
    let chrs = read_bytes(b).unwrap();
    assert_eq!(chrs.len(), 2);
    assert_eq!(chrs[0], [[0u8; 8]; 8]);
    assert_eq!(chrs[1][0], [1u8; 8]);
}

#[test]
fn read_bytes_of_nothing_is_empty() {
    assert_eq!(read_bytes(Vec::new()), Ok(Vec::new()));
}

#[test]
fn read_bytes_refuses_partial_chunk() {
    assert_eq!(read_bytes(vec![0u8; 17]), Err(Error::MalformedChunk));
    assert_eq!(read_bytes(vec![0u8; 15]), Err(Error::MalformedChunk));
}
