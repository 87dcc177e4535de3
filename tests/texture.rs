use raytracer::texture::Bitmap;

fn sample_bitmap() -> Bitmap {
    // 2 wide, 3 high; texel (i, j) holds (10 * j + i, 100 + i, 200 + j)
    let mut data = Vec::new();
    for j in 0..3u8 {
        for i in 0..2u8 {
            data.push(10 * j + i);
            data.push(100 + i);
            data.push(200 + j);
        }
    }
    Bitmap::new(2, 3, data).unwrap()
}

#[test]
fn bitmap_rejects_wrong_sizes() {
    assert!(Bitmap::new(0, 3, vec![]).is_none());
    assert!(Bitmap::new(2, 0, vec![]).is_none());
    assert!(Bitmap::new(2, 2, vec![0; 11]).is_none());
    assert!(Bitmap::new(2, 2, vec![0; 13]).is_none());
    let b = Bitmap::new(2, 2, vec![0; 12]).unwrap();
    assert_eq!((b.width, b.height, b.data.len()), (2, 2, 12));
}

#[test]
fn texel_reads_row_major_rgb() {
    let b = sample_bitmap();
    assert_eq!(b.texel(0, 0), (0, 100, 200));
    assert_eq!(b.texel(1, 0), (1, 101, 200));
    assert_eq!(b.texel(0, 2), (20, 100, 202));
    assert_eq!(b.texel(1, 1), (11, 101, 201));
}

#[test]
fn texel_clamps_past_the_edge() {
    let b = sample_bitmap();
    assert_eq!(b.texel(2, 0), (1, 101, 200));
    assert_eq!(b.texel(7, 3), (21, 101, 202));
    assert_eq!(b.texel(u32::MAX, u32::MAX), (21, 101, 202));
}

#[test]
fn one_texel_bitmap() {
    let b = Bitmap::new(1, 1, vec![5, 6, 7]).unwrap();
    assert_eq!(b.texel(0, 0), (5, 6, 7));
    assert_eq!(b.texel(3, 9), (5, 6, 7));
}
