use pwetty_box::pixels::{flip_rows, rgba_to_argb32_premultiplied, swap_red_blue};

#[test]
fn swap_red_blue_swaps_whole_pixels_only() {
    let mut b = vec![1, 2, 3, 4, 5, 6, 7, 8, 9, 10];
    swap_red_blue(&mut b);
    assert_eq!(b, vec![3, 2, 1, 4, 7, 6, 5, 8, 9, 10]);
    swap_red_blue(&mut b);
    assert_eq!(b, vec![1, 2, 3, 4, 5, 6, 7, 8, 9, 10]);
}

#[test]
fn rgba_becomes_premultiplied_bgra() {
    let mut b = vec![255, 128, 0, 128, 10, 20, 30, 255, 7];
    rgba_to_argb32_premultiplied(&mut b);
    assert_eq!(b, vec![0, 64, 128, 128, 30, 20, 10, 255, 7]);
}

#[test]
fn flip_rows_mirrors_and_keeps_tail() {
    // 1 pixel wide, 3 rows, plus two trailing bytes.
    let mut b: Vec<u8> = (0..14).collect();
    flip_rows(&mut b, 1, 3);
    assert_eq!(b, vec![8, 9, 10, 11, 4, 5, 6, 7, 0, 1, 2, 3, 12, 13]);
    flip_rows(&mut b, 1, 3);
    assert_eq!(b, (0..14).collect::<Vec<u8>>());
    let mut z = vec![1u8, 2, 3];
    flip_rows(&mut z, 0, 5);
    assert_eq!(z, vec![1, 2, 3]);
}
