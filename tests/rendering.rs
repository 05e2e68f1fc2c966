use wireframe::rendering::draw_line;

fn lit(buf: &[u32], width: usize) -> Vec<(usize, usize)> {
    let mut out = Vec::new();
    for (i, &c) in buf.iter().enumerate() {
        if c != 0 {
            out.push((i % width, i / width));
        }
    }
    out
}

#[test]
fn single_point_line_writes_one_pixel() {
    let mut buf = vec![0u32; 6 * 4];
    draw_line(&mut buf, 6, 4, (0, 0), (0, 0), 7);
    assert_eq!(lit(&buf, 6), vec![(0, 0)]);
    assert_eq!(buf[0], 7);
}

#[test]
fn horizontal_line_writes_five_pixels() {
    let mut buf = vec![0u32; 6 * 4];
    draw_line(&mut buf, 6, 4, (0, 0), (4, 0), 9);
    assert_eq!(lit(&buf, 6), vec![(0, 0), (1, 0), (2, 0), (3, 0), (4, 0)]);
}

#[test]
fn vertical_line_reversed() {
    let mut buf = vec![0u32; 3 * 5];
    draw_line(&mut buf, 3, 5, (1, 4), (1, 1), 1);
    assert_eq!(lit(&buf, 3), vec![(1, 1), (1, 2), (1, 3), (1, 4)]);
}

#[test]
fn diagonal_line_moves_both_axes() {
    let mut buf = vec![0u32; 4 * 4];
    draw_line(&mut buf, 4, 4, (0, 0), (3, 3), 5);
    assert_eq!(lit(&buf, 4), vec![(0, 0), (1, 1), (2, 2), (3, 3)]);
}

#[test]
fn shallow_line_steps() {
    let mut buf = vec![0u32; 5 * 3];
    draw_line(&mut buf, 5, 3, (0, 0), (4, 2), 5);
    assert_eq!(lit(&buf, 5), vec![(0, 0), (1, 1), (2, 1), (3, 2), (4, 2)]);
}

#[test]
fn out_of_bounds_part_is_clipped() {
    let mut buf = vec![0u32; 5 * 3];
    draw_line(&mut buf, 5, 3, (2, 1), (8, 1), 3);
    assert_eq!(lit(&buf, 5), vec![(2, 1), (3, 1), (4, 1)]);
    let mut buf = vec![0u32; 5 * 3];
    draw_line(&mut buf, 5, 3, (1, 9), (1, 0), 3);
    assert_eq!(lit(&buf, 5), vec![(1, 0), (1, 1), (1, 2)]);
}

#[test]
fn line_fully_outside_writes_nothing() {
    let mut buf = vec![0u32; 5 * 3];
    draw_line(&mut buf, 5, 3, (6, 0), (9, 2), 3);
    assert!(buf.iter().all(|&c| c == 0));
}

#[test]
fn other_pixels_keep_their_color() {
    let mut buf = vec![2u32; 4 * 2];
    draw_line(&mut buf, 4, 2, (0, 1), (3, 1), 8);
    assert_eq!(buf, vec![2, 2, 2, 2, 8, 8, 8, 8]);
}
