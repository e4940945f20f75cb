use path_tracer::mesh::{corner_signs, cube_triangles, die_cell_corners, die_triangles, quad_triangles};
use path_tracer::raster::{channel_byte, image_pixel, pixel_order, Framebuffer, PixelQueue};

#[test]
fn pixel_order_is_column_major() {
    let order = pixel_order(2, 3);
    assert_eq!(order, vec![(0, 0), (0, 1), (0, 2), (1, 0), (1, 1), (1, 2)]);
    assert!(pixel_order(0, 5).is_empty());
}

#[test]
fn queue_hands_out_each_pixel_once_last_first() {
    let mut q = PixelQueue::new(3, 2);
    let mut seen = vec![];
    while !q.is_empty() {
        seen.push(q.pop().unwrap());
    }
    assert_eq!(seen[0], (2, 1));
    assert_eq!(seen.len(), 6);
    let mut sorted = seen.clone();
    sorted.sort();
    sorted.dedup();
    assert_eq!(sorted.len(), 6);
    assert_eq!(q.pop(), None);
}

#[test]
fn framebuffer_writes_one_pixel() {
    let mut fb = Framebuffer::new(4, 3);
    assert_eq!(fb.get_pixel(3, 2), (0, 0, 0));
    fb.put_pixel(3, 2, (1, 2, 3));
    fb.put_pixel(0, 1, (9, 9, 9));
    assert_eq!(fb.get_pixel(3, 2), (1, 2, 3));
    assert_eq!(fb.get_pixel(0, 1), (9, 9, 9));
    assert_eq!(fb.get_pixel(1, 1), (0, 0, 0));
    assert_eq!(fb.pixels[2 * 4 + 3], (1, 2, 3));
}

#[test]
fn channel_bytes_are_clamped() {
    assert_eq!(channel_byte(0), 0);
    assert_eq!(channel_byte(128), 128);
    assert_eq!(channel_byte(255), 255);
    assert_eq!(channel_byte(256), 255);
    assert_eq!(channel_byte(100000), 255);
    assert_eq!(channel_byte(-3), 0);
    let mut last = 0;
    for v in -10..300 {
        let b = channel_byte(v);
        assert!(b >= last);
        last = b;
    }
    assert_eq!(image_pixel(256, 0, 64), (255, 0, 64));
}

#[test]
fn cube_corners_and_faces() {
    assert_eq!(corner_signs(0), (true, true, true));
    assert_eq!(corner_signs(5), (false, true, false));
    assert_eq!(corner_signs(7), (false, false, false));
    let t = cube_triangles();
    assert_eq!(t.len(), 12);
    assert_eq!(t[0], (0, 1, 2));
    assert_eq!(t[11], (7, 6, 3));
    assert_eq!(quad_triangles(), vec![(0, 1, 2), (0, 2, 3)]);
}

#[test]
fn die_faces_use_grid_cells() {
    let d = die_triangles();
    assert_eq!(d.len(), 12);
    assert_eq!(d[2].corners, (6, 4, 7));
    assert_eq!((d[10].cell_x, d[10].cell_y, d[10].lower), (3, 1, false));
    assert_eq!(die_cell_corners(400, 300, 1, 1, true), ((100, 200), (200, 200), (100, 100)));
    assert_eq!(die_cell_corners(400, 300, 1, 1, false), ((200, 100), (200, 200), (100, 100)));
    assert_eq!(die_cell_corners(403, 302, 3, 2, false), ((400, 200), (400, 300), (300, 200)));
}
