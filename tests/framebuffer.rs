use raytrace::framebuffer::{pack_rgb, FrameBuffer, Rgb};

fn rgb(r: u8, g: u8, b: u8) -> Rgb {
    Rgb { r, g, b }
}

#[test]
fn pack_white_is_low_three_bytes() {
    assert_eq!(pack_rgb(rgb(255, 255, 255)), 0x00FF_FFFF);
}

#[test]
fn pack_black_is_zero() {
    assert_eq!(pack_rgb(rgb(0, 0, 0)), 0x0000_0000);
}

#[test]
fn pack_orders_red_green_blue() {
    assert_eq!(pack_rgb(rgb(0x12, 0x34, 0x56)), 0x0012_3456);
    assert_eq!(pack_rgb(rgb(1, 0, 0)), 0x0001_0000);
    assert_eq!(pack_rgb(rgb(0, 1, 0)), 0x0000_0100);
    assert_eq!(pack_rgb(rgb(0, 0, 1)), 0x0000_0001);
}

#[test]
fn new_frame_is_black_and_sized() {
    let fb = FrameBuffer::new(4, 3);
    assert_eq!(fb.width(), 4);
    assert_eq!(fb.height(), 3);
    assert_eq!(fb.pixels().len(), 12);
    assert!(fb.pixels().iter().all(|&p| p == 0));
}

#[test]
fn empty_frame_has_no_pixels() {
    let fb = FrameBuffer::new(0, 7);
    assert_eq!(fb.pixels().len(), 0);
}

#[test]
fn index_is_row_major() {
    let fb = FrameBuffer::new(5, 4);
    assert_eq!(fb.index(0, 0), 0);
    assert_eq!(fb.index(4, 0), 4);
    assert_eq!(fb.index(0, 1), 5);
    assert_eq!(fb.index(3, 2), 13);
    assert_eq!(fb.index(4, 3), 19);
}

#[test]
fn paint_changes_one_pixel() {
    let mut fb = FrameBuffer::new(3, 2);
    fb.paint(2, 1, rgb(255, 255, 255));
    let mut expected = vec![0u32; 6];
    expected[5] = 0x00FF_FFFF;
    assert_eq!(fb.pixels(), &expected);
    fb.paint(2, 1, rgb(0, 0, 0));
    assert_eq!(fb.pixels(), &vec![0u32; 6]);
}

#[test]
fn paint_line_fills_one_row() {
    let mut fb = FrameBuffer::new(3, 3);
    fb.paint_line(1, vec![rgb(1, 2, 3), rgb(4, 5, 6), rgb(7, 8, 9)]);
    assert_eq!(
        fb.pixels(),
        &vec![0, 0, 0, 0x0001_0203, 0x0004_0506, 0x0007_0809, 0, 0, 0]
    );
}

#[test]
fn short_line_leaves_rest_of_row() {
    let mut fb = FrameBuffer::new(3, 2);
    fb.paint_line(0, vec![rgb(9, 9, 9), rgb(9, 9, 9), rgb(9, 9, 9)]);
    fb.paint_line(0, vec![rgb(0, 0, 1)]);
    assert_eq!(fb.pixels(), &vec![1, 0x0009_0909, 0x0009_0909, 0, 0, 0]);
}

#[test]
fn rows_in_any_order_give_same_frame() {
    let a = vec![rgb(10, 0, 0), rgb(20, 0, 0)];
    let b = vec![rgb(0, 10, 0), rgb(0, 20, 0)];
    let mut first = FrameBuffer::new(2, 2);
    first.paint_line(0, a.clone());
    first.paint_line(1, b.clone());
    let mut second = FrameBuffer::new(2, 2);
    second.paint_line(1, b);
    second.paint_line(0, a);
    assert_eq!(first.pixels(), second.pixels());
    assert_eq!(first.pixels(), &vec![0x000A_0000, 0x0014_0000, 0x0000_0A00, 0x0000_1400]);
}

#[test]
fn repainting_a_frame_overwrites_every_pixel() {
    let mut fb = FrameBuffer::new(2, 2);
    fb.paint_line(0, vec![rgb(255, 0, 0), rgb(255, 0, 0)]);
    fb.paint_line(1, vec![rgb(255, 0, 0), rgb(255, 0, 0)]);
    fb.paint_line(1, vec![rgb(0, 0, 2), rgb(0, 0, 3)]);
    fb.paint_line(0, vec![rgb(0, 0, 0), rgb(0, 0, 1)]);
    assert_eq!(fb.pixels(), &vec![0, 1, 2, 3]);
}
