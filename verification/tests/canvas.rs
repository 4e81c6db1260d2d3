use image::GenericImageView;
use image::Rgba;
use tracer::canvas::composite;
use tracer::tiles::partition;
use tracer::tiles::render_section;

#[test]
fn composite_of_nothing_is_black() {
    let img = composite(3, 2, &Vec::new());
    assert_eq!(img.dimensions(), (3, 2));
    assert!(img.as_rgb8().is_some());
    for x in 0..3 {
        for y in 0..2 {
            assert_eq!(img.get_pixel(x, y), Rgba([0, 0, 0, 255]));
        }
    }
}

#[test]
fn composite_paints_each_record() {
    let data = vec![
        vec![vec![0, 0, 10, 20, 30, 1, 1], vec![1, 1, 40, 50, 60, 1, 1]],
        vec![vec![1, 0, 70, 80, 90, 1, 1]],
    ];
    let img = composite(2, 2, &data);
    assert_eq!(img.get_pixel(0, 0), Rgba([10, 20, 30, 255]));
    assert_eq!(img.get_pixel(1, 1), Rgba([40, 50, 60, 255]));
    assert_eq!(img.get_pixel(1, 0), Rgba([70, 80, 90, 255]));
    assert_eq!(img.get_pixel(0, 1), Rgba([0, 0, 0, 255]));
}

#[test]
fn composite_keeps_the_later_record() {
    let data = vec![vec![vec![0, 0, 1, 2, 3, 1, 1]], vec![vec![0, 0, 4, 5, 6, 1, 1]]];
    let img = composite(1, 1, &data);
    assert_eq!(img.get_pixel(0, 0), Rgba([4, 5, 6, 255]));
}

#[test]
fn composite_keeps_the_low_byte_of_a_field() {
    let data = vec![vec![vec![0, 0, 261, 256, 511, 1]]];
    let img = composite(1, 1, &data);
    assert_eq!(img.get_pixel(0, 0), Rgba([5, 0, 255, 255]));
}

#[test]
fn composite_of_empty_image() {
    let img = composite(0, 0, &vec![Vec::new()]);
    assert_eq!(img.dimensions(), (0, 0));
}

#[test]
fn rendered_strips_fill_all_but_the_leftover_columns() {
    let (width, height, workers) = (7u32, 3u32, 3u32);
    let mut data = Vec::new();
    for strip in partition(width, workers) {
        let count = ((strip[1] - strip[0]) * height) as usize;
        data.push(render_section(strip, height, &vec![(200, 100, 50); count]));
    }
    let img = composite(width, height, &data);
    for y in 0..height {
        for x in 0..6 {
            assert_eq!(img.get_pixel(x, y), Rgba([200, 100, 50, 255]));
        }
        assert_eq!(img.get_pixel(6, y), Rgba([0, 0, 0, 255]));
    }
}

#[test]
fn arrival_order_does_not_change_the_image() {
    let (width, height, workers) = (9u32, 4u32, 4u32);
    let mut data = Vec::new();
    for (w, strip) in partition(width, workers).into_iter().enumerate() {
        let count = ((strip[1] - strip[0]) * height) as usize;
        let shades: Vec<(u8, u8, u8)> =
            (0..count).map(|k| (w as u8, k as u8, (w * 16 + k) as u8)).collect();
        data.push(render_section(strip, height, &shades));
    }
    let in_order = composite(width, height, &data);
    data.reverse();
    let reversed = composite(width, height, &data);
    data.swap(0, 2);
    let shuffled = composite(width, height, &data);
    for x in 0..width {
        for y in 0..height {
            assert_eq!(in_order.get_pixel(x, y), reversed.get_pixel(x, y));
            assert_eq!(in_order.get_pixel(x, y), shuffled.get_pixel(x, y));
        }
    }
    assert_eq!(in_order.get_pixel(5, 3), Rgba([2, 7, 39, 255]));
    assert_eq!(in_order.get_pixel(8, 0), Rgba([0, 0, 0, 255]));
}
