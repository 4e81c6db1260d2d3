use tracer::tiles::partition;
use tracer::tiles::pixel_record;
use tracer::tiles::render_section;
use tracer::tiles::section_pixels;

#[test]
fn partition_splits_evenly() {
    let strips = partition(800, 8);
    assert_eq!(strips.len(), 8);
    for (i, strip) in strips.iter().enumerate() {
        assert_eq!(strip, &vec![100 * i as u32, 100 * (i as u32 + 1)]);
    }
}

#[test]
fn partition_drops_the_remainder() {
    assert_eq!(partition(10, 3), vec![vec![0, 3], vec![3, 6], vec![6, 9]]);
    assert_eq!(partition(803, 8).last(), Some(&vec![700, 800]));
}

#[test]
fn partition_with_more_workers_than_columns_is_empty_strips() {
    let strips = partition(5, 8);
    assert_eq!(strips.len(), 8);
    for strip in strips {
        assert_eq!(strip, vec![0, 0]);
    }
}

#[test]
fn partition_single_worker_takes_all() {
    assert_eq!(partition(17, 1), vec![vec![0, 17]]);
    assert_eq!(partition(0, 1), vec![vec![0, 0]]);
    assert_eq!(partition(u32::MAX, 1), vec![vec![0, u32::MAX]]);
}

#[test]
fn section_pixels_walks_columns_then_rows() {
    assert_eq!(
        section_pixels(&vec![2, 4], 3),
        vec![(2, 0), (2, 1), (2, 2), (3, 0), (3, 1), (3, 2)]
    );
}

#[test]
fn section_pixels_reads_only_the_first_two_entries() {
    assert_eq!(section_pixels(&vec![7, 8, 100], 2), vec![(7, 0), (7, 1)]);
}

#[test]
fn section_pixels_of_empty_strip() {
    assert!(section_pixels(&vec![4, 4], 3).is_empty());
    assert!(section_pixels(&vec![5, 4], 3).is_empty());
    assert!(section_pixels(&vec![0, 4], 0).is_empty());
}

#[test]
fn pixel_record_layout() {
    assert_eq!(pixel_record(3, 4, (10, 20, 30)), vec![3, 4, 10, 20, 30, 1, 1]);
    assert_eq!(pixel_record(0, 0, (255, 0, 255)), vec![0, 0, 255, 0, 255, 1, 1]);
}

#[test]
fn render_section_pairs_pixels_with_shades() {
    let shades = vec![(1, 2, 3), (4, 5, 6), (7, 8, 9), (10, 11, 12)];
    let records = render_section(vec![1, 3], 2, &shades);
    assert_eq!(
        records,
        vec![
            vec![1, 0, 1, 2, 3, 1, 1],
            vec![1, 1, 4, 5, 6, 1, 1],
            vec![2, 0, 7, 8, 9, 1, 1],
            vec![2, 1, 10, 11, 12, 1, 1],
        ]
    );
}

#[test]
fn render_section_of_empty_strip() {
    assert!(render_section(vec![3, 3], 5, &Vec::new()).is_empty());
}

fn emitted(width: u32, height: u32, workers: u32) -> Vec<(u32, u32)> {
    let mut all = Vec::new();
    for strip in partition(width, workers) {
        all.extend(section_pixels(&strip, height));
    }
    all
}

#[test]
fn strips_cover_the_rectangle_once() {
    for &(width, height, workers) in
        &[(10u32, 4u32, 3u32), (16, 3, 8), (7, 5, 1), (9, 2, 4), (3, 3, 8), (12, 0, 4)]
    {
        let per = width / workers;
        let mut all = emitted(width, height, workers);
        assert_eq!(all.len() as u32, per * workers * height);
        all.sort();
        let mut expected = Vec::new();
        for x in 0..per * workers {
            for y in 0..height {
                expected.push((x, y));
            }
        }
        assert_eq!(all, expected);
    }
}

#[test]
fn leftover_columns_are_not_emitted() {
    let all = emitted(10, 4, 3);
    assert!(all.iter().all(|&(x, _)| x < 9));
    assert!(!all.contains(&(9, 0)));
}
