use rxoptics::band::{band_flushes_of, blur_applies, levels_of, BandAccumulator, BandFlush};
use rxoptics::grid::to_depth_and_color_map;

fn f(end: usize, level: Option<u64>) -> BandFlush {
    BandFlush { end, level }
}

#[test]
fn flush_on_change_only() {
    let flushes = band_flushes_of(&vec![5, 5, 12, 12, 12, 30]);
    assert_eq!(
        flushes,
        vec![f(1, None), f(3, Some(5)), f(6, Some(12)), f(6, Some(30))]
    );
}

#[test]
fn one_blurred_band_per_distinct_level() {
    let levels = vec![3, 3, 3, 8, 8, 1, 40, 40, 40, 40];
    let flushes = band_flushes_of(&levels);
    let blurred = flushes.iter().filter(|b| b.level.is_some()).count();
    assert_eq!(blurred, 4);
}

#[test]
fn no_samples_gives_one_empty_flush() {
    assert_eq!(band_flushes_of(&vec![]), vec![f(0, None)]);
}

#[test]
fn uniform_grid_is_one_band() {
    let pixels = vec![[255, 0, 0, 128]; 16];
    let map = to_depth_and_color_map(4, 4, &pixels);
    let mut table = vec![0u64; 256];
    table[128] = 17;
    let levels = levels_of(&map, &table);
    assert_eq!(levels, vec![17; 16]);
    assert_eq!(band_flushes_of(&levels), vec![f(1, None), f(16, Some(17))]);
}

#[test]
fn levels_follow_stored_order() {
    let pixels = vec![[0, 0, 0, 9], [0, 0, 0, 2], [0, 0, 0, 5]];
    let map = to_depth_and_color_map(3, 1, &pixels);
    let mut table = vec![0u64; 256];
    table[2] = 100;
    table[5] = 50;
    table[9] = 7;
    assert_eq!(levels_of(&map, &table), vec![100, 50, 7]);
}

#[test]
fn accumulator_transitions() {
    let mut acc = BandAccumulator::new();
    assert_eq!(acc.current, None);
    assert_eq!(acc.observe(4), Some(None));
    assert_eq!(acc.observe(4), None);
    assert_eq!(acc.observe(9), Some(Some(4)));
    assert_eq!(acc.current, Some(9));
    assert_eq!(acc.finish(), Some(9));
}

#[test]
fn sub_pixel_blur_is_skipped() {
    assert!(!blur_applies(None));
    assert!(!blur_applies(Some(0)));
    assert!(!blur_applies(Some(9)));
    assert!(blur_applies(Some(10)));
    assert!(blur_applies(Some(153)));
}

#[test]
fn blur_runs_once_per_depth_of_grid() {
    let mut pixels = Vec::new();
    for i in 0..12u32 {
        let d = [30u8, 90, 200][(i % 3) as usize];
        pixels.push([0, 0, 0, d]);
    }
    let map = to_depth_and_color_map(4, 3, &pixels);
    let mut table = vec![0u64; 256];
    table[30] = 55;
    table[90] = 4;
    table[200] = 21;
    let flushes = band_flushes_of(&levels_of(&map, &table));
    let blurred: Vec<u64> = flushes.iter().filter_map(|b| b.level).collect();
    assert_eq!(blurred, vec![55, 4, 21]);
    assert_eq!(flushes.last().unwrap().end, 12);
}
