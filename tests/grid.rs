use rxoptics::grid::{to_depth_and_color_map, DepthAndColorMap};

fn coords(map: &DepthAndColorMap) -> Vec<(u32, u32, u8)> {
    map.values.iter().map(|p| (p.x, p.y, p.d)).collect()
}

#[test]
fn samples_sorted_stably_by_depth() {
    let pixels = vec![[10, 20, 30, 200], [1, 2, 3, 0], [4, 5, 6, 128], [7, 8, 9, 0]];
    let map = to_depth_and_color_map(2, 2, &pixels);
    assert_eq!(map.width, 2);
    assert_eq!(map.height, 2);
    assert_eq!(coords(&map), vec![(1, 0, 0), (1, 1, 0), (0, 1, 128), (0, 0, 200)]);
    assert_eq!(map.values[0].rgba, [1, 2, 3, 255]);
    assert_eq!(map.values[1].rgba, [7, 8, 9, 255]);
    assert_eq!(map.values[2].rgba, [4, 5, 6, 255]);
    assert_eq!(map.values[3].rgba, [10, 20, 30, 255]);
}

#[test]
fn one_sample_per_coordinate() {
    let (w, h) = (5u32, 3u32);
    let mut pixels = Vec::new();
    for i in 0..(w * h) {
        pixels.push([i as u8, 0, 0, ((i * 97) % 7) as u8]);
    }
    let map = to_depth_and_color_map(w, h, &pixels);
    assert_eq!(map.values.len(), 15);
    for y in 0..h {
        for x in 0..w {
            let n = map.values.iter().filter(|p| p.x == x && p.y == y).count();
            assert_eq!(n, 1);
        }
    }
    for pair in map.values.windows(2) {
        assert!(pair[0].d <= pair[1].d);
    }
    for p in map.values.iter() {
        let i = (p.y * w + p.x) as usize;
        assert_eq!(p.d, pixels[i][3]);
        assert_eq!(p.rgba[0], pixels[i][0]);
    }
}

#[test]
fn empty_image_gives_empty_grid() {
    let map = to_depth_and_color_map(0, 0, &Vec::new());
    assert!(map.values.is_empty());
    let map = to_depth_and_color_map(4, 0, &Vec::new());
    assert_eq!(map.width, 4);
    assert!(map.values.is_empty());
}

#[test]
fn single_row_keeps_row_order_for_equal_depths() {
    let pixels = vec![[0, 0, 0, 7]; 4];
    let map = to_depth_and_color_map(4, 1, &pixels);
    assert_eq!(coords(&map), vec![(0, 0, 7), (1, 0, 7), (2, 0, 7), (3, 0, 7)]);
}
