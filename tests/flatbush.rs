use bushes::{hilbert, FlatBush, FlatBushBuilder};

fn data() -> Vec<u32> {
    vec![
        8, 62, 11, 66, 57, 17, 57, 19, 76, 26, 79, 29, 36, 56, 38, 56, 92, 77, 96, 80, 87, 70, 90, 74,
        43, 41, 47, 43, 0, 58, 2, 62, 76, 86, 80, 89, 27, 13, 27, 15, 71, 63, 75, 67, 25, 2, 27, 2, 87,
        6, 88, 6, 22, 90, 23, 93, 22, 89, 22, 93, 57, 11, 61, 13, 61, 55, 63, 56, 17, 85, 21, 87, 33,
        43, 37, 43, 6, 1, 7, 3, 80, 87, 80, 87, 23, 50, 26, 52, 58, 89, 58, 89, 12, 30, 15, 34, 32, 58,
        36, 61, 41, 84, 44, 87, 44, 18, 44, 19, 13, 63, 15, 67, 52, 70, 54, 74, 57, 59, 58, 59, 17, 90,
        20, 92, 48, 53, 52, 56, 92, 68, 92, 72, 26, 52, 30, 52, 56, 23, 57, 26, 88, 48, 88, 48, 66, 13,
        67, 15, 7, 82, 8, 86, 46, 68, 50, 68, 37, 33, 38, 36, 6, 15, 8, 18, 85, 36, 89, 38, 82, 45, 84,
        48, 12, 2, 16, 3, 26, 15, 26, 16, 55, 23, 59, 26, 76, 37, 79, 39, 86, 74, 90, 77, 16, 75, 18,
        78, 44, 18, 45, 21, 52, 67, 54, 71, 59, 78, 62, 78, 24, 5, 24, 8, 64, 80, 64, 83, 66, 55, 70,
        55, 0, 17, 2, 19, 15, 71, 18, 74, 87, 57, 87, 59, 6, 34, 7, 37, 34, 30, 37, 32, 51, 19, 53, 19,
        72, 51, 73, 55, 29, 45, 30, 45, 94, 94, 96, 95, 7, 22, 11, 24, 86, 45, 87, 48, 33, 62, 34, 65,
        18, 10, 21, 14, 64, 66, 67, 67, 64, 25, 65, 28, 27, 4, 31, 6, 84, 4, 85, 5, 48, 80, 50, 81, 1,
        61, 3, 61, 71, 89, 74, 92, 40, 42, 43, 43, 27, 64, 28, 66, 46, 26, 50, 26, 53, 83, 57, 87, 14,
        75, 15, 79, 31, 45, 34, 45, 89, 84, 92, 88, 84, 51, 85, 53, 67, 87, 67, 89, 39, 26, 43, 27, 47,
        61, 47, 63, 23, 49, 25, 53, 12, 3, 14, 5, 16, 50, 19, 53, 63, 80, 64, 84, 22, 63, 22, 64, 26,
        66, 29, 66, 2, 15, 3, 15, 74, 77, 77, 79, 64, 11, 68, 11, 38, 4, 39, 8, 83, 73, 87, 77, 85, 52,
        89, 56, 74, 60, 76, 63, 62, 66, 65, 67,
    ]
}

fn create_index() -> FlatBush<u32> {
    let data = data();
    let mut builder = FlatBushBuilder::new();
    for i in (0..data.len()).step_by(4) {
        builder.add([data[i], data[i + 1], data[i + 2], data[i + 3]]);
    }
    builder.finish()
}

fn create_small_index(num_items: usize, node_size: usize) -> FlatBush<u32> {
    let data = data();
    let mut builder = FlatBushBuilder::new_with_node_size(node_size);
    for i in (0..(4 * num_items)).step_by(4) {
        builder.add([data[i], data[i + 1], data[i + 2], data[i + 3]]);
    }
    builder.finish()
}

fn brute_force(data: &[u32], q: [u32; 4]) -> Vec<usize> {
    let mut out = Vec::new();
    for i in 0..data.len() / 4 {
        let b = &data[4 * i..4 * i + 4];
        if !(q[2] < b[0] || q[3] < b[1] || q[0] > b[2] || q[1] > b[3]) {
            out.push(i);
        }
    }
    out
}

#[test]
fn indexes_a_bunch_of_rectangles() {
    let index = create_index();

    let len = index.boxes().len();
    assert_eq!(index.boxes().len() + index.indices().iter().iter().count(), 540);
    assert_eq!(index.boxes()[(len - 4)..len], [0, 1, 96, 95]);
    assert_eq!(index.indices().get(len / 4 - 1), 400);
}

#[test]
fn skips_sorting_less_than_node_size_number_of_rectangles() {
    let data = data();
    let num_items = 14;
    let node_size = 16;
    let index = create_small_index(num_items, node_size);

    let mut root_x_min = u32::MAX;
    let mut root_y_min = u32::MAX;
    let mut root_x_max = u32::MIN;
    let mut root_y_max = u32::MIN;
    for i in (0..(4 * num_items)).step_by(4) {
        if data[i] < root_x_min {
            root_x_min = data[i];
        }
        if data[i + 1] < root_y_min {
            root_y_min = data[i + 1];
        }
        if data[i + 2] > root_x_max {
            root_x_max = data[i + 2];
        }
        if data[i + 3] > root_y_max {
            root_y_max = data[i + 3];
        }
    }

    let mut expected_indices: Vec<u32> = (0u32..(num_items as u32)).collect();
    expected_indices.push(0);

    let len = index.boxes().len();

    assert_eq!(index.indices().iter(), expected_indices);
    assert_eq!(len, (num_items + 1) * 4);
    assert_eq!(index.boxes()[(len - 4)..len], [root_x_min, root_y_min, root_x_max, root_y_max]);
}

#[test]
fn performs_bbox_search() {
    let data = data();
    let index = create_index();

    let ids = index.search_range(40, 40, 60, 60);

    let mut results = Vec::new();
    for id in ids {
        results.push(data[4 * id]);
        results.push(data[4 * id + 1]);
        results.push(data[4 * id + 2]);
        results.push(data[4 * id + 3]);
    }
    let mut expected = vec![57, 59, 58, 59, 48, 53, 52, 56, 40, 42, 43, 43, 43, 41, 47, 43];
    results.sort();
    expected.sort();
    assert_eq!(results, expected);
}

#[test]
fn performs_bbox_search_signed_float() {
    let data: Vec<f64> = data().iter().map(|d| (*d as f64) - 100.0).collect();

    // the coordinates are whole numbers, held exactly as integers
    let mut builder = FlatBushBuilder::new();
    for i in (0..data.len()).step_by(4) {
        builder.add([data[i] as i32, data[i + 1] as i32, data[i + 2] as i32, data[i + 3] as i32]);
    }
    let index = builder.finish();

    let ids = index.search_range(-60, -60, -40, -40);

    let mut results = Vec::new();
    for id in ids {
        results.push(data[4 * id]);
        results.push(data[4 * id + 1]);
        results.push(data[4 * id + 2]);
        results.push(data[4 * id + 3]);
    }

    let mut expected = vec![-43.0, -41.0, -42.0, -41.0, -52.0, -47.0, -48.0, -44.0, -60.0, -58.0, -57.0, -57.0, -57.0, -59.0, -53.0, -57.0];

    results.sort_by(|a, b| a.partial_cmp(b).unwrap());
    expected.sort_by(|a, b| a.partial_cmp(b).unwrap());

    assert_eq!(results, expected);
}

#[test]
fn returns_index_of_newly_added_rectangle() {
    let data = data();
    let count = 5;
    let mut builder = FlatBushBuilder::new_with_node_size(16);

    let mut ids = vec![];
    for i in 0..count {
        let id = builder.add([data[i], data[i + 1], data[i + 2], data[i + 3]]);
        ids.push(id);
    }

    let expected_sequence: Vec<usize> = (0..5).collect();
    assert_eq!(ids, expected_sequence);
}

#[test]
fn search_matches_brute_force() {
    let data = data();
    let index = create_index();
    for q in [[40, 40, 60, 60], [0, 0, 10, 10], [90, 90, 100, 100], [0, 0, 100, 100], [50, 0, 50, 100], [200, 200, 300, 300]] {
        let mut got = index.search_range(q[0], q[1], q[2], q[3]);
        got.sort();
        assert_eq!(got, brute_force(&data, q));
    }
}

#[test]
fn tree_bounds_query_returns_every_id_once() {
    let index = create_index();
    let b = index.bounds();
    assert_eq!(b, [0, 1, 96, 95]);
    let mut got = index.search_range(b[0], b[1], b[2], b[3]);
    got.sort();
    let expected: Vec<usize> = (0..100).collect();
    assert_eq!(got, expected);
}

#[test]
fn node_size_is_clamped() {
    let data = data();
    let mut small = FlatBushBuilder::new_with_node_size(0);
    let mut large = FlatBushBuilder::new_with_node_size(1_000_000);
    for i in (0..data.len()).step_by(4) {
        small.add([data[i], data[i + 1], data[i + 2], data[i + 3]]);
        large.add([data[i], data[i + 1], data[i + 2], data[i + 3]]);
    }
    let small = small.finish();
    let large = large.finish();
    // fan-out 2 over 100 items: 50 + 25 + 13 + 7 + 4 + 2 + 1 nodes
    assert_eq!(small.boxes().len(), 4 * (100 + 102));
    // fan-out 65535: a single root
    assert_eq!(large.boxes().len(), 4 * 101);
    let mut got = small.search_range(40, 40, 60, 60);
    got.sort();
    assert_eq!(got, brute_force(&data, [40, 40, 60, 60]));
}

#[test]
fn empty_flatbush_finds_nothing() {
    let builder: FlatBushBuilder<i32> = FlatBushBuilder::new();
    let index = builder.finish();
    assert_eq!(index.bounds(), [i32::MAX, i32::MAX, i32::MIN, i32::MIN]);
    assert_eq!(index.search_range(i32::MIN, i32::MIN, i32::MAX, i32::MAX), Vec::<usize>::new());
}

#[test]
fn degenerate_bounds_still_index() {
    let mut builder = FlatBushBuilder::new_with_node_size(2);
    for i in 0..10i16 {
        builder.add([5, i, 5, i]);
    }
    let index = builder.finish();
    let mut got = index.search_range(5, 3, 5, 6);
    got.sort();
    assert_eq!(got, vec![3, 4, 5, 6]);
}

#[test]
fn hilbert_values_are_pinned() {
    let table: [(u32, u32, u32); 10] = [
        (0, 0, 0),
        (1, 0, 1),
        (1, 1, 2),
        (0, 1, 3),
        (65535, 0, 4294967295),
        (0, 65535, 1431655765),
        (65535, 65535, 2863311530),
        (12345, 54321, 1555040834),
        (32768, 32768, 2147483648),
        (100, 200, 28272),
    ];
    for (x, y, h) in table {
        assert_eq!(hilbert(x, y), h);
    }
}

#[test]
fn large_index_uses_wide_offsets() {
    let mut builder = FlatBushBuilder::new();
    let mut data: Vec<u32> = Vec::new();
    for i in 0..16000u32 {
        let x = (i % 160) * 3;
        let y = (i / 160) * 3;
        builder.add([x, y, x + 2, y + 2]);
        data.extend([x, y, x + 2, y + 2]);
    }
    let index = builder.finish();
    assert!(matches!(index.indices(), bushes::IndexVec::U32(_)));
    for q in [[10, 10, 20, 20], [0, 0, 0, 0], [477, 297, 500, 500], [100, 50, 101, 51]] {
        let mut got = index.search_range(q[0], q[1], q[2], q[3]);
        got.sort();
        assert_eq!(got, brute_force(&data, q));
    }
    let len = index.boxes().len();
    assert_eq!(index.boxes()[(len - 4)..len], [0, 0, 479, 299]);
}

#[test]
fn extreme_boxes_index_without_overflow() {
    let mut builder = FlatBushBuilder::new_with_node_size(2);
    builder.add([-128i8, -128, -100, -100]);
    builder.add([100, 100, 127, 127]);
    builder.add([-5, -5, 5, 5]);
    builder.add([-128, 120, -120, 127]);
    let index = builder.finish();
    assert_eq!(index.bounds(), [-128, -128, 127, 127]);
    let mut got = index.search_range(-10, -10, 110, 110);
    got.sort();
    assert_eq!(got, vec![1, 2]);
}

fn grid_cell(lo: i64, hi: i64, base: i64, extent: i64) -> u32 {
    if extent <= 0 {
        return 0;
    }
    let v = (65535 * (lo + hi - 2 * base)).div_euclid(2 * extent);
    v.clamp(0, u32::MAX as i64) as u32
}

#[test]
fn leaf_blocks_follow_hilbert_order() {
    let index = create_index();
    let b = index.bounds();
    let boxes = index.boxes();
    let n = 100;
    let node_size = 16;
    let keys: Vec<u32> = (0..n)
        .map(|i| {
            let x = grid_cell(boxes[4 * i] as i64, boxes[4 * i + 2] as i64, b[0] as i64, (b[2] - b[0]) as i64);
            let y = grid_cell(boxes[4 * i + 1] as i64, boxes[4 * i + 3] as i64, b[1] as i64, (b[3] - b[1]) as i64);
            hilbert(x, y)
        })
        .collect();
    for p in 0..n {
        for q in 0..n {
            if p / node_size < q / node_size {
                assert!(keys[p] <= keys[q]);
            }
        }
    }
    // the items are a permutation of the input boxes
    let data = data();
    let ids = index.indices().iter();
    for i in 0..n {
        let id = ids[i] as usize;
        assert_eq!(&boxes[4 * i..4 * i + 4], &data[4 * id..4 * id + 4]);
    }
}

#[test]
fn level_bounds_and_node_layout() {
    let index = create_index();
    // 100 items at fan-out 16: levels of 100, 7 and 1 nodes
    assert_eq!(*index.level_bounds(), vec![400, 428, 432]);
    let boxes = index.boxes();
    let ids = index.indices().iter();
    // node j of the level above [s, e) points at s + 64 j and covers its children
    let levels = [(0usize, 400usize, 400usize), (400, 428, 428)];
    for (s, e, above) in levels {
        let mut p = above / 4;
        let mut j = 0;
        while s + 64 * j < e {
            let first = s + 64 * j;
            assert_eq!(ids[p] as usize, first);
            let end = (first + 64).min(e);
            let mut c = first;
            while c < end {
                assert!(boxes[4 * p] <= boxes[c] && boxes[4 * p + 1] <= boxes[c + 1]);
                assert!(boxes[4 * p + 2] >= boxes[c + 2] && boxes[4 * p + 3] >= boxes[c + 3]);
                c += 4;
            }
            p += 1;
            j += 1;
        }
    }
}

#[test]
fn skip_sort_level_bounds() {
    let index = create_small_index(14, 16);
    assert_eq!(*index.level_bounds(), vec![56, 60]);
    assert_eq!(index.indices().get(14), 0);
}
