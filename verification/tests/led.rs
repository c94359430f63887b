use serpentine::led::{
    array_chunks_reordered, mk_segmented_iterator, segmented, ziggy_components, LedConfig,
};

#[test]
fn test_mk_segmented_iterator() {
    // 0 1 2  3 4 5
    // 6 7 8  9 a b
    assert_eq!(vec![1, 3, 0, 2], mk_segmented_iterator(2, 2, true));

    // 0 1 2  3 4 5
    // 6 7 8  9 a b
    assert_eq!(vec![0, 2, 1, 3], mk_segmented_iterator(2, 2, false));

    // 0 1  2 3  4 5
    // 6 7  8 9  a b
    assert_eq!(vec![0, 3, 1, 4, 2, 5], mk_segmented_iterator(3, 2, false));
}

#[test]
fn test_segmented() {
    // segs: 2, seg_h: 2, seg_w: 3
    let data = [10u8, 20, 30, 40, 50, 60, 11, 22, 33, 44, 55, 66];

    let it = segmented(&data, 2, 6, 3, false, false, true);
    assert_eq!(vec![10u8, 20, 30, 11, 22, 33, 40, 50, 60, 44, 55, 66], it);

    let it = segmented(&data, 2, 6, 3, true, false, true);
    assert_eq!(vec![10u8, 20, 30, 33, 22, 11, 40, 50, 60, 66, 55, 44], it);

    let data = [1, 2, 3, 4, 5, 6, 11, 22, 33, 44, 55, 66];
    let it = segmented(&data, 2, 6, 2, true, false, true);
    assert_eq!(vec![1, 2, 6, 5, 33, 44, 3, 4, 22, 11, 55, 66], it);
}

#[test]
fn it_ziggys() {
    let arr = [1u8, 2, 3, 4, 5, 6, 7, 8, 9];
    let zigged = ziggy_components(&arr, 3);
    assert_eq!(&[1u8, 2, 3, 6, 5, 4, 7, 8, 9], zigged.as_slice());
}

#[test]
fn it_ziggys_segments() {
    let arr = [1u8, 2, 3, 4, 5, 6, 7, 8, 9, 10, 11, 12];

    // desired display
    // 1 2 3   4  5  6
    // 7 8 9  10 11 12

    // pixels:
    // 1 2 3   7  8  9
    // 6 5 4  10 11 12
    let _ = arr;
}

#[test]
fn it_works() {
    // cool
}

#[test]
fn ziggy_drops_partial_row() {
    // five elements, rows of three: the trailing two are dropped whole
    let arr = [1u8, 2, 3, 4, 5];
    assert_eq!(vec![1u8, 2, 3], ziggy_components(&arr, 3));

    // shorter than one row: nothing is emitted
    let arr = [1u8, 2];
    assert_eq!(Vec::<u8>::new(), ziggy_components(&arr, 3));

    // empty input: nothing is emitted
    let arr: [u8; 0] = [];
    assert_eq!(Vec::<u8>::new(), ziggy_components(&arr, 3));
}

#[test]
fn chunks_follow_the_order() {
    let data = [1u8, 2, 3, 4, 5, 6];
    let order = vec![2usize, 0, 1];
    let chunks = array_chunks_reordered(&data, &order, 2);
    assert_eq!(vec![vec![5u8, 6], vec![1, 2], vec![3, 4]], chunks);
}

#[test]
fn wiring_order_is_a_permutation() {
    // every geometry and flag choice must emit each buffer index once
    let data: Vec<u32> = (0..24).collect();
    for &zigzag in &[false, true] {
        for &rtl in &[false, true] {
            for &rev_odd in &[false, true] {
                let out = segmented(&data, 3, 8, 2, zigzag, rtl, rev_odd);
                let mut sorted = out.clone();
                sorted.sort();
                assert_eq!(data, sorted);
            }
        }
    }
}

#[test]
fn visit_order_is_segment_major() {
    // four segments of three rows: position s * 3 + r emits r * 4 + s,
    // so each segment's run of three rises by the segment count
    let order = mk_segmented_iterator(4, 3, false);
    for s in 0..4 {
        for r in 0..3 {
            assert_eq!(order[s * 3 + r], r * 4 + s);
        }
    }
}

#[test]
fn direction_flip_mirrors_segments() {
    let ltr = mk_segmented_iterator(4, 3, false);
    let rtl = mk_segmented_iterator(4, 3, true);
    for s in 0..4 {
        for r in 0..3 {
            assert_eq!(ltr[s * 3 + r], r * 4 + s);
            assert_eq!(rtl[s * 3 + r], r * 4 + (3 - s));
        }
    }
}

#[test]
fn zigzag_phase_picks_the_reversed_rows() {
    // one segment, three rows of three
    let data = [1u8, 2, 3, 4, 5, 6, 7, 8, 9];
    // rev_odd: rows at odd positions run backwards
    let odd = segmented(&data, 1, 9, 3, true, false, true);
    assert_eq!(vec![1u8, 2, 3, 6, 5, 4, 7, 8, 9], odd);
    // flipping the phase inverts which rows run backwards
    let even = segmented(&data, 1, 9, 3, true, false, false);
    assert_eq!(vec![3u8, 2, 1, 4, 5, 6, 9, 8, 7], even);
    // without zigzag no row runs backwards, whatever the phase
    let plain = segmented(&data, 1, 9, 3, false, false, false);
    assert_eq!(data.to_vec(), plain);
}

#[test]
fn config_defaults() {
    let c = LedConfig::new();
    assert_eq!(c.segments, 1);
    assert_eq!(c.w, 4);
    assert_eq!(c.h, 4);
    assert!(c.zigzag);
    assert!(!c.right_to_left);
    assert_eq!(c.num_leds(), 16);
}
