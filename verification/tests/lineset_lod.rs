use rope::lineset::{
    divide_size, inverse_lod_coverage, lod_coverage, lod_size_range, min_lod_for_size,
    vec_remove_range, Index, LineGr, LineOff,
};

#[test]
fn test_lod_size_range() {
    assert_eq!(lod_size_range(0), (1, 1));
    assert_eq!(lod_size_range(1), (1, 2));
    assert_eq!(lod_size_range(2), (2, 4));
}

#[test]
fn test_min_lod_for_size() {
    for i in 1..100 {
        let lod = min_lod_for_size(i);
        let (lo, hi) = lod_size_range(lod);
        assert!(lo <= i && i <= hi);
        if lod > 0 {
            let (lo2, hi2) = lod_size_range(lod - 1);
            assert!(!(lo2 <= i && i <= hi2));
        }
    }
}

#[test]
fn test_lod_coverage() {
    const SCALE: Index = 3;
    for i in 0..1000 {
        let lod = inverse_lod_coverage(i, SCALE);
        assert!(lod_coverage(lod, SCALE) >= i);
        if lod > 0 {
            assert!(lod_coverage(lod - 1, SCALE) < i);
        }
    }
}

#[test]
fn divide_size_total() {
    for size in [0i64, 1, 7, 100, 12345] {
        for ratio in [[1i64, 1], [0, 5], [5, 0], [3, 7], [1000, 1]] {
            let parts = divide_size(size, ratio);
            assert_eq!(parts[0] + parts[1], size);
            assert!(parts[0] >= 0 && parts[0] <= size);
        }
    }
    assert_eq!(divide_size(10, [1, 1]), [5, 5]);
    assert_eq!(divide_size(10, [1, 3]), [3, 7]);
}

#[test]
fn vec_remove_range_keeps_order() {
    let mut v = vec![0, 1, 2, 3, 4, 5, 6];
    vec_remove_range(&mut v, 2, 5);
    assert_eq!(v, vec![0, 1, 5, 6]);

    let mut v2 = vec![10, 20];
    vec_remove_range(&mut v2, 1, 1);
    assert_eq!(v2, vec![10, 20]);
}

#[test]
fn line_off_components() {
    let off = LineOff { index: 7, pos: 91 };
    assert_eq!(off.index(), 7);
    assert_eq!(off.pos(), 91);
    let gr = LineGr { num_lines: 4, size: 60 };
    assert_eq!(gr.num_lines, 4);
    assert_eq!(gr.size, 60);
}
