use yolo_binding::boxes::{
    filter_confidence_async, get_results, iou_above, nms, post_process, sort_by_score, DetBox,
    IouThreshold,
};

fn bx(x: i64, y: i64, w: i64, h: i64, class: i64, score: u64) -> DetBox {
    DetBox { x, y, w, h, class, score }
}

fn thr(num: i64, den: u64) -> IouThreshold {
    IouThreshold { num, den }
}

#[test]
fn iou_two_thirds() {
    // Intersection 8 x 10 = 80, union 100 + 100 - 80 = 120: IoU 2/3.
    let a = bx(10, 10, 10, 10, 0, 1);
    let b = bx(12, 10, 10, 10, 0, 1);
    assert!(iou_above(&a, &b, &thr(3, 5)));
    assert!(!iou_above(&a, &b, &thr(7, 10)));
    assert!(!iou_above(&a, &b, &thr(2, 3)));
    assert!(iou_above(&a, &b, &thr(665, 1000)));
}

#[test]
fn iou_is_symmetric_on_values() {
    let a = bx(10, 10, 10, 10, 0, 1);
    let b = bx(13, 12, 9, 11, 0, 1);
    for (n, d) in [(1, 10), (3, 10), (5, 10), (7, 10), (9, 10)] {
        assert_eq!(iou_above(&a, &b, &thr(n, d)), iou_above(&b, &a, &thr(n, d)));
    }
}

#[test]
fn iou_half_pixel_overlap() {
    // Odd widths put edges on half pixels: [0.5, 9.5] and [9, 11] share 0.5.
    let a = bx(5, 0, 9, 2, 0, 1);
    let b = bx(10, 0, 2, 2, 0, 1);
    // inter = 0.5 * 2 = 1, union = 18 + 4 - 1 = 21
    assert!(iou_above(&a, &b, &thr(1, 22)));
    assert!(!iou_above(&a, &b, &thr(1, 21)));
}

#[test]
fn iou_disjoint_and_zero_union() {
    let a = bx(0, 0, 4, 4, 0, 1);
    let b = bx(100, 100, 4, 4, 0, 1);
    assert!(!iou_above(&a, &b, &thr(0, 1)));
    assert!(iou_above(&a, &b, &thr(-1, 10)));
    let z = bx(3, 3, 0, 0, 0, 1);
    // The union of two empty boxes is 0: the IoU counts as 0.
    assert!(!iou_above(&z, &z, &thr(0, 1)));
    assert!(iou_above(&z, &z, &thr(-1, 2)));
}

#[test]
fn iou_extreme_coordinates() {
    let a = bx(i64::MAX, i64::MAX, i64::MAX, i64::MAX, 0, 1);
    assert!(iou_above(&a, &a, &thr(99, 100)));
    assert!(!iou_above(&a, &a, &thr(1, 1)));
    let m = bx(i64::MIN, i64::MIN, i64::MIN, i64::MIN, 0, 1);
    // Negative sizes overlap nothing; the union is positive: IoU 0.
    assert!(!iou_above(&m, &m, &thr(0, 1)));
    assert!(iou_above(&m, &m, &thr(-1, 1)));
}

#[test]
fn iou_large_values_exact() {
    // Expected values computed with exact rational arithmetic, thresholds
    // within one unit of the IoU.
    let cases: Vec<((i64, i64, i64, i64), (i64, i64, i64, i64), i64, u64, bool)> = vec![
        ((238375326373998569, -687772123774388662, 914401666734738186, 4611686018427387904), (1525903395585053689, -2783133029748410231, i64::MAX, i64::MAX), 457200833367369093, 9223372036854775808, true),
        ((-4406649618764741409, 144265475899103475, 1181633375681184950, 5047845174662168297), (-6473055394932872820, -1262765298551437230, 7785484252424246815, 8468348658159713576), 90471, 1000003, false),
        ((-266199169605, -295755240349, i64::MAX, 1273246984772103514), (555878293595798549, 1459708698886568695, 2698225033188194099, i64::MAX), 954574321439466868, 9223372036854775808, true),
        ((541509438000971835, 477843048959035757, i64::MAX, i64::MAX), (-825965595776244153, -541218724264650717, i64::MAX, 4723515277203666061), 7478559103174431005, u64::MAX, false),
        ((2091980301829404546, 3908530682554537919, 2701380485843753124, 3372825548207108874), (3867079232458654786, 4017549904115736803, i64::MAX, 5707564271038253365), 1596352609521210748, 9223372036854775808, true),
        ((859703590310670488, 710544398930325655, 9121004475899339495, i64::MAX), (-1001539442794487860, 2673598420890745067, 8109975265104143530, i64::MAX), 4115902581718878106, 9223372036854775808, true),
        ((1755266326102791964, -2095584670507458119, 1755540614608035185, 5899568192017889847), (3897707622692280913, -2337786985409762504, i64::MAX, 721354296981868605), 1483772609618370651, u64::MAX, false),
        ((433099531066, 140194892063, 7707671409164504054, 1386034647642137910), (-2128703917955063205, -1674891277555384455, i64::MAX, 6989400077315228443), 132344, 1000003, false),
        ((0, -4611686018427387904, 1, 4611686018427387904), (i64::MIN, -9223372036854775807, 3, -9223372036854775807), -1, u64::MAX, true),
        ((i64::MIN, 3, -3, i64::MIN), (-9223372036854775807, 1, 1, -9223372036854775807), -7, 1, true),
        ((1, i64::MAX, 0, 2), (1099511627776, 2, 0, -1), -7, 2, true),
        ((1, 3, 0, 1099511627776), (1099511627776, 0, -4611686018427387904, 9223372036854775806), i64::MAX, u64::MAX, false),
        ((9223372036854775806, i64::MIN, 1, 0), (3, 1099511627776, -1, 3), i64::MIN, 1, true),
        ((i64::MAX, -3, -9223372036854775807, -1), (-3, 1, 1, 4611686018427387904), 0, 9223372036854775808, false),
    ];
    for (a, b, n, d, expected) in cases {
        let a = bx(a.0, a.1, a.2, a.3, 0, 1);
        let b = bx(b.0, b.1, b.2, b.3, 0, 1);
        assert_eq!(iou_above(&a, &b, &thr(n, d)), expected);
        assert_eq!(iou_above(&b, &a, &thr(n, d)), expected);
    }
}

#[test]
fn sort_is_stable_and_descending() {
    let v = vec![bx(0, 0, 1, 1, 0, 5), bx(1, 0, 1, 1, 0, 9), bx(2, 0, 1, 1, 0, 5), bx(3, 0, 1, 1, 0, 7)];
    let s = sort_by_score(&v);
    let xs: Vec<i64> = s.iter().map(|b| b.x).collect();
    assert_eq!(xs, vec![1, 3, 0, 2]);
}

#[test]
fn nms_drops_overlapping_same_class() {
    let boxes = vec![
        bx(10, 10, 10, 10, 0, 50),
        bx(11, 10, 10, 10, 0, 90),
        bx(11, 10, 10, 10, 1, 40),
        bx(100, 100, 10, 10, 0, 60),
    ];
    let r = nms(boxes, thr(1, 2));
    assert_eq!(
        r,
        vec![bx(11, 10, 10, 10, 0, 90), bx(100, 100, 10, 10, 0, 60), bx(11, 10, 10, 10, 1, 40)]
    );
}

#[test]
fn nms_suppressed_box_does_not_suppress() {
    // B overlaps A and is dropped; C overlaps only B and stays.
    let a = bx(10, 0, 10, 10, 0, 30);
    let b = bx(14, 0, 10, 10, 0, 20);
    let c = bx(18, 0, 10, 10, 0, 10);
    let r = nms(vec![c, b, a], thr(1, 3));
    assert_eq!(r, vec![a, c]);
}

#[test]
fn nms_is_idempotent_on_values() {
    let boxes = vec![
        bx(10, 10, 10, 10, 0, 50),
        bx(12, 11, 10, 10, 0, 90),
        bx(30, 10, 10, 10, 0, 70),
        bx(31, 10, 10, 10, 0, 70),
        bx(12, 11, 10, 10, 2, 10),
    ];
    let once = nms(boxes, thr(4, 10));
    let twice = nms(once.clone(), thr(4, 10));
    assert_eq!(once, twice);
}

#[test]
fn nms_empty() {
    assert_eq!(nms(Vec::new(), thr(1, 2)), Vec::<DetBox>::new());
}

#[test]
fn filter_keeps_scores_above_confidence() {
    let v = vec![bx(0, 0, 1, 1, 0, 5), bx(1, 0, 1, 1, 0, 6), bx(2, 0, 1, 1, 0, 7)];
    let r = filter_confidence_async(&v, 5);
    assert_eq!(r, vec![bx(1, 0, 1, 1, 0, 6), bx(2, 0, 1, 1, 0, 7)]);
}

#[test]
fn post_process_filters_then_suppresses() {
    let v = vec![
        bx(10, 10, 10, 10, 0, 3),
        bx(10, 10, 10, 10, 0, 80),
        bx(11, 10, 10, 10, 0, 70),
    ];
    let r = post_process(&v, 10, thr(1, 2));
    assert_eq!(r, vec![bx(10, 10, 10, 10, 0, 80)]);
}

#[test]
fn get_results_per_image() {
    let batch = vec![
        vec![bx(10, 10, 10, 10, 0, 80), bx(10, 10, 10, 10, 0, 70)],
        vec![],
        vec![bx(1, 1, 2, 2, 3, 5)],
    ];
    let r = get_results(&batch, 4, thr(1, 2));
    assert_eq!(r.len(), 3);
    assert_eq!(r[0], vec![bx(10, 10, 10, 10, 0, 80)]);
    assert!(r[1].is_empty());
    assert_eq!(r[2], vec![bx(1, 1, 2, 2, 3, 5)]);
}

#[test]
fn nms_dropped_copy_is_covered() {
    // Two copies of one box: the second is suppressed by the first.
    let a = bx(10, 10, 10, 10, 0, 50);
    let r = nms(vec![a, a], thr(1, 2));
    assert_eq!(r, vec![a]);
}

#[test]
fn nms_order_independent_with_distinct_scores() {
    let boxes = vec![
        bx(10, 10, 10, 10, 0, 50),
        bx(12, 11, 10, 10, 0, 90),
        bx(30, 10, 10, 10, 0, 70),
        bx(31, 10, 10, 10, 0, 60),
        bx(12, 11, 10, 10, 2, 10),
    ];
    let expected = nms(boxes.clone(), thr(4, 10));
    let mut rotated = boxes.clone();
    for _ in 0..boxes.len() {
        rotated.rotate_left(1);
        assert_eq!(nms(rotated.clone(), thr(4, 10)), expected);
    }
    let mut reversed = boxes.clone();
    reversed.reverse();
    assert_eq!(nms(reversed, thr(4, 10)), expected);
}
