use tracear_core::fast::FastCorner;
use tracear_core::keypoint::select_uniform;

fn kp(x: u16, y: u16, score: u32) -> FastCorner {
    FastCorner { x, y, score }
}

#[test]
fn keeps_top_per_cell() {
    // three keypoints in the same 16px cell, one elsewhere
    let kps = vec![kp(1, 1, 5), kp(2, 2, 9), kp(3, 3, 7), kp(40, 40, 1)];
    let sel = select_uniform(kps, 64, 64, 16, 2, 100);
    assert_eq!(sel.len(), 3);
    // the score-5 keypoint in the crowded cell was dropped
    assert!(sel.iter().all(|k| k.score != 5));
    // the lone low-score keypoint survives (spatial spread wins)
    assert!(sel.iter().any(|k| k.score == 1));
}

#[test]
fn respects_max_total() {
    let kps: Vec<FastCorner> = (0..100).map(|i| kp((i * 20) as u16, 0, i)).collect();
    let sel = select_uniform(kps, 2000, 32, 16, 3, 10);
    assert_eq!(sel.len(), 10);
    // highest scores kept
    assert!(sel.iter().all(|k| k.score >= 90));
}

#[test]
fn output_order_is_cell_then_rank() {
    // cells of 10px on a 30x10 image: columns 0, 1, 2
    let kps = vec![kp(25, 0, 3), kp(5, 1, 4), kp(6, 1, 8), kp(15, 2, 6), kp(29, 9, 3)];
    let sel = select_uniform(kps, 30, 10, 10, 5, 10);
    let got: Vec<(u16, u16, u32)> = sel.iter().map(|c| (c.x, c.y, c.score)).collect();
    // cell 0: scores 8 then 4; cell 1: 6; cell 2: tie at 3 broken by scan order
    assert_eq!(got, vec![(6, 1, 8), (5, 1, 4), (15, 2, 6), (25, 0, 3), (29, 9, 3)]);
}

#[test]
fn global_cut_orders_by_score_then_cell() {
    let kps = vec![kp(5, 0, 7), kp(15, 0, 9), kp(25, 0, 7), kp(26, 5, 2)];
    let sel = select_uniform(kps, 30, 10, 10, 5, 3);
    let got: Vec<(u16, u32)> = sel.iter().map(|c| (c.x, c.score)).collect();
    assert_eq!(got, vec![(15, 9), (5, 7), (25, 7)]);
}

#[test]
fn edge_positions_fall_in_the_last_cell() {
    // 25 px wide with 10 px cells: 3 columns; x = 24 lands in column 2
    let kps = vec![kp(21, 0, 1), kp(24, 0, 5)];
    let sel = select_uniform(kps, 25, 5, 10, 1, 10);
    assert_eq!(sel.len(), 1);
    assert_eq!(sel[0].x, 24);
    assert!(select_uniform(vec![], 0, 0, 4, 1, 1).is_empty());
}

#[test]
fn ties_follow_input_order_in_any_order() {
    // same cell, same score, not in scan order: the first given wins
    let kps = vec![kp(9, 9, 5), kp(1, 1, 5), kp(2, 1, 4)];
    let sel = select_uniform(kps, 16, 16, 16, 1, 10);
    assert_eq!(sel.len(), 1);
    assert_eq!((sel[0].x, sel[0].y), (9, 9));
    // the global cut breaks score ties by cell, then by input order
    let kps = vec![kp(12, 0, 3), kp(3, 0, 3), kp(1, 0, 3)];
    let sel = select_uniform(kps, 20, 10, 10, 2, 2);
    let got: Vec<u16> = sel.iter().map(|c| c.x).collect();
    assert_eq!(got, vec![3, 1]);
}
