use bubblepop::contour::MAX_PATH_POINTS;
use bubblepop::{select_kept_points, trace_contour, IntPoint};

fn pt(x: i32, y: i32) -> IntPoint {
    IntPoint { x, y }
}

fn grid(width: usize, height: usize, cells: &[(usize, usize)]) -> (Vec<u8>, Vec<usize>) {
    let mut component = vec![0u8; width * height];
    let mut queue = Vec::new();
    for &(x, y) in cells {
        component[y * width + x] = 1;
        queue.push(y * width + x);
    }
    (component, queue)
}

#[test]
fn traces_square_clockwise_from_top_left() {
    let mut cells = Vec::new();
    for y in 1..4 {
        for x in 1..4 {
            cells.push((x, y));
        }
    }
    cells.reverse();
    let (component, queue) = grid(5, 5, &cells);
    let contour = trace_contour(&component, &queue, queue.len(), 5, 5);
    assert_eq!(
        contour,
        vec![pt(1, 1), pt(2, 1), pt(3, 1), pt(3, 2), pt(3, 3), pt(2, 3), pt(1, 3), pt(1, 2)]
    );
}

#[test]
fn traces_single_pixel() {
    let (component, queue) = grid(4, 4, &[(2, 2)]);
    assert_eq!(trace_contour(&component, &queue, 1, 4, 4), vec![pt(2, 2)]);
}

#[test]
fn empty_component_has_no_contour() {
    let (component, queue) = grid(4, 4, &[(2, 2)]);
    assert!(trace_contour(&component, &queue, 0, 4, 4).is_empty());
}

#[test]
fn diagonal_pair_traced_once() {
    let (component, queue) = grid(4, 4, &[(1, 1), (2, 2)]);
    assert_eq!(trace_contour(&component, &queue, 2, 4, 4), vec![pt(1, 1), pt(2, 2)]);
}

#[test]
fn line_traced_once() {
    let (component, queue) = grid(3, 1, &[(0, 0), (1, 0), (2, 0)]);
    assert_eq!(
        trace_contour(&component, &queue, 3, 3, 1),
        vec![pt(0, 0), pt(1, 0), pt(2, 0), pt(1, 0)]
    );
}

#[test]
fn vertical_pair_at_right_edge() {
    let (component, queue) = grid(4, 3, &[(3, 2), (3, 1)]);
    assert_eq!(trace_contour(&component, &queue, 2, 4, 3), vec![pt(3, 1), pt(3, 2)]);
}

#[test]
fn contour_steps_are_adjacent_foreground() {
    let cells = [(2, 0), (1, 1), (2, 1), (3, 1), (0, 2), (1, 2), (2, 2), (3, 2), (4, 2), (2, 3)];
    let (component, queue) = grid(6, 5, &cells);
    let contour = trace_contour(&component, &queue, queue.len(), 6, 5);
    assert_eq!(contour[0], pt(2, 0));
    assert!(contour.len() <= 80);
    for w in contour.windows(2) {
        assert!(w[0] != w[1]);
        assert!((w[0].x - w[1].x).abs() <= 1 && (w[0].y - w[1].y).abs() <= 1);
        assert_eq!(component[w[1].y as usize * 6 + w[1].x as usize], 1);
    }
}

#[test]
fn keeps_flagged_points_in_order() {
    let contour: Vec<IntPoint> = (0..6).map(|i| pt(i, 2 * i)).collect();
    let keep = [true, false, true, false, true, true];
    assert_eq!(select_kept_points(&contour, &keep), vec![pt(0, 0), pt(2, 4), pt(4, 8), pt(5, 10)]);
}

#[test]
fn falls_back_to_contour_when_too_few_kept() {
    let contour: Vec<IntPoint> = (0..6).map(|i| pt(i, 0)).collect();
    let keep = [true, false, false, false, false, true];
    assert_eq!(select_kept_points(&contour, &keep), contour);
}

#[test]
fn caps_long_outlines() {
    let contour: Vec<IntPoint> = (0..1000).map(|i| pt(i, -i)).collect();
    let keep = vec![true; 1000];
    let outline = select_kept_points(&contour, &keep);
    assert_eq!(outline.len(), 500);
    assert_eq!(outline[0], pt(0, 0));
    assert_eq!(outline[1], pt(2, -2));
    assert_eq!(outline[499], pt(998, -998));
    assert!(outline.len() <= MAX_PATH_POINTS);

    let contour: Vec<IntPoint> = (0..513).map(|i| pt(i, 0)).collect();
    let outline = select_kept_points(&contour, &vec![true; 513]);
    assert_eq!(outline.len(), 257);
    assert_eq!(outline[256], pt(512, 0));

    let contour: Vec<IntPoint> = (0..512).map(|i| pt(i, 0)).collect();
    assert_eq!(select_kept_points(&contour, &vec![true; 512]).len(), 512);
}
