use bubblepop::PostprocessContext;

fn mask(cells: &[u8]) -> Vec<bool> {
    cells.iter().map(|&c| c != 0).collect()
}

#[test]
fn labels_each_component_once() {
    // 4 x 3 plane:
    // 1 1 0 0
    // 0 0 0 1
    // 1 0 0 1
    let grow = mask(&[1, 1, 0, 0, 0, 0, 0, 1, 1, 0, 0, 1]);
    let mut ctx = PostprocessContext::default();
    let epoch = ctx.begin_pass(12);
    assert_eq!(epoch, 1);

    let (start, tail) = ctx.next_component(&grow, &grow, 4, 3, 0).expect("first");
    assert_eq!((start, tail), (0, 2));
    assert_eq!(ctx.component_pixels(tail), &[0, 1]);
    ctx.clear_component(tail);

    let (start, tail) = ctx.next_component(&grow, &grow, 4, 3, start + 1).expect("second");
    assert_eq!((start, tail), (7, 2));
    assert_eq!(ctx.component_pixels(tail), &[7, 11]);
    let contour = ctx.trace_component(tail, 4, 3);
    assert_eq!(contour.len(), 2);
    assert_eq!((contour[0].x, contour[0].y), (3, 1));
    assert_eq!((contour[1].x, contour[1].y), (3, 2));
    ctx.clear_component(tail);

    let (start, tail) = ctx.next_component(&grow, &grow, 4, 3, start + 1).expect("third");
    assert_eq!((start, tail), (8, 1));
    ctx.clear_component(tail);

    assert!(ctx.next_component(&grow, &grow, 4, 3, start + 1).is_none());
}

#[test]
fn fills_breadth_first_with_diagonal_neighbours() {
    // 3 x 3 plane, an X shape: corners and centre.
    let grow = mask(&[1, 0, 1, 0, 1, 0, 1, 0, 1]);
    let mut ctx = PostprocessContext::default();
    ctx.begin_pass(9);
    let (start, tail) = ctx.next_component(&grow, &grow, 3, 3, 0).expect("x shape");
    assert_eq!(start, 0);
    assert_eq!(tail, 5);
    assert_eq!(ctx.component_pixels(tail), &[0, 4, 2, 6, 8]);
    ctx.clear_component(tail);
    assert!(ctx.next_component(&grow, &grow, 3, 3, 1).is_none());
}

#[test]
fn seed_without_growth_stays_alone() {
    // The centre cell seeds a component but does not grow into others; its neighbours do.
    let seed = mask(&[0, 0, 0, 0, 1, 0, 0, 0, 0]);
    let grow = mask(&[0, 1, 0, 0, 0, 0, 0, 0, 0]);
    let mut ctx = PostprocessContext::default();
    ctx.begin_pass(9);
    let (start, tail) = ctx.next_component(&seed, &grow, 3, 3, 0).expect("seeded");
    assert_eq!(start, 4);
    assert_eq!(ctx.component_pixels(tail), &[4, 1]);
    ctx.clear_component(tail);
    assert!(ctx.next_component(&seed, &grow, 3, 3, 5).is_none());
}

#[test]
fn a_new_pass_forgets_visits() {
    let grow = mask(&[1, 1, 1, 1]);
    let mut ctx = PostprocessContext::default();
    assert_eq!(ctx.begin_pass(4), 1);
    let (_, tail) = ctx.next_component(&grow, &grow, 2, 2, 0).unwrap();
    assert_eq!(tail, 4);
    ctx.clear_component(tail);
    assert!(ctx.next_component(&grow, &grow, 2, 2, 0).is_none());
    assert_eq!(ctx.begin_pass(4), 2);
    let (start, tail) = ctx.next_component(&grow, &grow, 2, 2, 0).unwrap();
    assert_eq!((start, tail), (0, 4));
    ctx.clear_component(tail);
    // A different plane size starts the stamps over.
    assert_eq!(ctx.begin_pass(6), 1);
}

#[test]
fn empty_mask_has_no_components() {
    let grow = vec![false; 6];
    let mut ctx = PostprocessContext::default();
    ctx.begin_pass(6);
    assert!(ctx.next_component(&grow, &grow, 3, 2, 0).is_none());
}

#[test]
fn successive_components_share_no_cell() {
    // 3 x 2 plane: every cell seeds, only the outer columns grow. The fill from 0 takes
    // {0, 3}, the one from 1 takes {1, 2, 5} and the one from 4 takes {4}.
    // 1 0 1
    // 1 0 1
    let seed = vec![true; 6];
    let grow = mask(&[1, 0, 1, 1, 0, 1]);
    let mut ctx = PostprocessContext::default();
    ctx.begin_pass(6);
    let mut seen: Vec<usize> = Vec::new();
    let mut from = 0;
    while let Some((start, tail)) = ctx.next_component(&seed, &grow, 3, 2, from) {
        for &cell in ctx.component_pixels(tail) {
            assert!(!seen.contains(&cell), "cell {cell} taken twice");
            seen.push(cell);
        }
        ctx.clear_component(tail);
        from = start + 1;
    }
    seen.sort();
    assert_eq!(seen, vec![0, 1, 2, 3, 4, 5]);
}

fn pass(ctx: &mut PostprocessContext, seed: &[bool], grow: &[bool], width: usize, height: usize) -> Vec<Vec<usize>> {
    ctx.begin_pass(width * height);
    let mut found = Vec::new();
    let mut from = 0;
    while let Some((start, tail)) = ctx.next_component(seed, grow, width, height, from) {
        found.push(ctx.component_pixels(tail).to_vec());
        ctx.clear_component(tail);
        from = start + 1;
    }
    found
}

#[test]
fn reused_context_finds_the_same_components() {
    // 4 x 3 plane:
    // 1 1 0 1
    // 0 1 0 1
    // 1 0 0 1
    let grow = mask(&[1, 1, 0, 1, 0, 1, 0, 1, 1, 0, 0, 1]);
    let fresh = pass(&mut PostprocessContext::default(), &grow, &grow, 4, 3);
    assert_eq!(fresh, vec![vec![0, 1, 5, 8], vec![3, 7, 11]]);

    // A context used before on another plane, and on this one, gives the same answer.
    let mut reused = PostprocessContext::default();
    let other = mask(&[1, 1, 1, 1, 1, 1]);
    pass(&mut reused, &other, &other, 3, 2);
    assert_eq!(pass(&mut reused, &grow, &grow, 4, 3), fresh);
    assert_eq!(pass(&mut reused, &grow, &grow, 4, 3), fresh);
}
