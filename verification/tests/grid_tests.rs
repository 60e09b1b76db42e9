use sanbox::grid::SandGrid;
use sanbox::random::random_below;
use sanbox::stamp::{ScratchKind, StampKind};
use sanbox::text::TextBitmap;

const S: Option<(u8, u8, u8)> = Some((5, 6, 7));

fn empty_mask() -> TextBitmap {
    TextBitmap::new(Vec::new(), 0, 0)
}

fn grains(g: &SandGrid) -> usize {
    g.cells.iter().filter(|c| c.is_some()).count()
}

#[test]
fn in_bounds_checks_both_axes() {
    let g = SandGrid::new(3, 2, vec![None; 6]);
    assert!(g.in_bounds(0, 0));
    assert!(g.in_bounds(2, 1));
    assert!(!g.in_bounds(3, 0));
    assert!(!g.in_bounds(0, 2));
    assert!(!g.in_bounds(-1, 0));
    assert!(!g.in_bounds(0, -1));
}

#[test]
fn is_text_pixel_follows_position() {
    let mask = TextBitmap::new(vec![vec![true, false], vec![false, true]], 2, 2);
    assert!(mask.is_text_pixel(3, 4, 3, 4));
    assert!(!mask.is_text_pixel(3, 4, 4, 4));
    assert!(mask.is_text_pixel(3, 4, 4, 5));
    assert!(!mask.is_text_pixel(3, 4, 2, 4));
    assert!(!mask.is_text_pixel(3, 4, 5, 5));
    assert!(mask.is_text_pixel(-1, -1, 0, 0));
    assert!(!mask.is_text_pixel(-1, -1, 1, 1));
}

#[test]
fn cell_blocked_by_sand_or_text() {
    let mask = TextBitmap::new(vec![vec![true]], 1, 1);
    let g = SandGrid::new(2, 1, vec![None, S]);
    assert!(g.cell_blocked(&mask, 0, 0, 0, 0));
    assert!(g.cell_blocked(&mask, 0, 0, 1, 0));
    assert!(!g.cell_blocked(&mask, 5, 5, 0, 0));
}

#[test]
fn deposit_prefers_offsets_from_start() {
    // 3x3 empty field, grain at the centre
    let mut g = SandGrid::new(3, 3, vec![None; 9]);
    assert!(g.deposit_from(&empty_mask(), 0, 0, 1, 1, (1, 1, 1), 0));
    assert_eq!(g.cells[4], Some((1, 1, 1)));
    // the centre is taken now: start 0 goes on to the pixel below
    assert!(g.deposit_from(&empty_mask(), 0, 0, 1, 1, (2, 2, 2), 0));
    assert_eq!(g.cells[7], Some((2, 2, 2)));
    // start 5 tries the right neighbour first
    assert!(g.deposit_from(&empty_mask(), 0, 0, 1, 1, (3, 3, 3), 5));
    assert_eq!(g.cells[5], Some((3, 3, 3)));
    // start 8 tries up-right first
    assert!(g.deposit_from(&empty_mask(), 0, 0, 1, 1, (4, 4, 4), 8));
    assert_eq!(g.cells[2], Some((4, 4, 4)));
    assert_eq!(grains(&g), 4);
}

#[test]
fn deposit_skips_text_and_edges() {
    // 2x1 field, text covers (1, 0): a grain at (0, 0) that is taken finds nothing
    let mask = TextBitmap::new(vec![vec![true]], 1, 1);
    let mut g = SandGrid::new(2, 1, vec![S, None]);
    assert!(!g.deposit_from(&mask, 1, 0, 0, 0, (9, 9, 9), 3));
    assert_eq!(g.cells, vec![S, None]);
    // without the text it lands on the right
    assert!(g.deposit_from(&empty_mask(), 1, 0, 0, 0, (9, 9, 9), 3));
    assert_eq!(g.cells, vec![S, Some((9, 9, 9))]);
}

#[test]
fn try_deposit_lands_on_the_only_open_pixel() {
    let mut rng = fastrand::Rng::with_seed(7);
    for _ in 0..20 {
        let mut g = SandGrid::new(3, 3, vec![S, S, S, S, S, None, S, S, S]);
        assert!(g.try_deposit(&empty_mask(), 0, 0, 1, 1, (8, 8, 8), &mut rng));
        assert_eq!(g.cells[5], Some((8, 8, 8)));
        assert_eq!(grains(&g), 9);
        assert!(!g.try_deposit(&empty_mask(), 0, 0, 1, 1, (8, 8, 8), &mut rng));
    }
}

#[test]
fn random_below_stays_in_range() {
    let mut rng = fastrand::Rng::with_seed(42);
    let mut seen = [false; 9];
    for _ in 0..2000 {
        let r = random_below(&mut rng, 9);
        assert!(r < 9);
        seen[r] = true;
    }
    assert!(seen.iter().all(|s| *s));
    assert_eq!(random_below(&mut rng, 1), 0);
}

#[test]
fn shift_moves_grain_when_open() {
    let mut g = SandGrid::new(3, 1, vec![S, None, Some((1, 1, 1))]);
    assert!(g.shift_grain(&empty_mask(), 0, 0, 0, 0, 1, 0));
    assert_eq!(g.cells, vec![None, S, Some((1, 1, 1))]);
    // blocked by sand
    assert!(!g.shift_grain(&empty_mask(), 0, 0, 1, 0, 1, 0));
    // blocked by the edge
    assert!(!g.shift_grain(&empty_mask(), 0, 0, 2, 0, 1, 0));
    assert!(!g.shift_grain(&empty_mask(), 0, 0, 1, 0, 0, -1));
    // blocked by text
    let mask = TextBitmap::new(vec![vec![true]], 1, 1);
    assert!(!g.shift_grain(&mask, 0, 0, 1, 0, -1, 0));
    assert_eq!(grains(&g), 2);
}

#[test]
fn take_and_put_back_restore_grid() {
    let mut g = SandGrid::new(2, 1, vec![S, None]);
    let before = g.cells.clone();
    let taken = g.take_grain(0);
    assert_eq!(taken, S);
    assert_eq!(g.cells, vec![None, None]);
    g.put_grain(0, taken.unwrap());
    assert_eq!(g.cells, before);
    assert_eq!(g.take_grain(1), None);
}

#[test]
fn sand_under_text_lists_covered_grains() {
    let mask = TextBitmap::new(vec![vec![true, true], vec![false, true]], 2, 2);
    // 3x3 field, text at (1, 1) covers (1,1), (2,1), (2,2)
    let mut cells = vec![None; 9];
    cells[4] = S;
    cells[8] = S;
    cells[3] = S;
    let g = SandGrid::new(3, 3, cells);
    assert_eq!(g.sand_under_text(&mask, 1, 1), vec![(0, 0, 4), (1, 1, 8)]);
    // partly outside the field
    assert_eq!(g.sand_under_text(&mask, 2, 2), vec![(0, 0, 8)]);
    assert_eq!(g.sand_under_text(&mask, -1, 0), vec![(1, 1, 3)]);
}

#[test]
fn scratch_plan_for_horizontal_motion() {
    let mask = TextBitmap::new(vec![vec![true]], 1, 1);
    let mut cells = vec![None; 9];
    cells[4] = S;
    let g = SandGrid::new(3, 3, cells);
    // moving right: the trail lies to the left, sides above and below
    let plan = g.scratch_plan(&mask, 1, 1, -1, 0);
    assert_eq!(
        plan,
        vec![
            (4, ScratchKind::Covered),
            (3, ScratchKind::Trail),
            (1, ScratchKind::Side),
            (7, ScratchKind::Side),
        ]
    );
    // at the top-left corner, moving up-left: trail down-right, no side above
    let plan = g.scratch_plan(&mask, 0, 0, 1, 1);
    assert_eq!(plan, vec![(0, ScratchKind::Exposed), (4, ScratchKind::Trail), (3, ScratchKind::Side)]);
}

#[test]
fn scratch_plan_for_vertical_and_still_text() {
    let mask = TextBitmap::new(vec![vec![true, false]], 2, 1);
    let g = SandGrid::new(3, 2, vec![None; 6]);
    let plan = g.scratch_plan(&mask, 2, 1, 0, -1);
    assert_eq!(
        plan,
        vec![(5, ScratchKind::Exposed), (2, ScratchKind::Trail), (4, ScratchKind::Side)]
    );
    let plan = g.scratch_plan(&mask, 0, 0, 0, 0);
    assert_eq!(plan, vec![(0, ScratchKind::Exposed), (0, ScratchKind::Trail)]);
    assert!(g.scratch_plan(&mask, 3, 0, 0, 0).is_empty());
}

#[test]
fn stamp_plan_paints_shadow_then_glyph() {
    let mask = TextBitmap::new(vec![vec![true, false], vec![true, true]], 2, 2);
    let g = SandGrid::new(3, 3, vec![None; 9]);
    let plan = g.stamp_plan(&mask, 0, 0);
    assert_eq!(
        plan,
        vec![
            (4, StampKind::Shadow),
            (0, StampKind::Glyph),
            (7, StampKind::Shadow),
            (3, StampKind::Glyph),
            (8, StampKind::Shadow),
            (4, StampKind::Glyph),
        ]
    );
    let plan = g.stamp_plan(&mask, 2, 2);
    assert_eq!(plan, vec![(8, StampKind::Glyph)]);
    let plan = g.stamp_plan(&mask, -1, -1);
    assert_eq!(
        plan,
        vec![(0, StampKind::Shadow), (3, StampKind::Shadow), (4, StampKind::Shadow), (0, StampKind::Glyph)]
    );
}

#[test]
fn overlay_paints_grains_only() {
    let g = SandGrid::new(3, 1, vec![S, None, Some((1, 1, 1))]);
    let mut fb = vec![Some((0, 0, 0)); 3];
    g.overlay_grains(&mut fb);
    assert_eq!(fb, vec![S, Some((0, 0, 0)), Some((1, 1, 1))]);
    let mut short = vec![None];
    g.overlay_grains(&mut short);
    assert_eq!(short, vec![S]);
}
