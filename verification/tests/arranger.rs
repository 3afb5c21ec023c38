use wano::arrange::{fits, guides, rect_of, settle, try_settle, Line, Rect, Tile, REACH};
use wano::config::Output;
use wano::editor::{settle_drafts, tiles, Draft};
use wano::scale::Scale;
use wano::wl::{HeadId, ModeSpec, Transform};

const PX: i64 = 256;

fn px(v: f32) -> i64 {
    (v * 256.0).round() as i64
}

fn scale(x: f64) -> Scale {
    Scale { bits: x.to_bits() }
}

fn draft(connector: &str, x: f32, y: f32) -> Draft {
    Draft {
        id: HeadId { connector: connector.into(), ..HeadId::default() },
        keys: None,
        enabled: true,
        x: px(x),
        y: px(y),
        scale: scale(1.0),
        mode: Some(ModeSpec { width: 1920, height: 1080, refresh: Some(60_000) }),
        transform: Transform::Normal,
    }
}

fn place(d: &Draft) -> (f32, f32) {
    (d.x as f32 / 256.0, d.y as f32 / 256.0)
}

fn rect(d: &Draft) -> Rect {
    rect_of(&d.tile())
}

/// Every enabled output shares an edge with another one, and none overlap.
fn contiguous(drafts: &[Draft]) -> bool {
    let rects: Vec<Rect> = drafts.iter().filter(|d| d.enabled).map(rect).collect();
    let touches = |a: &Rect, b: &Rect| {
        let horizontal = (a.right == b.left || b.right == a.left) && a.top < b.bottom && b.top < a.bottom;
        let vertical = (a.bottom == b.top || b.bottom == a.top) && a.left < b.right && b.left < a.right;
        horizontal || vertical
    };
    rects.iter().enumerate().all(|(i, a)| {
        rects.iter().enumerate().any(|(j, b)| i != j && touches(a, b))
            && rects.iter().enumerate().all(|(j, b)| i == j || !a.overlaps(b))
    })
}

#[test]
fn a_profile_entry_round_trips_through_a_draft() {
    let entry = Output {
        model: Some("PHL 241B7Q".into()),
        serial: Some("X".into()),
        enabled: true,
        position: Some([1920, 0]),
        scale: Some(scale(1.5)),
        mode: Some("2560x1440@59.951".into()),
        transform: Some("90".into()),
        ..Output::default()
    };
    let draft = Draft::from_output(&entry);
    assert_eq!(draft.size(), (960, 1706));
    let back = draft.to_output(&vec![], true);
    assert_eq!(back.model, entry.model);
    assert_eq!(back.serial, entry.serial);
    assert_eq!(back.position, entry.position);
    assert_eq!(back.mode, entry.mode);
    assert_eq!(back.transform, entry.transform);
    assert!(draft.to_output(&vec![], false).serial.is_none());
}

#[test]
fn a_gap_is_closed_however_small() {
    let mut drafts = vec![draft("DP-1", 0.0, 0.0), draft("DP-2", 1928.0, 7.0)];
    settle_drafts(&mut drafts, 1, px(0.0));
    assert_eq!(place(&drafts[1]), (1920.0, 7.0));
    assert!(contiguous(&drafts));
}

#[test]
fn an_output_dropped_far_away_is_pulled_against_its_neighbour() {
    let mut drafts = vec![draft("DP-1", 0.0, 0.0), draft("DP-2", 6000.0, 4000.0)];
    settle_drafts(&mut drafts, 1, px(16.0));
    assert!(contiguous(&drafts));
}

#[test]
fn overlapping_outputs_are_pushed_apart() {
    let mut drafts = vec![draft("DP-1", 0.0, 0.0), draft("DP-2", 400.0, 100.0)];
    settle_drafts(&mut drafts, 1, px(16.0));
    assert!(contiguous(&drafts));
}

#[test]
fn a_layout_that_already_fits_is_left_alone() {
    let mut drafts = vec![draft("DP-1", 0.0, 0.0), draft("DP-2", 1920.0, 0.0), draft("eDP-1", 3840.0, 0.0)];
    let before: Vec<(f32, f32)> = drafts.iter().map(place).collect();
    settle_drafts(&mut drafts, 1, px(16.0));
    assert_eq!(drafts.iter().map(place).collect::<Vec<_>>(), before);
}

#[test]
fn rescaling_an_output_closes_the_gap_it_leaves() {
    let mut drafts = vec![draft("DP-1", 0.0, 0.0), draft("DP-2", 1920.0, 0.0), draft("eDP-1", 3840.0, 0.0)];
    drafts[1].scale = scale(2.0);
    settle_drafts(&mut drafts, 1, px(16.0));
    assert!(contiguous(&drafts));
}

#[test]
fn a_disabled_output_is_ignored() {
    let mut drafts = vec![draft("DP-1", 0.0, 0.0), draft("DP-2", 9000.0, 0.0), draft("eDP-1", 1920.0, 0.0)];
    drafts[1].enabled = false;
    settle_drafts(&mut drafts, 2, px(16.0));
    assert_eq!(place(&drafts[1]), (9000.0, 0.0));
    assert!(contiguous(&drafts));
}

#[test]
fn a_drop_near_an_edge_sticks_to_it() {
    let mut drafts = vec![draft("DP-1", 0.0, 0.0), draft("DP-2", 1928.0, 7.0)];
    settle_drafts(&mut drafts, 1, px(16.0));
    assert_eq!(place(&drafts[1]), (1920.0, 0.0));
}

#[test]
fn a_drop_under_two_outputs_sticks_to_their_centre() {
    let mut drafts = vec![draft("DP-1", 0.0, 0.0), draft("DP-2", 1920.0, 0.0), draft("eDP-1", 975.0, 1085.0)];
    settle_drafts(&mut drafts, 2, px(32.0));
    assert_eq!(place(&drafts[2]), (960.0, 1080.0));
    assert!(contiguous(&drafts));
}

/// The wire reports a configured scale of 1.6 as 1.6015625; dividing by that gave
/// a footprint 3px narrower than the compositor's own, so the next screen was
/// placed 3px inside this one and showed a strip of it.
#[test]
fn a_footprint_is_the_compositor_s_own_so_nothing_overlaps() {
    let mut drafts = vec![draft("DP-2", 0.0, 0.0), draft("eDP-1", 2500.0, 0.0)];
    drafts[0].mode = Some(ModeSpec { width: 3840, height: 2160, refresh: Some(60_000) });
    drafts[0].scale = scale(1.6015625);
    assert_eq!(drafts[0].size(), (2400, 1350));
    settle_drafts(&mut drafts, 1, px(16.0));
    assert_eq!(place(&drafts[1]).0, 2400.0);
    assert!(contiguous(&drafts));
}

#[test]
fn the_guides_show_what_the_placement_lines_up_with() {
    let row = vec![rect(&draft("DP-1", 0.0, 0.0)), rect(&draft("DP-2", 1920.0, 0.0))];
    let centred = rect(&draft("eDP-1", 960.0, 1080.0));
    let lines = guides(&centred, &row);
    // Centred on the pair: a line down the middle of the block.
    assert!(lines.contains(&Line { from_x: px(1920.0), from_y: px(0.0), to_x: px(1920.0), to_y: px(2160.0) }));

    let beside = rect(&draft("eDP-1", 3840.0, 0.0));
    let lines = guides(&beside, &row);
    // Top edges flush with the output it sits next to.
    assert!(lines.iter().any(|l| l.from_y == px(0.0) && l.to_y == px(0.0)));
}

#[test]
fn scale_and_rotation_change_the_footprint() {
    let mut draft = draft("DP-1", 0.0, 0.0);
    draft.scale = scale(2.0);
    assert_eq!(draft.size(), (960, 540));
    draft.transform = Transform::_90;
    assert_eq!(draft.size(), (540, 960));
}

fn tile(x: i64, y: i64, width: i64, height: i64) -> Tile {
    Tile { x: x * PX, y: y * PX, width: width * PX, height: height * PX, enabled: true }
}

fn at(t: &Tile) -> (i64, i64) {
    (t.x / PX, t.y / PX)
}

fn fast_random(seed: &mut u64) -> i64 {
    *seed = seed.wrapping_mul(6364136223846793005).wrapping_add(1442695040888963407);
    (*seed >> 33) as i64
}

/// Whatever is dropped wherever, there is neither gap nor overlap.
#[test]
fn settled_layouts_are_gapless_and_free_of_overlap() {
    let mut seed: u64 = 7;
    for round in 0..300 {
        let n = 2 + (round % 5) as usize;
        let mut l: Vec<Tile> = (0..n)
            .map(|_| Tile {
                x: fast_random(&mut seed) % 4000 * PX,
                y: fast_random(&mut seed) % 4000 * PX,
                width: (1 + fast_random(&mut seed) % 2000) * PX,
                height: (1 + fast_random(&mut seed) % 2000) * PX,
                enabled: true,
            })
            .collect();
        let moved = round as usize % n;
        l[moved].x += fast_random(&mut seed) % 256;
        l[moved].y -= fast_random(&mut seed) % 256;
        assert!(try_settle(&mut l, moved, fast_random(&mut seed) % 64 * PX));
        for i in 0..n {
            let a = rect_of(&l[i]);
            assert_eq!((l[i].x % PX, l[i].y % PX), (0, 0));
            assert!((0..n).any(|j| j != i && a.touches(&rect_of(&l[j]))));
            for j in 0..n {
                let b = rect_of(&l[j]);
                assert!(i == j || a.right <= b.left || b.right <= a.left || a.bottom <= b.top || b.bottom <= a.top);
            }
        }
    }
}

#[test]
fn an_output_touches_an_output_and_not_just_the_block() {
    let mut l = vec![tile(0, 0, 100, 100), tile(100, 50, 100, 100), tile(205, 0, 40, 40)];
    settle(&mut l, 2, 16 * PX);
    let a = rect_of(&l[2]);
    assert!(a.touches(&rect_of(&l[0])) || a.touches(&rect_of(&l[1])));
}

#[test]
fn the_nearest_place_is_taken() {
    // Left, right, above and below of a square.
    for (from, to) in [((-120, 3), (-100, 3)), ((130, -7), (100, -7)), ((9, -150), (9, -100)), ((-4, 107), (-4, 100))] {
        let mut l = vec![tile(0, 0, 100, 100), tile(from.0, from.1, 100, 100)];
        settle(&mut l, 1, 0);
        assert_eq!(at(&l[1]), to);
        assert_eq!(at(&l[0]), (0, 0));
    }
}

#[test]
fn of_two_places_almost_as_near_the_nearer_is_taken() {
    // To the right of the first is a hair farther than to the left of the second.
    let mut l = vec![tile(-2100, 100, 100, 100), tile(2100, -50, 100, 100), tile(0, 0, 100, 100)];
    settle(&mut l, 2, 0);
    assert_eq!(at(&l[2]), (2000, 0));
}

#[test]
fn a_corner_keeps_a_pixel_of_the_edge() {
    let mut l = vec![tile(0, 0, 100, 100), tile(500, 500, 100, 100)];
    settle(&mut l, 1, 0);
    assert_eq!(at(&l[1]), (100, 99));
}

#[test]
fn halves_of_a_pixel_go_away_from_nought() {
    let mut l = vec![tile(0, 0, 100, 100), tile(100, 0, 100, 101)];
    l[1].y = -PX / 2;
    settle(&mut l, 1, 0);
    assert_eq!(at(&l[1]), (100, -1));
    let mut l = vec![tile(0, 0, 100, 100), tile(100, 0, 100, 100)];
    l[1].y = PX / 2;
    settle(&mut l, 1, 0);
    assert_eq!(at(&l[1]), (100, 1));
}

#[test]
fn a_lone_or_disabled_output_is_not_moved() {
    let mut l = vec![tile(17, 4, 100, 100)];
    settle(&mut l, 0, 0);
    assert_eq!(at(&l[0]), (17, 4));
    let mut l = vec![tile(17, 4, 100, 100), tile(900, 900, 100, 100)];
    l[1].enabled = false;
    settle(&mut l, 1, 0);
    assert_eq!((at(&l[0]), at(&l[1])), ((17, 4), (900, 900)));
    settle(&mut l, 0, 0);
    assert_eq!((at(&l[0]), at(&l[1])), ((17, 4), (900, 900)));
}

#[test]
fn fitting_is_touching_one_and_overlapping_none() {
    let l = vec![tile(0, 0, 100, 100), tile(100, 20, 50, 50), tile(101, 0, 50, 50), tile(99, 0, 50, 50), tile(100, 100, 50, 50)];
    assert!(fits(&l, 1, &vec![0]));
    assert!(!fits(&l, 2, &vec![0]));
    assert!(!fits(&l, 3, &vec![0]));
    // Corner to corner is not touching.
    assert!(!fits(&l, 4, &vec![0]));
    assert!(!fits(&l, 1, &vec![0, 2]));
    assert!(!fits(&l, 1, &vec![]));
}

#[test]
fn what_is_too_small_or_too_far_out_cannot_be_settled() {
    let can = |mut l: Vec<Tile>| {
        let before: Vec<(i64, i64)> = l.iter().map(at).collect();
        let done = try_settle(&mut l, 0, 0);
        assert!(done || before == l.iter().map(at).collect::<Vec<_>>());
        done
    };
    assert!(can(vec![tile(0, 0, 1, 1), tile(5, 5, 1, 1)]));
    assert!(!can(vec![tile(0, 0, 0, 1), tile(5, 5, 1, 1)]));
    assert!(!can(vec![tile(0, 0, 1, 0), tile(5, 5, 1, 1)]));
    assert!(!can(vec![tile(i64::MAX / PX, 0, 1, 1)]));
    // An output may stand as far out as can be, but cannot be put farther.
    let edge = REACH / PX;
    assert!(can(vec![tile(edge, 0, 10, 10)]));
    assert!(!can(vec![tile(edge + 1, 0, 10, 10)]));
    assert!(can(vec![tile(edge, 0, 10, 10), tile(edge - 1000, 0, 1000, 10)]));
    assert!(!can(vec![tile(edge, 0, 10, 10), tile(edge - 999, 0, 1000, 10)]));
    // Two that are small do not matter while neither has to be put in place.
    assert!(can(vec![tile(0, 0, 9, 9), tile(9, 0, 0, 9), tile(9, 0, 0, 9)]));
    let mut small = vec![tile(5, 5, 1, 1), tile(0, 0, 0, 0)];
    small[1].enabled = false;
    assert!(can(small));
    assert!(can(tiles(&vec![draft("DP-1", 1.0, 2.0)])));
}

#[test]
fn guides_are_not_drawn_twice_in_a_row() {
    let square = rect_of(&tile(0, 0, 100, 100));
    let lines = guides(&square, &vec![square]);
    assert_eq!(lines.len(), 6);
    let lines = guides(&rect_of(&tile(200, 300, 10, 10)), &vec![square]);
    assert!(lines.is_empty());
    // A line of no width: its left edge, its centre and its right edge are one.
    let line = rect_of(&tile(0, 0, 0, 100));
    let lines = guides(&line, &vec![line]);
    assert_eq!(lines.len(), 4);
}

/// There may be any number of outputs.
#[test]
fn a_long_row_of_outputs_is_settled() {
    let mut l: Vec<Tile> = (0..600).map(|i| tile(i * 100, 0, 100, 50)).collect();
    l[599].x += 30 * PX;
    l[599].y += 3 * PX;
    assert!(try_settle(&mut l, 599, 16 * PX));
    assert!((0..600).all(|i| at(&l[i as usize]) == (i * 100, 0)));
}
