use game_of_life::cell::Cell;
use game_of_life::universe::Universe;

const GLIDER: &str = "\
◻◻◻◻◻◻
◻◻◼◻◻◻
◼◻◼◻◻◻
◻◼◼◻◻◻
◻◻◻◻◻◻
◻◻◻◻◻◻
";

const GLIDER_FRAME_1: &str = "\
◻◻◻◻◻◻
◻◼◻◻◻◻
◻◻◼◼◻◻
◻◼◼◻◻◻
◻◻◻◻◻◻
◻◻◻◻◻◻
";

const GLIDER_FRAME_2: &str = "\
◻◻◻◻◻◻
◻◻◼◻◻◻
◻◻◻◼◻◻
◻◼◼◼◻◻
◻◻◻◻◻◻
◻◻◻◻◻◻
";

const GLIDER_FRAME_3: &str = "\
◻◻◻◻◻◻
◻◻◻◻◻◻
◻◼◻◼◻◻
◻◻◼◼◻◻
◻◻◼◻◻◻
◻◻◻◻◻◻
";

const GLIDER_FRAME_4: &str = "\
◻◻◻◻◻◻
◻◻◻◻◻◻
◻◻◻◼◻◻
◻◼◻◼◻◻
◻◻◼◼◻◻
◻◻◻◻◻◻
";

fn all_dead(u: &Universe) -> bool {
    u.cells().iter().all(|c| *c == Cell::Dead)
}

#[test]
fn empty_has_no_alive_cells() {
    for (w, h) in [(1u32, 1u32), (3, 5), (7, 2), (6, 6)] {
        let u = Universe::empty(w, h);
        assert_eq!(u.width(), w);
        assert_eq!(u.height(), h);
        let cells = u.cells();
        assert_eq!(cells.len(), (w * h) as usize);
        assert!(all_dead(&u));
    }
}

#[test]
fn try_empty_rejects_degenerate_dimensions() {
    assert!(Universe::try_empty(0, 5).is_none());
    assert!(Universe::try_empty(5, 0).is_none());
    assert!(Universe::try_empty(0, 0).is_none());
    assert!(Universe::try_empty(u32::MAX, 2).is_none());
    let u = Universe::try_empty(4, 3).unwrap();
    assert_eq!(u.width(), 4);
    assert_eq!(u.height(), 3);
    assert!(all_dead(&u));
}

#[test]
fn index_wraps_toroidally() {
    let u = Universe::empty(4, 3);
    assert_eq!(u.get_index(0, 0), 0);
    assert_eq!(u.get_index(1, 1), 5);
    assert_eq!(u.get_index(2, 3), 11);
    assert_eq!(u.get_index(-1, -1), 11);
    assert_eq!(u.get_index(3, 4), 0);
    assert_eq!(u.get_index(-3, -4), 0);
    assert_eq!(u.get_index(5, 6), u.get_index(2, 2));
}

#[test]
fn coordinate_inverts_index() {
    let u = Universe::empty(4, 3);
    assert_eq!(u.get_coord(5), (1, 1));
    assert_eq!(u.get_coord(11), (2, 3));
    for r in 0..3 {
        for c in 0..4 {
            let idx = u.get_index(r, c);
            assert_eq!(u.get_coord(idx), (r, c));
        }
    }
    // the round trip under wraparound: coordinate(index(r, c)) is the
    // wrapped coordinate (r mod height, c mod width)
    assert_eq!(u.get_coord(u.get_index(-1, -1)), (2, 3));
    assert_eq!(u.get_coord(u.get_index(7, 9)), (1, 1));
}

#[test]
fn get_and_set_cells_wrap() {
    let mut u = Universe::empty(3, 3);
    u.set_cell(-1, -1, Cell::Alive);
    assert_eq!(u.get_cell(2, 2), Cell::Alive);
    assert_eq!(u.get_cell(-1, -1), Cell::Alive);
    assert_eq!(u.get_cell(5, 5), Cell::Alive);
    u.set_cell(2, 2, Cell::Dead);
    assert!(all_dead(&u));
}

#[test]
fn live_neighbor_count_sees_all_eight() {
    let mut u = Universe::empty(7, 7);
    for dr in -1..=1 {
        for dc in -1..=1 {
            if dr != 0 || dc != 0 {
                u.set_cell(3 + dr, 3 + dc, Cell::Alive);
            }
        }
    }
    assert_eq!(u.live_neighbor_count(3, 3), 8);
    // of the ring, only (2, 2) touches this diagonal neighbor
    assert_eq!(u.live_neighbor_count(1, 1), 1);
    assert_eq!(u.live_neighbor_count(0, 0), 0);
}

#[test]
fn neighbor_count_wraps_at_corners() {
    let mut u = Universe::empty(4, 4);
    u.set_cell(0, 0, Cell::Alive);
    // the cell diagonally across both edges is a neighbor of the corner
    assert_eq!(u.live_neighbor_count(3, 3), 1);
    assert_eq!(u.live_neighbor_count(0, 3), 1);
    assert_eq!(u.live_neighbor_count(3, 0), 1);
    assert_eq!(u.live_neighbor_count(1, 1), 1);
    assert_eq!(u.live_neighbor_count(2, 2), 0);
}

#[test]
fn ticking_dead_grid_stays_dead() {
    let mut u = Universe::empty(5, 4);
    u.tick();
    assert!(all_dead(&u));
    assert_eq!(u.width(), 5);
    assert_eq!(u.height(), 4);
}

#[test]
fn lone_cell_dies_everywhere() {
    for (r, c) in [(0i32, 0i32), (0, 4), (4, 0), (4, 4), (2, 2)] {
        let mut u = Universe::empty(5, 5);
        u.set_cell(r, c, Cell::Alive);
        u.tick();
        assert!(all_dead(&u), "lone cell at ({r}, {c}) survived");
    }
}

#[test]
fn block_is_still_life() {
    let mut u = Universe::empty(4, 4);
    u.set_cell(1, 1, Cell::Alive);
    u.set_cell(1, 2, Cell::Alive);
    u.set_cell(2, 1, Cell::Alive);
    u.set_cell(2, 2, Cell::Alive);
    let before = u.render();
    u.tick();
    assert_eq!(u.render(), before);
}

#[test]
fn glider_golden_sequence() {
    let mut u = Universe::from_str(GLIDER).unwrap();
    let frame0 = Universe::from_str(GLIDER).unwrap();
    assert_eq!(u.width(), 6);
    assert_eq!(u.height(), 6);
    let frames = [GLIDER_FRAME_1, GLIDER_FRAME_2, GLIDER_FRAME_3, GLIDER_FRAME_4];
    for (i, expected) in frames.iter().enumerate() {
        u.tick();
        let want = Universe::from_str(expected).unwrap();
        assert!(u == want, "wrong grid after {} ticks:\n{}", i + 1, u.render());
    }
    assert!(u != frame0, "glider came back after only 4 ticks");
}

#[test]
fn render_emits_rows_of_glyphs() {
    let u = Universe::empty(2, 1);
    assert_eq!(u.render(), "◻◻\n");
    let mut v = Universe::empty(2, 2);
    v.set_cell(0, 1, Cell::Alive);
    assert_eq!(v.render(), "◻◼\n◻◻\n");
}

#[test]
fn render_then_parse_round_trips() {
    let u = Universe::from_str(GLIDER).unwrap();
    let again = Universe::from_str(&u.render()).unwrap();
    assert!(u == again);

    let mut v = Universe::empty(3, 2);
    v.set_cell(1, 2, Cell::Alive);
    let again = Universe::from_str(&v.render()).unwrap();
    assert!(v == again);

    let w = Universe::empty(1, 1);
    let again = Universe::from_str(&w.render()).unwrap();
    assert!(w == again);
}

#[test]
fn from_str_rejects_glyphless_text() {
    assert!(Universe::from_str("").is_none());
    assert!(Universe::from_str("   \n\t\n").is_none());
    assert!(Universe::from_str("no recognized glyphs here").is_none());
}

#[test]
fn from_str_skips_unrecognized_characters() {
    let u = Universe::from_str("x◼y◻\n◼").unwrap();
    assert_eq!(u.width(), 2);
    assert_eq!(u.height(), 2);
    assert_eq!(u.get_cell(0, 0), Cell::Alive);
    assert_eq!(u.get_cell(0, 1), Cell::Dead);
    assert_eq!(u.get_cell(1, 0), Cell::Alive);
    // the short second row leaves its remaining cell dead
    assert_eq!(u.get_cell(1, 1), Cell::Dead);
}

#[test]
fn from_str_trims_surrounding_whitespace() {
    let u = Universe::from_str("\n  ◼◻\n◻◼  \n\n").unwrap();
    assert_eq!(u.height(), 2);
    assert_eq!(u.width(), 2);
    assert_eq!(u.get_cell(0, 0), Cell::Alive);
    assert_eq!(u.get_cell(1, 1), Cell::Alive);
}

#[test]
fn insert_writes_pattern_at_offset() {
    let mut u = Universe::empty(5, 5);
    u.insert_from_text(1, 1, "*_\n_*");
    assert_eq!(u.get_cell(1, 1), Cell::Alive);
    assert_eq!(u.get_cell(1, 2), Cell::Dead);
    assert_eq!(u.get_cell(2, 1), Cell::Dead);
    assert_eq!(u.get_cell(2, 2), Cell::Alive);
}

#[test]
fn insert_dead_markers_overwrite() {
    let mut u = Universe::empty(3, 3);
    u.set_cell(0, 0, Cell::Alive);
    u.set_cell(0, 1, Cell::Alive);
    u.set_cell(0, 2, Cell::Alive);
    u.insert_from_text(0, 0, " 0_");
    assert!(all_dead(&u));
}

#[test]
fn insert_wraps_around_edges() {
    let mut u = Universe::empty(3, 3);
    u.insert_from_text(2, 2, "**\n**");
    assert_eq!(u.get_cell(2, 2), Cell::Alive);
    assert_eq!(u.get_cell(2, 0), Cell::Alive);
    assert_eq!(u.get_cell(0, 2), Cell::Alive);
    assert_eq!(u.get_cell(0, 0), Cell::Alive);
    assert_eq!(u.get_cell(1, 1), Cell::Dead);
}

#[test]
fn insert_strips_carriage_returns_only() {
    let mut u = Universe::empty(3, 3);
    u.insert_from_text(0, 0, "*\r\n*");
    assert_eq!(u.get_cell(0, 0), Cell::Alive);
    // the carriage return was stripped, not written as an alive cell
    assert_eq!(u.get_cell(0, 1), Cell::Dead);
    assert_eq!(u.get_cell(1, 0), Cell::Alive);
}

#[test]
fn with_preset_centers_a_glider() {
    let u = Universe::with_preset(6, 6);
    assert_eq!(u.width(), 6);
    assert_eq!(u.height(), 6);
    let alive = [(2, 3), (3, 4), (4, 2), (4, 3), (4, 4)];
    for r in 0..6 {
        for c in 0..6 {
            let want = alive.contains(&(r, c));
            assert_eq!(u.get_cell(r, c) == Cell::Alive, want, "cell ({r}, {c})");
        }
    }
}

#[test]
fn with_preset_glider_travels() {
    let mut u = Universe::with_preset(8, 8);
    let start = u.render();
    for _ in 0..4 {
        u.tick();
    }
    assert_ne!(u.render(), start);
    for _ in 0..28 {
        u.tick();
    }
    // after 32 ticks on an 8x8 torus the glider is back where it began
    assert_eq!(u.render(), start);
}

#[test]
fn random_uses_injected_draws() {
    let alive = vec![true, false, false, true, true, false];
    let u = Universe::random(3, 2, &alive);
    assert_eq!(u.width(), 3);
    assert_eq!(u.height(), 2);
    let cells = u.cells();
    for (i, &a) in alive.iter().enumerate() {
        assert_eq!(cells[i] == Cell::Alive, a);
    }
}

#[test]
fn cell_buffer_matches_cells() {
    let u = Universe::from_str(GLIDER).unwrap();
    let cells = u.cells();
    let bits = u.get_cells();
    assert_eq!(bits.len(), 36);
    for r in 0..6i32 {
        for c in 0..6i32 {
            let i = u.get_index(r, c);
            assert_eq!(cells[i], u.get_cell(r, c));
            assert_eq!(bits.contains(i), u.get_cell(r, c) == Cell::Alive);
        }
    }
}

#[test]
fn universes_compare_by_dimensions_and_cells() {
    let a = Universe::empty(2, 3);
    let b = Universe::empty(2, 3);
    let c = Universe::empty(3, 2);
    assert!(a == b);
    assert!(a != c);
    let mut d = Universe::empty(2, 3);
    d.set_cell(0, 0, Cell::Alive);
    assert!(a != d);
}

#[test]
fn cell_conversions() {
    assert_eq!(Cell::from_bool(true), Cell::Alive);
    assert_eq!(Cell::from_bool(false), Cell::Dead);
    assert!(Cell::Alive.as_bool());
    assert!(!Cell::Dead.as_bool());
    assert_eq!(Cell::Alive.to_glyph(), '◼');
    assert_eq!(Cell::Dead.to_glyph(), '◻');
    assert_eq!(Cell::from_char('◼'), Some(Cell::Alive));
    assert_eq!(Cell::from_char('◻'), Some(Cell::Dead));
    assert_eq!(Cell::from_char('x'), None);
    assert_eq!(Cell::from_char(' '), None);
}
