use rand::rngs::StdRng;
use rand::SeedableRng;
use wfc_colors::image::{Direction, Resolver, Rule};
use wfc_colors::wfc::{Cell, Collapse, WaveFunctionCollapse};

fn engine(width: usize, height: usize, opt_count: usize, rules: Vec<Rule>) -> WaveFunctionCollapse {
    let mut w = WaveFunctionCollapse::new(width, height, opt_count, Resolver::new(rules));
    w.init();
    w
}

#[test]
fn new_all_active_sets_low_bits() {
    assert_eq!(Cell::new_all_active(0).options, 0);
    assert_eq!(Cell::new_all_active(3).options, 0b111);
    assert_eq!(Cell::new_all_active(32).options, u32::MAX);
}

#[test]
fn activate_and_deactivate() {
    let mut c = Cell { options: 0 };
    c.activate(4);
    c.activate(0);
    assert_eq!(c.options, 0b10001);
    c.deactivate(4);
    assert_eq!(c.options, 0b1);
    c.deactivate(40);
    assert_eq!(c.options, 0b1);
}

#[test]
fn counts_and_lookups() {
    let c = Cell { options: 0b10110 };
    assert_eq!(c.active_options(), 3);
    assert_eq!(c.first_active(), Some(1));
    assert!(c.enabled(2));
    assert!(!c.enabled(3));
    assert!(!c.enabled(40));
    assert_eq!(Cell { options: 0 }.first_active(), None);
    assert_eq!(Cell { options: 0 }.active_options(), 0);
    assert_eq!(Cell { options: u32::MAX }.active_options(), 32);
}

#[test]
fn nth_active_counts_from_the_lowest_bit() {
    let c = Cell { options: 0b10110 };
    assert_eq!(c.nth_active(0), 1);
    assert_eq!(c.nth_active(1), 2);
    assert_eq!(c.nth_active(2), 4);
}

#[test]
fn random_active_picks_a_set_bit() {
    let mut rng = StdRng::seed_from_u64(11);
    let c = Cell { options: 0b1010_0100 };
    let mut seen = [false; 32];
    for _ in 0..300 {
        let o = c.random_active(&mut rng);
        assert!(c.enabled(o));
        seen[o] = true;
    }
    assert!(seen[2] && seen[5] && seen[7]);
}

#[test]
fn reset_fills_every_cell() {
    let mut w = engine(3, 2, 3, vec![]);
    w.cells[4] = Cell { options: 0 };
    w.init();
    for c in &w.cells {
        assert_eq!(c.active_options(), 3);
    }
    assert!(!w.is_done());
    assert!(!w.broken());
}

#[test]
fn done_and_broken_follow_the_counts() {
    let mut w = engine(2, 1, 3, vec![]);
    w.cells[0] = Cell { options: 0b1 };
    w.cells[1] = Cell { options: 0b10 };
    assert!(w.is_done());
    assert!(!w.broken());
    w.cells[1] = Cell { options: 0 };
    assert!(w.is_done());
    assert!(w.broken());
    w.cells[0] = Cell { options: 0b11 };
    assert!(!w.is_done());
    assert!(w.broken());
}

#[test]
fn lowest_cell_takes_fewest_then_first() {
    let mut w = engine(4, 1, 4, vec![]);
    w.cells[0] = Cell { options: 0b1 };
    w.cells[1] = Cell { options: 0b111 };
    w.cells[2] = Cell { options: 0b101 };
    w.cells[3] = Cell { options: 0b110 };
    assert_eq!(w.lowest_cell(), Some(2));
    w.cells[1] = Cell { options: 0b1 };
    w.cells[2] = Cell { options: 0b1 };
    w.cells[3] = Cell { options: 0 };
    assert_eq!(w.lowest_cell(), None);
}

#[test]
fn resolve_emits_both_sides() {
    let r = Resolver::new(vec![
        Rule { cols: (0, 1), dir: Direction::Left },
        Rule { cols: (1, 1), dir: Direction::BottomRight },
    ]);
    assert_eq!(r.resolve(3, 4, 0).to_vec(), vec![Collapse { x: 4, y: 4, opt: 1 }]);
    assert_eq!(
        r.resolve(3, 4, 1).to_vec(),
        vec![
            Collapse { x: 4, y: 4, opt: 0 },
            Collapse { x: 2, y: 3, opt: 1 },
            Collapse { x: 2, y: 3, opt: 1 },
        ]
    );
    assert!(r.resolve(3, 4, 2).is_empty());
    let edge = Resolver::new(vec![Rule { cols: (0, 0), dir: Direction::Right }]);
    assert_eq!(
        edge.resolve(0, 0, 0).to_vec(),
        vec![Collapse { x: usize::MAX, y: 0, opt: 0 }, Collapse { x: usize::MAX, y: 0, opt: 0 }]
    );
}

#[test]
fn forced_cell_propagates_along_the_row() {
    let mut w = engine(2, 1, 2, vec![Rule { cols: (0, 1), dir: Direction::Left }]);
    w.collapse_cell(0, 0);
    assert_eq!(w.at(0, 0).options, 0b1);
    assert_eq!(w.at(1, 0).options, 0b1);
    assert_eq!(w.at(1, 0).first_active(), Some(0));
    assert!(w.is_done());
    assert!(!w.broken());
}

#[test]
fn remove_option_off_grid_changes_nothing() {
    let mut w = engine(2, 1, 2, vec![Rule { cols: (0, 1), dir: Direction::Left }]);
    let before = w.cells.clone();
    w.remove_option(2, 0, 0);
    w.remove_option(0, 1, 1);
    w.remove_option(usize::MAX, 0, 1);
    assert_eq!(w.cells, before);
}

#[test]
fn remove_option_clears_and_propagates() {
    let mut w = engine(2, 1, 2, vec![Rule { cols: (0, 1), dir: Direction::Left }]);
    w.remove_option(0, 0, 1);
    assert_eq!(w.at(0, 0).options, 0b1);
    assert_eq!(w.at(1, 0).options, 0b1);
}

#[test]
fn step_on_finished_grid_is_a_no_op() {
    let mut rng = StdRng::seed_from_u64(3);
    let mut w = engine(2, 2, 3, vec![Rule { cols: (0, 2), dir: Direction::Top }]);
    while !w.is_done() {
        w.step(&mut rng);
    }
    let before = w.cells.clone();
    w.step(&mut rng);
    assert_eq!(w.cells, before);
}

#[test]
fn counts_stay_bounded_and_never_grow() {
    let mut rng = StdRng::seed_from_u64(5);
    let rules = vec![
        Rule { cols: (0, 1), dir: Direction::Right },
        Rule { cols: (2, 2), dir: Direction::Bottom },
        Rule { cols: (1, 2), dir: Direction::TopLeft },
    ];
    let mut w = engine(5, 4, 3, rules);
    let mut prev: Vec<u32> = w.cells.iter().map(|c| c.active_options()).collect();
    while !w.is_done() {
        w.step(&mut rng);
        let now: Vec<u32> = w.cells.iter().map(|c| c.active_options()).collect();
        for (a, b) in now.iter().zip(prev.iter()) {
            assert!(*a <= 3);
            assert!(a <= b);
        }
        prev = now;
    }
}

#[test]
fn offsets_and_symbols() {
    assert_eq!(Direction::TopLeft.get_offset(), (-1, -1));
    assert_eq!(Direction::Right.get_offset(), (1, 0));
    assert_eq!(Direction::Bottom.get_offset(), (0, 1));
    assert_eq!(Direction::from_index(0), Direction::TopLeft);
    assert_eq!(Direction::from_index(6), Direction::Left);
    assert_eq!(Direction::Left.emoji(), "⬅️");
    assert_eq!(Direction::BottomRight.emoji(), "↘️");
}
