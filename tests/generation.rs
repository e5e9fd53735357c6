use rand::rngs::StdRng;
use rand::SeedableRng;
use wfc_colors::image::{
    generate, master_palette, render_image, run_attempts, sample_indices, sample_rules, Color,
    Direction, Resolver, Rgb, Rule, COLOR_COUNT, RULE_COUNT,
};
use wfc_colors::wfc::{Cell, WaveFunctionCollapse};

#[test]
fn hex_is_lowercase_and_padded() {
    assert_eq!(Rgb::new(210, 60, 5).to_hex(), "#d23c05");
    assert_eq!(Rgb::new(0, 0, 0).to_hex(), "#000000");
    assert_eq!(Rgb::new(255, 171, 16).to_hex(), "#ffab10");
}

#[test]
fn rule_legend_line() {
    let p = master_palette();
    let r = Rule { cols: (1, 0), dir: Direction::Top };
    assert_eq!(r.to_emoji(&p), "🟥 ❌⬆️ ◻️");
}

#[test]
fn palette_has_six_colors() {
    let p = master_palette();
    assert_eq!(p.len(), 6);
    assert_eq!(p[1].rgb, Rgb::new(180, 60, 60));
    assert_eq!(p[5].name, "🟪");
}

#[test]
fn sampled_colors_never_repeat() {
    let mut rng = StdRng::seed_from_u64(1);
    for _ in 0..500 {
        let idx = sample_indices(6, 3, &mut rng);
        assert_eq!(idx.len(), 3);
        assert!(idx.iter().all(|i| *i < 6));
        assert!(idx[0] != idx[1] && idx[0] != idx[2] && idx[1] != idx[2]);
    }
}

#[test]
fn sampled_rule_table_size() {
    let mut rng = StdRng::seed_from_u64(2);
    for _ in 0..50 {
        let rules = sample_rules(&mut rng);
        assert_eq!(rules.len(), RULE_COUNT);
        assert!(rules.iter().all(|r| r.cols.0 < COLOR_COUNT && r.cols.1 < COLOR_COUNT));
    }
}

#[test]
fn unsatisfiable_table_is_given_up() {
    let rules = vec![
        Rule { cols: (0, 0), dir: Direction::Left },
        Rule { cols: (1, 1), dir: Direction::Left },
        Rule { cols: (0, 1), dir: Direction::Left },
    ];
    let mut rng = StdRng::seed_from_u64(9);
    let mut w = WaveFunctionCollapse::new(2, 1, 2, Resolver::new(rules));
    assert!(!run_attempts(&mut w, &mut rng));
    assert!(w.is_done());
    assert!(w.broken());
}

#[test]
fn satisfiable_table_succeeds() {
    let mut rng = StdRng::seed_from_u64(4);
    let rules = vec![Rule { cols: (0, 1), dir: Direction::Left }];
    let mut w = WaveFunctionCollapse::new(4, 3, 3, Resolver::new(rules));
    assert!(run_attempts(&mut w, &mut rng));
    assert!(w.is_done());
    assert!(!w.broken());
}

#[test]
fn render_uses_lowest_option_or_sentinel() {
    let p = master_palette();
    let colors: Vec<Color> = vec![p[3], p[5], p[1]];
    let mut w = WaveFunctionCollapse::new(3, 1, 3, Resolver::new(vec![]));
    w.cells[0] = Cell { options: 0b100 };
    w.cells[1] = Cell { options: 0b110 };
    w.cells[2] = Cell { options: 0 };
    let img = render_image(&w, &colors);
    assert_eq!(img, vec![p[1].rgb, p[5].rgb, Rgb::new(255, 0, 0)]);
}

#[test]
fn generation_is_deterministic() {
    let p = master_palette();
    let a = generate(10, 10, &p, &mut StdRng::seed_from_u64(42)).unwrap();
    let b = generate(10, 10, &p, &mut StdRng::seed_from_u64(42)).unwrap();
    assert_eq!(a.0, b.0);
    assert_eq!(a.1, b.1);
    assert_eq!(a.2, b.2);
}

#[test]
fn generation_output_shape() {
    let p = master_palette();
    for seed in 0..5u64 {
        let (rules, colors, image) = generate(10, 10, &p, &mut StdRng::seed_from_u64(seed)).unwrap();
        assert_eq!(rules.len(), 3);
        assert_eq!(colors.len(), 3);
        assert!(colors[0] != colors[1] && colors[0] != colors[2] && colors[1] != colors[2]);
        assert!(colors.iter().all(|c| p.contains(c)));
        assert_eq!(image.len(), 100);
        assert!(image.iter().all(|px| colors.iter().any(|c| c.rgb == *px)));
    }
}

#[test]
fn empty_and_single_cell_grids_always_succeed() {
    let p = master_palette();
    let (_, colors, image) = generate(0, 7, &p, &mut StdRng::seed_from_u64(8)).unwrap();
    assert_eq!(colors.len(), 3);
    assert!(image.is_empty());
    for seed in 0..20u64 {
        let (_, colors, image) = generate(1, 1, &p, &mut StdRng::seed_from_u64(seed)).unwrap();
        assert_eq!(image.len(), 1);
        assert!(colors.iter().any(|c| c.rgb == image[0]));
    }
}

#[test]
fn generated_image_keeps_every_rule() {
    let p = master_palette();
    for seed in 10..20u64 {
        let (rules, colors, image) = generate(6, 5, &p, &mut StdRng::seed_from_u64(seed)).unwrap();
        let opt = |i: usize| colors.iter().position(|c| c.rgb == image[i]).unwrap();
        for r in &rules {
            let (dx, dy) = r.dir.get_offset();
            for y in 0..5i64 {
                for x in 0..6i64 {
                    let (nx, ny) = (x - dx as i64, y - dy as i64);
                    if nx < 0 || ny < 0 || nx >= 6 || ny >= 5 {
                        continue;
                    }
                    let here = opt((y * 6 + x) as usize);
                    let there = opt((ny * 6 + nx) as usize);
                    assert!(!(here == r.cols.0 && there == r.cols.1));
                    assert!(!(here == r.cols.1 && there == r.cols.0));
                }
            }
        }
    }
}
