use crate::collapses::{collapses_of, empty_collapses, push_collapse, MAX_COLLAPSES};
use crate::random::draw_below;
use arrayvec::ArrayVec;
use crate::wfc::{bit, Collapse, WaveFunctionCollapse};
use rand::rngs::StdRng;
use vstd::prelude::*;

verus! {

/// Colours sampled for one puzzle.
pub const COLOR_COUNT: usize = 3;

/// Rules sampled for one puzzle.
pub const RULE_COUNT: usize = 3;

/// Attempts made on one sample of colours and rules before it is given up.
pub const MAX_ATTEMPTS: u32 = 2000;

/// An RGB triple.
#[derive(Clone, Copy, Debug, PartialEq, Eq, Structural)]
pub struct Rgb {
    pub r: u8,
    pub g: u8,
    pub b: u8,
}

/// The colour of a cell that allows no option.
pub open spec fn sentinel() -> Rgb {
    Rgb { r: 255, g: 0, b: 0 }
}

/// The lowercase hexadecimal digits.
pub open spec fn hex_digits() -> Seq<char> {
    "0123456789abcdef"@
}

/// Two lowercase hexadecimal digits for `v`, high digit first.
pub open spec fn hex_byte(v: u8) -> Seq<char> {
    seq![hex_digits()[v as int / 16], hex_digits()[v as int % 16]]
}

/// `#rrggbb` in lowercase hexadecimal.
pub open spec fn hex_of(c: Rgb) -> Seq<char> {
    seq!['#'] + hex_byte(c.r) + hex_byte(c.g) + hex_byte(c.b)
}

fn push_hex(s: &mut String, v: u8)
    ensures
        final(s)@ == old(s)@ + hex_byte(v),
{
    let digits = "0123456789abcdef";
    proof {
        reveal_strlit("0123456789abcdef");
    }
    let hi = (v / 16) as usize;
    let lo = (v % 16) as usize;
    s.append(digits.substring_char(hi, hi + 1));
    s.append(digits.substring_char(lo, lo + 1));
    assert(s@ =~= old(s)@ + hex_byte(v));
}

impl Rgb {
    pub fn new(r: u8, g: u8, b: u8) -> (c: Rgb)
        ensures
            c == (Rgb { r, g, b }),
    {
        Rgb { r, g, b }
    }

    /// The colour as `#rrggbb`.
    pub fn to_hex(self) -> (s: String)
        ensures
            s@ == hex_of(self),
    {
        let mut s = String::from_str("#");
        proof {
            reveal_strlit("#");
        }
        push_hex(&mut s, self.r);
        push_hex(&mut s, self.g);
        push_hex(&mut s, self.b);
        assert(s@ =~= hex_of(self));
        s
    }
}

/// A display label with its colour.
#[derive(Clone, Copy, Debug, PartialEq, Eq)]
pub struct Color {
    pub name: &'static str,
    pub rgb: Rgb,
}

/// The RGB values of the master palette, in order.
pub open spec fn palette_rgb() -> Seq<Rgb> {
    seq![
        Rgb { r: 210, g: 210, b: 210 },
        Rgb { r: 180, g: 60, b: 60 },
        Rgb { r: 60, g: 180, b: 60 },
        Rgb { r: 60, g: 60, b: 180 },
        Rgb { r: 180, g: 180, b: 60 },
        Rgb { r: 180, g: 60, b: 180 },
    ]
}

/// The display labels of the master palette, in order.
pub open spec fn palette_names() -> Seq<Seq<char>> {
    seq!["◻️"@, "🟥"@, "🟩"@, "🟦"@, "🟨"@, "🟪"@]
}

/// The master palette that each puzzle samples its colours from.
pub fn master_palette() -> (r: Vec<Color>)
    ensures
        r@.len() == palette_rgb().len(),
        forall|i: int| 0 <= i < r@.len() ==> (#[trigger] r@[i]).rgb == palette_rgb()[i],
        forall|i: int| 0 <= i < r@.len() ==> (#[trigger] r@[i]).name@ == palette_names()[i],
        distinct_rgb(r@),
{
    let mut r: Vec<Color> = Vec::new();
    r.push(Color { name: "◻️", rgb: Rgb::new(210, 210, 210) });
    r.push(Color { name: "🟥", rgb: Rgb::new(180, 60, 60) });
    r.push(Color { name: "🟩", rgb: Rgb::new(60, 180, 60) });
    r.push(Color { name: "🟦", rgb: Rgb::new(60, 60, 180) });
    r.push(Color { name: "🟨", rgb: Rgb::new(180, 180, 60) });
    r.push(Color { name: "🟪", rgb: Rgb::new(180, 60, 180) });
    r
}

/// One of the eight neighbour directions of a grid cell.
#[derive(Clone, Copy, Debug, PartialEq, Eq, Structural)]
pub enum Direction {
    TopLeft,
    TopRight,
    BottomLeft,
    BottomRight,
    Top,
    Bottom,
    Left,
    Right,
}

/// The direction numbered `i` in declaration order.
pub open spec fn direction_at(i: int) -> Direction {
    if i == 0 {
        Direction::TopLeft
    } else if i == 1 {
        Direction::TopRight
    } else if i == 2 {
        Direction::BottomLeft
    } else if i == 3 {
        Direction::BottomRight
    } else if i == 4 {
        Direction::Top
    } else if i == 5 {
        Direction::Bottom
    } else if i == 6 {
        Direction::Left
    } else {
        Direction::Right
    }
}

impl Direction {
    /// The unit offset `(dx, dy)` of the direction; `y` grows downwards.
    pub open spec fn offset(self) -> (int, int) {
        match self {
            Direction::TopLeft => (-1, -1),
            Direction::TopRight => (1, -1),
            Direction::BottomLeft => (-1, 1),
            Direction::BottomRight => (1, 1),
            Direction::Top => (0, -1),
            Direction::Bottom => (0, 1),
            Direction::Left => (-1, 0),
            Direction::Right => (1, 0),
        }
    }

    /// The arrow that shows the direction.
    pub open spec fn symbol(self) -> Seq<char> {
        match self {
            Direction::Right => "➡️"@,
            Direction::Left => "⬅️"@,
            Direction::Top => "⬆️"@,
            Direction::Bottom => "⬇️"@,
            Direction::TopLeft => "↖️"@,
            Direction::TopRight => "↗️"@,
            Direction::BottomLeft => "↙️"@,
            Direction::BottomRight => "↘️"@,
        }
    }

    pub fn emoji(&self) -> (r: &'static str)
        ensures
            r@ == self.symbol(),
    {
        match self {
            Direction::Right => "➡️",
            Direction::Left => "⬅️",
            Direction::Top => "⬆️",
            Direction::Bottom => "⬇️",
            Direction::TopLeft => "↖️",
            Direction::TopRight => "↗️",
            Direction::BottomLeft => "↙️",
            Direction::BottomRight => "↘️",
        }
    }

    pub fn get_offset(&self) -> (r: (i32, i32))
        ensures
            r.0 as int == self.offset().0,
            r.1 as int == self.offset().1,
    {
        match self {
            Direction::TopLeft => (-1, -1),
            Direction::TopRight => (1, -1),
            Direction::BottomLeft => (-1, 1),
            Direction::BottomRight => (1, 1),
            Direction::Top => (0, -1),
            Direction::Bottom => (0, 1),
            Direction::Left => (-1, 0),
            Direction::Right => (1, 0),
        }
    }

    /// The direction numbered `i` in declaration order.
    pub fn from_index(i: usize) -> (r: Direction)
        requires
            i < 8,
        ensures
            r == direction_at(i as int),
    {
        if i == 0 {
            Direction::TopLeft
        } else if i == 1 {
            Direction::TopRight
        } else if i == 2 {
            Direction::BottomLeft
        } else if i == 3 {
            Direction::BottomRight
        } else if i == 4 {
            Direction::Top
        } else if i == 5 {
            Direction::Bottom
        } else if i == 6 {
            Direction::Left
        } else {
            Direction::Right
        }
    }

    /// A direction drawn uniformly from `rng`.
    pub fn random(rng: &mut StdRng) -> (r: Direction)
        ensures
            exists|i: int| 0 <= i < 8 && r == direction_at(i),
    {
        let i = draw_below(rng, 8);
        Direction::from_index(i)
    }
}

/// Colours `cols.0` and `cols.1` may not sit next to each other along `dir`.
#[derive(Clone, Copy, Debug, PartialEq, Eq)]
pub struct Rule {
    pub cols: (usize, usize),
    pub dir: Direction,
}

impl Rule {
    /// The rule as a line of the legend: first colour, a cross and the arrow,
    /// second colour.
    pub fn to_emoji(&self, colors: &[Color]) -> (s: String)
        requires
            self.cols.0 < colors@.len(),
            self.cols.1 < colors@.len(),
        ensures
            s@ == colors@[self.cols.0 as int].name@ + " ❌"@ + self.dir.symbol() + " "@
                + colors@[self.cols.1 as int].name@,
    {
        let mut s = String::from_str(colors[self.cols.0].name);
        s.append(" ❌");
        s.append(self.dir.emoji());
        s.append(" ");
        s.append(colors[self.cols.1].name);
        s
    }
}

/// `c - d` for a unit step `d`, wrapping around `usize` like the grid's
/// out-of-range coordinates do.
pub open spec fn step_back(c: usize, d: int) -> usize {
    if d > 0 {
        if c == 0 {
            usize::MAX
        } else {
            (c - 1) as usize
        }
    } else if d < 0 {
        if c == usize::MAX {
            0
        } else {
            (c + 1) as usize
        }
    } else {
        c
    }
}

/// What one rule forbids once `(x, y)` holds `picked`.
pub open spec fn rule_eliminations(rule: Rule, x: usize, y: usize, picked: usize) -> Seq<Collapse> {
    let nx = step_back(x, rule.dir.offset().0);
    let ny = step_back(y, rule.dir.offset().1);
    let first = if picked == rule.cols.0 {
        seq![Collapse { x: nx, y: ny, opt: rule.cols.1 }]
    } else {
        Seq::empty()
    };
    let second = if picked == rule.cols.1 {
        seq![Collapse { x: nx, y: ny, opt: rule.cols.0 }]
    } else {
        Seq::empty()
    };
    first + second
}

/// What a rule table forbids once `(x, y)` holds `picked`, rule by rule.
pub open spec fn eliminations(rules: Seq<Rule>, x: usize, y: usize, picked: usize) -> Seq<Collapse>
    decreases rules.len(),
{
    if rules.len() == 0 {
        Seq::empty()
    } else {
        eliminations(rules.drop_last(), x, y, picked) + rule_eliminations(
            rules.last(),
            x,
            y,
            picked,
        )
    }
}

fn step_coord(c: usize, d: i32) -> (r: usize)
    requires
        -1 <= d <= 1,
    ensures
        r == step_back(c, d as int),
{
    if d > 0 {
        if c == 0 {
            usize::MAX
        } else {
            c - 1
        }
    } else if d < 0 {
        if c == usize::MAX {
            0
        } else {
            c + 1
        }
    } else {
        c
    }
}

pub proof fn lemma_eliminations_len(rules: Seq<Rule>, x: usize, y: usize, picked: usize)
    ensures
        eliminations(rules, x, y, picked).len() <= 2 * rules.len(),
    decreases rules.len(),
{
    if rules.len() > 0 {
        lemma_eliminations_len(rules.drop_last(), x, y, picked);
    }
}

/// Every elimination caused from the corner `(0, 0)` lands off a 1×1 grid, since
/// no direction has a zero offset on both axes.
pub proof fn lemma_eliminations_leave_unit_grid(rules: Seq<Rule>, p: usize)
    ensures
        forall|j: int|
            0 <= j < eliminations(rules, 0, 0, p).len() ==> (#[trigger] eliminations(
                rules,
                0,
                0,
                p,
            )[j]).x >= 1 || eliminations(rules, 0, 0, p)[j].y >= 1,
    decreases rules.len(),
{
    if rules.len() > 0 {
        lemma_eliminations_leave_unit_grid(rules.drop_last(), p);
        let pre = eliminations(rules.drop_last(), 0, 0, p);
        let last = rule_eliminations(rules.last(), 0, 0, p);
        assert(eliminations(rules, 0, 0, p) == pre + last);
        assert forall|j: int| 0 <= j < (pre + last).len() implies (#[trigger] (pre + last)[j]).x >= 1
            || (pre + last)[j].y >= 1 by {
            if j >= pre.len() {
                assert((pre + last)[j] == last[j - pre.len()]);
            } else {
                assert((pre + last)[j] == pre[j]);
            }
        }
    }
}

/// The adjacency rules of one puzzle, read as the eliminations they cause.
pub struct Resolver {
    pub rules: Vec<Rule>,
}

impl Resolver {
    /// The eliminations of one collapse fit in a fixed-capacity list.
    pub open spec fn wf(&self) -> bool {
        2 * self.rules@.len() <= MAX_COLLAPSES
    }

    pub fn new(rules: Vec<Rule>) -> (r: Resolver)
        requires
            2 * rules@.len() <= MAX_COLLAPSES,
        ensures
            r.rules@ == rules@,
            r.wf(),
    {
        Resolver { rules }
    }

    /// The eliminations caused by `(x, y)` holding `picked`.
    pub fn resolve(&self, x: usize, y: usize, picked: usize) -> (r: ArrayVec<Collapse, MAX_COLLAPSES>)
        requires
            self.wf(),
        ensures
            collapses_of(r) == eliminations(self.rules@, x, y, picked),
    {
        let mut out = empty_collapses();
        let mut i: usize = 0;
        while i < self.rules.len()
            invariant
                self.wf(),
                i <= self.rules@.len(),
                collapses_of(out) == eliminations(self.rules@.subrange(0, i as int), x, y, picked),
            decreases self.rules@.len() - i,
        {
            proof {
                lemma_eliminations_len(self.rules@.subrange(0, i as int), x, y, picked);
            }
            let rule = self.rules[i];
            let (dx, dy) = rule.dir.get_offset();
            let nx = step_coord(x, dx);
            let ny = step_coord(y, dy);
            if picked == rule.cols.0 {
                push_collapse(&mut out, Collapse { x: nx, y: ny, opt: rule.cols.1 });
            }
            if picked == rule.cols.1 {
                push_collapse(&mut out, Collapse { x: nx, y: ny, opt: rule.cols.0 });
            }
            proof {
                let next = self.rules@.subrange(0, i + 1);
                assert(next.drop_last() =~= self.rules@.subrange(0, i as int));
                assert(next.last() == rule);
            }
            i = i + 1;
        }
        assert(self.rules@.subrange(0, i as int) =~= self.rules@);
        out
    }
}

/// `k` is the lowest option that `x` allows.
pub open spec fn is_lowest_bit(x: u32, k: int) -> bool {
    &&& 0 <= k < 32
    &&& bit(x, k as u32)
    &&& forall|j: u32| j < k ==> !#[trigger] bit(x, j)
}

/// `count` distinct indices below `n`, drawn from `rng`.
pub fn sample_indices(n: usize, count: usize, rng: &mut StdRng) -> (r: Vec<usize>)
    requires
        count <= n,
    ensures
        r@.len() == count,
        r@.no_duplicates(),
        forall|i: int| 0 <= i < r@.len() ==> #[trigger] r@[i] < n,
{
    let mut remaining: Vec<usize> = Vec::new();
    let mut j: usize = 0;
    while j < n
        invariant
            j <= n,
            remaining@.len() == j,
            forall|i: int| 0 <= i < j ==> #[trigger] remaining@[i] == i,
        decreases n - j,
    {
        remaining.push(j);
        j = j + 1;
    }
    assert(remaining@.no_duplicates());
    let mut chosen: Vec<usize> = Vec::new();
    while chosen.len() < count
        invariant
            count <= n,
            chosen@.len() <= count,
            chosen@.len() + remaining@.len() == n,
            chosen@.no_duplicates(),
            remaining@.no_duplicates(),
            forall|a: int, b: int|
                0 <= a < chosen@.len() && 0 <= b < remaining@.len() ==> #[trigger] chosen@[a]
                    != #[trigger] remaining@[b],
            forall|i: int| 0 <= i < chosen@.len() ==> #[trigger] chosen@[i] < n,
            forall|i: int| 0 <= i < remaining@.len() ==> #[trigger] remaining@[i] < n,
        decreases count - chosen@.len(),
    {
        let k = draw_below(rng, remaining.len());
        let ghost rem = remaining@;
        let pick = remaining.remove(k);
        assert forall|b: int| 0 <= b < remaining@.len() implies #[trigger] remaining@[b] != pick
            && remaining@[b] < n by {
            if b < k {
                assert(remaining@[b] == rem[b]);
            } else {
                assert(remaining@[b] == rem[b + 1]);
            }
        }
        assert forall|a: int, b: int| 0 <= a < remaining@.len() && 0 <= b < remaining@.len() && a
            != b implies #[trigger] remaining@[a] != #[trigger] remaining@[b] by {
            let a2 = if a < k { a } else { a + 1 };
            let b2 = if b < k { b } else { b + 1 };
            assert(remaining@[a] == rem[a2]);
            assert(remaining@[b] == rem[b2]);
        }
        assert forall|a: int, b: int|
            0 <= a < chosen@.len() && 0 <= b < remaining@.len() implies #[trigger] chosen@[a]
            != #[trigger] remaining@[b] by {
            let b2 = if b < k { b } else { b + 1 };
            assert(remaining@[b] == rem[b2]);
        }
        chosen.push(pick);
    }
    chosen
}

/// `RULE_COUNT` rules over the colour indices below `COLOR_COUNT`, each with a
/// direction drawn from `rng`.
pub fn sample_rules(rng: &mut StdRng) -> (r: Vec<Rule>)
    ensures
        r@.len() == RULE_COUNT,
        forall|i: int|
            0 <= i < r@.len() ==> (#[trigger] r@[i]).cols.0 < COLOR_COUNT && r@[i].cols.1
                < COLOR_COUNT,
{
    let mut rules: Vec<Rule> = Vec::new();
    while rules.len() < RULE_COUNT
        invariant
            rules@.len() <= RULE_COUNT,
            forall|i: int|
                0 <= i < rules@.len() ==> (#[trigger] rules@[i]).cols.0 < COLOR_COUNT
                    && rules@[i].cols.1 < COLOR_COUNT,
        decreases RULE_COUNT - rules@.len(),
    {
        let a = draw_below(rng, COLOR_COUNT);
        let b = draw_below(rng, COLOR_COUNT);
        let dir = Direction::random(rng);
        rules.push(Rule { cols: (a, b), dir });
    }
    rules
}

/// Runs the engine from a fresh grid until every cell is decided, again and
/// again; `true` as soon as one of the first `MAX_ATTEMPTS` attempts ends with
/// no contradiction, `false` once the attempt after those has run.
pub fn run_attempts(wfc: &mut WaveFunctionCollapse, rng: &mut StdRng) -> (r: bool)
    requires
        old(wfc).wf(),
    ensures
        final(wfc).wf(),
        final(wfc).same_setup(old(wfc)),
        final(wfc).done(),
        r ==> !final(wfc).contradictory(),
        old(wfc).cells@.len() == 0 ==> r,
        old(wfc).width == 1 && old(wfc).height == 1 && old(wfc).opt_count >= 1 ==> r,
        final(wfc).opt_count >= 2 ==> final(wfc).settled(),
{
    let mut count: u32 = 0;
    loop
        invariant
            count <= MAX_ATTEMPTS,
            wfc.wf(),
            wfc.same_setup(old(wfc)),
            wfc.cells@.len() == old(wfc).cells@.len(),
            old(wfc).cells@.len() == 0 ==> count == 0,
            old(wfc).width == 1 && old(wfc).height == 1 && old(wfc).opt_count >= 1 ==> count == 0,
        decreases MAX_ATTEMPTS - count,
    {
        wfc.init();
        while !wfc.is_done()
            invariant
                wfc.wf(),
                wfc.same_setup(old(wfc)),
                wfc.cells@.len() == old(wfc).cells@.len(),
                wfc.opt_count >= 2 ==> wfc.settled(),
                wfc.width == 1 && wfc.height == 1 && wfc.opt_count >= 1 ==> !wfc.contradictory(),
            decreases wfc.total(),
        {
            wfc.step(rng);
        }
        if count == MAX_ATTEMPTS {
            return false;
        }
        count = count + 1;
        if !wfc.broken() {
            return true;
        }
    }
}

/// The colour shown for a cell: that of its lowest option, or the sentinel
/// where it allows none.
pub open spec fn pixel_of(x: u32, colors: Seq<Color>, c: Rgb) -> bool {
    if crate::wfc::popcount(x) == 0 {
        c == sentinel()
    } else {
        exists|k: int| is_lowest_bit(x, k) && k < colors.len() && c == (#[trigger] colors[k]).rgb
    }
}

/// One colour per cell, row by row, from the engine's grid.
pub fn render_image(wfc: &WaveFunctionCollapse, colors: &[Color]) -> (r: Vec<Rgb>)
    requires
        wfc.wf(),
        wfc.opt_count <= colors@.len(),
    ensures
        r@.len() == wfc.cells@.len(),
        forall|i: int|
            0 <= i < r@.len() ==> pixel_of(wfc.cells@[i].options, colors@, #[trigger] r@[i]),
{
    let mut image: Vec<Rgb> = Vec::new();
    let mut i: usize = 0;
    while i < wfc.cells.len()
        invariant
            wfc.wf(),
            wfc.opt_count <= colors@.len(),
            i <= wfc.cells@.len(),
            image@.len() == i,
            forall|j: int|
                0 <= j < i ==> pixel_of(wfc.cells@[j].options, colors@, #[trigger] image@[j]),
        decreases wfc.cells@.len() - i,
    {
        let cell = wfc.cells[i];
        let c = match cell.first_active() {
            Some(k) => {
                assert(crate::wfc::bits_below(cell.options, wfc.opt_count as nat));
                assert(bit(cell.options, k as u32));
                assert(is_lowest_bit(cell.options, k as int));
                colors[k].rgb
            },
            None => Rgb::new(255, 0, 0),
        };
        image.push(c);
        i = i + 1;
    }
    image
}

/// `c` is the colour of one of `colors`.
pub open spec fn one_of(c: Rgb, colors: Seq<Color>) -> bool {
    exists|k: int| 0 <= k < colors.len() && c == (#[trigger] colors[k]).rgb
}

/// `colors` holds the palette entries at the distinct positions `idx`.
pub open spec fn drawn_from(colors: Seq<Color>, palette: Seq<Color>, idx: Seq<usize>) -> bool {
    &&& idx.len() == colors.len()
    &&& idx.no_duplicates()
    &&& forall|i: int|
        0 <= i < idx.len() ==> #[trigger] idx[i] < palette.len() && colors[i] == palette[idx[i] as int]
}

/// The palette entries at positions `idx`, in that order.
pub fn pick_colors(palette: &[Color], idx: &Vec<usize>) -> (r: Vec<Color>)
    requires
        forall|i: int| 0 <= i < idx@.len() ==> #[trigger] idx@[i] < palette@.len(),
    ensures
        r@.len() == idx@.len(),
        forall|i: int| 0 <= i < idx@.len() ==> #[trigger] r@[i] == palette@[idx@[i] as int],
{
    let mut r: Vec<Color> = Vec::new();
    let mut i: usize = 0;
    while i < idx.len()
        invariant
            i <= idx@.len(),
            r@.len() == i,
            forall|j: int| 0 <= j < idx@.len() ==> #[trigger] idx@[j] < palette@.len(),
            forall|j: int| 0 <= j < i ==> #[trigger] r@[j] == palette@[idx@[j] as int],
        decreases idx@.len() - i,
    {
        r.push(palette[idx[i]]);
        i = i + 1;
    }
    r
}

/// The rule is kept between cell `(x, y)` of `grid` (one option per cell, row
/// by row) and its on-grid neighbour against the rule's direction.
pub open spec fn rule_kept(rule: Rule, width: usize, height: usize, grid: Seq<int>, x: int, y: int) -> bool {
    let nx = step_back(x as usize, rule.dir.offset().0);
    let ny = step_back(y as usize, rule.dir.offset().1);
    let a = rule.cols.0 as int;
    let b = rule.cols.1 as int;
    nx < width && ny < height ==> {
        let here = grid[y * width + x];
        let there = grid[ny * width + nx];
        !(here == a && there == b) && !(here == b && there == a)
    }
}

/// No rule is broken anywhere on the grid.
pub open spec fn respects(rules: Seq<Rule>, width: usize, height: usize, grid: Seq<int>) -> bool {
    forall|k: int, x: int, y: int|
        0 <= k < rules.len() && 0 <= x < width && 0 <= y < height ==> #[trigger] rule_kept(
            rules[k],
            width,
            height,
            grid,
            x,
            y,
        )
}

/// `image` shows, cell by cell, the colour of the option `grid` gives the cell.
pub open spec fn shown_by(grid: Seq<int>, colors: Seq<Color>, image: Seq<Rgb>) -> bool {
    &&& grid.len() == image.len()
    &&& forall|i: int|
        0 <= i < grid.len() ==> 0 <= #[trigger] grid[i] < colors.len() && image[i]
            == colors[grid[i]].rgb
}

pub proof fn lemma_eliminations_hold(rules: Seq<Rule>, x: usize, y: usize, p: usize, k: int)
    requires
        0 <= k < rules.len(),
    ensures
        ({
            let r = rules[k];
            let c = Collapse {
                x: step_back(x, r.dir.offset().0),
                y: step_back(y, r.dir.offset().1),
                opt: 0,
            };
            &&& p == r.cols.0 ==> eliminations(rules, x, y, p).contains(
                Collapse { opt: r.cols.1, ..c },
            )
            &&& p == r.cols.1 ==> eliminations(rules, x, y, p).contains(
                Collapse { opt: r.cols.0, ..c },
            )
        }),
    decreases rules.len(),
{
    let pre = eliminations(rules.drop_last(), x, y, p);
    let last = rule_eliminations(rules.last(), x, y, p);
    assert(eliminations(rules, x, y, p) == pre + last);
    if k == rules.len() - 1 {
        let r = rules[k];
        if p == r.cols.0 {
            assert((pre + last)[pre.len() as int] == last[0]);
        }
        if p == r.cols.1 {
            let j = if p == r.cols.0 { 1int } else { 0int };
            assert((pre + last)[pre.len() + j] == last[j]);
        }
    } else {
        lemma_eliminations_hold(rules.drop_last(), x, y, p, k);
        assert(rules.drop_last()[k] == rules[k]);
        assert forall|c: Collapse| pre.contains(c) implies (pre + last).contains(c) by {
            let j = choose|j: int| 0 <= j < pre.len() && pre[j] == c;
            assert((pre + last)[j] == c);
        }
    }
}

/// A finished, consistent and settled grid, rendered, shows options that
/// keep every rule.
pub proof fn lemma_settled_grid_respects(
    wfc: &WaveFunctionCollapse,
    colors: Seq<Color>,
    image: Seq<Rgb>,
)
    requires
        wfc.wf(),
        wfc.done(),
        !wfc.contradictory(),
        wfc.settled(),
        image.len() == wfc.cells@.len(),
        forall|i: int| 0 <= i < image.len() ==> pixel_of(wfc.cells@[i].options, colors, #[trigger] image[i]),
    ensures
        exists|grid: Seq<int>|
            shown_by(grid, colors, image) && respects(wfc.resolver.rules@, wfc.width, wfc.height, grid),
{
    let cells = wfc.cells@;
    let grid = Seq::new(
        image.len(),
        |i: int|
            choose|k: int|
                is_lowest_bit(cells[i].options, k) && k < colors.len() && image[i] == (
                #[trigger] colors[k]).rgb,
    );
    assert forall|i: int| 0 <= i < grid.len() implies is_lowest_bit(cells[i].options, #[trigger] grid[i])
        && grid[i] < colors.len() && image[i] == colors[grid[i]].rgb by {
        assert(pixel_of(cells[i].options, colors, image[i]));
        assert(cells[i].count() != 0);
    }
    let rules = wfc.resolver.rules@;
    let (w, h) = (wfc.width, wfc.height);
    assert forall|k: int, x: int, y: int|
        0 <= k < rules.len() && 0 <= x < w && 0 <= y < h implies #[trigger] rule_kept(
        rules[k],
        w,
        h,
        grid,
        x,
        y,
    ) by {
        let r = rules[k];
        let nx = step_back(x as usize, r.dir.offset().0);
        let ny = step_back(y as usize, r.dir.offset().1);
        if nx < w && ny < h {
            crate::wfc::lemma_index_in_grid(x as usize, y as usize, w, h);
            crate::wfc::lemma_index_in_grid(nx, ny, w, h);
            let i = wfc.index(x, y);
            let n = wfc.index(nx as int, ny as int);
            let p = grid[i];
            assert(is_lowest_bit(cells[i].options, p));
            assert(is_lowest_bit(cells[n].options, grid[n]));
            assert(cells[i].count() <= 1);
            assert(cells[i].count() != 0);
            assert(wfc.settled_at(x, y));
            assert(bit(cells[i].options, p as u32));
            let es = eliminations(rules, x as usize, y as usize, p as usize);
            assert(wfc.all_applied(es));
            lemma_eliminations_hold(rules, x as usize, y as usize, p as usize, k);
            if p == r.cols.0 as int {
                let c = Collapse { x: nx, y: ny, opt: r.cols.1 };
                let j = choose|j: int| 0 <= j < es.len() && es[j] == c;
                assert(wfc.applied(es[j]));
            }
            if p == r.cols.1 as int {
                let c = Collapse { x: nx, y: ny, opt: r.cols.0 };
                let j = choose|j: int| 0 <= j < es.len() && es[j] == c;
                assert(wfc.applied(es[j]));
            }
        }
    }
    assert(shown_by(grid, colors, image));
}

/// What a finished generation holds: `RULE_COUNT` rules over the colour indices,
/// `COLOR_COUNT` distinct palette entries, and one of those colours per cell,
/// showing one option per cell such that every rule is kept.
pub open spec fn generated(
    width: usize,
    height: usize,
    palette: Seq<Color>,
    rules: Seq<Rule>,
    colors: Seq<Color>,
    image: Seq<Rgb>,
) -> bool {
    &&& rules.len() == RULE_COUNT
    &&& forall|i: int|
        0 <= i < rules.len() ==> (#[trigger] rules[i]).cols.0 < COLOR_COUNT && rules[i].cols.1
            < COLOR_COUNT
    &&& colors.len() == COLOR_COUNT
    &&& exists|idx: Seq<usize>| drawn_from(colors, palette, idx)
    &&& image.len() == width * height
    &&& forall|i: int| 0 <= i < image.len() ==> one_of(#[trigger] image[i], colors)
    &&& exists|grid: Seq<int>|
        {
            &&& shown_by(grid, colors, image)
            &&& respects(rules, width, height, grid)
            &&& distinct_rgb(palette) ==> forall|i: int, j: int|
                0 <= i < image.len() && 0 <= j < image.len() ==> (#[trigger] image[i]
                    == #[trigger] image[j] <==> grid[i] == grid[j])
        }
}

/// No two entries of `palette` share an RGB value.
pub open spec fn distinct_rgb(palette: Seq<Color>) -> bool {
    forall|i: int, j: int|
        0 <= i < palette.len() && 0 <= j < palette.len() && i != j ==> #[trigger] palette[i].rgb
            != #[trigger] palette[j].rgb
}

/// Samples colours and rules from `rng`, and runs the engine on a `width` by
/// `height` grid until an attempt succeeds; after `MAX_ATTEMPTS` failed
/// attempts the sample is dropped and a new one drawn. Returns the rules, the
/// colours and one colour per cell, row by row. Nothing bounds the number of
/// samples a run needs: `None` comes only after `u64::MAX` samples have all
/// failed.
pub fn generate(width: usize, height: usize, palette: &[Color], rng: &mut StdRng) -> (r: Option<
    (Vec<Rule>, Vec<Color>, Vec<Rgb>),
>)
    requires
        width * height <= usize::MAX,
        palette@.len() >= COLOR_COUNT,
    ensures
        r matches Some(g) ==> generated(width, height, palette@, g.0@, g.1@, g.2@),
        width * height == 0 ==> r is Some,
        width == 1 && height == 1 ==> r is Some,
{
    let mut samples: u64 = 0;
    while samples < u64::MAX
        invariant
            width * height <= usize::MAX,
            palette@.len() >= COLOR_COUNT,
            width * height == 0 ==> samples == 0,
            width == 1 && height == 1 ==> samples == 0,
        decreases u64::MAX - samples,
    {
        let idx = sample_indices(palette.len(), COLOR_COUNT, rng);
        let colors = pick_colors(palette, &idx);
        assert(drawn_from(colors@, palette@, idx@));
        let rules = sample_rules(rng);
        let ghost sampled = rules@;
        let mut wfc = WaveFunctionCollapse::new(width, height, COLOR_COUNT, Resolver::new(rules));
        if run_attempts(&mut wfc, rng) {
            let image = render_image(&wfc, colors.as_slice());
            proof {
                assert forall|i: int| 0 <= i < image@.len() implies one_of(
                    #[trigger] image@[i],
                    colors@,
                ) by {
                    let x = wfc.cells@[i].options;
                    assert(pixel_of(x, colors@, image@[i]));
                    assert(wfc.cells@[i].count() != 0);
                    assert(crate::wfc::popcount(x) != 0);
                    assert(crate::wfc::bits_below(x, COLOR_COUNT as nat));
                    let k = choose|k: int|
                        is_lowest_bit(x, k) && k < colors@.len() && image@[i] == (#[trigger] colors@[k]).rgb;
                    assert(bit(x, k as u32));
                }
            }
            assert(wfc.resolver.rules@ == sampled);
            proof {
                lemma_settled_grid_respects(&wfc, colors@, image@);
                let grid = choose|grid: Seq<int>|
                    shown_by(grid, colors@, image@) && respects(
                        wfc.resolver.rules@,
                        wfc.width,
                        wfc.height,
                        grid,
                    );
                if distinct_rgb(palette@) {
                    assert forall|i: int, j: int|
                        0 <= i < image@.len() && 0 <= j < image@.len() implies (#[trigger] image@[i]
                        == #[trigger] image@[j] <==> grid[i] == grid[j]) by {
                        let (a, b) = (grid[i], grid[j]);
                        assert(image@[i] == colors@[a].rgb);
                        assert(image@[j] == colors@[b].rgb);
                        if a != b {
                            assert(idx@[a] != idx@[b]);
                            assert(colors@[a] == palette@[idx@[a] as int]);
                            assert(colors@[b] == palette@[idx@[b] as int]);
                        }
                    }
                }
            }
            assert(generated(width, height, palette@, wfc.resolver.rules@, colors@, image@));
            return Some((wfc.resolver.rules, colors, image));
        }
        samples = samples + 1;
    }
    None
}

} // verus!
