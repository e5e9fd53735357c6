use crate::collapses::{collapse_at, collapse_count, collapses_of};
use crate::image::{eliminations, lemma_eliminations_leave_unit_grid, Resolver};
use crate::random::draw_below;
use rand::rngs::StdRng;
use vstd::prelude::*;

verus! {

/// The widest option set a cell can hold: one bit per option in a `u32`.
pub const MAX_OPTIONS: usize = 32;

/// Whether bit `i` of `x` is set.
pub open spec fn bit(x: u32, i: u32) -> bool {
    (x >> i) & 1u32 == 1u32
}

/// Number of set bits of `x` below position `n`.
pub open spec fn count_below(x: u32, n: nat) -> nat
    decreases n,
{
    if n == 0 {
        0
    } else {
        count_below(x, (n - 1) as nat) + if n - 1 < 32 && bit(x, (n - 1) as u32) {
            1nat
        } else {
            0nat
        }
    }
}

/// Number of set bits of `x`.
pub open spec fn popcount(x: u32) -> nat {
    count_below(x, 32)
}

/// Every set bit of `a` is set in `b`.
pub open spec fn bits_within(a: u32, b: u32) -> bool {
    forall|i: u32| i < 32 && #[trigger] bit(a, i) ==> bit(b, i)
}

/// No bit at or above `n` is set in `x`.
pub open spec fn bits_below(x: u32, n: nat) -> bool {
    forall|i: u32| i < 32 && #[trigger] bit(x, i) ==> i < n
}

pub proof fn lemma_count_below_le(x: u32, n: nat)
    ensures
        count_below(x, n) <= n,
    decreases n,
{
    if n > 0 {
        lemma_count_below_le(x, (n - 1) as nat);
    }
}

pub proof fn lemma_count_within(a: u32, b: u32, n: nat)
    requires
        bits_within(a, b),
    ensures
        count_below(a, n) <= count_below(b, n),
    decreases n,
{
    if n > 0 {
        lemma_count_within(a, b, (n - 1) as nat);
    }
}

pub proof fn lemma_count_strict(a: u32, b: u32, j: u32, n: nat)
    requires
        bits_within(a, b),
        j < 32,
        bit(b, j),
        !bit(a, j),
        j < n,
    ensures
        count_below(a, n) < count_below(b, n),
    decreases n,
{
    lemma_count_within(a, b, (n - 1) as nat);
    if j < n - 1 {
        lemma_count_strict(a, b, j, (n - 1) as nat);
    }
}

pub proof fn lemma_count_bounded(x: u32, n: nat, m: nat)
    requires
        bits_below(x, n),
        n <= m,
    ensures
        count_below(x, m) == count_below(x, n),
    decreases m,
{
    if m > n {
        lemma_count_bounded(x, n, (m - 1) as nat);
    }
}

pub proof fn lemma_count_zero(x: u32, n: nat)
    requires
        forall|i: u32| i < n && i < 32 ==> !#[trigger] bit(x, i),
    ensures
        count_below(x, n) == 0,
    decreases n,
{
    if n > 0 {
        lemma_count_zero(x, (n - 1) as nat);
    }
}

pub proof fn lemma_count_single(p: u32, n: nat)
    requires
        p < 32,
    ensures
        count_below(1u32 << p, n) == if n > p {
            1nat
        } else {
            0nat
        },
    decreases n,
{
    assert(forall|i: u32| i < 32 ==> (#[trigger] bit(1u32 << p, i) <==> i == p)) by (bit_vector)
        requires
            p < 32,
    ;
    if n > 0 {
        lemma_count_single(p, (n - 1) as nat);
    }
}

pub proof fn lemma_count_positive(x: u32, j: u32, n: nat)
    requires
        j < 32,
        j < n,
        bit(x, j),
    ensures
        count_below(x, n) > 0,
    decreases n,
{
    if j < n - 1 {
        lemma_count_positive(x, j, (n - 1) as nat);
    }
}

/// A set of still-possible options, one bit per option.
#[derive(Clone, Copy, Debug, PartialEq, Eq, Structural)]
pub struct Cell {
    pub options: u32,
}

impl Cell {
    /// Whether `opt` is still possible in this cell.
    pub open spec fn has(self, opt: int) -> bool {
        0 <= opt < 32 && bit(self.options, opt as u32)
    }

    pub open spec fn count(self) -> nat {
        popcount(self.options)
    }

    /// A cell in which exactly the options below `count` are possible.
    pub fn new_all_active(count: usize) -> (r: Cell)
        requires
            count <= MAX_OPTIONS,
        ensures
            forall|i: u32| i < 32 ==> (#[trigger] bit(r.options, i) <==> i < count),
    {
        let n = count as u32;
        let options: u32 = if n == 32 {
            0xffff_ffffu32
        } else {
            assert(n < 32 ==> 1u32 << n >= 1) by (bit_vector);
            (1u32 << n) - 1
        };
        assert(forall|i: u32| i < 32 ==> (#[trigger] bit(options, i) <==> i < n)) by (bit_vector)
            requires
                n <= 32,
                options == if n == 32 {
                    0xffff_ffffu32
                } else {
                    ((1u32 << n) - 1) as u32
                },
        ;
        Cell { options }
    }

    pub fn activate(&mut self, opt: usize)
        requires
            opt < MAX_OPTIONS,
        ensures
            forall|i: u32|
                i < 32 ==> (#[trigger] bit(final(self).options, i) <==> (bit(old(self).options, i)
                    || i == opt)),
    {
        let o = opt as u32;
        let before = self.options;
        let after = before | (1u32 << o);
        assert(forall|i: u32|
            i < 32 ==> (#[trigger] bit(after, i) <==> (bit(before, i) || i == o))) by (bit_vector)
            requires
                o < 32,
                after == before | (1u32 << o),
        ;
        self.options = after;
    }

    /// Makes `opt` impossible; an option at or above `MAX_OPTIONS` was never possible.
    pub fn deactivate(&mut self, opt: usize)
        ensures
            forall|i: u32|
                i < 32 ==> (#[trigger] bit(final(self).options, i) <==> (bit(old(self).options, i)
                    && i != opt)),
    {
        if opt < MAX_OPTIONS {
            let o = opt as u32;
            let before = self.options;
            let after = before & !(1u32 << o);
            assert(forall|i: u32|
                i < 32 ==> (#[trigger] bit(after, i) <==> (bit(before, i) && i != o)))
                by (bit_vector)
                requires
                    o < 32,
                    after == before & !(1u32 << o),
            ;
            self.options = after;
        }
    }

    /// The number of possible options.
    pub fn active_options(&self) -> (r: u32)
        ensures
            r == self.count(),
    {
        let x = self.options;
        let mut n: u32 = 0;
        let mut i: u32 = 0;
        while i < 32
            invariant
                i <= 32,
                n == count_below(x, i as nat),
                n <= i,
            decreases 32 - i,
        {
            if (x >> i) & 1 == 1 {
                n = n + 1;
            }
            i = i + 1;
        }
        n
    }

    /// The lowest possible option, if any.
    pub fn first_active(&self) -> (r: Option<usize>)
        ensures
            r is None <==> self.count() == 0,
            r is Some ==> ({
                let k = r->Some_0;
                &&& k < 32
                &&& bit(self.options, k as u32)
                &&& forall|j: u32| j < k ==> !#[trigger] bit(self.options, j)
            }),
    {
        let x = self.options;
        let mut i: u32 = 0;
        while i < 32
            invariant
                i <= 32,
                x == self.options,
                forall|j: u32| j < i ==> !#[trigger] bit(x, j),
            decreases 32 - i,
        {
            if (x >> i) & 1 == 1 {
                proof {
                    assert(bit(x, i));
                    assert((i as usize) as u32 == i);
                    lemma_count_positive(x, i, 32);
                }
                return Some(i as usize);
            }
            i = i + 1;
        }
        proof {
            lemma_count_zero(x, 32);
        }
        None
    }

    pub fn enabled(&self, opt: usize) -> (r: bool)
        ensures
            r == self.has(opt as int),
    {
        if opt < MAX_OPTIONS {
            (self.options >> (opt as u32)) & 1 == 1
        } else {
            false
        }
    }

    /// The possible option that has exactly `k` possible options below it.
    pub fn nth_active(&self, k: u32) -> (r: usize)
        requires
            k < self.count(),
        ensures
            r < 32,
            bit(self.options, r as u32),
            count_below(self.options, r as nat) == k,
    {
        let x = self.options;
        let mut i: u32 = 0;
        let mut seen: u32 = 0;
        while i < 32
            invariant
                i <= 32,
                seen == count_below(x, i as nat),
                seen <= k,
                x == self.options,
                k < count_below(x, 32),
            decreases 32 - i,
        {
            proof {
                lemma_count_below_le(x, i as nat);
            }
            if (x >> i) & 1 == 1 {
                if seen == k {
                    assert(bit(x, i));
                    assert((i as usize) as u32 == i);
                    return i as usize;
                }
                seen = seen + 1;
            }
            i = i + 1;
        }
        proof {
            assert(false);
        }
        0
    }

    /// A possible option drawn uniformly from `rng`.
    pub fn random_active(&self, rng: &mut StdRng) -> (r: usize)
        requires
            self.count() > 0,
        ensures
            r < 32,
            bit(self.options, r as u32),
    {
        let count = self.active_options();
        let k = draw_below(rng, count as usize);
        self.nth_active(k as u32)
    }
}

} // verus!

verus! {

/// An option to remove from the cell at `(x, y)`.
#[derive(Clone, Copy, Debug, PartialEq, Eq, Structural)]
pub struct Collapse {
    pub x: usize,
    pub y: usize,
    pub opt: usize,
}

} // verus!

verus! {

/// Total number of possible options over a sequence of cells.
pub open spec fn total_active(cells: Seq<Cell>) -> nat
    decreases cells.len(),
{
    if cells.len() == 0 {
        0
    } else {
        total_active(cells.drop_last()) + cells.last().count()
    }
}

/// Every cell of `a` allows a subset of what the same cell of `b` allows.
pub open spec fn cells_within(a: Seq<Cell>, b: Seq<Cell>) -> bool {
    &&& a.len() == b.len()
    &&& forall|i: int| 0 <= i < a.len() ==> bits_within(#[trigger] a[i].options, b[i].options)
}

/// The bits of `x` are exactly those below `n`.
pub open spec fn is_full(x: u32, n: nat) -> bool {
    forall|i: u32| i < 32 ==> (#[trigger] bit(x, i) <==> i < n)
}

pub proof fn lemma_count_full(x: u32, n: nat, m: nat)
    requires
        is_full(x, n),
        n <= 32,
        m <= n,
    ensures
        count_below(x, m) == m,
    decreases m,
{
    if m > 0 {
        lemma_count_full(x, n, (m - 1) as nat);
    }
}

pub proof fn lemma_total_within(a: Seq<Cell>, b: Seq<Cell>)
    requires
        cells_within(a, b),
    ensures
        total_active(a) <= total_active(b),
    decreases a.len(),
{
    if a.len() > 0 {
        let n = (a.len() - 1) as int;
        assert(cells_within(a.drop_last(), b.drop_last()));
        lemma_total_within(a.drop_last(), b.drop_last());
        assert(bits_within(a[n].options, b[n].options));
        lemma_count_within(a[n].options, b[n].options, 32);
    }
}

pub proof fn lemma_total_strict(a: Seq<Cell>, b: Seq<Cell>, k: int)
    requires
        cells_within(a, b),
        0 <= k < a.len(),
        a[k].count() < b[k].count(),
    ensures
        total_active(a) < total_active(b),
    decreases a.len(),
{
    let n = (a.len() - 1) as int;
    assert(cells_within(a.drop_last(), b.drop_last()));
    assert(bits_within(a[n].options, b[n].options));
    lemma_count_within(a[n].options, b[n].options, 32);
    if k == n {
        lemma_total_within(a.drop_last(), b.drop_last());
    } else {
        lemma_total_strict(a.drop_last(), b.drop_last(), k);
    }
}

pub proof fn lemma_index_in_grid(x: usize, y: usize, w: usize, h: usize)
    requires
        x < w,
        y < h,
    ensures
        y * w + x < w * h,
{
    assert(y * w + x < w * h) by (nonlinear_arith)
        requires
            x < w,
            y < h,
    ;
}

/// Clearing option `opt` from a cell with bits `c` leaves it option `p` alone.
pub open spec fn leaves_only(c: u32, opt: int, p: u32) -> bool {
    forall|b: u32| b < 32 ==> ((#[trigger] bit(c, b) && b != opt) <==> b == p)
}

pub proof fn lemma_count_one(c: u32, p: u32)
    requires
        p < 32,
        forall|b: u32| b < 32 ==> (#[trigger] bit(c, b) <==> b == p),
    ensures
        popcount(c) == 1,
{
    assert(forall|b: u32| b < 32 ==> (#[trigger] bit(1u32 << p, b) <==> b == p)) by (bit_vector)
        requires
            p < 32,
    ;
    lemma_count_within(c, 1u32 << p, 32);
    lemma_count_within(1u32 << p, c, 32);
    lemma_count_single(p, 32);
}

/// The propagation engine: a grid of cells narrowed down by collapsing and
/// by the eliminations that a resolver derives from each collapse.
pub struct WaveFunctionCollapse {
    pub width: usize,
    pub height: usize,
    pub opt_count: usize,
    pub cells: Vec<Cell>,
    pub resolver: Resolver,
}

impl WaveFunctionCollapse {
    /// The grid has one cell per position, each allowing options below `opt_count` only.
    pub open spec fn wf(&self) -> bool {
        &&& self.opt_count <= 32
        &&& self.resolver.wf()
        &&& self.cells@.len() == self.width * self.height
        &&& forall|i: int|
            0 <= i < self.cells@.len() ==> bits_below(
                #[trigger] self.cells@[i].options,
                self.opt_count as nat,
            )
    }

    /// Same dimensions, option count and rules.
    pub open spec fn same_setup(&self, other: &Self) -> bool {
        &&& self.width == other.width
        &&& self.height == other.height
        &&& self.opt_count == other.opt_count
        &&& self.resolver.rules@ == other.resolver.rules@
    }

    pub open spec fn index(&self, x: int, y: int) -> int {
        y * self.width + x
    }

    /// The option of `e` is gone from its cell, or `e` lies off the grid.
    pub open spec fn applied(&self, e: Collapse) -> bool {
        e.x < self.width && e.y < self.height ==> !self.cells@[self.index(
            e.x as int,
            e.y as int,
        )].has(e.opt as int)
    }

    pub open spec fn all_applied(&self, es: Seq<Collapse>) -> bool {
        forall|j: int| 0 <= j < es.len() ==> self.applied(#[trigger] es[j])
    }

    /// Cell `i` is the one a step collapses: among the cells allowing more than
    /// one option, it allows the fewest, and comes first among those.
    pub open spec fn is_lowest_cell(&self, i: int) -> bool {
        &&& 0 <= i < self.cells@.len()
        &&& self.cells@[i].count() > 1
        &&& forall|j: int|
            0 <= j < self.cells@.len() && (#[trigger] self.cells@[j]).count() > 1 ==> (
            self.cells@[i].count() <= self.cells@[j].count() && (j < i ==> self.cells@[i].count()
                < self.cells@[j].count()))
    }

    /// Once the cell at `(x, y)` holds a single option, that option's
    /// eliminations have all been applied.
    pub open spec fn settled_at(&self, x: int, y: int) -> bool {
        self.cells@[self.index(x, y)].count() == 1 ==> forall|p: u32|
            p < 32 && #[trigger] bit(self.cells@[self.index(x, y)].options, p) ==> self.all_applied(
                eliminations(self.resolver.rules@, x as usize, y as usize, p as usize),
            )
    }

    /// Every decided cell has had its eliminations applied.
    pub open spec fn settled(&self) -> bool {
        forall|x: int, y: int|
            0 <= x < self.width && 0 <= y < self.height ==> #[trigger] self.settled_at(x, y)
    }

    /// Every cell that allowed several options in `old` and is decided now has
    /// had its eliminations applied.
    pub open spec fn settles_from(&self, old: &Self) -> bool {
        forall|x: int, y: int|
            0 <= x < self.width && 0 <= y < self.height && old.cells@[old.index(x, y)].count() >= 2
                ==> #[trigger] self.settled_at(x, y)
    }

    pub open spec fn total(&self) -> nat {
        total_active(self.cells@)
    }

    /// No cell allows more than one option.
    pub open spec fn done(&self) -> bool {
        forall|i: int| 0 <= i < self.cells@.len() ==> (#[trigger] self.cells@[i]).count() <= 1
    }

    /// Some cell allows no option.
    pub open spec fn contradictory(&self) -> bool {
        exists|i: int| 0 <= i < self.cells@.len() && (#[trigger] self.cells@[i]).count() == 0
    }

    /// An engine for a `width` by `height` grid over `opt_count` options, every cell
    /// allowing every option.
    pub fn new(width: usize, height: usize, opt_count: usize, resolver: Resolver) -> (r: Self)
        requires
            opt_count <= MAX_OPTIONS,
            width * height <= usize::MAX,
            resolver.wf(),
        ensures
            r.wf(),
            r.width == width,
            r.height == height,
            r.opt_count == opt_count,
            r.resolver.rules@ == resolver.rules@,
            forall|i: int|
                0 <= i < r.cells@.len() ==> is_full(#[trigger] r.cells@[i].options, opt_count as nat),
    {
        let n = width * height;
        let mut cells: Vec<Cell> = Vec::new();
        let mut i: usize = 0;
        while i < n
            invariant
                i <= n,
                opt_count <= 32,
                cells@.len() == i,
                forall|j: int|
                    0 <= j < i ==> is_full(#[trigger] cells@[j].options, opt_count as nat),
            decreases n - i,
        {
            cells.push(Cell::new_all_active(opt_count));
            i = i + 1;
        }
        WaveFunctionCollapse { width, height, opt_count, cells, resolver }
    }

    /// Sets every cell back to allowing every option.
    pub fn init(&mut self)
        requires
            old(self).wf(),
        ensures
            final(self).wf(),
            final(self).same_setup(old(self)),
            forall|i: int|
                0 <= i < final(self).cells@.len() ==> is_full(
                    #[trigger] final(self).cells@[i].options,
                    final(self).opt_count as nat,
                ),
            forall|i: int|
                0 <= i < final(self).cells@.len() ==> (#[trigger] final(self).cells@[i]).count()
                    == final(self).opt_count,
            final(self).opt_count >= 2 ==> final(self).settled(),
    {
        let n = self.cells.len();
        let mut i: usize = 0;
        while i < n
            invariant
                i <= n,
                n == self.cells@.len(),
                self.wf(),
                self.same_setup(old(self)),
                forall|j: int|
                    0 <= j < i ==> is_full(#[trigger] self.cells@[j].options, self.opt_count as nat),
            decreases n - i,
        {
            let c = Cell::new_all_active(self.opt_count);
            self.cells.set(i, c);
            i = i + 1;
        }
        proof {
            assert forall|i: int| 0 <= i < self.cells@.len() implies (
            #[trigger] self.cells@[i]).count() == self.opt_count by {
                lemma_count_full(self.cells@[i].options, self.opt_count as nat, self.opt_count as nat);
                lemma_count_bounded(self.cells@[i].options, self.opt_count as nat, 32);
            }
            if self.opt_count >= 2 {
                assert forall|xx: int, yy: int|
                    0 <= xx < self.width && 0 <= yy < self.height implies #[trigger] self.settled_at(
                    xx,
                    yy,
                ) by {
                    lemma_index_in_grid(xx as usize, yy as usize, self.width, self.height);
                    assert(self.cells@[self.index(xx, yy)].count() == self.opt_count);
                }
            }
        }
    }

    /// The cell at `(x, y)`.
    pub fn at(&self, x: usize, y: usize) -> (r: Cell)
        requires
            self.wf(),
            x < self.width,
            y < self.height,
        ensures
            r == self.cells@[self.index(x as int, y as int)],
    {
        let cell_count = self.cells.len();
        proof {
            lemma_index_in_grid(x, y, self.width, self.height);
            assert(y * self.width + x < cell_count);
        }
        self.cells[y * self.width + x]
    }

    /// Removes `opt` from the cell at `(x, y)`; when that leaves the cell a
    /// single option, removes what the resolver forbids around it, and so on.
    /// A position off the grid is left alone.
    pub fn remove_option(&mut self, x: usize, y: usize, opt: usize)
        requires
            old(self).wf(),
        ensures
            final(self).wf(),
            final(self).same_setup(old(self)),
            cells_within(final(self).cells@, old(self).cells@),
            final(self).total() <= old(self).total(),
            x >= old(self).width || y >= old(self).height ==> final(self).cells@ == old(self).cells@,
            x < old(self).width && y < old(self).height && !old(self).cells@[old(self).index(
                x as int,
                y as int,
            )].has(opt as int) ==> final(self).cells@ == old(self).cells@,
            x < old(self).width && y < old(self).height ==> !final(self).cells@[old(
                self,
            ).index(x as int, y as int)].has(opt as int),
            x < old(self).width && y < old(self).height && old(self).cells@[old(self).index(
                x as int,
                y as int,
            )].has(opt as int) ==> forall|p: u32|
                p < 32 && #[trigger] leaves_only(
                    old(self).cells@[old(self).index(x as int, y as int)].options,
                    opt as int,
                    p,
                ) ==> final(self).all_applied(
                    eliminations(old(self).resolver.rules@, x, y, p as usize),
                ),
            final(self).settles_from(old(self)),
        decreases old(self).total(),
    {
        if x >= self.width || y >= self.height {
            return;
        }
        let cell_count = self.cells.len();
        proof {
            lemma_index_in_grid(x, y, self.width, self.height);
            assert(y * self.width + x < cell_count);
        }
        let idx = y * self.width + x;
        let mut cell = self.cells[idx];
        if !cell.enabled(opt) {
            return;
        }
        let ghost before = self.cells@;
        let before_cell = cell;
        cell.deactivate(opt);
        self.cells.set(idx, cell);
        proof {
            assert(bits_within(cell.options, before_cell.options));
            assert(cells_within(self.cells@, before));
            lemma_count_strict(cell.options, before_cell.options, opt as u32, 32);
            lemma_total_strict(self.cells@, before, idx as int);
        }
        if cell.active_options() == 1 {
            let picked = match cell.first_active() {
                Some(p) => p,
                None => {
                    return;
                },
            };
            assert forall|p: u32|
                p < 32 && #[trigger] leaves_only(before_cell.options, opt as int, p) implies p
                == picked by {
                assert(bit(cell.options, picked as u32));
            }
            assert forall|b: u32| b < 32 && #[trigger] bit(cell.options, b) implies b == picked by {
                if b < picked {
                } else if b > picked {
                    lemma_count_two(cell.options, picked as u32, b, 32);
                }
            }
            assert forall|xx: int, yy: int|
                0 <= xx < self.width && 0 <= yy < self.height && (xx != x || yy != y)
                    && old(self).cells@[old(self).index(xx, yy)].count() >= 2 implies
                #[trigger] self.settled_at(xx, yy) by {
                lemma_index_in_grid(xx as usize, yy as usize, self.width, self.height);
                if self.index(xx, yy) == idx {
                    lemma_index_injective(xx, yy, x as int, y as int, self.width as int);
                }
            }
            let elims = self.resolver.resolve(x, y, picked);
            let mut k: usize = 0;
            while k < collapse_count(&elims)
                invariant
                    k <= collapses_of(elims).len(),
                    collapses_of(elims) == eliminations(old(self).resolver.rules@, x, y, picked),
                    self.all_applied(collapses_of(elims).subrange(0, k as int)),
                    forall|xx: int, yy: int|
                        0 <= xx < self.width && 0 <= yy < self.height && (xx != x || yy != y)
                            && old(self).cells@[old(self).index(xx, yy)].count() >= 2
                            ==> #[trigger] self.settled_at(xx, yy),
                    forall|b: u32|
                        b < 32 && #[trigger] bit(self.cells@[idx as int].options, b) ==> b == picked,
                    self.wf(),
                    self.same_setup(old(self)),
                    cells_within(self.cells@, old(self).cells@),
                    self.total() < old(self).total(),
                    idx == old(self).index(x as int, y as int),
                    idx < self.cells@.len(),
                    !self.cells@[idx as int].has(opt as int),
                decreases collapses_of(elims).len() - k,
            {
                let e = collapse_at(&elims, k);
                let ghost mid = *self;
                self.remove_option(e.x, e.y, e.opt);
                proof {
                    lemma_applied_kept(self, &mid, collapses_of(elims).subrange(0, k as int));
                    assert forall|xx: int, yy: int|
                        0 <= xx < self.width && 0 <= yy < self.height && (xx != x || yy != y)
                            && old(self).cells@[old(self).index(xx, yy)].count() >= 2 implies
                        #[trigger] self.settled_at(xx, yy) by {
                        lemma_index_in_grid(xx as usize, yy as usize, self.width, self.height);
                        if mid.cells@[mid.index(xx, yy)].count() <= 1 {
                            lemma_settled_kept(self, &mid, xx, yy);
                        }
                    }
                    let es = collapses_of(elims);
                    assert(es.subrange(0, k + 1) =~= es.subrange(0, k as int).push(e));
                    let mid = mid.cells@;
                    assert(bits_within(self.cells@[idx as int].options, mid[idx as int].options));
                    assert forall|i: int| 0 <= i < self.cells@.len() implies bits_within(
                        #[trigger] self.cells@[i].options,
                        old(self).cells@[i].options,
                    ) by {
                        assert(bits_within(self.cells@[i].options, mid[i].options));
                        assert(bits_within(mid[i].options, old(self).cells@[i].options));
                    }
                }
                k = k + 1;
            }
            assert(collapses_of(elims).subrange(0, k as int) =~= collapses_of(elims));
            assert forall|xx: int, yy: int|
                0 <= xx < self.width && 0 <= yy < self.height && old(self).cells@[old(self).index(
                    xx,
                    yy,
                )].count() >= 2 implies #[trigger] self.settled_at(xx, yy) by {
                lemma_index_in_grid(xx as usize, yy as usize, self.width, self.height);
                if self.index(xx, yy) == idx {
                    lemma_index_injective(xx, yy, x as int, y as int, self.width as int);
                }
            }
        } else {
            assert forall|xx: int, yy: int|
                0 <= xx < self.width && 0 <= yy < self.height && old(self).cells@[old(self).index(
                    xx,
                    yy,
                )].count() >= 2 implies #[trigger] self.settled_at(xx, yy) by {
                lemma_index_in_grid(xx as usize, yy as usize, self.width, self.height);
            }
            assert forall|p: u32|
                p < 32 && #[trigger] leaves_only(before_cell.options, opt as int, p) implies false by {
                assert forall|b: u32| b < 32 implies (#[trigger] bit(cell.options, b) <==> b == p) by {
                    assert(leaves_only(before_cell.options, opt as int, p));
                    assert((bit(before_cell.options, b) && b != opt) <==> b == p);
                }
                lemma_count_one(cell.options, p);
            }
        }
    }

    /// Whether no cell allows more than one option.
    pub fn is_done(&self) -> (r: bool)
        ensures
            r == self.done(),
    {
        let mut i: usize = 0;
        while i < self.cells.len()
            invariant
                i <= self.cells@.len(),
                forall|j: int| 0 <= j < i ==> (#[trigger] self.cells@[j]).count() <= 1,
            decreases self.cells@.len() - i,
        {
            if self.cells[i].active_options() > 1 {
                return false;
            }
            i = i + 1;
        }
        true
    }

    /// Whether some cell allows no option.
    pub fn broken(&self) -> (r: bool)
        ensures
            r == self.contradictory(),
    {
        let mut i: usize = 0;
        while i < self.cells.len()
            invariant
                i <= self.cells@.len(),
                forall|j: int| 0 <= j < i ==> (#[trigger] self.cells@[j]).count() != 0,
            decreases self.cells@.len() - i,
        {
            if self.cells[i].active_options() == 0 {
                return true;
            }
            i = i + 1;
        }
        false
    }

    /// The first cell, in row-major order, among those allowing more than one
    /// option and, of those, the fewest.
    pub fn lowest_cell(&self) -> (r: Option<usize>)
        requires
            self.wf(),
        ensures
            r is None <==> self.done(),
            r is Some ==> self.is_lowest_cell(r->Some_0 as int),
    {
        let mut lowest: Option<usize> = None;
        let mut min_opt: u32 = 33;
        let mut i: usize = 0;
        while i < self.cells.len()
            invariant
                i <= self.cells@.len(),
                min_opt <= 33,
                lowest is None ==> min_opt == 33 && forall|j: int|
                    0 <= j < i ==> (#[trigger] self.cells@[j]).count() <= 1,
                lowest is Some ==> ({
                    let l = lowest->Some_0 as int;
                    &&& 0 <= l < i
                    &&& self.cells@[l].count() > 1
                    &&& min_opt == self.cells@[l].count()
                    &&& forall|j: int|
                        0 <= j < i && (#[trigger] self.cells@[j]).count() > 1 ==> (min_opt
                            <= self.cells@[j].count() && (j < l ==> min_opt < self.cells@[j].count()))
                }),
            decreases self.cells@.len() - i,
        {
            let opts = self.cells[i].active_options();
            proof {
                lemma_count_below_le(self.cells@[i as int].options, 32);
            }
            if opts > 1 && opts < min_opt {
                min_opt = opts;
                lowest = Some(i);
            }
            i = i + 1;
        }
        lowest
    }

    /// Leaves the cell at index `i` only `picked`, then removes what the
    /// resolver forbids around it, and so on.
    pub fn collapse_cell(&mut self, i: usize, picked: usize)
        requires
            old(self).wf(),
            i < old(self).cells@.len(),
            old(self).cells@[i as int].has(picked as int),
        ensures
            final(self).wf(),
            final(self).same_setup(old(self)),
            cells_within(final(self).cells@, old(self).cells@),
            forall|b: u32|
                b < 32 && #[trigger] bit(final(self).cells@[i as int].options, b) ==> b == picked,
            final(self).all_applied(
                eliminations(
                    old(self).resolver.rules@,
                    (i % old(self).width) as usize,
                    (i / old(self).width) as usize,
                    picked,
                ),
            ),
            final(self).settles_from(old(self)),
            old(self).width == 1 && old(self).height == 1 ==> final(self).cells@[i as int].has(
                picked as int,
            ),
    {
        let mut cell = self.cells[i];
        cell.options = 0;
        assert(forall|b: u32| !#[trigger] bit(0u32, b)) by (bit_vector);
        cell.activate(picked);
        self.cells.set(i, cell);
        proof {
            let (w, h) = (self.width as int, self.height as int);
            assert(w > 0) by (nonlinear_arith)
                requires
                    i < w * h,
                    w >= 0,
                    h >= 0,
            ;
            assert forall|xx: int, yy: int|
                0 <= xx < self.width && 0 <= yy < self.height && self.index(xx, yy) != i
                    && old(self).cells@[old(self).index(xx, yy)].count() >= 2 implies
                #[trigger] self.settled_at(xx, yy) by {
                lemma_index_in_grid(xx as usize, yy as usize, self.width, self.height);
            }
        }
        let x = i % self.width;
        let y = i / self.width;
        let elims = self.resolver.resolve(x, y, picked);
        proof {
            if self.width == 1 && self.height == 1 {
                lemma_eliminations_leave_unit_grid(self.resolver.rules@, picked);
                assert(x == 0 && y == 0);
            }
        }
        let mut k: usize = 0;
        while k < collapse_count(&elims)
            invariant
                k <= collapses_of(elims).len(),
                collapses_of(elims) == eliminations(old(self).resolver.rules@, x, y, picked),
                self.width == 1 && self.height == 1 ==> forall|j: int|
                    0 <= j < collapses_of(elims).len() ==> (#[trigger] collapses_of(elims)[j]).x >= 1
                        || collapses_of(elims)[j].y >= 1,
                x == i % old(self).width,
                y == i / old(self).width,
                self.all_applied(collapses_of(elims).subrange(0, k as int)),
                i < self.cells@.len(),
                self.wf(),
                self.same_setup(old(self)),
                cells_within(self.cells@, old(self).cells@),
                forall|b: u32|
                    b < 32 && #[trigger] bit(self.cells@[i as int].options, b) ==> b == picked,
                forall|xx: int, yy: int|
                    0 <= xx < self.width && 0 <= yy < self.height && self.index(xx, yy) != i
                        && old(self).cells@[old(self).index(xx, yy)].count() >= 2
                        ==> #[trigger] self.settled_at(xx, yy),
                self.width == 1 && self.height == 1 ==> self.cells@[i as int].has(picked as int),
            decreases collapses_of(elims).len() - k,
        {
            let e = collapse_at(&elims, k);
            let ghost mid = *self;
            self.remove_option(e.x, e.y, e.opt);
            proof {
                lemma_applied_kept(self, &mid, collapses_of(elims).subrange(0, k as int));
                assert forall|xx: int, yy: int|
                    0 <= xx < self.width && 0 <= yy < self.height && self.index(xx, yy) != i
                        && old(self).cells@[old(self).index(xx, yy)].count() >= 2 implies
                    #[trigger] self.settled_at(xx, yy) by {
                    lemma_index_in_grid(xx as usize, yy as usize, self.width, self.height);
                    if mid.cells@[mid.index(xx, yy)].count() <= 1 {
                        lemma_settled_kept(self, &mid, xx, yy);
                    }
                }
                let es = collapses_of(elims);
                assert(es.subrange(0, k + 1) =~= es.subrange(0, k as int).push(e));
                let mid = mid.cells@;
                assert(bits_within(self.cells@[i as int].options, mid[i as int].options));
                assert forall|j: int| 0 <= j < self.cells@.len() implies bits_within(
                    #[trigger] self.cells@[j].options,
                    old(self).cells@[j].options,
                ) by {
                    assert(bits_within(self.cells@[j].options, mid[j].options));
                    assert(bits_within(mid[j].options, old(self).cells@[j].options));
                }
            }
            k = k + 1;
        }
        assert(collapses_of(elims).subrange(0, k as int) =~= collapses_of(elims));
        proof {
            let w = self.width as int;
            let h = self.height as int;
            assert(w > 0) by (nonlinear_arith)
                requires
                    i < w * h,
                    w >= 0,
                    h >= 0,
            ;
            vstd::arithmetic::div_mod::lemma_fundamental_div_mod(i as int, w);
            vstd::arithmetic::div_mod::lemma_mod_bound(i as int, w);
            assert forall|xx: int, yy: int|
                0 <= xx < self.width && 0 <= yy < self.height && old(self).cells@[old(self).index(
                    xx,
                    yy,
                )].count() >= 2 implies #[trigger] self.settled_at(xx, yy) by {
                lemma_index_in_grid(xx as usize, yy as usize, self.width, self.height);
                if self.index(xx, yy) == i {
                    lemma_index_injective(xx, yy, x as int, y as int, w);
                }
            }
        }
    }

    /// Collapses the cell that `lowest_cell` names to an option drawn from
    /// `rng`, with its eliminations; does nothing once every cell is decided.
    pub fn step(&mut self, rng: &mut StdRng)
        requires
            old(self).wf(),
        ensures
            final(self).wf(),
            final(self).same_setup(old(self)),
            cells_within(final(self).cells@, old(self).cells@),
            old(self).done() ==> final(self).cells@ == old(self).cells@,
            old(self).done() ==> *final(rng) == *old(rng),
            final(self).settles_from(old(self)),
            old(self).settled() ==> final(self).settled(),
            old(self).width == 1 && old(self).height == 1 && !old(self).contradictory()
                ==> !final(self).contradictory(),
            !old(self).done() ==> final(self).total() < old(self).total(),
            !old(self).done() ==> exists|i: int, p: u32|
                {
                    &&& old(self).is_lowest_cell(i)
                    &&& p < 32
                    &&& #[trigger] old(self).cells@[i].has(p as int)
                    &&& forall|b: u32|
                        b < 32 && #[trigger] bit(final(self).cells@[i].options, b) ==> b == p
                    &&& final(self).all_applied(
                        eliminations(
                            old(self).resolver.rules@,
                            (i % (old(self).width as int)) as usize,
                            (i / (old(self).width as int)) as usize,
                            p as usize,
                        ),
                    )
                },
    {
        let i = match self.lowest_cell() {
            None => {
                return;
            },
            Some(i) => i,
        };
        let picked = self.cells[i].random_active(rng);
        let ghost before = self.cells@;
        self.collapse_cell(i, picked);
        proof {
            let c = self.cells@[i as int].options;
            let p = picked as u32;
            assert(forall|b: u32| b < 32 ==> (#[trigger] bit(1u32 << p, b) <==> b == p))
                by (bit_vector)
                requires
                    p < 32,
            ;
            assert(bits_within(c, 1u32 << (picked as u32)));
            lemma_count_within(c, 1u32 << (picked as u32), 32);
            lemma_count_single(picked as u32, 32);
            lemma_total_strict(self.cells@, before, i as int);
            assert(old(self).cells@[i as int].has(p as int));
            if self.width == 1 && self.height == 1 {
                let (w, h) = (self.width as int, self.height as int);
                assert(w * h == 1) by (nonlinear_arith)
                    requires
                        w == 1,
                        h == 1,
                ;
                assert(i == 0);
                assert(self.cells@[0].has(p as int));
                lemma_count_positive(self.cells@[0].options, p, 32);
            }
            if old(self).settled() {
                assert forall|xx: int, yy: int|
                    0 <= xx < self.width && 0 <= yy < self.height implies #[trigger] self.settled_at(
                    xx,
                    yy,
                ) by {
                    lemma_index_in_grid(xx as usize, yy as usize, self.width, self.height);
                    if old(self).cells@[old(self).index(xx, yy)].count() <= 1 {
                        assert(old(self).settled_at(xx, yy));
                        lemma_settled_kept(self, old(self), xx, yy);
                    }
                }
            }
        }
    }
}

/// In a well-formed grid no cell allows more options than the grid has.
pub proof fn lemma_count_at_most_options(w: &WaveFunctionCollapse)
    requires
        w.wf(),
    ensures
        forall|i: int| 0 <= i < w.cells@.len() ==> (#[trigger] w.cells@[i]).count() <= w.opt_count,
{
    assert forall|i: int| 0 <= i < w.cells@.len() implies (#[trigger] w.cells@[i]).count()
        <= w.opt_count by {
        lemma_count_bounded(w.cells@[i].options, w.opt_count as nat, 32);
        lemma_count_below_le(w.cells@[i].options, w.opt_count as nat);
    }
}

/// Where every cell of `a` allows a subset of the same cell of `b`, as after an
/// elimination or a step, no cell allows more options than before.
pub proof fn lemma_counts_never_grow(a: Seq<Cell>, b: Seq<Cell>)
    requires
        cells_within(a, b),
    ensures
        forall|i: int| 0 <= i < a.len() ==> (#[trigger] a[i]).count() <= b[i].count(),
{
    assert forall|i: int| 0 <= i < a.len() implies (#[trigger] a[i]).count() <= b[i].count() by {
        assert(bits_within(a[i].options, b[i].options));
        lemma_count_within(a[i].options, b[i].options, 32);
    }
}

pub proof fn lemma_index_injective(x1: int, y1: int, x2: int, y2: int, w: int)
    requires
        0 <= x1 < w,
        0 <= x2 < w,
        0 <= y1,
        0 <= y2,
        y1 * w + x1 == y2 * w + x2,
    ensures
        x1 == x2,
        y1 == y2,
{
    if y1 < y2 {
        assert(y1 * w + w <= y2 * w) by (nonlinear_arith)
            requires
                y1 < y2,
                0 <= w,
        ;
    } else if y2 < y1 {
        assert(y2 * w + w <= y1 * w) by (nonlinear_arith)
            requires
                y2 < y1,
                0 <= w,
        ;
    }
}

/// A decided cell whose eliminations were applied in `b` keeps them in `a`,
/// which only has fewer options than `b`.
pub proof fn lemma_settled_kept(a: &WaveFunctionCollapse, b: &WaveFunctionCollapse, x: int, y: int)
    requires
        b.wf(),
        a.same_setup(b),
        cells_within(a.cells@, b.cells@),
        0 <= x < b.width,
        0 <= y < b.height,
        b.cells@[b.index(x, y)].count() <= 1,
        b.settled_at(x, y),
    ensures
        a.settled_at(x, y),
{
    lemma_index_in_grid(x as usize, y as usize, b.width, b.height);
    let k = b.index(x, y);
    let ca = a.cells@[k].options;
    let cb = b.cells@[k].options;
    assert(bits_within(ca, cb));
    if a.cells@[k].count() == 1 {
        assert forall|p: u32| p < 32 && #[trigger] bit(ca, p) implies a.all_applied(
            eliminations(a.resolver.rules@, x as usize, y as usize, p as usize),
        ) by {
            assert(bit(cb, p));
            lemma_count_positive(cb, p, 32);
            lemma_applied_kept(a, b, eliminations(b.resolver.rules@, x as usize, y as usize, p as usize));
        }
    }
}

pub proof fn lemma_count_two(x: u32, p: u32, q: u32, n: nat)
    requires
        p < q,
        q < 32,
        q < n,
        bit(x, p),
        bit(x, q),
    ensures
        count_below(x, n) >= 2,
    decreases n,
{
    if q < n - 1 {
        lemma_count_two(x, p, q, (n - 1) as nat);
    } else {
        lemma_count_positive(x, p, (n - 1) as nat);
    }
}

/// An elimination that holds in `b` still holds in `a` when `a` only has fewer
/// options than `b`.
pub proof fn lemma_applied_kept(a: &WaveFunctionCollapse, b: &WaveFunctionCollapse, es: Seq<Collapse>)
    requires
        b.wf(),
        a.same_setup(b),
        cells_within(a.cells@, b.cells@),
        b.all_applied(es),
    ensures
        a.all_applied(es),
{
    assert forall|j: int| 0 <= j < es.len() implies a.applied(#[trigger] es[j]) by {
        let e = es[j];
        assert(b.applied(e));
        if e.x < a.width && e.y < a.height {
            lemma_index_in_grid(e.x, e.y, a.width, a.height);
            let k = a.index(e.x as int, e.y as int);
            assert(bits_within(a.cells@[k].options, b.cells@[k].options));
        }
    }
}

} // verus!
