use vstd::arithmetic::div_mod::lemma_fundamental_div_mod_converse;
use vstd::prelude::*;
use vstd::string::StringExecFns;

verus! {

/// The abstract content of a grid: its dimensions and one occupancy flag per
/// cell, laid out with z slowest, then y, then x.
pub struct GridModel {
    pub width: nat,
    pub height: nat,
    pub depth: nat,
    pub cells: Seq<bool>,
}

impl GridModel {
    /// Number of cells in one horizontal layer.
    pub open spec fn layer(self) -> nat {
        self.width * self.depth
    }

    pub open spec fn volume(self) -> nat {
        self.width * self.height * self.depth
    }

    pub open spec fn in_bounds(self, x: int, y: int, z: int) -> bool {
        0 <= x < self.width && 0 <= y < self.depth && 0 <= z < self.height
    }

    pub open spec fn index(self, x: int, y: int, z: int) -> int {
        z * (self.width * self.depth) + y * self.width + x
    }

    /// Occupancy at `(x, y, z)`; every cell outside the bounds is air.
    pub open spec fn get(self, x: int, y: int, z: int) -> bool {
        self.in_bounds(x, y, z) && self.cells[self.index(x, y, z)]
    }

    /// The grid after writing `v` at `(x, y, z)`; unchanged out of bounds.
    pub open spec fn set(self, x: int, y: int, z: int, v: bool) -> GridModel {
        if self.in_bounds(x, y, z) {
            GridModel { cells: self.cells.update(self.index(x, y, z), v), ..self }
        } else {
            self
        }
    }

    /// Coordinates of the cell stored at linear position `i`.
    pub open spec fn x_of(self, i: int) -> int {
        (i % (self.layer() as int)) % (self.width as int)
    }

    pub open spec fn y_of(self, i: int) -> int {
        (i % (self.layer() as int)) / (self.width as int)
    }

    pub open spec fn z_of(self, i: int) -> int {
        i / (self.layer() as int)
    }

    /// The grid after filling every column from the ground up to its height:
    /// the cell at layer `z` of column `c` becomes solid when `z < heights[c]`.
    pub open spec fn filled(self, heights: Seq<usize>) -> GridModel {
        GridModel {
            cells: Seq::new(
                self.cells.len(),
                |i: int|
                    self.cells[i] || self.z_of(i) < heights[i % (self.layer() as int)] as int,
            ),
            ..self
        }
    }

    /// Number of solid cells.
    pub open spec fn solid_count(self) -> nat {
        count_prefix(self.cells, self.cells.len())
    }

    /// Whether token `k` of the export is solid: tokens run over
    /// `EXPORT_HEIGHT` layers, then rows, then columns, and layers at or
    /// above the grid's own height are air.
    pub open spec fn export_solid(self, k: int) -> bool {
        let w = self.width as int;
        let wd = self.layer() as int;
        let c = k % wd;
        k / wd < self.height && self.get(c % w, c / w, k / wd)
    }

    /// One digit per exported cell, `'1'` for solid and `'0'` for air.
    pub open spec fn export_digits(self) -> Seq<char> {
        Seq::new(
            self.layer() * (EXPORT_HEIGHT as nat),
            |k: int|
                if self.export_solid(k) {
                    '1'
                } else {
                    '0'
                },
        )
    }

    /// The export text: the digits separated by single spaces.
    pub open spec fn voxel_text(self) -> Seq<char> {
        spaced(self.export_digits())
    }

    pub open spec fn well_sized(self) -> bool {
        self.cells.len() == self.volume()
    }

    pub open spec fn same_shape(self, o: GridModel) -> bool {
        self.width == o.width && self.height == o.height && self.depth == o.depth
            && self.cells.len() == o.cells.len()
    }
}

/// Number of layers that the export always holds.
pub const EXPORT_HEIGHT: usize = 23;

/// Number of `true` entries among the first `n` of `s`.
pub open spec fn count_prefix(s: Seq<bool>, n: nat) -> nat
    decreases n,
{
    if n == 0 {
        0
    } else {
        count_prefix(s, (n - 1) as nat) + if s[n - 1] {
            1nat
        } else {
            0nat
        }
    }
}

/// Number of set bits among the first `n` bits of `data`.
pub open spec fn bits_count(data: Seq<u8>, n: nat) -> nat
    decreases n,
{
    if n == 0 {
        0
    } else {
        bits_count(data, (n - 1) as nat) + if bit_at(data, n - 1) {
            1nat
        } else {
            0nat
        }
    }
}

/// Number of set bits among the low `k` bits of `b`.
pub open spec fn ones_below(b: u8, k: nat) -> nat
    decreases k,
{
    if k == 0 {
        0
    } else {
        ones_below(b, (k - 1) as nat) + if bit_of(b, (k - 1) as u8) {
            1nat
        } else {
            0nat
        }
    }
}

proof fn lemma_bits_count_bound(data: Seq<u8>, n: nat)
    ensures
        bits_count(data, n) <= n,
    decreases n,
{
    if n > 0 {
        lemma_bits_count_bound(data, (n - 1) as nat);
    }
}

proof fn lemma_bits_count_clear(data: Seq<u8>, lo: nat, n: nat)
    requires
        lo <= n,
        forall|i: int| lo <= i < n ==> !bit_at(data, i),
    ensures
        bits_count(data, n) == bits_count(data, lo),
    decreases n,
{
    if n > lo {
        lemma_bits_count_clear(data, lo, (n - 1) as nat);
    }
}

proof fn lemma_bits_count_byte(data: Seq<u8>, j: nat, k: nat)
    requires
        j < data.len(),
        k <= 8,
    ensures
        bits_count(data, 8 * j + k) == bits_count(data, 8 * j) + ones_below(data[j as int], k),
    decreases k,
{
    if k > 0 {
        lemma_bits_count_byte(data, j, (k - 1) as nat);
        let i = 8 * j + k - 1;
        assert(i / 8 == j && i % 8 == k - 1);
    }
}

proof fn lemma_count_bits(data: Seq<u8>, cells: Seq<bool>, n: nat)
    requires
        n <= cells.len(),
        forall|i: int| 0 <= i < cells.len() ==> cells[i] == bit_at(data, i),
    ensures
        count_prefix(cells, n) == bits_count(data, n),
    decreases n,
{
    if n > 0 {
        lemma_count_bits(data, cells, (n - 1) as nat);
    }
}

/// The characters of `s` with one space between each two of them.
pub open spec fn spaced(s: Seq<char>) -> Seq<char> {
    Seq::new(
        if s.len() == 0 {
            0
        } else {
            (2 * s.len() - 1) as nat
        },
        |j: int|
            if j % 2 == 0 {
                s[j / 2]
            } else {
                ' '
            },
    )
}

/// Bit `k` of the byte `b`.
pub open spec fn bit_of(b: u8, k: u8) -> bool {
    b & (1u8 << k) != 0
}

/// Bit `i` of a byte sequence, eight cells per byte, least significant first.
pub open spec fn bit_at(data: Seq<u8>, i: int) -> bool {
    bit_of(data[i / 8], (i % 8) as u8)
}

proof fn lemma_bit_ops(b: u8, k: u8, j: u8)
    requires
        k < 8,
        j < 8,
    ensures
        bit_of(b | (1u8 << k), j) == (j == k || bit_of(b, j)),
        bit_of(b & !(1u8 << k), j) == (j != k && bit_of(b, j)),
        !bit_of(0u8, j),
{
    assert(bit_of(b | (1u8 << k), j) == (j == k || bit_of(b, j))) by (bit_vector)
        requires
            k < 8,
            j < 8,
    ;
    assert(bit_of(b & !(1u8 << k), j) == (j != k && bit_of(b, j))) by (bit_vector)
        requires
            k < 8,
            j < 8,
    ;
    assert(!bit_of(0u8, j)) by (bit_vector)
        requires
            j < 8,
    ;
}

proof fn lemma_split(w: int, d: int, x: int, y: int, z: int)
    requires
        0 <= x < w,
        0 <= y < d,
        0 <= z,
    ensures
        0 <= y * w + x < w * d,
        (z * (w * d) + y * w + x) / (w * d) == z,
        (z * (w * d) + y * w + x) % (w * d) == y * w + x,
        (y * w + x) / w == y,
        (y * w + x) % w == x,
        z * (w * d) + y * w + x < (z + 1) * (w * d),
{
    let c = y * w + x;
    assert(0 <= y * w) by (nonlinear_arith)
        requires
            0 <= y,
            0 <= w,
    ;
    assert((y + 1) * w <= d * w) by (nonlinear_arith)
        requires
            y + 1 <= d,
            0 <= w,
    ;
    assert((y + 1) * w == y * w + w) by (nonlinear_arith);
    assert(d * w == w * d) by (nonlinear_arith);
    assert((z + 1) * (w * d) == z * (w * d) + w * d) by (nonlinear_arith);
    lemma_fundamental_div_mod_converse(z * (w * d) + c, w * d, z, c);
    lemma_fundamental_div_mod_converse(c, w, y, x);
}

/// Every linear position inside the volume is the position of the cell at
/// its coordinates.
pub proof fn lemma_coords(m: GridModel, i: int)
    requires
        0 <= i < m.volume(),
    ensures
        m.in_bounds(m.x_of(i), m.y_of(i), m.z_of(i)),
        m.index(m.x_of(i), m.y_of(i), m.z_of(i)) == i,
        i % (m.layer() as int) == m.y_of(i) * m.width + m.x_of(i),
{
    let w = m.width as int;
    let d = m.depth as int;
    let h = m.height as int;
    let wd = w * d;
    assert(w * h * d == h * wd) by (nonlinear_arith)
        requires
            wd == w * d,
    ;
    assert(wd > 0) by (nonlinear_arith)
        requires
            0 <= i < h * wd,
            h >= 0,
    ;
    assert(w > 0 && d > 0) by (nonlinear_arith)
        requires
            wd == w * d,
            wd > 0,
            w >= 0,
            d >= 0,
    ;
    let q = i / wd;
    let r = i % wd;
    vstd::arithmetic::div_mod::lemma_fundamental_div_mod(i, wd);
    assert(q < h) by (nonlinear_arith)
        requires
            i == wd * q + r,
            0 <= r,
            i < h * wd,
            wd > 0,
    ;
    assert(q >= 0) by (nonlinear_arith)
        requires
            i == wd * q + r,
            r < wd,
            i >= 0,
            wd > 0,
    ;
    vstd::arithmetic::div_mod::lemma_fundamental_div_mod(r, w);
    let yy = r / w;
    let xx = r % w;
    assert(0 <= yy < d) by (nonlinear_arith)
        requires
            r == w * yy + xx,
            0 <= xx < w,
            0 <= r < w * d,
    ;
    assert(i == q * wd + yy * w + xx) by (nonlinear_arith)
        requires
            i == wd * q + r,
            r == w * yy + xx,
    ;
}

/// A cell in bounds has a linear position inside the volume, and that
/// position gives its coordinates back.
pub proof fn lemma_index(m: GridModel, x: int, y: int, z: int)
    requires
        m.in_bounds(x, y, z),
    ensures
        0 <= m.index(x, y, z) < m.volume(),
        m.z_of(m.index(x, y, z)) == z,
        m.y_of(m.index(x, y, z)) == y,
        m.x_of(m.index(x, y, z)) == x,
        m.index(x, y, z) % (m.layer() as int) == y * m.width + x,
{
    let w = m.width as int;
    let d = m.depth as int;
    let h = m.height as int;
    let c = y * w + x;
    lemma_split(w, d, x, y, z);
    assert(0 <= z * (w * d)) by (nonlinear_arith)
        requires
            0 <= z,
            0 <= w * d,
    ;
    assert(z * (w * d) + c < w * h * d) by (nonlinear_arith)
        requires
            c < w * d,
            z < h,
            0 <= c,
    ;
}

/// Two cells in bounds share a linear position only when they are the same cell.
pub proof fn lemma_index_injective(m: GridModel, x: int, y: int, z: int, a: int, b: int, c: int)
    requires
        m.in_bounds(x, y, z),
        m.in_bounds(a, b, c),
        m.index(x, y, z) == m.index(a, b, c),
    ensures
        x == a && y == b && z == c,
{
    lemma_index(m, x, y, z);
    lemma_index(m, a, b, c);
}

/// Writing a cell and reading it back: a read in bounds returns what was
/// last written there, every other cell keeps its value, and a read out of
/// bounds is air whatever was written.
pub proof fn lemma_get_after_set(m: GridModel, x: int, y: int, z: int, v: bool, a: int, b: int, c: int)
    requires
        m.well_sized(),
    ensures
        m.in_bounds(x, y, z) ==> m.set(x, y, z, v).get(x, y, z) == v,
        (a != x || b != y || c != z) ==> m.set(x, y, z, v).get(a, b, c) == m.get(a, b, c),
        !m.in_bounds(a, b, c) ==> !m.set(x, y, z, v).get(a, b, c),
        m.set(x, y, z, v).well_sized(),
{
    if m.in_bounds(x, y, z) {
        lemma_index(m, x, y, z);
        if m.in_bounds(a, b, c) && (a != x || b != y || c != z) {
            lemma_index(m, a, b, c);
            if m.index(x, y, z) == m.index(a, b, c) {
                lemma_index_injective(m, x, y, z, a, b, c);
            }
        }
    }
}

/// Number of solid cells among the first `n` of row `y` in layer `z`.
pub open spec fn count_row(m: GridModel, y: int, z: int, n: nat) -> nat
    decreases n,
{
    if n == 0 {
        0
    } else {
        count_row(m, y, z, (n - 1) as nat) + if m.get(n - 1, y, z) {
            1nat
        } else {
            0nat
        }
    }
}

/// Number of solid cells in the first `n` rows of layer `z`.
pub open spec fn count_layer(m: GridModel, z: int, n: nat) -> nat
    decreases n,
{
    if n == 0 {
        0
    } else {
        count_layer(m, z, (n - 1) as nat) + count_row(m, n - 1, z, m.width)
    }
}

/// Number of solid cells `(x, y, z)` over every `x`, every `y` and `z < n`.
pub open spec fn count_cells(m: GridModel, n: nat) -> nat
    decreases n,
{
    if n == 0 {
        0
    } else {
        count_cells(m, (n - 1) as nat) + count_layer(m, n - 1, m.depth)
    }
}

/// Number of solid cells among the lowest `n` of column `(x, y)`.
pub open spec fn count_column(m: GridModel, x: int, y: int, n: nat) -> nat
    decreases n,
{
    if n == 0 {
        0
    } else {
        count_column(m, x, y, (n - 1) as nat) + if m.get(x, y, n - 1) {
            1nat
        } else {
            0nat
        }
    }
}

proof fn lemma_count_row(m: GridModel, y: int, z: int, n: nat)
    requires
        m.well_sized(),
        0 <= y < m.depth,
        0 <= z < m.height,
        n <= m.width,
    ensures
        m.index(0, y, z) + n <= m.volume(),
        count_prefix(m.cells, (m.index(0, y, z) + n) as nat) == count_prefix(
            m.cells,
            m.index(0, y, z) as nat,
        ) + count_row(m, y, z, n),
    decreases n,
{
    if n > 0 {
        lemma_count_row(m, y, z, (n - 1) as nat);
        lemma_index(m, n - 1, y, z);
    } else {
        let w = m.width as int;
        let d = m.depth as int;
        assert(0 <= y * w) by (nonlinear_arith)
            requires
                0 <= y,
                0 <= w,
        ;
        assert(0 <= z * (w * d)) by (nonlinear_arith)
            requires
                0 <= z,
                0 <= w,
                0 <= d,
        ;
        if w > 0 {
            lemma_index(m, 0, y, z);
        } else {
            assert(z * (w * d) + y * w == 0) by (nonlinear_arith)
                requires
                    w == 0,
            ;
        }
    }
}

proof fn lemma_count_layer(m: GridModel, z: int, n: nat)
    requires
        m.well_sized(),
        0 <= z < m.height,
        n <= m.depth,
    ensures
        count_prefix(m.cells, (z * m.layer() + n * m.width) as nat) == count_prefix(
            m.cells,
            (z * m.layer()) as nat,
        ) + count_layer(m, z, n),
    decreases n,
{
    let w = m.width as int;
    let d = m.depth as int;
    assert(0 <= z * (w * d)) by (nonlinear_arith)
        requires
            0 <= z,
            0 <= w,
            0 <= d,
    ;
    if n > 0 {
        lemma_count_layer(m, z, (n - 1) as nat);
        lemma_count_row(m, n - 1, z, m.width);
        assert((n - 1) * w + w == n * w) by (nonlinear_arith);
        assert(0 <= (n - 1) * w) by (nonlinear_arith)
            requires
                n >= 1,
                w >= 0,
        ;
        let base = z * (w * d) + (n - 1) * w;
        assert(m.index(0, n - 1, z) == base);
        assert(base + w == z * (w * d) + n * w);
        assert(count_layer(m, z, n) == count_layer(m, z, (n - 1) as nat) + count_row(
            m,
            n - 1,
            z,
            m.width,
        ));
    } else {
        assert(n * w == 0) by (nonlinear_arith)
            requires
                n == 0,
        ;
    }
}

proof fn lemma_count_cells(m: GridModel, n: nat)
    requires
        m.well_sized(),
        n <= m.height,
    ensures
        count_cells(m, n) == count_prefix(m.cells, n * m.layer()),
    decreases n,
{
    if n > 0 {
        let w = m.width as int;
        let d = m.depth as int;
        lemma_count_cells(m, (n - 1) as nat);
        lemma_count_layer(m, n - 1, m.depth);
        assert((n - 1) * (w * d) + d * w == n * (w * d)) by (nonlinear_arith);
        assert(0 <= (n - 1) * (w * d)) by (nonlinear_arith)
            requires
                n >= 1,
                w >= 0,
                d >= 0,
        ;
        assert(count_cells(m, n) == count_cells(m, (n - 1) as nat) + count_layer(
            m,
            n - 1,
            m.depth,
        ));
        assert(((n - 1) * m.layer() + m.depth * m.width) as nat == n * m.layer());
    } else {
        assert(n * m.layer() == 0) by (nonlinear_arith)
            requires
                n == 0,
        ;
    }
}

/// The solid count equals the number of cells `(x, y, z)` in bounds at which
/// `get` is true, counted layer by layer, row by row, column by column.
pub proof fn lemma_solid_count_enumerates(m: GridModel)
    requires
        m.well_sized(),
    ensures
        m.solid_count() == count_cells(m, m.height),
{
    lemma_count_cells(m, m.height);
    let w = m.width as int;
    let d = m.depth as int;
    let h = m.height as int;
    assert(h * (w * d) == w * h * d) by (nonlinear_arith);
}

/// Reading a filled grid: a cell in bounds is solid when it was solid before
/// or lies below its column's height.
pub proof fn lemma_filled_get(m: GridModel, heights: Seq<usize>, x: int, y: int, z: int)
    requires
        m.well_sized(),
        heights.len() == m.layer(),
        m.in_bounds(x, y, z),
    ensures
        m.filled(heights).get(x, y, z) == (m.get(x, y, z) || z < heights[y * m.width + x]),
{
    lemma_index(m, x, y, z);
}

/// Filling an all-air grid from a heightmap whose every column has height
/// `h`: in each column the cells below `min(h, height)` are solid, the cells
/// above are air, and the column holds exactly `min(h, height)` solid cells.
pub proof fn lemma_fill_constant(m: GridModel, heights: Seq<usize>, h: usize, x: int, y: int)
    requires
        m.well_sized(),
        forall|i: int| 0 <= i < m.cells.len() ==> !m.cells[i],
        heights.len() == m.layer(),
        forall|j: int| 0 <= j < heights.len() ==> heights[j] == h,
        0 <= x < m.width,
        0 <= y < m.depth,
    ensures
        forall|z: int| 0 <= z < m.height ==> m.filled(heights).get(x, y, z) == (z < h),
        count_column(m.filled(heights), x, y, m.height) == if h < m.height {
            h as nat
        } else {
            m.height
        },
{
    assert forall|z: int| 0 <= z < m.height implies m.filled(heights).get(x, y, z) == (z < h) by {
        lemma_filled_get(m, heights, x, y, z);
        lemma_index(m, x, y, z);
        lemma_split(m.width as int, m.depth as int, x, y, 0);
    }
    lemma_column_below(m.filled(heights), x, y, h as nat, m.height);
}

proof fn lemma_column_below(m: GridModel, x: int, y: int, h: nat, n: nat)
    requires
        n <= m.height,
        forall|z: int| 0 <= z < m.height ==> m.get(x, y, z) == (z < h),
    ensures
        count_column(m, x, y, n) == if h < n {
            h
        } else {
            n
        },
    decreases n,
{
    if n > 0 {
        lemma_column_below(m, x, y, h, (n - 1) as nat);
    }
}

/// The export holds `width * depth * EXPORT_HEIGHT` tokens; every token of a
/// layer at or above the grid's height is air; and a grid of air exports
/// nothing but `'0'` tokens.
pub proof fn lemma_export_tokens(m: GridModel)
    requires
        m.well_sized(),
    ensures
        m.export_digits().len() == m.width * m.depth * EXPORT_HEIGHT,
        forall|k: int|
            0 <= k < m.export_digits().len() && k / (m.layer() as int) >= m.height
                ==> #[trigger] m.export_digits()[k] == '0',
        (forall|i: int| 0 <= i < m.cells.len() ==> !m.cells[i]) ==> forall|k: int|
            0 <= k < m.export_digits().len() ==> #[trigger] m.export_digits()[k] == '0',
{
    if forall|i: int| 0 <= i < m.cells.len() ==> !m.cells[i] {
        assert forall|k: int| 0 <= k < m.export_digits().len() implies #[trigger] m.export_digits()[k]
            == '0' by {
            let w = m.width as int;
            let wd = m.layer() as int;
            let c = k % wd;
            if m.in_bounds(c % w, c / w, k / wd) {
                lemma_index(m, c % w, c / w, k / wd);
            }
        }
    }
}

/// A fixed-size three-dimensional occupancy grid, one bit per cell.
pub struct VoxelGrid {
    width: usize,
    height: usize,
    depth: usize,
    data: Vec<u8>,
}

impl View for VoxelGrid {
    type V = GridModel;

    closed spec fn view(&self) -> GridModel {
        GridModel {
            width: self.width as nat,
            height: self.height as nat,
            depth: self.depth as nat,
            cells: Seq::new(
                (self.width * self.height * self.depth) as nat,
                |i: int| bit_at(self.data@, i),
            ),
        }
    }
}

impl VoxelGrid {
    /// The storage holds exactly enough bytes for every cell, and the spare
    /// bits of the last byte stay clear.
    pub closed spec fn wf(&self) -> bool {
        let total = self.width * self.height * self.depth;
        &&& total <= usize::MAX
        &&& self.width * self.height <= usize::MAX
        &&& self.width * self.depth <= usize::MAX
        &&& self.data@.len() == (total + 7) / 8
        &&& forall|i: int| total <= i < 8 * self.data@.len() ==> !bit_at(self.data@, i)
    }

    /// What a well-formed grid shows of itself: one cell per position of the
    /// volume, and a volume and a layer that fit in `usize`.
    pub proof fn lemma_wf_view(&self)
        requires
            self.wf(),
        ensures
            self@.well_sized(),
            self@.volume() <= usize::MAX,
            self@.layer() <= usize::MAX,
    {
    }

    /// Creates a grid of the given dimensions in which every cell is air.
    pub fn new(width: usize, height: usize, depth: usize) -> (r: VoxelGrid)
        requires
            width * height * depth <= usize::MAX,
            width * height <= usize::MAX,
            width * depth <= usize::MAX,
        ensures
            r.wf(),
            r@.width == width,
            r@.height == height,
            r@.depth == depth,
            r@.cells == Seq::new(r@.volume(), |_i: int| false),
    {
        let total = width * height * depth;
        let byte_count = total / 8 + if total % 8 == 0 { 0 } else { 1 };
        let mut data: Vec<u8> = Vec::new();
        let mut n: usize = 0;
        while n < byte_count
            invariant
                n <= byte_count,
                data@.len() == n,
                forall|j: int| 0 <= j < n ==> data@[j] == 0u8,
            decreases byte_count - n,
        {
            data.push(0u8);
            n = n + 1;
        }
        let r = VoxelGrid { width, height, depth, data };
        assert forall|i: int| 0 <= i < 8 * r.data@.len() implies !bit_at(r.data@, i) by {
            lemma_bit_ops(0u8, 0u8, (i % 8) as u8);
        }
        assert(r@.cells =~= Seq::new(r@.volume(), |_i: int| false));
        r
    }

    fn is_in_bounds(&self, x: usize, y: usize, z: usize) -> (r: bool)
        ensures
            r == self@.in_bounds(x as int, y as int, z as int),
    {
        x < self.width && y < self.depth && z < self.height
    }

    pub(crate) fn index(&self, x: usize, y: usize, z: usize) -> (r: usize)
        requires
            self.wf(),
            self@.in_bounds(x as int, y as int, z as int),
        ensures
            r == self@.index(x as int, y as int, z as int),
            r < self@.volume(),
    {
        proof {
            lemma_index(self@, x as int, y as int, z as int);
            let w = self.width as int;
            let d = self.depth as int;
            let h = self.height as int;
            assert(w * d <= w * h * d) by (nonlinear_arith)
                requires
                    h >= 1,
                    w >= 0,
                    d >= 0,
            ;
            assert(y * w <= y * w + x);
        }
        z * (self.width * self.depth) + y * self.width + x
    }

    /// Occupancy at `(x, y, z)`; `false` for any coordinate out of bounds.
    pub fn get(&self, x: usize, y: usize, z: usize) -> (r: bool)
        requires
            self.wf(),
        ensures
            r == self@.get(x as int, y as int, z as int),
    {
        if !self.is_in_bounds(x, y, z) {
            return false;
        }
        let index = self.index(x, y, z);
        let byte_index = index / 8;
        let bit_index = (index % 8) as u8;
        (self.data[byte_index] & (1u8 << bit_index)) != 0
    }

    /// Writes the occupancy at `(x, y, z)`; a coordinate out of bounds is ignored.
    pub fn set(&mut self, x: usize, y: usize, z: usize, value: bool)
        requires
            old(self).wf(),
        ensures
            final(self).wf(),
            final(self)@ == old(self)@.set(x as int, y as int, z as int, value),
    {
        if !self.is_in_bounds(x, y, z) {
            return;
        }
        let index = self.index(x, y, z);
        let byte_index = index / 8;
        let bit_index = (index % 8) as u8;
        let old_data = Ghost(self.data@);
        let byte = self.data[byte_index];
        let nb = if value {
            byte | (1u8 << bit_index)
        } else {
            byte & !(1u8 << bit_index)
        };
        self.data.set(byte_index, nb);
        proof {
            assert forall|i: int| 0 <= i < 8 * self.data@.len() implies bit_at(self.data@, i) == if i
                == index {
                value
            } else {
                bit_at(old_data@, i)
            } by {
                if i / 8 == byte_index {
                    lemma_bit_ops(byte, bit_index, (i % 8) as u8);
                }
            }
            assert(self@.cells =~= old(self)@.cells.update(index as int, value));
        }
    }

    /// Sets solid, in every column `(x, y)`, the cells from the ground up to
    /// the column's height `heightmap[y * width + x]`, clamped to the grid's
    /// height. Cells already solid stay solid.
    pub fn fill_from_heightmap(&mut self, heightmap: &[usize])
        requires
            old(self).wf(),
            heightmap@.len() == old(self)@.layer(),
        ensures
            final(self).wf(),
            final(self)@ == old(self)@.filled(heightmap@),
    {
        let ghost g = self@;
        let ghost hs = heightmap@;
        let ghost w = self.width as int;
        let ghost wd = g.layer() as int;
        proof {
            assert forall|i: int| 0 <= i < g.volume() implies #[trigger] self@.cells[i] == (
            g.cells[i] || (i % wd < 0 * w && g.z_of(i) < hs[i % wd])) by {
                lemma_coords(g, i);
                lemma_split(w, g.depth as int, g.x_of(i), g.y_of(i), 0);
            }
        }
        let mut y: usize = 0;
        while y < self.depth
            invariant
                self.wf(),
                self@.same_shape(g),
                hs == heightmap@,
                hs.len() == wd,
                w == g.width,
                wd == g.layer(),
                y <= g.depth,
                forall|i: int|
                    0 <= i < g.volume() ==> #[trigger] self@.cells[i] == (g.cells[i] || (i % wd
                        < y * w && g.z_of(i) < hs[i % wd])),
            decreases g.depth - y,
        {
            let mut x: usize = 0;
            while x < self.width
                invariant
                    self.wf(),
                    self@.same_shape(g),
                    hs == heightmap@,
                    hs.len() == wd,
                    w == g.width,
                    wd == g.layer(),
                    y < g.depth,
                    x <= w,
                    forall|i: int|
                        0 <= i < g.volume() ==> #[trigger] self@.cells[i] == (g.cells[i] || (i
                            % wd < y * w + x && g.z_of(i) < hs[i % wd])),
                decreases w - x,
            {
                proof {
                    lemma_split(w, g.depth as int, x as int, y as int, 0);
                }
                let c = y * self.width + x;
                let column = heightmap[c];
                let top = if column < self.height {
                    column
                } else {
                    self.height
                };
                let mut z: usize = 0;
                while z < top
                    invariant
                        self.wf(),
                        self@.same_shape(g),
                        hs == heightmap@,
                        hs.len() == wd,
                        w == g.width,
                        wd == g.layer(),
                        y < g.depth,
                        x < w,
                        c == y * w + x,
                        c < wd,
                        top <= hs[c as int],
                        top <= g.height,
                        z <= top,
                        forall|i: int|
                            0 <= i < g.volume() ==> #[trigger] self@.cells[i] == (g.cells[i] || (i
                                % wd < c && g.z_of(i) < hs[i % wd]) || (i % wd == c && g.z_of(i)
                                < z)),
                    decreases top - z,
                {
                    let ghost before = self@;
                    self.set(x, y, z, true);
                    proof {
                        lemma_index(g, x as int, y as int, z as int);
                        let idx = g.index(x as int, y as int, z as int);
                        assert forall|i: int| 0 <= i < g.volume() implies #[trigger] self@.cells[i]
                            == (g.cells[i] || (i % wd < c && g.z_of(i) < hs[i % wd]) || (i % wd
                            == c && g.z_of(i) < z + 1)) by {
                            lemma_coords(g, i);
                            if i % wd == c && g.z_of(i) == z {
                                lemma_index_injective(
                                    g,
                                    g.x_of(i),
                                    g.y_of(i),
                                    g.z_of(i),
                                    x as int,
                                    y as int,
                                    z as int,
                                );
                            }
                        }
                    }
                    z = z + 1;
                }
                proof {
                    assert forall|i: int| 0 <= i < g.volume() implies #[trigger] self@.cells[i]
                        == (g.cells[i] || (i % wd < y * w + x + 1 && g.z_of(i) < hs[i % wd])) by {
                        lemma_coords(g, i);
                    }
                }
                x = x + 1;
            }
            proof {
                assert((y + 1) * w == y * w + w) by (nonlinear_arith);
            }
            y = y + 1;
        }
        proof {
            assert forall|i: int| 0 <= i < g.volume() implies #[trigger] self@.cells[i]
                == g.filled(hs).cells[i] by {
                lemma_coords(g, i);
                lemma_split(w, g.depth as int, g.x_of(i), g.y_of(i), 0);
                assert(y * w == wd) by (nonlinear_arith)
                    requires
                        y == g.depth,
                        w == g.width,
                        wd == g.width * g.depth,
                ;
            }
            assert(self@.cells =~= g.filled(hs).cells);
        }
    }

    fn byte_ones(b: u8) -> (r: usize)
        ensures
            r == ones_below(b, 8),
    {
        let mut r: usize = 0;
        let mut k: u8 = 0;
        while k < 8
            invariant
                k <= 8,
                r == ones_below(b, k as nat),
                r <= k,
            decreases 8 - k,
        {
            if b & (1u8 << k) != 0 {
                r = r + 1;
            }
            k = k + 1;
        }
        r
    }

    /// Number of solid cells, summed over the set bits of the storage.
    pub fn get_solid_count(&self) -> (r: usize)
        requires
            self.wf(),
        ensures
            r == self@.solid_count(),
    {
        let ghost total = self@.volume();
        let mut sum: usize = 0;
        let mut j: usize = 0;
        while j < self.data.len()
            invariant
                self.wf(),
                total == self@.volume(),
                j <= self.data@.len(),
                sum == bits_count(self.data@, 8 * j as nat),
            decreases self.data@.len() - j,
        {
            let ones = Self::byte_ones(self.data[j]);
            proof {
                lemma_bits_count_byte(self.data@, j as nat, 8);
                if 8 * j + 8 <= total {
                    lemma_bits_count_bound(self.data@, (8 * j + 8) as nat);
                } else {
                    lemma_bits_count_clear(self.data@, total, (8 * j + 8) as nat);
                    lemma_bits_count_bound(self.data@, total);
                }
            }
            sum = sum + ones;
            j = j + 1;
        }
        proof {
            lemma_bits_count_clear(self.data@, total, (8 * j) as nat);
            lemma_count_bits(self.data@, self@.cells, total);
        }
        sum
    }

    /// The dimensions as `[width, height, depth]`.
    pub fn dimensions(&self) -> (r: Vec<usize>)
        ensures
            r@.len() == 3,
            r@[0] == self@.width,
            r@[1] == self@.height,
            r@[2] == self@.depth,
    {
        vec![self.width, self.height, self.depth]
    }

    /// The export text: `'0'`/`'1'` tokens separated by single spaces, for
    /// `EXPORT_HEIGHT` layers whatever the grid's own height, layer by layer,
    /// row by row, column by column.
    pub fn to_voxel_array(&self) -> (r: String)
        requires
            self.wf(),
            self@.layer() * EXPORT_HEIGHT * 2 <= usize::MAX,
        ensures
            r@ == self@.voxel_text(),
    {
        let ghost m = self@;
        let ghost digits = m.export_digits();
        let ghost w = self.width as int;
        let ghost d = self.depth as int;
        proof {
            assert(w * d * 23 * 2 == (w * d) * 46) by (nonlinear_arith);
            assert((w * d) * 23 <= (w * d) * 46) by (nonlinear_arith)
                requires
                    w * d >= 0,
            ;
        }
        let wd = self.width * self.depth;
        let mut result = String::new();
        let mut k: usize = 0;
        let mut z: usize = 0;
        while z < EXPORT_HEIGHT
            invariant
                self.wf(),
                m == self@,
                digits == m.export_digits(),
                w == self.width,
                d == self.depth,
                wd == w * d,
                wd * 23 <= usize::MAX,
                z <= EXPORT_HEIGHT,
                k == z * wd,
                result@ == spaced(digits.take(k as int)),
            decreases EXPORT_HEIGHT - z,
        {
            let mut y: usize = 0;
            while y < self.depth
                invariant
                    self.wf(),
                    m == self@,
                    digits == m.export_digits(),
                    w == self.width,
                    d == self.depth,
                    wd == w * d,
                    wd * 23 <= usize::MAX,
                    z < EXPORT_HEIGHT,
                    y <= d,
                    k == z * wd + y * w,
                    result@ == spaced(digits.take(k as int)),
                decreases d - y,
            {
                let mut x: usize = 0;
                while x < self.width
                    invariant
                        self.wf(),
                        m == self@,
                        digits == m.export_digits(),
                        w == self.width,
                        d == self.depth,
                        wd == w * d,
                        wd * 23 <= usize::MAX,
                        z < EXPORT_HEIGHT,
                        y < d,
                        x <= w,
                        k == z * wd + y * w + x,
                        result@ == spaced(digits.take(k as int)),
                    decreases w - x,
                {
                    proof {
                        lemma_split(w, d, x as int, y as int, z as int);
                        assert((z + 1) * wd <= 23 * wd) by (nonlinear_arith)
                            requires
                                z < 23,
                                wd >= 0,
                        ;
                    }
                    let ghost before = result@;
                    if k > 0 {
                        result.append(" ");
                    }
                    let is_solid = if z < self.height {
                        self.get(x, y, z)
                    } else {
                        false
                    };
                    result.append(
                        if is_solid {
                            "1"
                        } else {
                            "0"
                        },
                    );
                    proof {
                        reveal_strlit(" ");
                        reveal_strlit("1");
                        reveal_strlit("0");
                        assert(is_solid == m.export_solid(k as int));
                        let t = digits.take(k as int + 1);
                        assert(t.len() == k + 1);
                        assert(spaced(t) =~= result@) by {
                            assert(t.drop_last() =~= digits.take(k as int));
                        }
                    }
                    k = k + 1;
                    x = x + 1;
                }
                proof {
                    assert((y + 1) * w == y * w + w) by (nonlinear_arith);
                }
                y = y + 1;
            }
            proof {
                assert((z + 1) * wd == z * wd + d * w) by (nonlinear_arith)
                    requires
                        wd == w * d,
                ;
            }
            z = z + 1;
        }
        proof {
            assert(z * wd == wd * 23) by (nonlinear_arith)
                requires
                    z == 23,
            ;
            assert(digits.len() == k);
            assert(digits.take(k as int) =~= digits);
        }
        result
    }
}

} // verus!
