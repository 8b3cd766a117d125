use vstd::prelude::*;
use vstd::string::StringSliceAdditionalSpecFns;
use vstd::arithmetic::div_mod::lemma_fundamental_div_mod_converse;
use crate::fractal::{
    black,
    escape_color,
    escape_iteration,
    invalid_fractal,
    mandelbrot_set,
    newton_color,
    newton_fractal,
    newton_outcome,
    Color,
};
use crate::plane::{rescale, rescale_axis, saturate, FIXED_ONE};

verus! {

/// The coloring rule a pixel grid paints with.
#[derive(Clone, Copy, Debug, PartialEq, Eq, Structural)]
pub enum Field {
    /// Escape time of `z <- z^2 + c`.
    Mandelbrot,
    /// Basin of the root that Newton's method for `z^3 - 1` reaches.
    Newton,
    /// Every point black: what an unknown name selects.
    Invalid,
}

/// The field selected by the name with UTF-8 bytes `name`: "mandelbrot",
/// "newton", and `Invalid` for anything else.
pub open spec fn field_named(name: Seq<u8>) -> Field {
    if name == "newton".spec_bytes() {
        Field::Newton
    } else if name == "mandelbrot".spec_bytes() {
        Field::Mandelbrot
    } else {
        Field::Invalid
    }
}

/// Color that `field` gives the plane point `(x, y)` (fixed point).
pub open spec fn pixel_color(field: Field, x: int, y: int) -> Color {
    match field {
        Field::Mandelbrot => escape_color(escape_iteration(x, y)),
        Field::Newton => newton_color(newton_outcome(x, y)),
        Field::Invalid => black(),
    }
}

/// Byte `i` of the RGBA frame of a `size` x `size` grid: pixel `i / 4`, row-major,
/// channel `i % 4`; the alpha channel is 255.
pub open spec fn frame_byte(field: Field, size: int, shift: (int, int), zoom: int, i: int) -> u8 {
    let p = i / 4;
    let c = pixel_color(
        field,
        rescale_axis(p % size, shift.0, zoom) as int,
        rescale_axis(p / size, shift.1, zoom) as int,
    );
    let channel = i % 4;
    if channel == 0 {
        c.r
    } else if channel == 1 {
        c.g
    } else if channel == 2 {
        c.b
    } else {
        255
    }
}

/// The complete RGBA frame of a `size` x `size` grid under the given view.
pub open spec fn frame(field: Field, size: int, shift: (int, int), zoom: int) -> Seq<u8> {
    Seq::new((size * size * 4) as nat, |i: int| frame_byte(field, size, shift, zoom, i))
}

/// A fractal pixel grid: an RGBA buffer recomputed lazily from the view
/// (shift and zoom, fixed point) and the selected field.
pub struct AnimationState {
    shift: (i64, i64),
    zoom: i64,
    size: usize,
    data: Vec<u8>,
    up_to_date: bool,
    fractal: Field,
    recomputes: u64,
}

/// What one read of the buffer does: `after` is clean, holds the frame of the
/// view of `before`, and `out` is that frame. A clean `before` is left as it
/// was; a dirty one is recomputed once, which the counter records.
pub open spec fn buffer_read(before: AnimationState, after: AnimationState, out: Seq<u8>) -> bool {
    &&& after.wf()
    &&& after.clean()
    &&& out == after.buffer()
    &&& out == before.expected_frame()
    &&& out.len() == before.grid_size() * before.grid_size() * 4
    &&& after.view_shift() == before.view_shift()
    &&& after.view_zoom() == before.view_zoom()
    &&& after.grid_size() == before.grid_size()
    &&& after.field() == before.field()
    &&& before.clean() ==> after == before
    &&& !before.clean() ==> after.recomputations() == if before.recomputations() < u64::MAX {
        before.recomputations() + 1
    } else {
        before.recomputations() as int
    }
}

/// What a request for the view `(shift, zoom)` does: nothing when it is the
/// current view; otherwise the view becomes the one requested and the state
/// turns dirty. Size, field, counter and buffer never change: only a read
/// recomputes the buffer.
pub open spec fn view_update(
    before: AnimationState,
    after: AnimationState,
    shift: (i64, i64),
    zoom: i64,
) -> bool {
    &&& after.wf()
    &&& after.grid_size() == before.grid_size()
    &&& after.field() == before.field()
    &&& after.recomputations() == before.recomputations()
    &&& if shift == before.view_shift() && zoom == before.view_zoom() {
        after == before
    } else {
        &&& after.view_shift() == shift
        &&& after.view_zoom() == zoom
        &&& !after.clean()
        &&& after.buffer() == before.buffer()
    }
}

/// Every buffer read returns `size * size * 4` bytes.
pub proof fn lemma_buffer_length(before: AnimationState, after: AnimationState, out: Seq<u8>)
    requires
        before.wf(),
        buffer_read(before, after, out),
    ensures
        out.len() == before.grid_size() * before.grid_size() * 4,
{
}

/// Two reads with no change in between recompute at most once: the second
/// read leaves the state (and so the counter) as the first left it, and both
/// return the same bytes.
pub proof fn lemma_second_read_is_cached(
    s0: AnimationState,
    s1: AnimationState,
    s2: AnimationState,
    out1: Seq<u8>,
    out2: Seq<u8>,
)
    requires
        s0.wf(),
        buffer_read(s0, s1, out1),
        buffer_read(s1, s2, out2),
    ensures
        s2 == s1,
        s2.recomputations() == s1.recomputations(),
        s1.recomputations() <= s0.recomputations() + 1,
        out2 == out1,
{
}

/// After a shift is set to `(a, b)`, the shift reads back as exactly `(a, b)`.
pub proof fn lemma_shift_round_trip(before: AnimationState, after: AnimationState, a: i64, b: i64)
    requires
        before.wf(),
        view_update(before, after, (a, b), before.view_zoom()),
    ensures
        after.view_shift() == (a, b),
        after.view_zoom() == before.view_zoom(),
{
}

/// Requesting the view that is already current changes nothing: the state does
/// not turn dirty, so the next read does not recompute.
pub proof fn lemma_same_view_is_no_change(before: AnimationState, after: AnimationState)
    requires
        before.wf(),
        view_update(before, after, before.view_shift(), before.view_zoom()),
    ensures
        after == before,
        after.clean() == before.clean(),
{
}

/// Moving or zooming by zero is a request for the current view, so it changes
/// nothing.
pub proof fn lemma_zero_move_is_no_change(before: AnimationState, after: AnimationState)
    requires
        before.wf(),
        view_update(
            before,
            after,
            (saturate(before.view_shift().0 + 0), saturate(before.view_shift().1 + 0)),
            before.view_zoom(),
        ) || view_update(before, after, before.view_shift(), saturate(before.view_zoom() + 0)),
    ensures
        after == before,
{
}

impl Field {
    /// Selects a field by name; an unknown name selects `Invalid`.
    pub fn from_name(name: &str) -> (f: Field)
        ensures
            f == field_named(name.spec_bytes()),
    {
        if bytes_equal(name.as_bytes(), "newton".as_bytes()) {
            Field::Newton
        } else if bytes_equal(name.as_bytes(), "mandelbrot".as_bytes()) {
            Field::Mandelbrot
        } else {
            Field::Invalid
        }
    }

    /// Color of the plane point `(x, y)` (fixed point) under this field.
    pub fn color(self, x: i64, y: i64) -> (c: Color)
        ensures
            c == pixel_color(self, x as int, y as int),
    {
        match self {
            Field::Mandelbrot => mandelbrot_set(x, y),
            Field::Newton => newton_fractal(x, y),
            Field::Invalid => invalid_fractal(x, y),
        }
    }
}

fn bytes_equal(a: &[u8], b: &[u8]) -> (r: bool)
    ensures
        r == (a@ == b@),
{
    if a.len() != b.len() {
        return false;
    }
    let mut i: usize = 0;
    while i < a.len()
        invariant
            a@.len() == b@.len(),
            i <= a@.len(),
            forall|j: int| 0 <= j < i ==> a@[j] == b@[j],
        decreases a@.len() - i,
    {
        if a[i] != b[i] {
            return false;
        }
        i += 1;
    }
    assert(a@ =~= b@);
    true
}

impl AnimationState {
    /// View offset `(x, y)`, fixed point.
    pub closed spec fn view_shift(&self) -> (i64, i64) {
        self.shift
    }

    /// View magnification, fixed point.
    pub closed spec fn view_zoom(&self) -> i64 {
        self.zoom
    }

    /// Side of the square grid, in pixels.
    pub closed spec fn grid_size(&self) -> nat {
        self.size as nat
    }

    /// The RGBA buffer as it stands.
    pub closed spec fn buffer(&self) -> Seq<u8> {
        self.data@
    }

    /// The buffer holds the frame of the current view.
    pub closed spec fn clean(&self) -> bool {
        self.up_to_date
    }

    pub closed spec fn field(&self) -> Field {
        self.fractal
    }

    /// Number of full recomputations so far (saturating).
    pub closed spec fn recomputations(&self) -> u64 {
        self.recomputes
    }

    /// The frame of the current view and field.
    pub open spec fn expected_frame(&self) -> Seq<u8> {
        frame(
            self.field(),
            self.grid_size() as int,
            (self.view_shift().0 as int, self.view_shift().1 as int),
            self.view_zoom() as int,
        )
    }

    /// Zoom is positive, the buffer has four bytes per pixel, every alpha byte
    /// is opaque, and a clean state holds the frame of its view.
    pub open spec fn wf(&self) -> bool {
        &&& self.view_zoom() > 0
        &&& self.buffer().len() == self.grid_size() * self.grid_size() * 4
        &&& forall|i: int|
            0 <= i < self.buffer().len() && i % 4 == 3 ==> #[trigger] self.buffer()[i] == 255
        &&& self.clean() ==> self.buffer() == self.expected_frame()
    }

    /// A dirty `size` x `size` grid painting the field named `fractal`, with
    /// shift `(0, 0)` and zoom 1; every byte of the buffer starts at 255.
    pub fn new(size: usize, fractal: &str) -> (s: AnimationState)
        requires
            size * size * 4 <= usize::MAX,
        ensures
            s.wf(),
            !s.clean(),
            s.grid_size() == size,
            s.view_shift() == (0i64, 0i64),
            s.view_zoom() == FIXED_ONE,
            s.field() == field_named(fractal.spec_bytes()),
            s.recomputations() == 0,
            forall|i: int| 0 <= i < s.buffer().len() ==> #[trigger] s.buffer()[i] == 255,
    {
        assert(size * size <= size * size * 4) by (nonlinear_arith);
        let n: usize = size * size * 4;
        let mut data: Vec<u8> = Vec::with_capacity(n);
        let mut i: usize = 0;
        while i < n
            invariant
                i <= n,
                data@.len() == i,
                forall|j: int| 0 <= j < i ==> #[trigger] data@[j] == 255,
            decreases n - i,
        {
            data.push(255);
            i += 1;
        }
        AnimationState {
            shift: (0, 0),
            zoom: FIXED_ONE,
            size,
            data,
            up_to_date: false,
            fractal: Field::from_name(fractal),
            recomputes: 0,
        }
    }

    /// Color of pixel `(col, row)` under the current view.
    fn pixel(&self, col: usize, row: usize) -> (c: Color)
        requires
            self.wf(),
        ensures
            c == pixel_color(
                self.field(),
                rescale_axis(col as int, self.shift.0 as int, self.zoom as int) as int,
                rescale_axis(row as int, self.shift.1 as int, self.zoom as int) as int,
            ),
    {
        let (x, y) = rescale((col, row), self.shift, self.zoom);
        self.fractal.color(x, y)
    }

    /// Computes every pixel of the frame of the current view.
    fn update_frame(&self) -> (r: Vec<u8>)
        requires
            self.wf(),
        ensures
            r@ == self.expected_frame(),
    {
        let size = self.size;
        let len = self.data.len();
        let n: usize = len / 4;
        assert(n > 0 ==> size > 0) by (nonlinear_arith)
            requires
                n == size * size,
        ;
        let mut r: Vec<u8> = Vec::with_capacity(len);
        let ghost target = self.expected_frame();
        let mut p: usize = 0;
        let mut row: usize = 0;
        let mut col: usize = 0;
        while p < n
            invariant
                self.wf(),
                size == self.size,
                n == size * size,
                len == size * size * 4,
                target == self.expected_frame(),
                p <= n,
                n > 0 ==> col < size,
                p == row * size + col,
                r@.len() == 4 * p,
                forall|j: int| 0 <= j < 4 * p ==> #[trigger] r@[j] == target[j],
            decreases n - p,
        {
            proof {
                if row >= size {
                    assert(size * size <= row * size) by (nonlinear_arith)
                        requires
                            row >= size,
                    ;
                }
                lemma_fundamental_div_mod_converse(p as int, size as int, row as int, col as int);
                assert forall|k: int| 0 <= k < 4 implies (#[trigger] ((4 * p + k) / 4)) == p && (4
                    * p + k) % 4 == k by {
                    lemma_fundamental_div_mod_converse(4 * p + k, 4, p as int, k);
                }
            }
            let c = self.pixel(col, row);
            r.push(c.r);
            r.push(c.g);
            r.push(c.b);
            r.push(255);
            p += 1;
            col += 1;
            if col == size {
                proof {
                    assert((row + 1) * size == row * size + size) by (nonlinear_arith);
                }
                col = 0;
                row += 1;
            }
        }
        assert(r@ =~= target);
        r
    }

    /// The RGBA buffer of the current view, recomputed first if the state is
    /// dirty; a clean state is read as it is.
    pub fn get_data(&mut self) -> (r: &[u8])
        requires
            old(self).wf(),
        ensures
            buffer_read(*old(self), *final(self), r@),
    {
        if !self.up_to_date {
            let frame = self.update_frame();
            self.data = frame;
            self.up_to_date = true;
            self.recomputes = if self.recomputes < u64::MAX {
                self.recomputes + 1
            } else {
                self.recomputes
            };
        }
        self.data.as_slice()
    }

    /// Number of full recomputations so far (saturating at `u64::MAX`).
    pub fn recompute_count(&self) -> (r: u64)
        ensures
            r == self.recomputations(),
    {
        self.recomputes
    }

    pub fn get_zoom(&self) -> (r: i64)
        ensures
            r == self.view_zoom(),
    {
        self.zoom
    }

    pub fn get_shift_x(&self) -> (r: i64)
        ensures
            r == self.view_shift().0,
    {
        self.shift.0
    }

    pub fn get_shift_y(&self) -> (r: i64)
        ensures
            r == self.view_shift().1,
    {
        self.shift.1
    }

    /// Sets the zoom. A zoom that is not positive is ignored.
    pub fn set_zoom(&mut self, zoom: i64)
        requires
            old(self).wf(),
        ensures
            view_update(
                *old(self),
                *final(self),
                old(self).view_shift(),
                if zoom > 0 {
                    zoom
                } else {
                    old(self).view_zoom()
                },
            ),
    {
        if zoom > 0 && self.zoom != zoom {
            self.zoom = zoom;
            self.up_to_date = false;
        }
    }

    pub fn set_shift_x(&mut self, shift_x: i64)
        requires
            old(self).wf(),
        ensures
            view_update(
                *old(self),
                *final(self),
                (shift_x, old(self).view_shift().1),
                old(self).view_zoom(),
            ),
    {
        if self.shift.0 != shift_x {
            self.shift.0 = shift_x;
            self.up_to_date = false;
        }
    }

    pub fn set_shift_y(&mut self, shift_y: i64)
        requires
            old(self).wf(),
        ensures
            view_update(
                *old(self),
                *final(self),
                (old(self).view_shift().0, shift_y),
                old(self).view_zoom(),
            ),
    {
        if self.shift.1 != shift_y {
            self.shift.1 = shift_y;
            self.up_to_date = false;
        }
    }

    pub fn set_shift(&mut self, shift_x: i64, shift_y: i64)
        requires
            old(self).wf(),
        ensures
            view_update(*old(self), *final(self), (shift_x, shift_y), old(self).view_zoom()),
    {
        self.set_shift_x(shift_x);
        self.set_shift_y(shift_y);
    }

    /// Selects `field`. Selecting the current field changes nothing; another
    /// one turns the state dirty.
    pub fn set_field(&mut self, field: Field)
        requires
            old(self).wf(),
        ensures
            final(self).wf(),
            final(self).field() == field,
            final(self).view_shift() == old(self).view_shift(),
            final(self).view_zoom() == old(self).view_zoom(),
            final(self).grid_size() == old(self).grid_size(),
            final(self).recomputations() == old(self).recomputations(),
            field == old(self).field() ==> *final(self) == *old(self),
            field != old(self).field() ==> !final(self).clean(),
            final(self).buffer() == old(self).buffer(),
    {
        if self.fractal != field {
            self.fractal = field;
            self.up_to_date = false;
        }
    }

    /// Adds `amount` to the zoom (saturating); a result that is not positive is ignored.
    pub fn zoom_by(&mut self, amount: i64)
        requires
            old(self).wf(),
        ensures
            view_update(
                *old(self),
                *final(self),
                old(self).view_shift(),
                if saturate(old(self).view_zoom() + amount) > 0 {
                    saturate(old(self).view_zoom() + amount)
                } else {
                    old(self).view_zoom()
                },
            ),
    {
        let target = saturating_sum(self.zoom, amount);
        self.set_zoom(target)
    }

    /// Adds `(amount_x, amount_y)` to the shift (saturating).
    pub fn shift_by(&mut self, amount_x: i64, amount_y: i64)
        requires
            old(self).wf(),
        ensures
            view_update(
                *old(self),
                *final(self),
                (
                    saturate(old(self).view_shift().0 + amount_x),
                    saturate(old(self).view_shift().1 + amount_y),
                ),
                old(self).view_zoom(),
            ),
    {
        let x = saturating_sum(self.shift.0, amount_x);
        let y = saturating_sum(self.shift.1, amount_y);
        self.set_shift(x, y)
    }
}

fn saturating_sum(a: i64, b: i64) -> (r: i64)
    ensures
        r == saturate(a + b),
{
    let s = a as i128 + b as i128;
    if s < i64::MIN as i128 {
        i64::MIN
    } else if s > i64::MAX as i128 {
        i64::MAX
    } else {
        s as i64
    }
}

} // verus!
