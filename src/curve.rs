//! A curve's editable state (its control points, cross-section counts, selection and
//! pending-rebuild flag) and the triangle indices of the closed tube built around it.
use vstd::prelude::*;

verus! {

/// The number of sample rings along a curve of `points` control points with
/// `subdivisions` samples per segment: none below two points, else one ring per sample
/// plus one for the final endpoint.
pub open spec fn rings_for(points: int, subdivisions: int) -> int {
    if points < 2 {
        0
    } else {
        (points - 1) * subdivisions + 1
    }
}

/// The end-cap fan over a ring of `sides` vertices stored from `base` on:
/// triangle `i - 1` is `base`, `base + i`, `base + i + 1` for `i` in `1 .. sides - 1`.
pub open spec fn cap(base: int, sides: int) -> Seq<int>
    decreases sides,
{
    if sides < 3 {
        Seq::empty()
    } else {
        cap(base, sides - 1) + seq![base, base + sides - 2, base + sides - 1]
    }
}

/// The side after `i` around a ring of `sides`, wrapping to 0.
pub open spec fn next_side(i: int, sides: int) -> int {
    if i + 1 < sides {
        i + 1
    } else {
        0
    }
}

/// The two triangles joining side `i` of the ring at `base` to the ring after it.
pub open spec fn quad(base: int, sides: int, i: int) -> Seq<int> {
    let n = next_side(i, sides);
    let up = base + sides;
    seq![base + n, base + i, up + n, base + i, up + i, up + n]
}

/// The quads of the first `count` sides of the ring at `base`.
pub open spec fn ring_strip(base: int, sides: int, count: int) -> Seq<int>
    decreases count,
{
    if count <= 0 {
        Seq::empty()
    } else {
        ring_strip(base, sides, count - 1) + quad(base, sides, count - 1)
    }
}

/// The strips joining each pair of consecutive rings among the first `rings`.
pub open spec fn strips(rings: int, sides: int) -> Seq<int>
    decreases rings,
{
    if rings < 2 {
        Seq::empty()
    } else {
        strips(rings - 1, sides) + ring_strip((rings - 2) * sides, sides, sides)
    }
}

/// The index buffer of a tube of `rings` rings of `sides` vertices each, ring after ring:
/// a cap at the first ring, the strips between rings, and a cap at the last ring.
pub open spec fn tube(rings: int, sides: int) -> Seq<int> {
    if rings <= 0 {
        Seq::empty()
    } else {
        cap(0, sides) + strips(rings, sides) + cap((rings - 1) * sides, sides)
    }
}

pub open spec fn indices_view(v: Seq<u32>) -> Seq<int> {
    v.map_values(|x: u32| x as int)
}

pub proof fn lemma_cap_len(base: int, sides: int)
    ensures
        cap(base, sides).len() == if sides < 3 { 0 } else { 3 * (sides - 2) },
    decreases sides,
{
    if sides >= 3 {
        lemma_cap_len(base, sides - 1);
    }
}

pub proof fn lemma_ring_strip_len(base: int, sides: int, count: int)
    ensures
        ring_strip(base, sides, count).len() == if count <= 0 { 0 } else { 6 * count },
    decreases count,
{
    if count > 0 {
        lemma_ring_strip_len(base, sides, count - 1);
    }
}

pub proof fn lemma_strips_len(rings: int, sides: int)
    requires
        sides >= 0,
    ensures
        strips(rings, sides).len() == if rings < 2 { 0 } else { 6 * sides * (rings - 1) },
    decreases rings,
{
    if rings >= 2 {
        lemma_strips_len(rings - 1, sides);
        lemma_ring_strip_len((rings - 2) * sides, sides, sides);
        assert(6 * sides * (rings - 1) == 6 * sides * (rings - 2) + 6 * sides) by (nonlinear_arith);
        assert(rings == 2 ==> 6 * sides * (rings - 2) == 0) by (nonlinear_arith);
    }
}

/// Appends the end-cap fan over the ring stored from `base` on.
fn push_cap(out: &mut Vec<u32>, base: u32, sides: u32)
    requires
        base as int + sides as int <= u32::MAX + 1,
    ensures
        indices_view(final(out)@) == indices_view(old(out)@) + cap(base as int, sides as int),
{
    let ghost start = indices_view(out@);
    if sides < 3 {
        assert(start + cap(base as int, sides as int) =~= start);
        return;
    }
    let mut m: u32 = 2;
    assert(start + cap(base as int, 2) =~= start);
    while m < sides
        invariant
            2 <= m <= sides,
            base as int + sides as int <= u32::MAX + 1,
            indices_view(out@) == start + cap(base as int, m as int),
        decreases sides - m,
    {
        let ghost prev = indices_view(out@);
        out.push(base);
        out.push(base + (m - 1));
        out.push(base + m);
        m += 1;
        assert(indices_view(out@) =~= prev + seq![
            base as int,
            base as int + m - 2,
            base as int + m - 1,
        ]);
        assert(indices_view(out@) =~= start + cap(base as int, m as int));
    }
}

/// Appends the strip joining the ring stored from `base` on to the ring after it.
fn push_strip(out: &mut Vec<u32>, base: u32, sides: u32)
    requires
        base as int + 2 * sides as int <= u32::MAX + 1,
    ensures
        indices_view(final(out)@) == indices_view(old(out)@) + ring_strip(
            base as int,
            sides as int,
            sides as int,
        ),
{
    let ghost start = indices_view(out@);
    let up = base + sides;
    let mut i: u32 = 0;
    assert(start + ring_strip(base as int, sides as int, 0) =~= start);
    while i < sides
        invariant
            i <= sides,
            up == base + sides,
            base as int + 2 * sides as int <= u32::MAX + 1,
            indices_view(out@) == start + ring_strip(base as int, sides as int, i as int),
        decreases sides - i,
    {
        let ghost prev = indices_view(out@);
        let n = if i + 1 < sides {
            i + 1
        } else {
            0
        };
        out.push(base + n);
        out.push(base + i);
        out.push(up + n);
        out.push(base + i);
        out.push(up + i);
        out.push(up + n);
        assert(indices_view(out@) =~= prev + quad(base as int, sides as int, i as int));
        i += 1;
        assert(indices_view(out@) =~= start + ring_strip(base as int, sides as int, i as int));
    }
}

/// The index buffer of a tube of `rings` rings of `sides` vertices (see `tube`).
pub fn tube_indices(rings: u32, sides: u32) -> (r: Vec<u32>)
    requires
        rings as int * sides as int <= u32::MAX + 1,
    ensures
        indices_view(r@) == tube(rings as int, sides as int),
        r@.len() == if rings == 0 {
            0
        } else {
            2 * (if sides < 3 { 0 } else { 3 * (sides - 2) }) + 6 * sides * (rings - 1)
        },
{
    let mut out: Vec<u32> = Vec::new();
    if rings == 0 {
        assert(indices_view(out@) =~= Seq::<int>::empty());
        return out;
    }
    assert(sides as int <= rings as int * sides as int) by (nonlinear_arith)
        requires
            rings >= 1,
    ;
    push_cap(&mut out, 0, sides);
    let ghost head = indices_view(out@);
    let mut r: u32 = 1;
    let mut base: u32 = 0;
    assert(head + strips(1, sides as int) =~= head);
    while r < rings
        invariant
            1 <= r <= rings,
            base as int == (r as int - 1) * sides as int,
            rings as int * sides as int <= u32::MAX + 1,
            indices_view(out@) == head + strips(r as int, sides as int),
        decreases rings - r,
    {
        assert(base as int + 2 * sides as int <= u32::MAX + 1) by (nonlinear_arith)
            requires
                base as int == (r as int - 1) * sides as int,
                r + 1 <= rings,
                rings as int * sides as int <= u32::MAX + 1,
                sides >= 0,
        ;
        let ghost prev = indices_view(out@);
        push_strip(&mut out, base, sides);
        assert(((r + 1) as int - 2) * sides as int == base as int);
        assert(indices_view(out@) =~= head + strips(r as int + 1, sides as int));
        base = base + sides;
        r += 1;
        assert(base as int == (r as int - 1) * sides as int) by (nonlinear_arith)
            requires
                base as int == (r as int - 2) * sides as int + sides as int,
        ;
    }
    assert(base as int + sides as int <= u32::MAX + 1) by (nonlinear_arith)
        requires
            base as int == (rings as int - 1) * sides as int,
            rings as int * sides as int <= u32::MAX + 1,
    ;
    push_cap(&mut out, base, sides);
    assert(indices_view(out@) =~= tube(rings as int, sides as int));
    proof {
        lemma_cap_len(0, sides as int);
        lemma_cap_len(base as int, sides as int);
        lemma_strips_len(rings as int, sides as int);
    }
    assert(indices_view(out@).len() == out@.len());
    assert(6 * sides * (rings - 1) >= 0) by (nonlinear_arith)
        requires
            rings >= 1,
    ;
    assert(rings == 1 ==> 6 * sides * (rings - 1) == 0) by (nonlinear_arith);
    out
}

/// A curve: its control points in order, the cross-section's side count, the number of
/// samples per segment, a display name and whether it is a bundle curve (kept out of
/// export). One position is selected: a point's index, or the number of points for the
/// place after the last. The mesh is due for a rebuild after any change.
pub struct Curve<P> {
    points: Vec<P>,
    sides: u32,
    subdivisions: u32,
    name: String,
    bundle: bool,
    selected: usize,
    dirty: bool,
}

impl<P> Curve<P> {
    pub closed spec fn points_view(&self) -> Seq<P> {
        self.points@
    }

    pub closed spec fn sides_view(&self) -> u32 {
        self.sides
    }

    pub closed spec fn subdivisions_view(&self) -> u32 {
        self.subdivisions
    }

    pub closed spec fn name_view(&self) -> Seq<char> {
        self.name@
    }

    pub closed spec fn bundle_view(&self) -> bool {
        self.bundle
    }

    pub closed spec fn selected_view(&self) -> int {
        self.selected as int
    }

    pub closed spec fn dirty_view(&self) -> bool {
        self.dirty
    }

    /// The selection is a point or the place after the last one.
    pub open spec fn well_formed(&self) -> bool {
        self.selected_view() <= self.points_view().len()
    }

    /// The rings that a rebuild makes.
    pub open spec fn rings(&self) -> int {
        rings_for(self.points_view().len() as int, self.subdivisions_view() as int)
    }

    /// A new curve: no points, three sides, sixteen samples per segment, no name,
    /// nothing due.
    pub fn new() -> (r: Curve<P>)
        ensures
            r.well_formed(),
            r.points_view().len() == 0,
            r.sides_view() == 3,
            r.subdivisions_view() == 16,
            r.name_view().len() == 0,
            !r.bundle_view(),
            r.selected_view() == 0,
            !r.dirty_view(),
    {
        Curve {
            points: Vec::new(),
            sides: 3,
            subdivisions: 16,
            name: String::new(),
            bundle: false,
            selected: 0,
            dirty: false,
        }
    }

    /// A curve restored from saved data: the selection after the last point, and a
    /// rebuild due.
    pub fn restored(points: Vec<P>, sides: u32, subdivisions: u32, name: String, bundle: bool) -> (r:
        Curve<P>)
        ensures
            r.well_formed(),
            r.points_view() == points@,
            r.sides_view() == sides,
            r.subdivisions_view() == subdivisions,
            r.name_view() == name@,
            r.bundle_view() == bundle,
            r.selected_view() == points@.len(),
            r.dirty_view(),
    {
        let selected = points.len();
        Curve { points, sides, subdivisions, name, bundle, selected, dirty: true }
    }

    pub fn points(&self) -> (r: &Vec<P>)
        ensures
            r@ == self.points_view(),
    {
        &self.points
    }

    pub fn sides(&self) -> (r: u32)
        ensures
            r == self.sides_view(),
    {
        self.sides
    }

    pub fn subdivisions(&self) -> (r: u32)
        ensures
            r == self.subdivisions_view(),
    {
        self.subdivisions
    }

    pub fn name(&self) -> (r: &String)
        ensures
            r@ == self.name_view(),
    {
        &self.name
    }

    pub fn is_bundle(&self) -> (r: bool)
        ensures
            r == self.bundle_view(),
    {
        self.bundle
    }

    pub fn selected_point(&self) -> (r: usize)
        ensures
            r == self.selected_view(),
    {
        self.selected
    }

    pub fn needs_rebuild(&self) -> (r: bool)
        ensures
            r == self.dirty_view(),
    {
        self.dirty
    }

    /// Marks the mesh as due for a rebuild.
    pub fn request_rebuild(&mut self)
        ensures
            final(self).dirty_view(),
            final(self).points_view() == old(self).points_view(),
            final(self).sides_view() == old(self).sides_view(),
            final(self).subdivisions_view() == old(self).subdivisions_view(),
            final(self).name_view() == old(self).name_view(),
            final(self).bundle_view() == old(self).bundle_view(),
            final(self).selected_view() == old(self).selected_view(),
    {
        self.dirty = true;
    }

    /// Records that the mesh has been rebuilt from the current state.
    pub fn finish_rebuild(&mut self)
        ensures
            !final(self).dirty_view(),
            final(self).points_view() == old(self).points_view(),
            final(self).sides_view() == old(self).sides_view(),
            final(self).subdivisions_view() == old(self).subdivisions_view(),
            final(self).name_view() == old(self).name_view(),
            final(self).bundle_view() == old(self).bundle_view(),
            final(self).selected_view() == old(self).selected_view(),
    {
        self.dirty = false;
    }

    /// Sets the cross-section's side count; a rebuild is due.
    pub fn set_sides(&mut self, sides: u32)
        ensures
            final(self).sides_view() == sides,
            final(self).dirty_view(),
            final(self).points_view() == old(self).points_view(),
            final(self).subdivisions_view() == old(self).subdivisions_view(),
            final(self).name_view() == old(self).name_view(),
            final(self).bundle_view() == old(self).bundle_view(),
            final(self).selected_view() == old(self).selected_view(),
    {
        self.sides = sides;
        self.dirty = true;
    }

    /// Sets the number of samples per segment; a rebuild is due.
    pub fn set_subdivisions(&mut self, subdivisions: u32)
        ensures
            final(self).subdivisions_view() == subdivisions,
            final(self).dirty_view(),
            final(self).points_view() == old(self).points_view(),
            final(self).sides_view() == old(self).sides_view(),
            final(self).name_view() == old(self).name_view(),
            final(self).bundle_view() == old(self).bundle_view(),
            final(self).selected_view() == old(self).selected_view(),
    {
        self.subdivisions = subdivisions;
        self.dirty = true;
    }

    /// Renames the curve. The mesh does not depend on the name.
    pub fn set_name(&mut self, name: String)
        ensures
            final(self).name_view() == name@,
            final(self).dirty_view() == old(self).dirty_view(),
            final(self).points_view() == old(self).points_view(),
            final(self).sides_view() == old(self).sides_view(),
            final(self).subdivisions_view() == old(self).subdivisions_view(),
            final(self).bundle_view() == old(self).bundle_view(),
            final(self).selected_view() == old(self).selected_view(),
    {
        self.name = name;
    }

    /// Marks the curve as a bundle curve or not. The mesh does not depend on it.
    pub fn set_bundle(&mut self, bundle: bool)
        ensures
            final(self).bundle_view() == bundle,
            final(self).dirty_view() == old(self).dirty_view(),
            final(self).points_view() == old(self).points_view(),
            final(self).sides_view() == old(self).sides_view(),
            final(self).subdivisions_view() == old(self).subdivisions_view(),
            final(self).name_view() == old(self).name_view(),
            final(self).selected_view() == old(self).selected_view(),
    {
        self.bundle = bundle;
    }

    /// Replaces point `i`; a rebuild is due.
    pub fn set_point(&mut self, i: usize, p: P)
        requires
            i < old(self).points_view().len(),
        ensures
            final(self).points_view() == old(self).points_view().update(i as int, p),
            final(self).dirty_view(),
            final(self).sides_view() == old(self).sides_view(),
            final(self).subdivisions_view() == old(self).subdivisions_view(),
            final(self).name_view() == old(self).name_view(),
            final(self).bundle_view() == old(self).bundle_view(),
            final(self).selected_view() == old(self).selected_view(),
    {
        self.points.set(i, p);
        self.dirty = true;
    }

    /// The point whose tangent magnitude and color a newly placed point takes over: the
    /// selected point, which it replaces, or else the last point, after which it goes.
    pub fn inherit_from(&self) -> (r: Option<usize>)
        requires
            self.well_formed(),
        ensures
            r == if self.selected_view() < self.points_view().len() {
                Some(self.selected_view() as usize)
            } else if self.selected_view() > 0 {
                Some((self.selected_view() - 1) as usize)
            } else {
                None
            },
    {
        if self.selected < self.points.len() {
            Some(self.selected)
        } else if self.selected > 0 {
            Some(self.selected - 1)
        } else {
            None
        }
    }

    /// Places a point at the selection: it replaces the selected point, or is appended
    /// when the selection is after the last point. The selection moves past it and a
    /// rebuild is due.
    pub fn place_point(&mut self, p: P)
        requires
            old(self).well_formed(),
        ensures
            final(self).well_formed(),
            final(self).points_view() == if old(self).selected_view() < old(
                self,
            ).points_view().len() {
                old(self).points_view().update(old(self).selected_view(), p)
            } else {
                old(self).points_view().push(p)
            },
            final(self).selected_view() == old(self).selected_view() + 1,
            final(self).dirty_view(),
            final(self).sides_view() == old(self).sides_view(),
            final(self).subdivisions_view() == old(self).subdivisions_view(),
            final(self).name_view() == old(self).name_view(),
            final(self).bundle_view() == old(self).bundle_view(),
    {
        if self.selected < self.points.len() {
            self.points.set(self.selected, p);
            self.selected = self.selected + 1;
        } else {
            self.points.push(p);
            self.selected = self.points.len();
        }
        self.dirty = true;
    }

    /// Inserts a point before the selected one, which the selection then names.
    /// A rebuild is due.
    pub fn add_before_selected(&mut self, p: P)
        requires
            old(self).well_formed(),
            old(self).selected_view() < old(self).points_view().len(),
        ensures
            final(self).well_formed(),
            final(self).points_view() == old(self).points_view().insert(
                old(self).selected_view(),
                p,
            ),
            final(self).selected_view() == old(self).selected_view(),
            final(self).dirty_view(),
            final(self).sides_view() == old(self).sides_view(),
            final(self).subdivisions_view() == old(self).subdivisions_view(),
            final(self).name_view() == old(self).name_view(),
            final(self).bundle_view() == old(self).bundle_view(),
    {
        self.points.insert(self.selected, p);
        self.dirty = true;
    }

    /// Moves the selection one place back, unless it is at the first point.
    pub fn select_previous(&mut self)
        requires
            old(self).well_formed(),
        ensures
            final(self).well_formed(),
            final(self).selected_view() == if old(self).selected_view() > 0 {
                old(self).selected_view() - 1
            } else {
                0
            },
            final(self).dirty_view() == old(self).dirty_view(),
            final(self).points_view() == old(self).points_view(),
            final(self).sides_view() == old(self).sides_view(),
            final(self).subdivisions_view() == old(self).subdivisions_view(),
            final(self).name_view() == old(self).name_view(),
            final(self).bundle_view() == old(self).bundle_view(),
    {
        if self.selected > 0 {
            self.selected = self.selected - 1;
        }
    }

    /// Moves the selection one place on, as far as the place after the last point.
    pub fn select_next(&mut self)
        requires
            old(self).well_formed(),
        ensures
            final(self).well_formed(),
            final(self).selected_view() == if old(self).selected_view() < old(
                self,
            ).points_view().len() {
                old(self).selected_view() + 1
            } else {
                old(self).selected_view()
            },
            final(self).dirty_view() == old(self).dirty_view(),
            final(self).points_view() == old(self).points_view(),
            final(self).sides_view() == old(self).sides_view(),
            final(self).subdivisions_view() == old(self).subdivisions_view(),
            final(self).name_view() == old(self).name_view(),
            final(self).bundle_view() == old(self).bundle_view(),
    {
        if self.selected < self.points.len() {
            self.selected = self.selected + 1;
        }
    }

    /// Whether the tube fits 32-bit indices: its ring count is a `u32` and its vertices
    /// can all be addressed.
    pub open spec fn fits(&self) -> bool {
        self.rings() <= u32::MAX && self.rings() * self.sides_view() <= u32::MAX + 1
    }

    /// The number of sample rings that a rebuild makes (see `rings_for`), or `None` where
    /// the tube does not fit 32-bit indices.
    pub fn ring_count(&self) -> (r: Option<u32>)
        ensures
            match r {
                Some(n) => n == self.rings() && self.fits(),
                None => !self.fits(),
            },
    {
        let n = self.points.len();
        if n < 2 {
            assert(self.rings() == 0);
            return Some(0);
        }
        let segments = (n - 1) as u128;
        let per = self.subdivisions as u128;
        assert(segments * per <= 0xffff_ffff_ffff_ffffu128 * 0xffff_ffffu128) by (nonlinear_arith)
            requires
                segments <= 0xffff_ffff_ffff_ffffu128,
                per <= 0xffff_ffffu128,
        ;
        let rings: u128 = segments * per + 1;
        if rings > u32::MAX as u128 {
            return None;
        }
        let sides = self.sides as u128;
        assert(rings * sides <= 0xffff_ffffu128 * 0xffff_ffffu128) by (nonlinear_arith)
            requires
                rings <= 0xffff_ffffu128,
                sides <= 0xffff_ffffu128,
        ;
        let vertices: u128 = rings * sides;
        if vertices > u32::MAX as u128 + 1 {
            return None;
        }
        Some(rings as u32)
    }

    /// The index buffer of the tube around this curve (see `tube`), or `None` where it
    /// would have more vertices than 32-bit indices can address.
    pub fn mesh_indices(&self) -> (r: Option<Vec<u32>>)
        ensures
            match r {
                Some(v) => self.fits() && indices_view(v@) == tube(
                    self.rings(),
                    self.sides_view() as int,
                ),
                None => !self.fits(),
            },
    {
        match self.ring_count() {
            None => None,
            Some(rings) => Some(tube_indices(rings, self.sides)),
        }
    }

    /// Starts a rebuild if one is due: the new index buffer, after which the curve is
    /// clean. Nothing is done on a clean curve; a tube too large for 32-bit indices gives
    /// `None` and leaves the rebuild due.
    pub fn rebuild(&mut self) -> (r: Option<Vec<u32>>)
        ensures
            r is Some <==> old(self).dirty_view() && old(self).fits(),
            r is Some ==> indices_view(r->Some_0@) == tube(
                old(self).rings(),
                old(self).sides_view() as int,
            ),
            final(self).dirty_view() == (old(self).dirty_view() && !old(self).fits()),
            final(self).points_view() == old(self).points_view(),
            final(self).sides_view() == old(self).sides_view(),
            final(self).subdivisions_view() == old(self).subdivisions_view(),
            final(self).name_view() == old(self).name_view(),
            final(self).bundle_view() == old(self).bundle_view(),
            final(self).selected_view() == old(self).selected_view(),
    {
        if !self.dirty {
            return None;
        }
        match self.mesh_indices() {
            None => None,
            Some(indices) => {
                self.dirty = false;
                Some(indices)
            },
        }
    }
}

/// A rebuild depends only on the points, the side count and the subdivisions: a curve
/// restored with another's saved points and counts builds the same index buffer, and
/// starts due for that rebuild.
pub proof fn lemma_restored_rebuilds_same<P>(a: Curve<P>, r: Curve<P>)
    requires
        r.points_view() == a.points_view(),
        r.sides_view() == a.sides_view(),
        r.subdivisions_view() == a.subdivisions_view(),
    ensures
        r.rings() == a.rings(),
        r.fits() == a.fits(),
        tube(r.rings(), r.sides_view() as int) == tube(a.rings(), a.sides_view() as int),
{
}

} // verus!
