//! Settling a layout: the outputs are pulled together so that there is neither
//! gap nor overlap. A gap is dead space the pointer cannot cross, and an overlap
//! hides part of a screen.
//!
//! Lengths are whole numbers of 256ths of a pixel, the unit of the wire format.

use crate::order;
use vstd::prelude::*;
use vstd::relations::sorted_by;
use vstd::relations::total_ordering;
use vstd::seq_lib::group_to_multiset_ensures;

verus! {

/// A pixel.
pub const PIXEL: i64 = 256;

/// Half a pixel.
pub const HALF: i64 = 128;

/// The largest width or height of an output.
pub const LARGEST: i64 = 0x100_0000_0000;

/// How far from the origin an output may stand, for distances to be held in 64 bits.
pub const REACH: i64 = 0xf_f000_0000_0000;

/// An output in the layout.
#[derive(Clone, Copy, Debug, PartialEq, Eq)]
pub struct Tile {
    pub x: i64,
    pub y: i64,
    pub width: i64,
    pub height: i64,
    pub enabled: bool,
}

/// What a `Tile` says.
#[verifier::ext_equal]
pub struct Spot {
    pub x: int,
    pub y: int,
    pub width: int,
    pub height: int,
    pub enabled: bool,
}

impl View for Tile {
    type V = Spot;

    open spec fn view(&self) -> Spot {
        Spot {
            x: self.x as int,
            y: self.y as int,
            width: self.width as int,
            height: self.height as int,
            enabled: self.enabled,
        }
    }
}

/// What a layout says.
pub open spec fn spots(v: Seq<Tile>) -> Seq<Spot> {
    v.map_values(|t: Tile| t@)
}

/// A rectangle by its edges.
#[derive(Clone, Copy, Debug, PartialEq, Eq)]
pub struct Rect {
    pub left: i64,
    pub top: i64,
    pub right: i64,
    pub bottom: i64,
}

/// What a `Rect` says.
#[verifier::ext_equal]
pub struct Area {
    pub left: int,
    pub top: int,
    pub right: int,
    pub bottom: int,
}

impl View for Rect {
    type V = Area;

    open spec fn view(&self) -> Area {
        Area {
            left: self.left as int,
            top: self.top as int,
            right: self.right as int,
            bottom: self.bottom as int,
        }
    }
}

/// What a list of rectangles says.
pub open spec fn areas(v: Seq<Rect>) -> Seq<Area> {
    v.map_values(|r: Rect| r@)
}

impl Spot {
    /// The area that an output covers.
    pub open spec fn area(self) -> Area {
        Area {
            left: self.x,
            top: self.y,
            right: self.x + self.width,
            bottom: self.y + self.height,
        }
    }

    /// The output in another place.
    pub open spec fn at(self, x: int, y: int) -> Spot {
        Spot { x, y, ..self }
    }
}

/// The smaller of two.
pub open spec fn min(a: int, b: int) -> int {
    if a < b {
        a
    } else {
        b
    }
}

/// The larger of two.
pub open spec fn max(a: int, b: int) -> int {
    if a > b {
        a
    } else {
        b
    }
}

impl Area {
    /// The smallest area around two.
    pub open spec fn union(self, o: Area) -> Area {
        Area {
            left: min(self.left, o.left),
            top: min(self.top, o.top),
            right: max(self.right, o.right),
            bottom: max(self.bottom, o.bottom),
        }
    }

    /// Whether two areas share `d` or more in width and in height.
    pub open spec fn shares(self, o: Area, d: int) -> bool {
        &&& self.left + d <= o.right
        &&& o.left + d <= self.right
        &&& self.top + d <= o.bottom
        &&& o.top + d <= self.bottom
    }

    /// Whether two areas share a pixel or more in width and in height.
    pub open spec fn overlaps(self, o: Area) -> bool {
        self.shares(o, PIXEL as int)
    }

    /// Whether two areas stand edge to edge, to less than half a pixel, along a
    /// stretch.
    pub open spec fn touches(self, o: Area) -> bool {
        ||| (flush(self.right, o.left) || flush(o.right, self.left)) && self.level(o)
        ||| (flush(self.bottom, o.top) || flush(o.bottom, self.top)) && self.in_line(o)
    }

    /// Whether two areas stand edge to edge, to half a pixel, along a stretch.
    pub open spec fn meets(self, o: Area) -> bool {
        ||| (close(self.right, o.left) || close(o.right, self.left)) && self.level(o)
        ||| (close(self.bottom, o.top) || close(o.bottom, self.top)) && self.in_line(o)
    }

    /// Whether two areas stand edge to edge, with no gap at all, along a stretch.
    pub open spec fn adjoins(self, o: Area) -> bool {
        ||| (self.right == o.left || o.right == self.left) && self.level(o)
        ||| (self.bottom == o.top || o.bottom == self.top) && self.in_line(o)
    }

    /// Whether a horizontal line crosses both.
    pub open spec fn level(self, o: Area) -> bool {
        self.top < o.bottom && o.top < self.bottom
    }

    /// Whether a vertical line crosses both.
    pub open spec fn in_line(self, o: Area) -> bool {
        self.left < o.right && o.left < self.right
    }
}

/// Whether two coordinates are at most half a pixel apart.
pub open spec fn close(a: int, b: int) -> bool {
    -HALF <= a - b <= HALF
}

/// Whether two coordinates are less than half a pixel apart.
pub open spec fn flush(a: int, b: int) -> bool {
    -HALF < a - b < HALF
}

/// The smallest area around all of them.
pub open spec fn block(rs: Seq<Area>) -> Area
    decreases rs.len(),
{
    if rs.len() <= 1 {
        rs[0]
    } else {
        block(rs.drop_last()).union(rs.last())
    }
}

/// What an output can line up with: each output already placed, and the block
/// they form together.
pub open spec fn anchors(rs: Seq<Area>) -> Seq<Area> {
    if rs.len() > 1 {
        rs.push(block(rs))
    } else {
        rs
    }
}

/// The whole number whose square is the largest not above `n`.
pub open spec fn root(n: int) -> int {
    choose|r: int| is_root(n, r)
}

/// Whether `r` is the root of `n` without the fraction.
pub open spec fn is_root(n: int, r: int) -> bool {
    0 <= r && r * r <= n && n < (r + 1) * (r + 1)
}

/// How far apart two points are, given how far in each direction; in 256ths of the
/// unit, so that distances of whole pixels are told apart.
pub open spec fn distance(dx: int, dy: int) -> int {
    root((dx * dx + dy * dy) * 65536)
}

/// The value nearest to `v` between two bounds.
pub open spec fn clamp(v: int, low: int, high: int) -> int {
    if v < low {
        low
    } else if v > high {
        high
    } else {
        v
    }
}

/// A place to put an output.
#[derive(Clone, Copy, Debug, PartialEq, Eq)]
pub struct Candidate {
    pub x: i64,
    pub y: i64,
    /// Whether it lines up with an anchor's near edge, centre or far edge.
    pub aligned: bool,
}

/// What a `Candidate` says.
#[verifier::ext_equal]
pub struct Place {
    pub x: int,
    pub y: int,
    pub aligned: bool,
}

impl View for Candidate {
    type V = Place;

    open spec fn view(&self) -> Place {
        Place { x: self.x as int, y: self.y as int, aligned: self.aligned }
    }
}

/// What a list of candidates says.
pub open spec fn places(v: Seq<Candidate>) -> Seq<Place> {
    v.map_values(|c: Candidate| c@)
}

/// The places edge to edge with an anchor. Along the shared edge the output
/// either keeps its own offset, clamped so that the edge really overlaps, or
/// lines up with the anchor's near edge, centre or far edge.
pub open spec fn beside(a: Area, s: Spot) -> Seq<Place> {
    let free_y = clamp(s.y, a.top - s.height + PIXEL, a.bottom - PIXEL);
    let free_x = clamp(s.x, a.left - s.width + PIXEL, a.right - PIXEL);
    let y0 = a.top;
    let y1 = (a.top + a.bottom - s.height) / 2;
    let y2 = a.bottom - s.height;
    let x0 = a.left;
    let x1 = (a.left + a.right - s.width) / 2;
    let x2 = a.right - s.width;
    let right = a.right;
    let left = a.left - s.width;
    let below = a.bottom;
    let above = a.top - s.height;
    seq![
        Place { x: right, y: free_y, aligned: false },
        Place { x: right, y: y0, aligned: true },
        Place { x: right, y: y1, aligned: true },
        Place { x: right, y: y2, aligned: true },
        Place { x: left, y: free_y, aligned: false },
        Place { x: left, y: y0, aligned: true },
        Place { x: left, y: y1, aligned: true },
        Place { x: left, y: y2, aligned: true },
        Place { x: free_x, y: below, aligned: false },
        Place { x: x0, y: below, aligned: true },
        Place { x: x1, y: below, aligned: true },
        Place { x: x2, y: below, aligned: true },
        Place { x: free_x, y: above, aligned: false },
        Place { x: x0, y: above, aligned: true },
        Place { x: x1, y: above, aligned: true },
        Place { x: x2, y: above, aligned: true },
    ]
}

/// The places edge to edge with any of the anchors.
pub open spec fn all_places(anchors: Seq<Area>, s: Spot) -> Seq<Place>
    decreases anchors.len(),
{
    if anchors.len() == 0 {
        Seq::empty()
    } else {
        all_places(anchors.drop_last(), s) + beside(anchors.last(), s)
    }
}

/// The nearest whole pixel; halves go away from nought.
pub open spec fn whole(v: int) -> int {
    if v < 0 {
        -((-v + HALF) / (PIXEL as int) * PIXEL)
    } else {
        (v + HALF) / (PIXEL as int) * PIXEL
    }
}

/// The area that an output covers once it has been put in a place, on whole
/// pixels.
pub open spec fn landed(s: Spot, p: Place) -> Area {
    s.at(whole(p.x), whole(p.y)).area()
}

/// Whether an output put in a place meets one of the others and overlaps none.
pub open spec fn is_free(rs: Seq<Area>, s: Spot, p: Place) -> bool {
    &&& forall|i: int| 0 <= i < rs.len() ==> !landed(s, p).overlaps(#[trigger] rs[i])
    &&& exists|i: int| 0 <= i < rs.len() && landed(s, p).meets(#[trigger] rs[i])
}

/// What it costs to move an output to a place: the distance. An alignment is
/// always the longer move, so it only ever wins with a head start, which is what
/// makes it magnetic.
pub open spec fn cost(s: Spot, p: Place, sticky: int) -> int {
    distance(p.x - s.x, p.y - s.y) - (if p.aligned {
        sticky * 256
    } else {
        0
    })
}

/// The cheapest of the free places; of equals the first.
pub open spec fn cheapest(ps: Seq<Place>, rs: Seq<Area>, s: Spot, sticky: int) -> Option<Place>
    decreases ps.len(),
{
    if ps.len() == 0 {
        None
    } else {
        let best = cheapest(ps.drop_last(), rs, s, sticky);
        let p = ps.last();
        if is_free(rs, s, p) && (best is None || cost(s, p, sticky) < cost(s, best->0, sticky)) {
            Some(p)
        } else {
            best
        }
    }
}

/// The areas of some outputs of a layout.
pub open spec fn areas_of(l: Seq<Spot>, of: Seq<usize>) -> Seq<Area> {
    of.map_values(|i: usize| l[i as int].area())
}

/// Where to put output `i` so it touches the outputs already placed without
/// overlapping any of them, moving it as little as possible. Dropping it within
/// `sticky` of an alignment lands on that alignment instead.
pub open spec fn flush_place(l: Seq<Spot>, i: int, placed: Seq<usize>, sticky: int) -> Option<
    Place,
> {
    let rs = areas_of(l, placed);
    cheapest(all_places(anchors(rs), l[i]), rs, l[i], sticky)
}

/// The layout with output `i` put against the outputs already placed.
pub open spec fn put(l: Seq<Spot>, i: int, placed: Seq<usize>, sticky: int) -> Seq<Spot> {
    match flush_place(l, i, placed, sticky) {
        Some(p) => l.update(i, l[i].at(whole(p.x), whole(p.y))),
        None => l,
    }
}

/// Whether output `i` already touches one of the outputs placed and overlaps none.
pub open spec fn is_fitting(l: Seq<Spot>, i: int, placed: Seq<usize>) -> bool {
    let rs = areas_of(l, placed);
    &&& forall|k: int| 0 <= k < rs.len() ==> !l[i].area().overlaps(#[trigger] rs[k])
    &&& exists|k: int| 0 <= k < rs.len() && l[i].area().touches(#[trigger] rs[k])
}

/// How far the centres of two outputs are apart, in whole pixels.
pub open spec fn apart(a: Spot, b: Spot) -> int {
    let d = distance(
        (2 * a.x + a.width) - (2 * b.x + b.width),
        (2 * a.y + a.height) - (2 * b.y + b.height),
    ) / (2 * 256 * PIXEL);
    if d > i32::MAX {
        i32::MAX as int
    } else {
        d
    }
}

/// The order of outputs by their distance from output `from`; of equals the one
/// listed first.
pub open spec fn nearer(l: Seq<Spot>, from: int) -> spec_fn(usize, usize) -> bool {
    |a: usize, b: usize|
        apart(l[a as int], l[from]) < apart(l[b as int], l[from]) || (apart(l[a as int], l[from])
            == apart(l[b as int], l[from]) && a <= b)
}

/// The enabled outputs among the first `n`, but for one.
pub open spec fn others(l: Seq<Spot>, but: int, n: nat) -> Seq<usize>
    decreases n,
{
    if n == 0 {
        Seq::empty()
    } else {
        let before = others(l, but, (n - 1) as nat);
        if n - 1 != but && l[n - 1].enabled {
            before.push((n - 1) as usize)
        } else {
            before
        }
    }
}

/// The layout once the outputs in `order` are pulled in, one after the other,
/// where they do not fit already.
pub open spec fn pulled(l: Seq<Spot>, order: Seq<usize>, moved: usize, sticky: int) -> Seq<Spot>
    decreases order.len(),
{
    if order.len() == 0 {
        l
    } else {
        let before = pulled(l, order.drop_last(), moved, sticky);
        let placed = seq![moved] + order.drop_last();
        let i = order.last() as int;
        if is_fitting(before, i, placed) {
            before
        } else {
            put(before, i, placed, sticky)
        }
    }
}

/// The settled layout: the output that was just dropped lands against the layout
/// as a whole, which is what lets it centre on the block the others form. Then
/// whatever the move left dangling is pulled back in, nearest first.
pub open spec fn settled(l: Seq<Spot>, moved: usize, sticky: int) -> Seq<Spot> {
    let rest = others(l, moved as int, l.len());
    if rest.len() == 0 || !l[moved as int].enabled {
        l
    } else {
        let dropped = put(l, moved as int, rest, sticky);
        pulled(dropped, rest.sort_by(nearer(dropped, moved as int)), moved, sticky)
    }
}

/// A number has one root at most.
pub proof fn lemma_root_is(n: int, r: int)
    requires
        is_root(n, r),
    ensures
        root(n) == r,
{
    let c = root(n);
    assert(is_root(n, c));
    assert(c == r) by (nonlinear_arith)
        requires
            0 <= c,
            c * c <= n,
            n < (c + 1) * (c + 1),
            0 <= r,
            r * r <= n,
            n < (r + 1) * (r + 1),
    ;
}

/// The root without the fraction.
fn isqrt(n: u128) -> (r: u64)
    requires
        n <= 0x8000_0000_0000_0000_0000_0000_0000_0000,
    ensures
        is_root(n as int, r as int),
        r == root(n as int),
{
    let mut low: u128 = 0;
    let mut high: u128 = 0xc000_0000_0000_0000;
    assert(low * low == 0) by (nonlinear_arith)
        requires
            low == 0,
    ;
    assert(high * high == 0x9000_0000_0000_0000_0000_0000_0000_0000) by (nonlinear_arith)
        requires
            high == 0xc000_0000_0000_0000,
    ;
    while high - low > 1
        invariant
            0 <= low < high <= 0xc000_0000_0000_0000,
            low * low <= n,
            n < high * high,
        decreases high - low,
    {
        let mid: u128 = low + (high - low) / 2;
        assert(mid * mid <= 0x9000_0000_0000_0000_0000_0000_0000_0000) by (nonlinear_arith)
            requires
                0 <= mid <= 0xc000_0000_0000_0000,
        ;
        if mid * mid <= n {
            low = mid;
        } else {
            high = mid;
        }
    }
    assert(high == low + 1);
    proof {
        lemma_root_is(n as int, low as int);
    }
    low as u64
}

/// The square of a length.
fn square(d: i64) -> (r: u128)
    requires
        -0x80_0000_0000_0000 <= d <= 0x80_0000_0000_0000,
    ensures
        r == d * d,
        r <= 0x4000_0000_0000_0000_0000_0000_0000,
{
    let m: u128 = if d < 0 {
        (-d) as u128
    } else {
        d as u128
    };
    assert(m * m == d * d && m * m <= 0x4000_0000_0000_0000_0000_0000_0000)
        by (nonlinear_arith)
        requires
            m == d || m == -d,
            0 <= m <= 0x80_0000_0000_0000,
    ;
    m * m
}

/// How far apart two points are, in 256ths of the unit.
fn length(dx: i64, dy: i64) -> (r: u64)
    requires
        -0x80_0000_0000_0000 <= dx <= 0x80_0000_0000_0000,
        -0x80_0000_0000_0000 <= dy <= 0x80_0000_0000_0000,
    ensures
        r == distance(dx as int, dy as int),
        is_root((dx * dx + dy * dy) * 65536, r as int),
{
    isqrt((square(dx) + square(dy)) * 65536)
}

/// Points that are not far apart are at no great distance.
proof fn lemma_distance_bound(dx: int, dy: int, r: int)
    requires
        -0x28_0000_0000_0000 <= dx <= 0x28_0000_0000_0000,
        -0x28_0000_0000_0000 <= dy <= 0x28_0000_0000_0000,
        is_root((dx * dx + dy * dy) * 65536, r),
    ensures
        r <= 0x4000_0000_0000_0000,
{
    let n = dx * dx + dy * dy;
    assert(n <= 2 * (0x28_0000_0000_0000 * 0x28_0000_0000_0000)) by (nonlinear_arith)
        requires
            n == dx * dx + dy * dy,
            -0x28_0000_0000_0000 <= dx <= 0x28_0000_0000_0000,
            -0x28_0000_0000_0000 <= dy <= 0x28_0000_0000_0000,
    ;
    assert(r <= 0x4000_0000_0000_0000) by (nonlinear_arith)
        requires
            r * r <= n * 65536,
            n <= 2 * (0x28_0000_0000_0000 * 0x28_0000_0000_0000),
    ;
}

/// Whether an output stands within `b` of the origin and is no larger than an
/// output can be.
pub open spec fn is_near(s: Spot, b: int) -> bool {
    &&& -b <= s.x <= b
    &&& -b <= s.y <= b
    &&& -LARGEST <= s.width <= LARGEST
    &&& -LARGEST <= s.height <= LARGEST
}

/// Whether every output does.
pub open spec fn all_near(l: Seq<Spot>, b: int) -> bool {
    forall|i: int| 0 <= i < l.len() ==> is_near(#[trigger] l[i], b)
}

/// Whether an area stands within `b` of the origin.
pub open spec fn is_area_near(a: Area, b: int) -> bool {
    &&& -b <= a.left <= b
    &&& -b <= a.top <= b
    &&& -b <= a.right <= b
    &&& -b <= a.bottom <= b
}

/// Whether every area does.
pub open spec fn areas_near(rs: Seq<Area>, b: int) -> bool {
    forall|i: int| 0 <= i < rs.len() ==> is_area_near(#[trigger] rs[i], b)
}

/// The area that an output covers.
pub fn rect_of(t: &Tile) -> (r: Rect)
    requires
        is_near(t@, 0x10_0000_0000_0000),
    ensures
        r@ == t@.area(),
{
    Rect { left: t.x, top: t.y, right: t.x + t.width, bottom: t.y + t.height }
}

/// The areas of some outputs of a layout.
fn rects_of(l: &Vec<Tile>, of: &Vec<usize>) -> (r: Vec<Rect>)
    requires
        all_near(spots(l@), 0x10_0000_0000_0000),
        forall|k: int| 0 <= k < of@.len() ==> #[trigger] of@[k] < l@.len(),
    ensures
        areas(r@) == areas_of(spots(l@), of@),
{
    let mut r: Vec<Rect> = Vec::new();
    let n = of.len();
    for k in 0..n
        invariant
            n == of@.len(),
            all_near(spots(l@), 0x10_0000_0000_0000),
            forall|k: int| 0 <= k < of@.len() ==> #[trigger] of@[k] < l@.len(),
            r@.len() == k,
            forall|j: int| 0 <= j < k ==> (#[trigger] r@[j])@ == spots(l@)[of@[j] as int].area(),
    {
        assert(spots(l@)[of@[k as int] as int] == l@[of@[k as int] as int]@);
        r.push(rect_of(&l[of[k]]));
    }
    assert(areas(r@) == areas_of(spots(l@), of@));
    r
}

impl Rect {
    /// The smallest rectangle around two.
    pub fn union(&self, o: &Rect) -> (r: Rect)
        ensures
            r@ == self@.union(o@),
    {
        Rect {
            left: if self.left < o.left {
                self.left
            } else {
                o.left
            },
            top: if self.top < o.top {
                self.top
            } else {
                o.top
            },
            right: if self.right > o.right {
                self.right
            } else {
                o.right
            },
            bottom: if self.bottom > o.bottom {
                self.bottom
            } else {
                o.bottom
            },
        }
    }

    /// Whether two rectangles share a pixel or more in width and in height.
    pub fn overlaps(&self, o: &Rect) -> (r: bool)
        requires
            is_area_near(self@, 0x800_0000_0000_0000),
            is_area_near(o@, 0x800_0000_0000_0000),
        ensures
            r == self@.overlaps(o@),
    {
        self.left + PIXEL <= o.right && o.left + PIXEL <= self.right && self.top + PIXEL <= o.bottom
            && o.top + PIXEL <= self.bottom
    }

    /// Whether two rectangles stand edge to edge, to less than half a pixel, along
    /// a stretch.
    pub fn touches(&self, o: &Rect) -> (r: bool)
        requires
            is_area_near(self@, 0x800_0000_0000_0000),
            is_area_near(o@, 0x800_0000_0000_0000),
        ensures
            r == self@.touches(o@),
    {
        (is_flush(self.right, o.left) || is_flush(o.right, self.left)) && self.top < o.bottom
            && o.top < self.bottom || (is_flush(self.bottom, o.top) || is_flush(o.bottom, self.top))
            && self.left < o.right && o.left < self.right
    }

    /// Whether two rectangles stand edge to edge, to half a pixel, along a stretch.
    pub fn meets(&self, o: &Rect) -> (r: bool)
        requires
            is_area_near(self@, 0x800_0000_0000_0000),
            is_area_near(o@, 0x800_0000_0000_0000),
        ensures
            r == self@.meets(o@),
    {
        (is_close(self.right, o.left) || is_close(o.right, self.left)) && self.top < o.bottom
            && o.top < self.bottom || (is_close(self.bottom, o.top) || is_close(o.bottom, self.top))
            && self.left < o.right && o.left < self.right
    }
}

/// Whether two coordinates are less than half a pixel apart.
fn is_flush(a: i64, b: i64) -> (r: bool)
    requires
        -0x800_0000_0000_0000 <= a <= 0x800_0000_0000_0000,
        -0x800_0000_0000_0000 <= b <= 0x800_0000_0000_0000,
    ensures
        r == flush(a as int, b as int),
{
    -HALF < a - b && a - b < HALF
}

/// Whether two coordinates are at most half a pixel apart.
fn is_close(a: i64, b: i64) -> (r: bool)
    requires
        -0x800_0000_0000_0000 <= a <= 0x800_0000_0000_0000,
        -0x800_0000_0000_0000 <= b <= 0x800_0000_0000_0000,
    ensures
        r == close(a as int, b as int),
{
    -HALF <= a - b && a - b <= HALF
}

/// The block reaches as far as each of the areas, and no farther than they do.
proof fn lemma_block(rs: Seq<Area>, b: int)
    requires
        rs.len() > 0,
        areas_near(rs, b),
    ensures
        is_area_near(block(rs), b),
        forall|k: int|
            0 <= k < rs.len() ==> block(rs).left <= (#[trigger] rs[k]).left && block(rs).top
                <= rs[k].top && block(rs).right >= rs[k].right && block(rs).bottom >= rs[k].bottom,
    decreases rs.len(),
{
    if rs.len() > 1 {
        let init = rs.drop_last();
        assert forall|i: int| 0 <= i < init.len() implies is_area_near(#[trigger] init[i], b) by {
            assert(is_area_near(rs[i], b));
        }
        lemma_block(init, b);
        assert(is_area_near(rs[rs.len() - 1], b));
        assert forall|k: int| 0 <= k < rs.len() implies block(rs).left <= (#[trigger] rs[k]).left
            && block(rs).top <= rs[k].top && block(rs).right >= rs[k].right && block(rs).bottom
            >= rs[k].bottom by {
            if k < rs.len() - 1 {
                assert(init[k] == rs[k]);
            }
        }
    } else {
        assert(is_area_near(rs[0], b));
    }
}

/// The smallest rectangle around all of them.
fn block_of(rs: &Vec<Rect>) -> (r: Rect)
    requires
        rs@.len() > 0,
    ensures
        r@ == block(areas(rs@)),
{
    let mut r: Rect = rs[0];
    let n = rs.len();
    let ghost all = areas(rs@);
    let mut k: usize = 1;
    assert(block(all.take(1)) == all[0]);
    while k < n
        invariant
            n == rs@.len(),
            1 <= k <= n,
            all == areas(rs@),
            r@ == block(all.take(k as int)),
        decreases n - k,
    {
        assert(all.take(k + 1).drop_last() == all.take(k as int));
        assert(all.take(k + 1).last() == rs@[k as int]@);
        r = r.union(&rs[k]);
        k = k + 1;
    }
    assert(all.take(n as int) == all);
    r
}

/// What an output can line up with.
fn anchors_of(rs: &Vec<Rect>) -> (r: Vec<Rect>)
    ensures
        areas(r@) == anchors(areas(rs@)),
{
    let mut r: Vec<Rect> = Vec::new();
    let n = rs.len();
    for k in 0..n
        invariant
            n == rs@.len(),
            r@ == rs@.take(k as int),
    {
        r.push(rs[k]);
        assert(r@ == rs@.take(k + 1));
    }
    assert(r@ == rs@);
    if n > 1 {
        r.push(block_of(rs));
        assert(areas(r@) == areas(rs@).push(block(areas(rs@))));
    }
    r
}

/// The value nearest to `v` between two bounds.
fn clamped(v: i64, low: i64, high: i64) -> (r: i64)
    ensures
        r == clamp(v as int, low as int, high as int),
{
    if v < low {
        low
    } else if v > high {
        high
    } else {
        v
    }
}

/// Half of a number; halves go down.
fn half(v: i64) -> (r: i64)
    requires
        -0x4000_0000_0000_0000 <= v <= 0x4000_0000_0000_0000,
    ensures
        r == v as int / 2,
{
    if v < 0 {
        -((1 - v) / 2)
    } else {
        v / 2
    }
}

/// The nearest whole pixel; halves go away from nought.
fn to_whole(v: i64) -> (r: i64)
    requires
        -0x800_0000_0000_0000 <= v <= 0x800_0000_0000_0000,
    ensures
        r == whole(v as int),
        -128 <= r - v <= 128,
{
    if v < 0 {
        -((-v + 128) / 256 * 256)
    } else {
        (v + 128) / 256 * 256
    }
}

/// Whether an output and an area are wide and high enough to share a pixel of an
/// edge.
pub open spec fn is_roomy(a: Area, s: Spot) -> bool {
    &&& a.right - a.left + s.width >= 2 * PIXEL
    &&& a.bottom - a.top + s.height >= 2 * PIXEL
}

/// The places edge to edge with an anchor.
fn candidates_of(a: &Rect, t: &Tile) -> (r: Vec<Candidate>)
    requires
        is_area_near(a@, 0x10_0100_0000_0000),
        is_near(t@, 0x10_0000_0000_0000),
    ensures
        places(r@) == beside(a@, t@),
{
    let free_y: i64 = clamped(t.y, a.top - t.height + PIXEL, a.bottom - PIXEL);
    let free_x: i64 = clamped(t.x, a.left - t.width + PIXEL, a.right - PIXEL);
    let y0: i64 = a.top;
    let y1: i64 = half(a.top + a.bottom - t.height);
    let y2: i64 = a.bottom - t.height;
    let x0: i64 = a.left;
    let x1: i64 = half(a.left + a.right - t.width);
    let x2: i64 = a.right - t.width;
    let right: i64 = a.right;
    let left: i64 = a.left - t.width;
    let below: i64 = a.bottom;
    let above: i64 = a.top - t.height;
    let r = vec![
        Candidate { x: right, y: free_y, aligned: false },
        Candidate { x: right, y: y0, aligned: true },
        Candidate { x: right, y: y1, aligned: true },
        Candidate { x: right, y: y2, aligned: true },
        Candidate { x: left, y: free_y, aligned: false },
        Candidate { x: left, y: y0, aligned: true },
        Candidate { x: left, y: y1, aligned: true },
        Candidate { x: left, y: y2, aligned: true },
        Candidate { x: free_x, y: below, aligned: false },
        Candidate { x: x0, y: below, aligned: true },
        Candidate { x: x1, y: below, aligned: true },
        Candidate { x: x2, y: below, aligned: true },
        Candidate { x: free_x, y: above, aligned: false },
        Candidate { x: x0, y: above, aligned: true },
        Candidate { x: x1, y: above, aligned: true },
        Candidate { x: x2, y: above, aligned: true },
    ];
    assert(places(r@) =~= beside(a@, t@));
    r
}

/// The places edge to edge with any of the anchors.
fn candidates(anchors: &Vec<Rect>, t: &Tile) -> (r: Vec<Candidate>)
    requires
        areas_near(areas(anchors@), 0x10_0100_0000_0000),
        is_near(t@, 0x10_0000_0000_0000),
    ensures
        places(r@) == all_places(areas(anchors@), t@),
{
    let mut r: Vec<Candidate> = Vec::new();
    let n = anchors.len();
    let ghost all = areas(anchors@);
    assert(places(r@) =~= all_places(all.take(0), t@));
    for k in 0..n
        invariant
            n == anchors@.len(),
            all == areas(anchors@),
            areas_near(all, 0x10_0100_0000_0000),
            is_near(t@, 0x10_0000_0000_0000),
            places(r@) == all_places(all.take(k as int), t@),
    {
        assert(is_area_near(all[k as int], 0x10_0100_0000_0000));
        assert(all.take(k + 1).drop_last() == all.take(k as int));
        assert(all.take(k + 1).last() == anchors@[k as int]@);
        let mut more = candidates_of(&anchors[k], t);
        let ghost before = places(r@);
        let ghost added = places(more@);
        r.append(&mut more);
        assert(places(r@) =~= before + added);
    }
    assert(all.take(n as int) == all);
    r
}

/// Whether an output put in a place meets one of the others and overlaps none.
fn can_land(rs: &Vec<Rect>, t: &Tile, c: &Candidate) -> (r: bool)
    requires
        areas_near(areas(rs@), 0x10_0100_0000_0000),
        is_near(t@, 0x10_0000_0000_0000),
        -0x10_0400_0000_0000 <= c.x <= 0x10_0400_0000_0000,
        -0x10_0400_0000_0000 <= c.y <= 0x10_0400_0000_0000,
    ensures
        r == is_free(areas(rs@), t@, c@),
{
    let x: i64 = to_whole(c.x);
    let y: i64 = to_whole(c.y);
    let a = Rect { left: x, top: y, right: x + t.width, bottom: y + t.height };
    let ghost all = areas(rs@);
    assert(a@ == landed(t@, c@));
    let mut meeting = false;
    let n = rs.len();
    for k in 0..n
        invariant
            n == rs@.len(),
            all == areas(rs@),
            areas_near(all, 0x10_0100_0000_0000),
            is_area_near(a@, 0x800_0000_0000_0000),
            a@ == landed(t@, c@),
            forall|i: int| 0 <= i < k ==> !landed(t@, c@).overlaps(#[trigger] all[i]),
            meeting == exists|i: int| 0 <= i < k && landed(t@, c@).meets(#[trigger] all[i]),
    {
        assert(is_area_near(all[k as int], 0x10_0100_0000_0000));
        assert(all[k as int] == rs@[k as int]@);
        if a.overlaps(&rs[k]) {
            return false;
        }
        if a.meets(&rs[k]) {
            meeting = true;
        }
    }
    meeting
}

/// No place is much farther out than the anchors are.
proof fn lemma_places_near(anchors: Seq<Area>, s: Spot, b: int, z: int)
    requires
        areas_near(anchors, b),
        -z <= s.width <= z,
        -z <= s.height <= z,
    ensures
        forall|k: int|
            0 <= k < all_places(anchors, s).len() ==> {
                let p = #[trigger] all_places(anchors, s)[k];
                &&& -b - z - PIXEL <= p.x <= b + z + PIXEL
                &&& -b - z - PIXEL <= p.y <= b + z + PIXEL
            },
    decreases anchors.len(),
{
    if anchors.len() > 0 {
        let init = anchors.drop_last();
        assert forall|i: int| 0 <= i < init.len() implies is_area_near(#[trigger] init[i], b) by {
            assert(is_area_near(anchors[i], b));
        }
        lemma_places_near(init, s, b, z);
        let a = anchors.last();
        assert(is_area_near(anchors[anchors.len() - 1], b));
        let ps = all_places(anchors, s);
        let before = all_places(init, s);
        assert forall|k: int| 0 <= k < ps.len() implies {
            let p = #[trigger] ps[k];
            &&& -b - z - PIXEL <= p.x <= b + z + PIXEL
            &&& -b - z - PIXEL <= p.y <= b + z + PIXEL
        } by {
            if k < before.len() {
                assert(ps[k] == before[k]);
            } else {
                assert(ps[k] == beside(a, s)[k - before.len()]);
            }
        }
    }
}

/// Whether every output placed leaves room for a pixel of a shared edge with
/// output `i`.
pub open spec fn leaves_room(l: Seq<Spot>, i: int, placed: Seq<usize>) -> bool {
    forall|k: int|
        0 <= k < placed.len() ==> is_roomy(l[#[trigger] placed[k] as int].area(), l[i])
}

/// Whether there is room for each of the outputs in `order` that has to be pulled
/// in, when its turn comes.
pub open spec fn has_room(l: Seq<Spot>, order: Seq<usize>, moved: usize, sticky: int) -> bool
    decreases order.len(),
{
    order.len() == 0 || {
        let before = pulled(l, order.drop_last(), moved, sticky);
        let placed = seq![moved] + order.drop_last();
        let i = order.last() as int;
        &&& has_room(l, order.drop_last(), moved, sticky)
        &&& is_fitting(before, i, placed) || leaves_room(before, i, placed)
    }
}

/// Whether there is room for every output that settling puts in place.
pub open spec fn can_be_settled(l: Seq<Spot>, moved: usize, sticky: int) -> bool {
    let rest = others(l, moved as int, l.len());
    rest.len() == 0 || !l[moved as int].enabled || {
        let dropped = put(l, moved as int, rest, sticky);
        &&& leaves_room(l, moved as int, rest)
        &&& has_room(dropped, rest.sort_by(nearer(dropped, moved as int)), moved, sticky)
    }
}

/// Whether a layout can be settled: there is room for every output, and no output
/// is too far out before or after.
pub open spec fn is_settleable(l: Seq<Spot>, moved: usize, sticky: int) -> bool {
    &&& all_near(l, REACH as int)
    &&& all_near(settled(l, moved, sticky), REACH as int)
    &&& can_be_settled(l, moved, sticky)
}

/// Where to put output `i` so it touches the outputs already placed without
/// overlapping any of them, moving it as little as possible. Dropping it within
/// `sticky` of an alignment (edges flush, centres in line, or centred on the whole
/// block of the others) lands on that alignment instead.
pub fn flush_position(l: &Vec<Tile>, i: usize, placed: &Vec<usize>, sticky: i64) -> (r: Option<
    Candidate,
>)
    requires
        i < l@.len(),
        all_near(spots(l@), 0x10_0000_0000_0000),
        forall|k: int| 0 <= k < placed@.len() ==> #[trigger] placed@[k] < l@.len(),
        leaves_room(spots(l@), i as int, placed@),
        -0x10_0000_0000_0000 <= sticky <= 0x10_0000_0000_0000,
    ensures
        match r {
            Some(c) => flush_place(spots(l@), i as int, placed@, sticky as int) == Some(c@),
            None => flush_place(spots(l@), i as int, placed@, sticky as int) is None,
        },
{
    let ghost s = spots(l@)[i as int];
    let t = l[i];
    assert(t@ == s);
    let rs = rects_of(l, placed);
    let ghost all = areas(rs@);
    let ghost c: int = 0x10_0100_0000_0000;
    assert(areas_near(all, c)) by {
        assert forall|k: int| 0 <= k < all.len() implies is_area_near(#[trigger] all[k], c) by {
            assert(all[k] == spots(l@)[placed@[k] as int].area());
            assert(is_near(spots(l@)[placed@[k] as int], 0x10_0000_0000_0000));
        }
    }
    let marks = anchors_of(&rs);
    proof {
        if all.len() > 0 {
            lemma_block(all, c);
        }
        assert forall|k: int| 0 <= k < anchors(all).len() implies is_area_near(
            #[trigger] anchors(all)[k],
            c,
        ) by {
            if k < all.len() {
                assert(anchors(all)[k] == all[k]);
            }
        }
    }
    let cs = candidates(&marks, &t);
    let ghost ps = places(cs@);
    proof {
        lemma_places_near(anchors(all), s, c, LARGEST as int);
    }
    let mut best: Option<Candidate> = None;
    let mut lowest: i64 = 0;
    let n = cs.len();
    assert(ps.take(0) == Seq::<Place>::empty());
    for k in 0..n
        invariant
            n == cs@.len(),
            ps == places(cs@),
            ps == all_places(anchors(all), s),
            t@ == s,
            is_near(s, 0x10_0000_0000_0000),
            all == areas(rs@),
            areas_near(all, 0x10_0100_0000_0000),
            -0x10_0000_0000_0000 <= sticky <= 0x10_0000_0000_0000,
            forall|k: int|
                0 <= k < ps.len() ==> {
                    let p = #[trigger] ps[k];
                    &&& -0x10_0400_0000_0000 <= p.x <= 0x10_0400_0000_0000
                    &&& -0x10_0400_0000_0000 <= p.y <= 0x10_0400_0000_0000
                },
            match best {
                Some(c) => cheapest(ps.take(k as int), all, s, sticky as int) == Some(c@) && lowest
                    == cost(s, c@, sticky as int),
                None => cheapest(ps.take(k as int), all, s, sticky as int) is None,
            },
    {
        let c = cs[k];
        assert(c@ == ps[k as int]);
        assert(ps.take(k + 1).drop_last() == ps.take(k as int));
        assert(ps.take(k + 1).last() == c@);
        if can_land(&rs, &t, &c) {
            let far: u64 = length(c.x - t.x, c.y - t.y);
            proof {
                lemma_distance_bound(c.x - t.x, c.y - t.y, far as int);
            }
            let price: i64 = far as i64 - (if c.aligned {
                sticky * 256
            } else {
                0
            });
            let better = match best {
                Some(_) => price < lowest,
                None => true,
            };
            if better {
                best = Some(c);
                lowest = price;
            }
        }
    }
    assert(ps.take(n as int) == ps);
    best
}

/// A place is chosen only from the places there are.
proof fn lemma_cheapest_is_free(ps: Seq<Place>, rs: Seq<Area>, s: Spot, sticky: int)
    ensures
        cheapest(ps, rs, s, sticky) is Some ==> is_free(rs, s, cheapest(ps, rs, s, sticky)->0)
            && ps.contains(cheapest(ps, rs, s, sticky)->0),
    decreases ps.len(),
{
    if ps.len() > 0 {
        let init = ps.drop_last();
        lemma_cheapest_is_free(init, rs, s, sticky);
        if init.contains(cheapest(init, rs, s, sticky)->0) {
            let k = choose|k: int|
                0 <= k < init.len() && init[k] == cheapest(init, rs, s, sticky)->0;
            assert(ps[k] == cheapest(init, rs, s, sticky)->0);
        }
        assert(ps[ps.len() - 1] == ps.last());
    }
}

/// Whether no output is larger than `z`.
pub open spec fn no_larger(l: Seq<Spot>, z: int) -> bool {
    forall|i: int|
        0 <= i < l.len() ==> -z <= (#[trigger] l[i]).width <= z && -z <= l[i].height <= z
}

/// How much farther out a layout of outputs no larger than `z` may be for every
/// output that is put in place.
pub open spec fn growth(z: int) -> int {
    2 * z + 2 * PIXEL
}

/// The place chosen is one there is, free, and not much farther out than the
/// layout.
proof fn lemma_flush_place(l: Seq<Spot>, i: int, placed: Seq<usize>, sticky: int, b: int, z: int)
    requires
        0 <= i < l.len(),
        all_near(l, b),
        no_larger(l, z),
        b >= 0,
        forall|k: int| 0 <= k < placed.len() ==> #[trigger] placed[k] < l.len(),
    ensures
        flush_place(l, i, placed, sticky) matches Some(p) ==> {
            &&& is_free(areas_of(l, placed), l[i], p)
            &&& all_places(anchors(areas_of(l, placed)), l[i]).contains(p)
            &&& -b - 2 * z - PIXEL <= p.x <= b + 2 * z + PIXEL
            &&& -b - 2 * z - PIXEL <= p.y <= b + 2 * z + PIXEL
        },
{
    let rs = areas_of(l, placed);
    let c = b + z;
    assert(is_near(l[i], b));
    assert forall|k: int| 0 <= k < rs.len() implies is_area_near(#[trigger] rs[k], c) by {
        assert(is_near(l[placed[k] as int], b));
        assert(rs[k] == l[placed[k] as int].area());
    }
    if rs.len() > 0 {
        lemma_block(rs, c);
    }
    assert forall|k: int| 0 <= k < anchors(rs).len() implies is_area_near(
        #[trigger] anchors(rs)[k],
        c,
    ) by {
        if k < rs.len() {
            assert(anchors(rs)[k] == rs[k]);
        }
    }
    lemma_places_near(anchors(rs), l[i], c, z);
    lemma_cheapest_is_free(all_places(anchors(rs), l[i]), rs, l[i], sticky);
}

/// Putting an output in place moves no other, and takes it not much farther out
/// than the layout was.
proof fn lemma_put(l: Seq<Spot>, i: int, placed: Seq<usize>, sticky: int, b: int, z: int)
    requires
        0 <= i < l.len(),
        all_near(l, b),
        no_larger(l, z),
        b >= 0,
        forall|k: int| 0 <= k < placed.len() ==> #[trigger] placed[k] < l.len(),
    ensures
        put(l, i, placed, sticky).len() == l.len(),
        forall|j: int|
            0 <= j < l.len() && j != i ==> #[trigger] put(l, i, placed, sticky)[j] == l[j],
        put(l, i, placed, sticky)[i].width == l[i].width,
        put(l, i, placed, sticky)[i].height == l[i].height,
        put(l, i, placed, sticky)[i].enabled == l[i].enabled,
        all_near(put(l, i, placed, sticky), b + growth(z)),
        no_larger(put(l, i, placed, sticky), z),
{
    lemma_flush_place(l, i, placed, sticky, b, z);
    let to = put(l, i, placed, sticky);
    assert(0 <= z) by {
        assert(-z <= l[i].width <= z);
    }
    assert forall|j: int| 0 <= j < to.len() implies is_near(#[trigger] to[j], b + growth(z)) by {
        assert(is_near(l[j], b));
    }
    assert forall|j: int| 0 <= j < to.len() implies -z <= (#[trigger] to[j]).width <= z && -z
        <= to[j].height <= z by {
        assert(-z <= l[j].width <= z);
    }
}

/// Puts output `i` against the outputs already placed.
pub fn place(l: &mut Vec<Tile>, i: usize, placed: &Vec<usize>, sticky: i64)
    requires
        i < old(l)@.len(),
        all_near(spots(old(l)@), REACH as int),
        forall|k: int| 0 <= k < placed@.len() ==> #[trigger] placed@[k] < old(l)@.len(),
        leaves_room(spots(old(l)@), i as int, placed@),
        -0x10_0000_0000_0000 <= sticky <= 0x10_0000_0000_0000,
    ensures
        spots(final(l)@) == put(spots(old(l)@), i as int, placed@, sticky as int),
{
    assert forall|k: int| 0 <= k < spots(l@).len() implies is_near(
        #[trigger] spots(l@)[k],
        0x10_0000_0000_0000,
    ) by {
        assert(is_near(spots(old(l)@)[k], REACH as int));
    }
    proof {
        lemma_no_larger(spots(l@), REACH as int);
        lemma_flush_place(
            spots(l@),
            i as int,
            placed@,
            sticky as int,
            REACH as int,
            LARGEST as int,
        );
    }
    match flush_position(l, i, placed, sticky) {
        Some(c) => {
            let mut t = l[i];
            t.x = to_whole(c.x);
            t.y = to_whole(c.y);
            l.set(i, t);
            assert(spots(l@) =~= put(spots(old(l)@), i as int, placed@, sticky as int));
        },
        None => {},
    }
}

/// Whether output `i` already touches one of the outputs placed and overlaps none.
pub fn fits(l: &Vec<Tile>, i: usize, placed: &Vec<usize>) -> (r: bool)
    requires
        i < l@.len(),
        all_near(spots(l@), 0x10_0000_0000_0000),
        forall|k: int| 0 <= k < placed@.len() ==> #[trigger] placed@[k] < l@.len(),
    ensures
        r == is_fitting(spots(l@), i as int, placed@),
{
    let ghost s = spots(l@);
    let ghost all = areas_of(s, placed@);
    assert(is_near(s[i as int], 0x10_0000_0000_0000));
    assert(s[i as int] == l@[i as int]@);
    let a = rect_of(&l[i]);
    let mut touching = false;
    let n = placed.len();
    for k in 0..n
        invariant
            n == placed@.len(),
            s == spots(l@),
            all == areas_of(s, placed@),
            all_near(s, 0x10_0000_0000_0000),
            forall|k: int| 0 <= k < placed@.len() ==> #[trigger] placed@[k] < l@.len(),
            is_area_near(a@, 0x800_0000_0000_0000),
            a@ == s[i as int].area(),
            forall|j: int| 0 <= j < k ==> !s[i as int].area().overlaps(#[trigger] all[j]),
            touching == exists|j: int|
                0 <= j < k && s[i as int].area().touches(#[trigger] all[j]),
    {
        let p: usize = placed[k];
        assert(is_near(s[p as int], 0x10_0000_0000_0000));
        assert(s[p as int] == l@[p as int]@);
        let b = rect_of(&l[p]);
        assert(b@ == all[k as int]);
        if a.overlaps(&b) {
            return false;
        }
        if a.touches(&b) {
            touching = true;
        }
    }
    touching
}

/// How far the centres of two outputs are apart, in whole pixels.
fn gap(a: &Tile, b: &Tile) -> (r: u64)
    requires
        is_near(a@, 0x10_0000_0000_0000),
        is_near(b@, 0x10_0000_0000_0000),
    ensures
        r == apart(a@, b@),
{
    let d: u64 = length(
        (2 * a.x + a.width) - (2 * b.x + b.width),
        (2 * a.y + a.height) - (2 * b.y + b.height),
    ) / 0x2_0000;
    if d > 0x7fff_ffff {
        0x7fff_ffff
    } else {
        d
    }
}

/// Distances put the outputs in total order.
proof fn lemma_nearer(l: Seq<Spot>, from: int)
    ensures
        total_ordering(nearer(l, from)),
{
    let le = nearer(l, from);
    assert forall|a: usize| #[trigger] le(a, a) by {}
    assert forall|a: usize, b: usize| #[trigger] le(a, b) && #[trigger] le(b, a) implies a
        == b by {}
    assert forall|a: usize, b: usize, c: usize| #[trigger] le(a, b) && #[trigger] le(b, c) implies le(
        a,
        c,
    ) by {}
    assert forall|a: usize, b: usize| #[trigger] le(a, b) || #[trigger] le(b, a) by {}
}

/// The outputs in order of their distance from output `from`, nearest first.
fn by_distance(l: &Vec<Tile>, of: &Vec<usize>, from: usize) -> (r: Vec<usize>)
    requires
        from < l@.len(),
        all_near(spots(l@), 0x10_0000_0000_0000),
        forall|k: int| 0 <= k < of@.len() ==> #[trigger] of@[k] < l@.len(),
    ensures
        r@ == of@.sort_by(nearer(spots(l@), from as int)),
{
    let mut r: Vec<usize> = Vec::new();
    let ghost s = spots(l@);
    let ghost le = nearer(s, from as int);
    proof {
        lemma_nearer(s, from as int);
        assert(of@.take(0) == r@);
    }
    let n = of.len();
    for i in 0..n
        invariant
            n == of@.len(),
            from < l@.len(),
            s == spots(l@),
            all_near(s, 0x10_0000_0000_0000),
            forall|k: int| 0 <= k < of@.len() ==> #[trigger] of@[k] < l@.len(),
            le == nearer(s, from as int),
            total_ordering(le),
            sorted_by(r@, le),
            r@.to_multiset() == of@.take(i as int).to_multiset(),
            forall|k: int| 0 <= k < r@.len() ==> #[trigger] r@[k] < l@.len(),
    {
        let x: usize = of[i];
        assert(is_near(s[x as int], 0x10_0000_0000_0000));
        assert(is_near(s[from as int], 0x10_0000_0000_0000));
        let d: u64 = gap(&l[x], &l[from]);
        let mut p: usize = 0;
        let mut found = false;
        while p < r.len() && !found
            invariant
                x < l@.len(),
                from < l@.len(),
                s == spots(l@),
                all_near(s, 0x10_0000_0000_0000),
                forall|k: int| 0 <= k < r@.len() ==> #[trigger] r@[k] < l@.len(),
                d == apart(s[x as int], s[from as int]),
                p <= r@.len(),
                le == nearer(s, from as int),
                forall|j: int| 0 <= j < p ==> le(#[trigger] r@[j], x),
                found ==> p < r@.len() && !le(r@[p as int], x),
            decreases r@.len() - p + (if found { 0int } else { 1 }),
        {
            let y: usize = r[p];
            assert(is_near(s[y as int], 0x10_0000_0000_0000));
            assert(is_near(s[from as int], 0x10_0000_0000_0000));
            let e: u64 = gap(&l[y], &l[from]);
            if e < d || (e == d && y <= x) {
                p = p + 1;
            } else {
                found = true;
            }
        }
        let ghost before = r@;
        proof {
            assert forall|j: int| p <= j < before.len() implies le(x, #[trigger] before[j]) by {
                assert(!le(before[p as int], x));
                assert(le(x, before[p as int]));
                if j > p {
                    assert(le(before[p as int], before[j]));
                }
            }
            order::lemma_insert_sorted(before, p as int, x, le);
        }
        r.insert(p, x);
        proof {
            broadcast use group_to_multiset_ensures;

            assert(of@.take(i + 1) == of@.take(i as int).push(x));
            assert(of@.take(i as int).push(x).to_multiset() == of@.take(
                i as int,
            ).to_multiset().insert(x));
        }
    }
    proof {
        assert(of@.take(n as int) == of@);
        order::lemma_sorted_is(of@, r@, le);
    }
    r
}

/// The enabled outputs but for one, each once and in order.
proof fn lemma_others(l: Seq<Spot>, but: int, n: nat)
    requires
        n <= l.len(),
        l.len() <= usize::MAX,
    ensures
        others(l, but, n).no_duplicates(),
        others(l, but, n).len() <= n,
        forall|e: usize|
            #[trigger] others(l, but, n).contains(e) <==> e < n && e != but && l[e as int].enabled,
    decreases n,
{
    if n > 0 {
        let m = (n - 1) as nat;
        lemma_others(l, but, m);
        let before = others(l, but, m);
        let r = others(l, but, n);
        let x = m as usize;
        if m != but && l[m as int].enabled {
            assert(r == before.push(x));
            assert(!before.contains(x));
            assert forall|e: usize| #[trigger] r.contains(e) <==> e < n && e != but
                && l[e as int].enabled by {
                if before.contains(e) {
                    let k = choose|k: int| 0 <= k < before.len() && before[k] == e;
                    assert(r[k] == e);
                }
                if e == x {
                    assert(r[before.len() as int] == e);
                }
                if r.contains(e) && e != x {
                    let k = choose|k: int| 0 <= k < r.len() && r[k] == e;
                    assert(before[k] == e);
                }
            }
            assert forall|a: int, b: int| 0 <= a < r.len() && 0 <= b < r.len() && a != b implies r[a]
                != r[b] by {
                if a < before.len() {
                    assert(before.contains(before[a]));
                }
                if b < before.len() {
                    assert(before.contains(before[b]));
                }
            }
        }
    }
}

/// The enabled outputs but for one.
fn enabled_but(l: &Vec<Tile>, but: usize) -> (r: Vec<usize>)
    ensures
        r@ == others(spots(l@), but as int, l@.len()),
{
    let mut r: Vec<usize> = Vec::new();
    let n = l.len();
    for i in 0..n
        invariant
            n == l@.len(),
            r@ == others(spots(l@), but as int, i as nat),
    {
        assert(spots(l@)[i as int] == l@[i as int]@);
        if i != but && l[i].enabled {
            r.push(i);
        }
    }
    r
}

/// Whether two layouts are of the same outputs, each as large and as enabled in
/// the one as in the other.
pub open spec fn same_outputs(a: Seq<Spot>, b: Seq<Spot>) -> bool {
    &&& a.len() == b.len()
    &&& forall|i: int|
        0 <= i < a.len() ==> (#[trigger] a[i]).width == b[i].width && a[i].height == b[i].height
            && a[i].enabled == b[i].enabled
}

/// Whether any two enabled outputs are large enough to share a pixel of an edge.
pub open spec fn all_roomy(l: Seq<Spot>) -> bool {
    forall|i: int, j: int|
        #![trigger l[i], l[j]]
        0 <= i < l.len() && 0 <= j < l.len() && i != j && l[i].enabled && l[j].enabled ==> is_roomy(
            l[j].area(),
            l[i],
        )
}

/// The order in which the outputs are pulled in: each enabled one but the one
/// moved, once.
pub open spec fn is_pull_order(l: Seq<Spot>, moved: usize, order: Seq<usize>) -> bool {
    &&& order.no_duplicates()
    &&& forall|e: usize| #[trigger]
        order.contains(e) <==> e < l.len() && e != moved && l[e as int].enabled
}

/// Sorting the others by distance gives such an order.
proof fn lemma_pull_order(l: Seq<Spot>, m: Seq<Spot>, moved: usize)
    requires
        l.len() <= usize::MAX,
    ensures
        is_pull_order(
            l,
            moved,
            others(l, moved as int, l.len()).sort_by(nearer(m, moved as int)),
        ),
        others(l, moved as int, l.len()).sort_by(nearer(m, moved as int)).len() == others(
            l,
            moved as int,
            l.len(),
        ).len(),
{
    broadcast use group_to_multiset_ensures;

    let rest = others(l, moved as int, l.len());
    let le = nearer(m, moved as int);
    lemma_others(l, moved as int, l.len());
    lemma_nearer(m, moved as int);
    rest.lemma_sort_by_ensures(le);
    let r = rest.sort_by(le);
    rest.lemma_multiset_has_no_duplicates();
    r.lemma_multiset_has_no_duplicates_conv();
    assert(r.to_multiset().len() == rest.to_multiset().len());
    assert forall|e: usize| #[trigger] r.contains(e) <==> rest.contains(e) by {
        assert(r.to_multiset().count(e) == rest.to_multiset().count(e));
    }
}

/// One more output pulled in.
proof fn lemma_pulled_step(l: Seq<Spot>, order: Seq<usize>, k: int, moved: usize, sticky: int)
    requires
        0 <= k < order.len(),
    ensures
        pulled(l, order.take(k + 1), moved, sticky) == ({
            let before = pulled(l, order.take(k), moved, sticky);
            let placed = seq![moved] + order.take(k);
            if is_fitting(before, order[k] as int, placed) {
                before
            } else {
                put(before, order[k] as int, placed, sticky)
            }
        }),
{
    assert(order.take(k + 1).drop_last() == order.take(k));
    assert(order.take(k + 1).last() == order[k]);
}

/// What is in turn, and what was before it, is in the layout, and in its own place.
proof fn lemma_turn(l: Seq<Spot>, order: Seq<usize>, k: int, moved: usize)
    requires
        moved < l.len(),
        is_pull_order(l, moved, order),
        0 <= k < order.len(),
    ensures
        order[k] < l.len(),
        forall|j: int|
            0 <= j < k + 1 ==> #[trigger] (seq![moved] + order.take(k))[j] < l.len() && (seq![
                moved,
            ] + order.take(k))[j] != order[k],
{
    let placed = seq![moved] + order.take(k);
    assert(order.contains(order[k]));
    assert forall|j: int| 0 <= j < placed.len() implies #[trigger] placed[j] < l.len() && placed[j]
        != order[k] by {
        if j > 0 {
            assert(placed[j] == order[j - 1]);
            assert(order.contains(order[j - 1]));
            assert(order[j - 1] != order[k]);
        }
    }
}

/// Room for all is room for each in turn.
proof fn lemma_room(l: Seq<Spot>, order: Seq<usize>, k: int, moved: usize, sticky: int)
    requires
        0 <= k <= order.len(),
        has_room(l, order, moved, sticky),
    ensures
        has_room(l, order.take(k), moved, sticky),
    decreases order.len(),
{
    if k == order.len() {
        assert(order.take(k) == order);
    } else {
        lemma_room(l, order.drop_last(), k, moved, sticky);
        assert(order.drop_last().take(k) == order.take(k));
    }
}

/// Room for one more.
proof fn lemma_room_step(l: Seq<Spot>, order: Seq<usize>, k: int, moved: usize, sticky: int)
    requires
        0 <= k < order.len(),
    ensures
        has_room(l, order.take(k + 1), moved, sticky) == ({
            let before = pulled(l, order.take(k), moved, sticky);
            let placed = seq![moved] + order.take(k);
            &&& has_room(l, order.take(k), moved, sticky)
            &&& is_fitting(before, order[k] as int, placed) || leaves_room(
                before,
                order[k] as int,
                placed,
            )
        }),
{
    assert(order.take(k + 1).drop_last() == order.take(k));
    assert(order.take(k + 1).last() == order[k]);
}

/// Whether every output placed leaves room for a pixel of a shared edge with
/// output `i`.
fn room_for(l: &Vec<Tile>, i: usize, placed: &Vec<usize>) -> (r: bool)
    requires
        i < l@.len(),
        all_near(spots(l@), 0x10_0000_0000_0000),
        forall|k: int| 0 <= k < placed@.len() ==> #[trigger] placed@[k] < l@.len(),
    ensures
        r == leaves_room(spots(l@), i as int, placed@),
{
    let ghost s = spots(l@);
    let n = placed.len();
    for k in 0..n
        invariant
            n == placed@.len(),
            i < l@.len(),
            s == spots(l@),
            all_near(s, 0x10_0000_0000_0000),
            forall|k: int| 0 <= k < placed@.len() ==> #[trigger] placed@[k] < l@.len(),
            forall|j: int|
                0 <= j < k ==> is_roomy(s[#[trigger] placed@[j] as int].area(), s[i as int]),
    {
        let p: usize = placed[k];
        assert(is_near(s[p as int], 0x10_0000_0000_0000));
        assert(is_near(s[i as int], 0x10_0000_0000_0000));
        assert(s[p as int] == l@[p as int]@ && s[i as int] == l@[i as int]@);
        if l[p].width + l[i].width < 512 || l[p].height + l[i].height < 512 {
            assert(!is_roomy(s[placed@[k as int] as int].area(), s[i as int]));
            return false;
        }
    }
    true
}

/// Whether an output stands within reach and is no larger than an output can be.
fn within_reach(t: &Tile) -> (r: bool)
    ensures
        r == is_near(t@, REACH as int),
{
    -REACH <= t.x && t.x <= REACH && -REACH <= t.y && t.y <= REACH && -LARGEST <= t.width
        && t.width <= LARGEST && -LARGEST <= t.height && t.height <= LARGEST
}

/// A copy of a layout, if it is not too far out.
fn copy_within_reach(l: &Vec<Tile>) -> (r: Option<Vec<Tile>>)
    ensures
        match r {
            Some(v) => v@ == l@ && all_near(spots(l@), REACH as int),
            None => !all_near(spots(l@), REACH as int),
        },
{
    let ghost s = spots(l@);
    let n = l.len();
    let mut r: Vec<Tile> = Vec::new();
    for i in 0..n
        invariant
            n == l@.len(),
            s == spots(l@),
            r@ == l@.take(i as int),
            forall|k: int| 0 <= k < i ==> is_near(#[trigger] s[k], REACH as int),
    {
        assert(s[i as int] == l@[i as int]@);
        if !within_reach(&l[i]) {
            assert(!is_near(s[i as int], REACH as int));
            return None;
        }
        r.push(l[i]);
        assert(r@ == l@.take(i + 1));
    }
    assert(r@ == l@);
    Some(r)
}

/// Putting an output in place moves no other.
proof fn lemma_put_moves_one(l: Seq<Spot>, i: int, placed: Seq<usize>, sticky: int, x: int)
    requires
        0 <= i < l.len(),
        0 <= x < l.len(),
        x != i,
    ensures
        put(l, i, placed, sticky)[x] == l[x],
{
}

/// An output that is not in turn stays where it is.
proof fn lemma_stays(
    l: Seq<Spot>,
    order: Seq<usize>,
    k: int,
    m: int,
    moved: usize,
    sticky: int,
    x: usize,
)
    requires
        0 <= k <= m <= order.len(),
        x < l.len(),
        forall|j: int| k <= j < m ==> order[j] != x,
        forall|j: int| 0 <= j < order.len() ==> #[trigger] order[j] < l.len(),
    ensures
        pulled(l, order.take(m), moved, sticky)[x as int] == pulled(
            l,
            order.take(k),
            moved,
            sticky,
        )[x as int],
    decreases m,
{
    if k < m {
        lemma_stays(l, order, k, m - 1, moved, sticky, x);
        lemma_pulled_step(l, order, m - 1, moved, sticky);
        assert(order[m - 1] != x);
        let done = order.take(m - 1);
        let before = pulled(l, done, moved, sticky);
        assert forall|j: int| 0 <= j < done.len() implies #[trigger] done[j] < l.len() by {
            assert(order[j] < l.len());
        }
        lemma_pulled(l, done, moved, sticky);
        lemma_put_moves_one(before, order[m - 1] as int, seq![moved] + done, sticky, x as int);
    }
}

/// An output that was put too far out is still there in the end.
proof fn lemma_too_far(
    l: Seq<Spot>,
    order: Seq<usize>,
    k: int,
    moved: usize,
    sticky: int,
    x: usize,
)
    requires
        0 <= k <= order.len(),
        x < l.len(),
        forall|j: int| k <= j < order.len() ==> order[j] != x,
        forall|j: int| 0 <= j < order.len() ==> #[trigger] order[j] < l.len(),
        !is_near(pulled(l, order.take(k), moved, sticky)[x as int], REACH as int),
    ensures
        !all_near(pulled(l, order, moved, sticky), REACH as int),
{
    let n = order.len() as int;
    assert(order.take(n) == order);
    lemma_stays(l, order, k, n, moved, sticky, x);
    lemma_pulled(l, order, moved, sticky);
    assert(!is_near(pulled(l, order, moved, sticky)[x as int], REACH as int));
}

/// Pulls the enabled outputs together so the layout is gapless and free of
/// overlap, and says whether it did. `moved` is the output that was just dropped,
/// so it goes first and everything else keeps its position if it already fits.
pub fn try_settle(l: &mut Vec<Tile>, moved: usize, sticky: i64) -> (r: bool)
    requires
        moved < old(l)@.len(),
        -0x10_0000_0000_0000 <= sticky <= 0x10_0000_0000_0000,
    ensures
        r == is_settleable(spots(old(l)@), moved, sticky as int),
        r ==> spots(final(l)@) == settled(spots(old(l)@), moved, sticky as int),
        !r ==> *final(l) == *old(l),
{
    let ghost start = spots(l@);
    let mut work = match copy_within_reach(l) {
        Some(v) => v,
        None => {
            return false;
        },
    };
    assert(start.len() == work.len());
    let rest = enabled_but(&work, moved);
    assert(start[moved as int] == work@[moved as int]@);
    if rest.len() == 0 || !work[moved].enabled {
        return true;
    }
    proof {
        lemma_others(start, moved as int, start.len());
        assert forall|k: int| 0 <= k < rest@.len() implies #[trigger] rest@[k] < start.len() by {
            assert(rest@.contains(rest@[k]));
        }
        lemma_near_more(start, REACH as int, 0x10_0000_0000_0000);
    }
    if !room_for(&work, moved, &rest) {
        return false;
    }
    place(&mut work, moved, &rest, sticky);
    let ghost dropped = spots(work@);
    let ghost way = rest@.sort_by(nearer(dropped, moved as int));
    proof {
        lemma_pull_order(start, dropped, moved);
        assert(same_outputs(dropped, start));
        assert forall|j: int| 0 <= j < way.len() implies #[trigger] way[j] < start.len() && way[j]
            != moved by {
            assert(way.contains(way[j]));
        }
        assert(way.take(0) == Seq::<usize>::empty());
    }
    assert(dropped[moved as int] == work@[moved as int]@);
    if !within_reach(&work[moved]) {
        proof {
            lemma_too_far(dropped, way, 0, moved, sticky as int, moved);
        }
        return false;
    }
    proof {
        assert forall|j: int| 0 <= j < dropped.len() implies is_near(
            #[trigger] dropped[j],
            REACH as int,
        ) by {
            if j != moved {
                assert(dropped[j] == start[j]);
            }
        }
        lemma_near_more(dropped, REACH as int, 0x10_0000_0000_0000);
    }
    let order = by_distance(&work, &rest, moved);
    let mut placed: Vec<usize> = vec![moved];
    let n = order.len();
    assert(order@.take(0) == Seq::<usize>::empty());
    assert(placed@ == seq![moved] + order@.take(0));
    for k in 0..n
        invariant
            *l == *old(l),
            start == spots(l@),
            n == order@.len(),
            moved < start.len(),
            all_near(start, REACH as int),
            forall|j: int| 0 <= j < n ==> #[trigger] order@[j] < start.len(),
            same_outputs(dropped, start),
            work@.len() == start.len(),
            same_outputs(spots(work@), start),
            start[moved as int].enabled,
            rest@ == others(start, moved as int, start.len()),
            rest@.len() > 0,
            dropped == put(start, moved as int, rest@, sticky as int),
            order@ == rest@.sort_by(nearer(dropped, moved as int)),
            leaves_room(start, moved as int, rest@),
            is_pull_order(start, moved, order@),
            all_near(spots(work@), REACH as int),
            spots(work@) == pulled(dropped, order@.take(k as int), moved, sticky as int),
            has_room(dropped, order@.take(k as int), moved, sticky as int),
            placed@ == seq![moved] + order@.take(k as int),
            -0x10_0000_0000_0000 <= sticky <= 0x10_0000_0000_0000,
    {
        let ghost now = spots(work@);
        let i: usize = order[k];
        proof {
            lemma_same_order(start, now, moved, order@);
            lemma_turn(now, order@, k as int, moved);
            lemma_pulled_step(dropped, order@, k as int, moved, sticky as int);
            lemma_room_step(dropped, order@, k as int, moved, sticky as int);
            lemma_near_more(now, REACH as int, 0x10_0000_0000_0000);
        }
        if !fits(&work, i, &placed) {
            if !room_for(&work, i, &placed) {
                proof {
                    if has_room(dropped, order@, moved, sticky as int) {
                        lemma_room(dropped, order@, k + 1, moved, sticky as int);
                    }
                }
                return false;
            }
            place(&mut work, i, &placed, sticky);
            assert(same_outputs(spots(work@), start)) by {
                assert forall|j: int| 0 <= j < start.len() implies (#[trigger] spots(
                    work@,
                )[j]).width == start[j].width && spots(work@)[j].height == start[j].height && spots(
                    work@,
                )[j].enabled == start[j].enabled by {
                    assert(now[j].width == start[j].width);
                }
            }
            let ghost next = spots(work@);
            assert(next[i as int] == work@[i as int]@);
            if !within_reach(&work[i]) {
                proof {
                    assert forall|j: int| k + 1 <= j < order@.len() implies order@[j] != i by {}
                    lemma_too_far(dropped, order@, k + 1, moved, sticky as int, i);
                }
                return false;
            }
            assert forall|j: int| 0 <= j < next.len() implies is_near(
                #[trigger] next[j],
                REACH as int,
            ) by {
                if j != i {
                    assert(next[j] == now[j]);
                }
            }
        }
        placed.push(i);
        assert(order@.take(k + 1) == order@.take(k as int).push(i));
        assert(placed@ == seq![moved] + order@.take(k + 1));
    }
    assert(order@.take(n as int) == order@);
    *l = work;
    true
}

/// Pulls the enabled outputs together so the layout is gapless and free of
/// overlap. `moved` is the output that was just dropped, so it goes first and
/// everything else keeps its position if it already fits.
pub fn settle(l: &mut Vec<Tile>, moved: usize, sticky: i64)
    requires
        moved < old(l)@.len(),
        is_settleable(spots(old(l)@), moved, sticky as int),
        -0x10_0000_0000_0000 <= sticky <= 0x10_0000_0000_0000,
    ensures
        spots(final(l)@) == settled(spots(old(l)@), moved, sticky as int),
{
    try_settle(l, moved, sticky);
}

/// The order is one for every layout of the same outputs.
proof fn lemma_same_order(l: Seq<Spot>, m: Seq<Spot>, moved: usize, order: Seq<usize>)
    requires
        is_pull_order(l, moved, order),
        same_outputs(m, l),
    ensures
        is_pull_order(m, moved, order),
{
    assert forall|e: usize| #[trigger] order.contains(e) <==> e < m.len() && e != moved
        && m[e as int].enabled by {
        if e < m.len() {
            assert(m[e as int].enabled == l[e as int].enabled);
        }
    }
}

/// Outputs that stand within reach are no larger than an output can be.
proof fn lemma_no_larger(l: Seq<Spot>, b: int)
    requires
        all_near(l, b),
    ensures
        no_larger(l, LARGEST as int),
{
    assert forall|i: int| 0 <= i < l.len() implies -LARGEST <= (#[trigger] l[i]).width <= LARGEST
        && -LARGEST <= l[i].height <= LARGEST by {
        assert(is_near(l[i], b));
    }
}

/// What stands within `b` stands within more.
proof fn lemma_near_more(l: Seq<Spot>, b: int, c: int)
    requires
        all_near(l, b),
        b <= c,
    ensures
        all_near(l, c),
{
    assert forall|i: int| 0 <= i < l.len() implies is_near(#[trigger] l[i], c) by {
        assert(is_near(l[i], b));
    }
}

/// The bounding box of the enabled outputs, if there are any.
pub open spec fn bounding_box(l: Seq<Spot>) -> Option<Area> {
    let enabled = others(l, l.len() as int, l.len());
    if enabled.len() == 0 {
        None
    } else {
        Some(block(areas_of(l, enabled)))
    }
}

/// The bounding box of the enabled outputs.
pub fn bounds(l: &Vec<Tile>) -> (r: Option<Rect>)
    requires
        all_near(spots(l@), 0x10_0000_0000_0000),
    ensures
        match r {
            Some(b) => bounding_box(spots(l@)) == Some(b@),
            None => bounding_box(spots(l@)) is None,
        },
{
    let enabled = enabled_but(l, l.len());
    if enabled.len() == 0 {
        return None;
    }
    proof {
        let s = spots(l@);
        lemma_others(s, s.len() as int, s.len());
        assert forall|k: int| 0 <= k < enabled@.len() implies #[trigger] enabled@[k]
            < l@.len() by {
            assert(enabled@.contains(enabled@[k]));
        }
    }
    let rs = rects_of(l, &enabled);
    assert(areas(rs@).len() == rs@.len());
    Some(block_of(&rs))
}

/// A line from one point to another.
#[derive(Clone, Copy, Debug, PartialEq, Eq, Structural)]
pub struct Line {
    pub from_x: i64,
    pub from_y: i64,
    pub to_x: i64,
    pub to_y: i64,
}

/// What a `Line` says.
#[verifier::ext_equal]
pub struct Stroke {
    pub from_x: int,
    pub from_y: int,
    pub to_x: int,
    pub to_y: int,
}

impl View for Line {
    type V = Stroke;

    open spec fn view(&self) -> Stroke {
        Stroke {
            from_x: self.from_x as int,
            from_y: self.from_y as int,
            to_x: self.to_x as int,
            to_y: self.to_y as int,
        }
    }
}

/// What a list of lines says.
pub open spec fn strokes(v: Seq<Line>) -> Seq<Stroke> {
    v.map_values(|l: Line| l@)
}

/// A line down at `x`, as far as two areas reach.
pub open spec fn down(t: Area, a: Area, x: int) -> Stroke {
    Stroke { from_x: x, from_y: min(t.top, a.top), to_x: x, to_y: max(t.bottom, a.bottom) }
}

/// A line across at `y`, as far as two areas reach.
pub open spec fn across(t: Area, a: Area, y: int) -> Stroke {
    Stroke { from_x: min(t.left, a.left), from_y: y, to_x: max(t.right, a.right), to_y: y }
}

/// A line if there is call for it.
pub open spec fn shown(wanted: bool, s: Stroke) -> Seq<Stroke> {
    if wanted {
        seq![s]
    } else {
        Seq::empty()
    }
}

/// The alignments of a target with an anchor: edges flush or centres in line.
pub open spec fn alignments(t: Area, a: Area) -> Seq<Stroke> {
    shown(flush(t.left, a.left), down(t, a, a.left)) + shown(
        -PIXEL < (t.left + t.right) - (a.left + a.right) < PIXEL,
        down(t, a, (a.left + a.right) / 2),
    ) + shown(flush(t.right, a.right), down(t, a, a.right)) + shown(
        flush(t.top, a.top),
        across(t, a, a.top),
    ) + shown(
        -PIXEL < (t.top + t.bottom) - (a.top + a.bottom) < PIXEL,
        across(t, a, (a.top + a.bottom) / 2),
    ) + shown(flush(t.bottom, a.bottom), across(t, a, a.bottom))
}

/// The alignments of a target with each of the anchors.
pub open spec fn all_alignments(t: Area, anchors: Seq<Area>) -> Seq<Stroke>
    decreases anchors.len(),
{
    if anchors.len() == 0 {
        Seq::empty()
    } else {
        all_alignments(t, anchors.drop_last()) + alignments(t, anchors.last())
    }
}

/// Without what repeats the one before it.
pub open spec fn without_repeats(s: Seq<Stroke>) -> Seq<Stroke>
    decreases s.len(),
{
    if s.len() <= 1 {
        s
    } else if s[s.len() - 2] == s.last() {
        without_repeats(s.drop_last())
    } else {
        without_repeats(s.drop_last()).push(s.last())
    }
}

/// A line down at `x`, as far as two rectangles reach.
fn line_down(t: &Rect, a: &Rect, x: i64) -> (r: Line)
    ensures
        r@ == down(t@, a@, x as int),
{
    let both = t.union(a);
    Line { from_x: x, from_y: both.top, to_x: x, to_y: both.bottom }
}

/// A line across at `y`, as far as two rectangles reach.
fn line_across(t: &Rect, a: &Rect, y: i64) -> (r: Line)
    ensures
        r@ == across(t@, a@, y as int),
{
    let both = t.union(a);
    Line { from_x: both.left, from_y: y, to_x: both.right, to_y: y }
}

/// Adds a line if there is call for it.
fn show(lines: &mut Vec<Line>, wanted: bool, line: Line)
    ensures
        strokes(final(lines)@) == strokes(old(lines)@) + shown(wanted, line@),
{
    if wanted {
        lines.push(line);
    }
    assert(strokes(lines@) =~= strokes(old(lines)@) + shown(wanted, line@));
}

/// Adds the alignments of a target with an anchor.
fn show_alignments(lines: &mut Vec<Line>, t: &Rect, a: &Rect)
    requires
        is_area_near(t@, 0x10_0400_0000_0000),
        is_area_near(a@, 0x10_0400_0000_0000),
    ensures
        strokes(final(lines)@) == strokes(old(lines)@) + alignments(t@, a@),
{
    let across_off: i64 = (t.left + t.right) - (a.left + a.right);
    let down_off: i64 = (t.top + t.bottom) - (a.top + a.bottom);
    show(lines, is_flush(t.left, a.left), line_down(t, a, a.left));
    show(
        lines,
        -PIXEL < across_off && across_off < PIXEL,
        line_down(t, a, half(a.left + a.right)),
    );
    show(lines, is_flush(t.right, a.right), line_down(t, a, a.right));
    show(lines, is_flush(t.top, a.top), line_across(t, a, a.top));
    show(lines, -PIXEL < down_off && down_off < PIXEL, line_across(t, a, half(a.top + a.bottom)));
    show(lines, is_flush(t.bottom, a.bottom), line_across(t, a, a.bottom));
    assert(strokes(lines@) =~= strokes(old(lines)@) + alignments(t@, a@));
}

/// The alignments `target` lands on: edges flush or centres in line with another
/// output, or with the block they form together. A centre line stands on the unit
/// below where the centre falls between two.
pub fn guides(target: &Rect, others: &Vec<Rect>) -> (r: Vec<Line>)
    requires
        is_area_near(target@, 0x10_0400_0000_0000),
        areas_near(areas(others@), 0x10_0400_0000_0000),
    ensures
        strokes(r@) == without_repeats(all_alignments(target@, anchors(areas(others@)))),
{
    let marks = anchors_of(others);
    let ghost all = areas(others@);
    let ghost at = anchors(all);
    proof {
        if all.len() > 0 {
            lemma_block(all, 0x10_0400_0000_0000);
        }
        assert forall|k: int| 0 <= k < at.len() implies is_area_near(
            #[trigger] at[k],
            0x10_0400_0000_0000,
        ) by {
            if k < all.len() {
                assert(at[k] == all[k]);
            }
        }
    }
    let mut lines: Vec<Line> = Vec::new();
    let n = marks.len();
    assert(at.take(0) == Seq::<Area>::empty());
    for k in 0..n
        invariant
            n == marks@.len(),
            at == areas(marks@),
            areas_near(at, 0x10_0400_0000_0000),
            is_area_near(target@, 0x10_0400_0000_0000),
            strokes(lines@) == all_alignments(target@, at.take(k as int)),
    {
        assert(is_area_near(at[k as int], 0x10_0400_0000_0000));
        assert(at.take(k + 1).drop_last() == at.take(k as int));
        assert(at.take(k + 1).last() == marks@[k as int]@);
        show_alignments(&mut lines, target, &marks[k]);
    }
    assert(at.take(n as int) == at);
    let ghost found = strokes(lines@);
    let mut r: Vec<Line> = Vec::new();
    let m = lines.len();
    assert(found.take(0) == Seq::<Stroke>::empty());
    for k in 0..m
        invariant
            m == lines@.len(),
            found == strokes(lines@),
            strokes(r@) == without_repeats(found.take(k as int)),
    {
        assert(found.take(k + 1).drop_last() == found.take(k as int));
        assert(found.take(k + 1).last() == lines@[k as int]@);
        if k == 0 || lines[k - 1] != lines[k] {
            let ghost before = strokes(r@);
            r.push(lines[k]);
            assert(strokes(r@) =~= before.push(lines@[k as int]@));
            if k > 0 {
                assert(found.take(k + 1)[k - 1] == lines@[k - 1]@);
            } else {
                assert(found.take(1) =~= seq![lines@[0]@]);
                assert(before =~= Seq::<Stroke>::empty());
            }
        } else {
            assert(found.take(k + 1)[k - 1] == lines@[k - 1]@);
        }
    }
    assert(found.take(m as int) == found);
    r
}

/// Rounding to whole pixels moves a coordinate by half a pixel at most.
proof fn lemma_whole(v: int)
    ensures
        -HALF <= whole(v) - v <= HALF,
        whole(v) % (PIXEL as int) == 0,
{
}

/// The places beside an anchor are among the places beside all of them.
proof fn lemma_beside_is_a_place(anchors: Seq<Area>, s: Spot, k: int, j: int)
    requires
        0 <= k < anchors.len(),
        0 <= j < 16,
    ensures
        all_places(anchors, s).contains(beside(anchors[k], s)[j]),
    decreases anchors.len(),
{
    let init = anchors.drop_last();
    let before = all_places(init, s);
    let ps = all_places(anchors, s);
    if k == anchors.len() - 1 {
        assert(ps[before.len() + j] == beside(anchors[k], s)[j]);
    } else {
        lemma_beside_is_a_place(init, s, k, j);
        let p = beside(anchors[k], s)[j];
        assert(init[k] == anchors[k]);
        let i = choose|i: int| 0 <= i < before.len() && before[i] == p;
        assert(ps[i] == p);
    }
}

/// A place is chosen if one is free, and none that is free is cheaper.
proof fn lemma_cheapest(ps: Seq<Place>, rs: Seq<Area>, s: Spot, sticky: int, p: Place)
    requires
        ps.contains(p),
        is_free(rs, s, p),
    ensures
        cheapest(ps, rs, s, sticky) matches Some(q) && cost(s, q, sticky) <= cost(s, p, sticky),
    decreases ps.len(),
{
    let k = choose|k: int| 0 <= k < ps.len() && ps[k] == p;
    let init = ps.drop_last();
    if k < ps.len() - 1 {
        assert(init[k] == p);
        lemma_cheapest(init, rs, s, sticky, p);
    }
}

/// The area that reaches farthest to the right.
proof fn lemma_rightmost(rs: Seq<Area>) -> (k: int)
    requires
        rs.len() > 0,
    ensures
        0 <= k < rs.len(),
        forall|j: int| 0 <= j < rs.len() ==> (#[trigger] rs[j]).right <= rs[k].right,
    decreases rs.len(),
{
    if rs.len() == 1 {
        0
    } else {
        let init = rs.drop_last();
        let k = lemma_rightmost(init);
        let last = rs.len() - 1;
        assert forall|j: int| 0 <= j < rs.len() - 1 implies (#[trigger] rs[j]).right
            <= init[k].right by {
            assert(init[j].right <= init[k].right);
        }
        if rs[last].right > init[k].right {
            last
        } else {
            k
        }
    }
}

/// There is always room: an output can be put to the right of whatever reaches
/// farthest to the right.
pub proof fn law_there_is_always_a_place(
    l: Seq<Spot>,
    i: int,
    placed: Seq<usize>,
    sticky: int,
)
    requires
        placed.len() > 0,
        leaves_room(l, i, placed),
    ensures
        flush_place(l, i, placed, sticky) is Some,
{
    let rs = areas_of(l, placed);
    let s = l[i];
    let k = lemma_rightmost(rs);
    let a = rs[k];
    assert(is_roomy(l[placed[k] as int].area(), s));
    let p = beside(a, s)[0];
    lemma_whole(p.x);
    lemma_whole(p.y);
    assert forall|j: int| 0 <= j < rs.len() implies !landed(s, p).overlaps(
        #[trigger] rs[j],
    ) by {
        assert(rs[j].right <= a.right);
    }
    assert(landed(s, p).meets(rs[k]));
    assert(is_free(rs, s, p));
    assert(anchors(rs)[k] == rs[k]);
    lemma_beside_is_a_place(anchors(rs), s, k, 0);
    lemma_cheapest(all_places(anchors(rs), s), rs, s, sticky, p);
}

/// An output moves as little as possible: no place that is free costs less than
/// the one chosen.
pub proof fn law_the_move_is_the_shortest(
    l: Seq<Spot>,
    i: int,
    placed: Seq<usize>,
    sticky: int,
    other: Place,
)
    requires
        all_places(anchors(areas_of(l, placed)), l[i]).contains(other),
        is_free(areas_of(l, placed), l[i], other),
    ensures
        flush_place(l, i, placed, sticky) matches Some(p) && cost(l[i], p, sticky) <= cost(
            l[i],
            other,
            sticky,
        ),
{
    let rs = areas_of(l, placed);
    lemma_cheapest(all_places(anchors(rs), l[i]), rs, l[i], sticky, other);
}

/// A distance is never negative.
proof fn lemma_distance(dx: int, dy: int)
    ensures
        distance(dx, dy) >= 0,
        distance(dx, dy) == 0 <==> dx == 0 && dy == 0,
{
    let n = (dx * dx + dy * dy) * 65536;
    assert(n >= 0) by (nonlinear_arith)
        requires
            n == (dx * dx + dy * dy) * 65536,
    ;
    lemma_root_exists(n);
    let r = distance(dx, dy);
    if r == 0 {
        assert((r + 1) * (r + 1) == 1) by (nonlinear_arith)
            requires
                r == 0,
        ;
        assert(n < 1);
        assert(dx == 0 && dy == 0) by (nonlinear_arith)
            requires
                (dx * dx + dy * dy) * 65536 < 1,
        ;
    }
    if dx == 0 && dy == 0 {
        assert(r == 0) by (nonlinear_arith)
            requires
                r * r <= 0,
        ;
    }
}

/// Every number that is not negative has a root.
proof fn lemma_root_exists(n: int)
    requires
        n >= 0,
    ensures
        is_root(n, root(n)),
    decreases n,
{
    if n == 0 {
        assert(is_root(0, 0));
    } else {
        lemma_root_exists(n - 1);
        let r = root(n - 1);
        if n < (r + 1) * (r + 1) {
            assert(is_root(n, r));
        } else {
            assert((r + 1) * (r + 1) < (r + 2) * (r + 2)) by (nonlinear_arith)
                requires
                    r >= 0,
            ;
            assert(is_root(n, r + 1));
        }
    }
}

/// A drop within `sticky` of an alignment that is free lands on an alignment.
pub proof fn law_a_drop_near_an_alignment_sticks(
    l: Seq<Spot>,
    i: int,
    placed: Seq<usize>,
    sticky: int,
    near: Place,
)
    requires
        all_places(anchors(areas_of(l, placed)), l[i]).contains(near),
        is_free(areas_of(l, placed), l[i], near),
        near.aligned,
        distance(near.x - l[i].x, near.y - l[i].y) < sticky * 256,
    ensures
        flush_place(l, i, placed, sticky) matches Some(p) && p.aligned,
{
    law_the_move_is_the_shortest(l, i, placed, sticky, near);
    let p = flush_place(l, i, placed, sticky)->0;
    lemma_distance(p.x - l[i].x, p.y - l[i].y);
}

/// Whether the outputs listed form one piece: each meets one listed before it, and
/// overlaps none of them.
pub open spec fn is_one_piece(l: Seq<Spot>, listed: Seq<usize>) -> bool {
    forall|b: int|
        0 < b < listed.len() ==> is_joined(l, listed.take(b), #[trigger] listed[b] as int)
}

/// Whether output `i` meets one of the outputs listed and overlaps none of them.
pub open spec fn is_joined(l: Seq<Spot>, listed: Seq<usize>, i: int) -> bool {
    &&& forall|a: int|
        0 <= a < listed.len() ==> !l[i].area().overlaps(
            l[#[trigger] listed[a] as int].area(),
        )
    &&& exists|a: int|
        0 <= a < listed.len() && l[i].area().meets(l[#[trigger] listed[a] as int].area())
}

/// An output that fits, or has been put in place, is joined to those placed.
proof fn lemma_joined(l: Seq<Spot>, i: int, placed: Seq<usize>, sticky: int)
    requires
        0 <= i < l.len(),
        placed.len() > 0,
        forall|k: int|
            0 <= k < placed.len() ==> #[trigger] placed[k] < l.len() && placed[k] != i,
    ensures
        is_fitting(l, i, placed) ==> is_joined(l, placed, i),
        leaves_room(l, i, placed) ==> is_joined(put(l, i, placed, sticky), placed, i),
{
    let rs = areas_of(l, placed);
    if is_fitting(l, i, placed) {
        assert forall|a: int| 0 <= a < placed.len() implies !l[i].area().overlaps(
            l[#[trigger] placed[a] as int].area(),
        ) by {
            assert(rs[a] == l[placed[a] as int].area());
        }
        let k = choose|k: int| 0 <= k < rs.len() && l[i].area().touches(#[trigger] rs[k]);
        assert(l[i].area().meets(l[placed[k] as int].area()));
    }
    if leaves_room(l, i, placed) {
        law_there_is_always_a_place(l, i, placed, sticky);
        lemma_cheapest_is_free(all_places(anchors(rs), l[i]), rs, l[i], sticky);
        let p = flush_place(l, i, placed, sticky)->0;
        let m = put(l, i, placed, sticky);
        assert(m[i].area() == landed(l[i], p));
        assert forall|a: int| 0 <= a < placed.len() implies !m[i].area().overlaps(
            m[#[trigger] placed[a] as int].area(),
        ) by {
            assert(rs[a] == m[placed[a] as int].area());
        }
        let k = choose|k: int| 0 <= k < rs.len() && landed(l[i], p).meets(#[trigger] rs[k]);
        assert(rs[k] == m[placed[k] as int].area());
        assert(m[i].area().meets(m[placed[k] as int].area()));
    }
}

/// What is joined stays so while neither it nor what it is joined to moves.
proof fn lemma_still_joined(l: Seq<Spot>, m: Seq<Spot>, listed: Seq<usize>, i: int)
    requires
        is_joined(l, listed, i),
        l[i] == m[i],
        forall|a: int|
            0 <= a < listed.len() ==> l[#[trigger] listed[a] as int] == m[listed[a] as int],
    ensures
        is_joined(m, listed, i),
{
    let k = choose|a: int|
        0 <= a < listed.len() && l[i].area().meets(l[#[trigger] listed[a] as int].area());
    assert(m[i].area().meets(m[listed[k] as int].area()));
}

/// Pulling outputs in moves only those outputs, and nothing but moves them.
proof fn lemma_pulled(l: Seq<Spot>, order: Seq<usize>, moved: usize, sticky: int)
    requires
        forall|k: int| 0 <= k < order.len() ==> #[trigger] order[k] < l.len(),
    ensures
        same_outputs(pulled(l, order, moved, sticky), l),
        forall|j: int|
            0 <= j < l.len() && !order.contains(j as usize) ==> #[trigger] pulled(
                l,
                order,
                moved,
                sticky,
            )[j] == l[j],
    decreases order.len(),
{
    if order.len() > 0 {
        let init = order.drop_last();
        assert forall|k: int| 0 <= k < init.len() implies #[trigger] init[k] < l.len() by {
            assert(order[k] == init[k]);
        }
        lemma_pulled(l, init, moved, sticky);
        let before = pulled(l, init, moved, sticky);
        let after = pulled(l, order, moved, sticky);
        let i = order.last() as int;
        assert(order[order.len() - 1] == order.last());
        assert forall|j: int| 0 <= j < l.len() && j != i implies #[trigger] after[j]
            == before[j] by {}
        assert forall|j: int| 0 <= j < l.len() && !order.contains(j as usize) implies #[trigger] after[j]
            == l[j] by {
            if init.contains(j as usize) {
                let k = choose|k: int| 0 <= k < init.len() && init[k] == j as usize;
                assert(order[k] == j as usize);
            }
            assert(order.contains(order.last()));
        }
        assert forall|j: int| 0 <= j < l.len() implies (#[trigger] after[j]).width == l[j].width
            && after[j].height == l[j].height && after[j].enabled == l[j].enabled by {
            assert(before[j].width == l[j].width);
        }
    }
}

/// Once pulled in, the outputs form one piece.
proof fn lemma_one_piece(l: Seq<Spot>, order: Seq<usize>, k: int, moved: usize, sticky: int)
    requires
        moved < l.len(),
        is_pull_order(l, moved, order),
        0 <= k <= order.len(),
        has_room(l, order.take(k), moved, sticky),
    ensures
        is_one_piece(pulled(l, order.take(k), moved, sticky), seq![moved] + order.take(k)),
    decreases k,
{
    let now = pulled(l, order.take(k), moved, sticky);
    let listed = seq![moved] + order.take(k);
    if k > 0 {
        let done = order.take(k - 1);
        let before = pulled(l, done, moved, sticky);
        let placed = seq![moved] + done;
        let i = order[k - 1];
        lemma_room_step(l, order, k - 1, moved, sticky);
        lemma_one_piece(l, order, k - 1, moved, sticky);
        lemma_pulled_step(l, order, k - 1, moved, sticky);
        assert forall|j: int| 0 <= j < done.len() implies #[trigger] done[j] < l.len() by {
            assert(order.contains(order[j]));
        }
        lemma_pulled(l, done, moved, sticky);
        lemma_same_order(l, before, moved, order);
        lemma_turn(before, order, k - 1, moved);
        lemma_joined(before, i as int, placed, sticky);
        assert(listed == placed.push(i));
        assert forall|b: int| 0 < b < listed.len() implies is_joined(
            now,
            listed.take(b),
            #[trigger] listed[b] as int,
        ) by {
            if b == placed.len() {
                assert(listed.take(b) == placed);
            } else {
                assert(listed.take(b) == placed.take(b));
                assert(is_joined(before, placed.take(b), placed[b] as int));
                assert forall|a: int| 0 <= a < placed.take(b).len() implies before[#[trigger] placed.take(
                    b,
                )[a] as int] == now[placed.take(b)[a] as int] by {
                    assert(placed.take(b)[a] == placed[a]);
                }
                lemma_still_joined(before, now, placed.take(b), placed[b] as int);
            }
        }
    } else {
        assert(listed.len() == 1);
    }
}

/// Settling moves outputs, and nothing more: none changes its size or is turned on
/// or off, and one that is disabled does not move.
pub proof fn law_settling_only_moves(l: Seq<Spot>, moved: usize, sticky: int)
    requires
        l.len() <= usize::MAX,
        moved < l.len(),
    ensures
        same_outputs(settled(l, moved, sticky), l),
        forall|i: int|
            0 <= i < l.len() && !l[i].enabled ==> #[trigger] settled(l, moved, sticky)[i] == l[i],
{
    let rest = others(l, moved as int, l.len());
    if rest.len() > 0 && l[moved as int].enabled {
        let dropped = put(l, moved as int, rest, sticky);
        let order = rest.sort_by(nearer(dropped, moved as int));
        lemma_pull_order(l, dropped, moved);
        assert forall|k: int| 0 <= k < order.len() implies #[trigger] order[k]
            < dropped.len() by {
            assert(order.contains(order[k]));
        }
        lemma_pulled(dropped, order, moved, sticky);
        let m = settled(l, moved, sticky);
        assert forall|i: int| 0 <= i < l.len() implies (#[trigger] m[i]).width == l[i].width
            && m[i].height == l[i].height && m[i].enabled == l[i].enabled by {
            assert(m[i].width == dropped[i].width);
        }
        assert forall|i: int| 0 <= i < l.len() && !l[i].enabled implies #[trigger] m[i] == l[i] by {
            assert(!order.contains(i as usize));
        }
    }
}

/// Settling leaves the enabled outputs in one piece, without gap or overlap: they
/// can be listed so that each meets one listed before it, and no two overlap.
pub proof fn law_settled_outputs_form_one_piece(l: Seq<Spot>, moved: usize, sticky: int)
    requires
        l.len() <= usize::MAX,
        moved < l.len(),
        l[moved as int].enabled,
        can_be_settled(l, moved, sticky),
    ensures
        exists|order: Seq<usize>|
            #![trigger is_pull_order(l, moved, order)]
            is_pull_order(l, moved, order) && is_one_piece(
                settled(l, moved, sticky),
                seq![moved] + order,
            ),
        forall|i: int, j: int|
            0 <= i < l.len() && 0 <= j < l.len() && i != j && l[i].enabled && l[j].enabled
                ==> !(#[trigger] settled(l, moved, sticky)[i]).area().overlaps(
                (#[trigger] settled(l, moved, sticky)[j]).area(),
            ),
{
    let rest = others(l, moved as int, l.len());
    let m = settled(l, moved, sticky);
    lemma_others(l, moved as int, l.len());
    let dropped = if rest.len() > 0 {
        put(l, moved as int, rest, sticky)
    } else {
        l
    };
    let order = rest.sort_by(nearer(dropped, moved as int));
    lemma_pull_order(l, dropped, moved);
    let listed = seq![moved] + order;
    assert(is_one_piece(m, listed)) by {
        if rest.len() > 0 {
            assert(same_outputs(dropped, l));
            lemma_same_order(l, dropped, moved, order);
            assert(order.take(order.len() as int) == order);
            lemma_one_piece(dropped, order, order.len() as int, moved, sticky);
        }
    }
    lemma_no_overlap(l, m, moved, order);
}

/// Outputs that form one piece do not overlap.
proof fn lemma_no_overlap(l: Seq<Spot>, m: Seq<Spot>, moved: usize, order: Seq<usize>)
    requires
        l.len() <= usize::MAX,
        moved < l.len(),
        l[moved as int].enabled,
        is_pull_order(l, moved, order),
        is_one_piece(m, seq![moved] + order),
    ensures
        forall|i: int, j: int|
            0 <= i < l.len() && 0 <= j < l.len() && i != j && l[i].enabled && l[j].enabled
                ==> !(#[trigger] m[i]).area().overlaps((#[trigger] m[j]).area()),
{
    let listed = seq![moved] + order;
    assert forall|i: int, j: int|
        0 <= i < l.len() && 0 <= j < l.len() && i != j && l[i].enabled && l[j].enabled implies !(
    #[trigger] m[i]).area().overlaps((#[trigger] m[j]).area()) by {
        let a = lemma_listed(l, moved, order, i);
        let b = lemma_listed(l, moved, order, j);
        if a < b {
            assert(is_joined(m, listed.take(b), listed[b] as int));
            assert(listed.take(b)[a] == listed[a]);
        } else {
            assert(is_joined(m, listed.take(a), listed[a] as int));
            assert(listed.take(a)[b] == listed[b]);
        }
    }
}

/// Where an enabled output is listed.
proof fn lemma_listed(l: Seq<Spot>, moved: usize, order: Seq<usize>, i: int) -> (k: int)
    requires
        l.len() <= usize::MAX,
        is_pull_order(l, moved, order),
        0 <= i < l.len(),
        l[i].enabled,
    ensures
        0 <= k <= order.len(),
        (seq![moved] + order)[k] == i,
{
    if i == moved {
        0
    } else {
        assert(order.contains(i as usize));
        let k = choose|k: int| 0 <= k < order.len() && order[k] == i as usize;
        assert((seq![moved] + order)[k + 1] == order[k]);
        k + 1
    }
}

/// Whether an output is a whole number of pixels wide and high.
pub open spec fn is_whole_size(s: Spot) -> bool {
    s.width % (PIXEL as int) == 0 && s.height % (PIXEL as int) == 0
}

/// Whether an output stands on whole pixels.
pub open spec fn is_whole(s: Spot) -> bool {
    s.x % (PIXEL as int) == 0 && s.y % (PIXEL as int) == 0
}

/// Whether every enabled output stands on whole pixels.
pub open spec fn all_whole(l: Seq<Spot>) -> bool {
    forall|i: int| 0 <= i < l.len() && (#[trigger] l[i]).enabled ==> is_whole(l[i])
}

/// Pulling outputs in puts them on whole pixels.
proof fn lemma_pulled_whole(l: Seq<Spot>, order: Seq<usize>, moved: usize, sticky: int)
    requires
        all_whole(l),
        forall|k: int| 0 <= k < order.len() ==> #[trigger] order[k] < l.len(),
    ensures
        all_whole(pulled(l, order, moved, sticky)),
        pulled(l, order, moved, sticky).len() == l.len(),
    decreases order.len(),
{
    if order.len() > 0 {
        let init = order.drop_last();
        assert forall|k: int| 0 <= k < init.len() implies #[trigger] init[k] < l.len() by {
            assert(order[k] == init[k]);
        }
        lemma_pulled_whole(l, init, moved, sticky);
        let before = pulled(l, init, moved, sticky);
        lemma_put_whole(before, order.last() as int, seq![moved] + init, sticky);
    }
}

/// Putting an output in place puts it on whole pixels.
proof fn lemma_put_whole(l: Seq<Spot>, i: int, placed: Seq<usize>, sticky: int)
    requires
        0 <= i < l.len(),
        forall|j: int| 0 <= j < l.len() && j != i && (#[trigger] l[j]).enabled ==> is_whole(l[j]),
        is_whole(l[i]) || flush_place(l, i, placed, sticky) is Some || !l[i].enabled,
    ensures
        all_whole(put(l, i, placed, sticky)),
{
    if let Some(p) = flush_place(l, i, placed, sticky) {
        lemma_whole(p.x);
        lemma_whole(p.y);
    }
    let m = put(l, i, placed, sticky);
    assert forall|j: int| 0 <= j < m.len() && (#[trigger] m[j]).enabled implies is_whole(m[j]) by {
        if j != i {
            assert(m[j] == l[j]);
        }
    }
}

/// Where the layout is on whole pixels but for the output that was dropped, it is
/// on whole pixels once settled, and then there is no gap and no overlap at all:
/// no two outputs share anything of their areas, and each has an edge in common
/// with another.
pub proof fn law_whole_pixels_leave_neither_gap_nor_overlap(
    l: Seq<Spot>,
    moved: usize,
    sticky: int,
)
    requires
        l.len() <= usize::MAX,
        moved < l.len(),
        l[moved as int].enabled,
        can_be_settled(l, moved, sticky),
        others(l, moved as int, l.len()).len() > 0,
        forall|i: int| 0 <= i < l.len() && (#[trigger] l[i]).enabled ==> is_whole_size(l[i]),
        forall|i: int|
            0 <= i < l.len() && i != moved && (#[trigger] l[i]).enabled ==> is_whole(l[i]),
    ensures
        all_whole(settled(l, moved, sticky)),
        forall|i: int, j: int|
            0 <= i < l.len() && 0 <= j < l.len() && i != j && l[i].enabled && l[j].enabled
                ==> !(#[trigger] settled(l, moved, sticky)[i]).area().shares(
                (#[trigger] settled(l, moved, sticky)[j]).area(),
                1,
            ),
        forall|i: int|
            0 <= i < l.len() && l[i].enabled ==> has_neighbour(
                #[trigger] settled(l, moved, sticky),
                i,
            ),
{
    let rest = others(l, moved as int, l.len());
    let m = settled(l, moved, sticky);
    lemma_others(l, moved as int, l.len());
    law_there_is_always_a_place(l, moved as int, rest, sticky);
    lemma_put_whole(l, moved as int, rest, sticky);
    let dropped = put(l, moved as int, rest, sticky);
    let order = rest.sort_by(nearer(dropped, moved as int));
    lemma_pull_order(l, dropped, moved);
    assert forall|k: int| 0 <= k < order.len() implies #[trigger] order[k] < dropped.len() by {
        assert(order.contains(order[k]));
    }
    lemma_pulled_whole(dropped, order, moved, sticky);
    law_settling_only_moves(l, moved, sticky);
    law_settled_outputs_form_one_piece(l, moved, sticky);
    assert forall|i: int, j: int|
        0 <= i < l.len() && 0 <= j < l.len() && i != j && l[i].enabled && l[j].enabled implies !(
    #[trigger] m[i]).area().shares((#[trigger] m[j]).area(), 1) by {
        assert(m[i].width == l[i].width && m[j].width == l[j].width);
        lemma_whole_apart(m[i], m[j]);
    }
    let listing = choose|order: Seq<usize>|
        #![trigger is_pull_order(l, moved, order)]
        is_pull_order(l, moved, order) && is_one_piece(m, seq![moved] + order);
    let listed = seq![moved] + listing;
    assert(listing.len() > 0) by {
        assert(rest.contains(rest[0]));
        assert(listing.contains(rest[0]));
    }
    assert forall|i: int| 0 <= i < l.len() && l[i].enabled implies has_neighbour(m, i) by {
        let k = lemma_listed(l, moved, listing, i);
        let b = if k == 0 {
            1
        } else {
            k
        };
        assert(is_joined(m, listed.take(b), listed[b] as int));
        let e = listed[b] as int;
        assert(listing.contains(listing[b - 1]));
        assert(listed[b] == listing[b - 1]);
        let a = choose|a: int|
            0 <= a < listed.take(b).len() && m[e].area().meets(
                m[#[trigger] listed.take(b)[a] as int].area(),
            );
        let f = listed[a] as int;
        assert(listed.take(b)[a] == listed[a]);
        assert(f < l.len() && l[f].enabled && f != e) by {
            if a > 0 {
                assert(listed[a] == listing[a - 1]);
                assert(listing.contains(listing[a - 1]));
                assert(listing[a - 1] != listing[b - 1]);
            }
        }
        assert(m[e].width == l[e].width && m[f].width == l[f].width);
        lemma_whole_meets(m[e], m[f]);
        if k == 0 {
            assert(a == 0);
            assert(m[i].area().adjoins(m[e].area()));
        } else {
            assert(m[i].area().adjoins(m[f].area()));
        }
    }
}

/// Whether another enabled output stands edge to edge with output `i`.
pub open spec fn has_neighbour(l: Seq<Spot>, i: int) -> bool {
    exists|j: int|
        0 <= j < l.len() && j != i && (#[trigger] l[j]).enabled && l[i].area().adjoins(l[j].area())
}

/// On whole pixels, what shares less than a pixel shares nothing.
proof fn lemma_whole_apart(a: Spot, b: Spot)
    requires
        is_whole(a),
        is_whole(b),
        is_whole_size(a),
        is_whole_size(b),
        !a.area().overlaps(b.area()),
    ensures
        !a.area().shares(b.area(), 1),
{
}

/// On whole pixels, what is half a pixel apart at most is not apart.
proof fn lemma_whole_meets(a: Spot, b: Spot)
    requires
        is_whole(a),
        is_whole(b),
        is_whole_size(a),
        is_whole_size(b),
        a.area().meets(b.area()),
    ensures
        a.area().adjoins(b.area()),
        b.area().adjoins(a.area()),
{
}

/// A layout that already fits is left alone: the output that was dropped is lined
/// up and free where it is, and each of the others fits in its turn.
pub proof fn law_a_layout_that_fits_is_left_alone(l: Seq<Spot>, moved: usize, sticky: int)
    requires
        moved < l.len(),
        sticky >= 0,
        ({
            let s = l[moved as int];
            let rest = others(l, moved as int, l.len());
            let here = Place { x: s.x, y: s.y, aligned: true };
            &&& is_whole(s)
            &&& is_free(areas_of(l, rest), s, here)
            &&& all_places(anchors(areas_of(l, rest)), s).contains(here)
        }),
        ({
            let order = others(l, moved as int, l.len()).sort_by(nearer(l, moved as int));
            forall|k: int|
                0 <= k < order.len() ==> is_fitting(
                    l,
                    #[trigger] order[k] as int,
                    seq![moved] + order.take(k),
                )
        }),
    ensures
        settled(l, moved, sticky) == l,
{
    let rest = others(l, moved as int, l.len());
    lemma_stays_put(l, moved as int, rest, sticky);
    let order = rest.sort_by(nearer(l, moved as int));
    lemma_none_pulled(l, order, order.len() as int, moved, sticky);
    assert(order.take(order.len() as int) == order);
}

/// What stands on whole pixels is not rounded.
proof fn lemma_whole_stays(v: int)
    requires
        v % (PIXEL as int) == 0,
    ensures
        whole(v) == v,
{
}

/// An output that is lined up and free where it is stays there.
proof fn lemma_stays_put(l: Seq<Spot>, i: int, placed: Seq<usize>, sticky: int)
    requires
        0 <= i < l.len(),
        sticky >= 0,
        is_whole(l[i]),
        is_free(areas_of(l, placed), l[i], Place { x: l[i].x, y: l[i].y, aligned: true }),
        all_places(anchors(areas_of(l, placed)), l[i]).contains(
            Place { x: l[i].x, y: l[i].y, aligned: true },
        ),
    ensures
        put(l, i, placed, sticky) == l,
{
    let s = l[i];
    let here = Place { x: s.x, y: s.y, aligned: true };
    law_the_move_is_the_shortest(l, i, placed, sticky, here);
    let p = flush_place(l, i, placed, sticky)->0;
    lemma_distance(0, 0);
    lemma_distance(p.x - s.x, p.y - s.y);
    assert(p.x == s.x && p.y == s.y);
    lemma_whole_stays(s.x);
    lemma_whole_stays(s.y);
    assert(l[i].at(s.x, s.y) == l[i]);
    assert(put(l, i, placed, sticky) =~= l);
}

/// Outputs that fit are not pulled.
proof fn lemma_none_pulled(l: Seq<Spot>, order: Seq<usize>, k: int, moved: usize, sticky: int)
    requires
        0 <= k <= order.len(),
        forall|j: int|
            0 <= j < order.len() ==> is_fitting(
                l,
                #[trigger] order[j] as int,
                seq![moved] + order.take(j),
            ),
    ensures
        pulled(l, order.take(k), moved, sticky) == l,
    decreases k,
{
    if k > 0 {
        lemma_none_pulled(l, order, k - 1, moved, sticky);
        lemma_pulled_step(l, order, k - 1, moved, sticky);
        assert(is_fitting(l, order[k - 1] as int, seq![moved] + order.take(k - 1)));
    }
}

/// Any two enabled outputs that have two pixels of width and of height between
/// them leave room for each other, so a layout of such outputs can be settled.
pub proof fn law_outputs_with_some_size_can_be_settled(l: Seq<Spot>, moved: usize, sticky: int)
    requires
        l.len() <= usize::MAX,
        moved < l.len(),
        all_roomy(l),
    ensures
        can_be_settled(l, moved, sticky),
{
    let rest = others(l, moved as int, l.len());
    if rest.len() > 0 && l[moved as int].enabled {
        lemma_others(l, moved as int, l.len());
        assert forall|k: int| 0 <= k < rest.len() implies is_roomy(
            l[#[trigger] rest[k] as int].area(),
            l[moved as int],
        ) by {
            assert(rest.contains(rest[k]));
        }
        let dropped = put(l, moved as int, rest, sticky);
        let order = rest.sort_by(nearer(dropped, moved as int));
        lemma_pull_order(l, dropped, moved);
        assert(same_outputs(dropped, l));
        lemma_same_order(l, dropped, moved, order);
        assert(all_roomy(dropped)) by {
            lemma_still_roomy(l, dropped);
        }
        assert(dropped[moved as int].enabled);
        lemma_all_room(dropped, order, order.len() as int, moved, sticky);
        assert(order.take(order.len() as int) == order);
    }
}

/// Moving outputs takes no room from them.
proof fn lemma_still_roomy(l: Seq<Spot>, m: Seq<Spot>)
    requires
        all_roomy(l),
        same_outputs(m, l),
    ensures
        all_roomy(m),
{
    assert forall|a: int, b: int|
        #![trigger m[a], m[b]]
        0 <= a < m.len() && 0 <= b < m.len() && a != b && m[a].enabled
            && m[b].enabled implies is_roomy(m[b].area(), m[a]) by {
        assert(is_roomy(l[b].area(), l[a]));
    }
}

/// Outputs with some size leave room for each in turn.
proof fn lemma_all_room(l: Seq<Spot>, order: Seq<usize>, k: int, moved: usize, sticky: int)
    requires
        moved < l.len(),
        l[moved as int].enabled,
        all_roomy(l),
        is_pull_order(l, moved, order),
        0 <= k <= order.len(),
    ensures
        has_room(l, order.take(k), moved, sticky),
    decreases k,
{
    if k > 0 {
        let done = order.take(k - 1);
        let before = pulled(l, done, moved, sticky);
        let placed = seq![moved] + done;
        let i = order[k - 1] as int;
        lemma_all_room(l, order, k - 1, moved, sticky);
        lemma_room_step(l, order, k - 1, moved, sticky);
        assert forall|j: int| 0 <= j < done.len() implies #[trigger] done[j] < l.len() by {
            assert(order.contains(order[j]));
        }
        lemma_pulled(l, done, moved, sticky);
        lemma_same_order(l, before, moved, order);
        lemma_turn(before, order, k - 1, moved);
        lemma_still_roomy(l, before);
        assert(order.contains(order[k - 1]));
        assert(before[moved as int].enabled);
        assert forall|j: int| 0 <= j < placed.len() implies is_roomy(
            before[#[trigger] placed[j] as int].area(),
            before[i],
        ) by {
            if j > 0 {
                assert(placed[j] == order[j - 1]);
                assert(order.contains(order[j - 1]));
            }
        }
    }
}

/// Where the output that is being dragged would land.
pub open spec fn target(l: Seq<Spot>, i: usize, sticky: int) -> Area {
    settled(l, i, sticky)[i as int].area()
}

/// Where the output that is being dragged would land, and the alignments with the
/// others that it would land on.
pub fn preview(l: &Vec<Tile>, i: usize, sticky: i64) -> (r: (Rect, Vec<Line>))
    requires
        i < l@.len(),
        is_settleable(spots(l@), i, sticky as int),
        -0x10_0000_0000_0000 <= sticky <= 0x10_0000_0000_0000,
    ensures
        (r.0)@ == target(spots(l@), i, sticky as int),
        strokes((r.1)@) == without_repeats(
            all_alignments(
                target(spots(l@), i, sticky as int),
                anchors(areas_of(spots(l@), others(spots(l@), i as int, l@.len()))),
            ),
        ),
{
    let ghost s = spots(l@);
    let mut moved: Vec<Tile> = Vec::new();
    let n = l.len();
    for k in 0..n
        invariant
            n == l@.len(),
            moved@ == l@.take(k as int),
    {
        moved.push(l[k]);
        assert(moved@ == l@.take(k + 1));
    }
    assert(moved@ == l@);
    settle(&mut moved, i, sticky);
    proof {
        law_settling_only_moves(s, i, sticky as int);
        assert(spots(moved@)[i as int] == moved@[i as int]@);
        assert(is_near(spots(moved@)[i as int], REACH as int));
        lemma_others(s, i as int, s.len());
        lemma_near_more(s, REACH as int, 0x10_0000_0000_0000);
    }
    let rest = enabled_but(l, i);
    assert forall|k: int| 0 <= k < rest@.len() implies #[trigger] rest@[k] < l@.len() by {
        assert(rest@.contains(rest@[k]));
    }
    let around = rects_of(l, &rest);
    assert forall|k: int| 0 <= k < areas(around@).len() implies is_area_near(
        #[trigger] areas(around@)[k],
        0x10_0400_0000_0000,
    ) by {
        assert(areas(around@)[k] == s[rest@[k] as int].area());
        assert(is_near(s[rest@[k] as int], 0x10_0000_0000_0000));
    }
    let at = rect_of(&moved[i]);
    let lines = guides(&at, &around);
    (at, lines)
}

/// Settling takes no output farther out than the outputs in a row would be, so any
/// number of outputs can be settled, as long as each has some size and together they
/// would not reach too far out.
pub proof fn law_outputs_well_within_reach_can_be_settled(
    l: Seq<Spot>,
    moved: usize,
    sticky: int,
    b: int,
    z: int,
)
    requires
        l.len() <= usize::MAX,
        moved < l.len(),
        all_roomy(l),
        b >= 0,
        all_near(l, b),
        no_larger(l, z),
        b + l.len() * growth(z) <= REACH,
    ensures
        all_near(settled(l, moved, sticky), b + l.len() * growth(z)),
        is_settleable(l, moved, sticky),
{
    let rest = others(l, moved as int, l.len());
    let n = l.len() as int;
    let far = b + n * growth(z);
    assert(0 <= z) by {
        assert(-z <= l[moved as int].width <= z);
    }
    assert(0 <= n * growth(z)) by (nonlinear_arith)
        requires
            0 <= n,
            0 <= growth(z),
    ;
    law_outputs_with_some_size_can_be_settled(l, moved, sticky);
    lemma_others(l, moved as int, l.len());
    lemma_near_more(l, b, REACH as int);
    lemma_near_more(l, b, far);
    if rest.len() > 0 && l[moved as int].enabled {
        assert forall|k: int| 0 <= k < rest.len() implies #[trigger] rest[k] < l.len() by {
            assert(rest.contains(rest[k]));
        }
        lemma_put(l, moved as int, rest, sticky, b, z);
        let dropped = put(l, moved as int, rest, sticky);
        let order = rest.sort_by(nearer(dropped, moved as int));
        lemma_pull_order(l, dropped, moved);
        assert forall|k: int| 0 <= k < order.len() implies #[trigger] order[k] < l.len() by {
            assert(order.contains(order[k]));
        }
        let m = order.len() as int;
        lemma_pulled_near(dropped, order, m, moved, sticky, b + growth(z), z);
        assert(order.take(m) == order);
        lemma_fewer_others(l, moved as int, l.len());
        assert(b + growth(z) + m * growth(z) <= far) by (nonlinear_arith)
            requires
                far == b + n * growth(z),
                m + 1 <= n,
                0 <= growth(z),
        ;
        lemma_near_more(settled(l, moved, sticky), b + growth(z) + m * growth(z), far);
    }
    lemma_near_more(settled(l, moved, sticky), far, REACH as int);
}

/// The others are fewer than all.
proof fn lemma_fewer_others(l: Seq<Spot>, but: int, n: nat)
    requires
        n <= l.len(),
        n <= usize::MAX,
    ensures
        others(l, but, n).len() <= n,
        0 <= but < n ==> others(l, but, n).len() < n,
    decreases n,
{
    if n > 0 {
        lemma_fewer_others(l, but, (n - 1) as nat);
    }
}

/// Each output pulled in adds to how far out the layout may be.
proof fn lemma_pulled_near(
    l: Seq<Spot>,
    order: Seq<usize>,
    k: int,
    moved: usize,
    sticky: int,
    b: int,
    z: int,
)
    requires
        0 <= k <= order.len(),
        moved < l.len(),
        b >= 0,
        z >= 0,
        all_near(l, b),
        no_larger(l, z),
        forall|j: int| 0 <= j < order.len() ==> #[trigger] order[j] < l.len(),
    ensures
        pulled(l, order.take(k), moved, sticky).len() == l.len(),
        all_near(pulled(l, order.take(k), moved, sticky), b + k * growth(z)),
        no_larger(pulled(l, order.take(k), moved, sticky), z),
    decreases k,
{
    if k > 0 {
        lemma_pulled_near(l, order, k - 1, moved, sticky, b, z);
        lemma_pulled_step(l, order, k - 1, moved, sticky);
        let before = pulled(l, order.take(k - 1), moved, sticky);
        let c = b + (k - 1) * growth(z);
        let placed = seq![moved] + order.take(k - 1);
        assert forall|j: int| 0 <= j < placed.len() implies #[trigger] placed[j] < before.len() by {
            if j > 0 {
                assert(placed[j] == order[j - 1]);
            }
        }
        assert(order[k - 1] < before.len());
        assert(c + growth(z) == b + k * growth(z) && c >= 0) by (nonlinear_arith)
            requires
                c == b + (k - 1) * growth(z),
                k >= 1,
                b >= 0,
                growth(z) >= 0,
        ;
        lemma_put(before, order[k - 1] as int, placed, sticky, c, z);
        lemma_near_more(before, c, c + growth(z));
    } else {
        assert(order.take(0) == Seq::<usize>::empty());
        assert(0 * growth(z) == 0) by (nonlinear_arith);
    }
}

/// The square of the distance between the centres of two outputs, in halves of the unit.
pub open spec fn centre_gap(a: Spot, b: Spot) -> int {
    let dx = (2 * a.x + a.width) - (2 * b.x + b.width);
    let dy = (2 * a.y + a.height) - (2 * b.y + b.height);
    dx * dx + dy * dy
}

/// Whether the centres of two outputs are so many pixels apart, or more.
pub open spec fn is_away(a: Spot, b: Spot, pixels: int) -> bool {
    centre_gap(a, b) >= (512 * pixels) * (512 * pixels)
}

/// Whether output `a` is nearer to output `from` than output `b`: whatever whole number
/// of pixels its centre is away, the centre of `b` is not nearer than that. Of two as
/// many pixels away, it is the one listed first in the layout.
pub open spec fn comes_first(l: Seq<Spot>, from: int, a: usize, b: usize) -> bool {
    &&& forall|n: int|
        0 <= n <= i32::MAX && #[trigger] is_away(l[a as int], l[from], n) ==> is_away(
            l[b as int],
            l[from],
            n,
        )
    &&& (forall|n: int|
        0 <= n <= i32::MAX && #[trigger] is_away(l[b as int], l[from], n) ==> is_away(
            l[a as int],
            l[from],
            n,
        )) ==> a <= b
}

/// Whether the outputs listed come nearest first.
pub open spec fn is_nearest_first(l: Seq<Spot>, from: int, order: Seq<usize>) -> bool {
    forall|i: int, j: int|
        0 <= i < j < order.len() ==> #[trigger] comes_first(l, from, order[i], order[j])
}

/// Whole pixels between centres are counted by the squares.
proof fn lemma_apart(a: Spot, b: Spot, n: int)
    requires
        0 <= n <= i32::MAX,
    ensures
        apart(a, b) >= n <==> is_away(a, b, n),
        0 <= apart(a, b) <= i32::MAX,
{
    let dx = (2 * a.x + a.width) - (2 * b.x + b.width);
    let dy = (2 * a.y + a.height) - (2 * b.y + b.height);
    let g = centre_gap(a, b);
    let r = distance(dx, dy);
    assert(g >= 0) by (nonlinear_arith)
        requires
            g == dx * dx + dy * dy,
    ;
    lemma_root_exists(g * 65536);
    let d = r / 131072;
    let k = 512 * n;
    assert(131072 * n == 256 * k);
    if d >= n {
        assert(r >= 256 * k);
        assert(k * k <= g) by (nonlinear_arith)
            requires
                r >= 256 * k,
                k >= 0,
                r * r <= g * 65536,
        ;
    } else {
        assert(r + 1 <= 256 * k);
        assert(k * k > g) by (nonlinear_arith)
            requires
                r + 1 <= 256 * k,
                r >= 0,
                g * 65536 < (r + 1) * (r + 1),
        ;
    }
}

/// Nearer by the order is nearer by the pixels between the centres.
proof fn lemma_nearer_is(l: Seq<Spot>, from: int, a: usize, b: usize)
    ensures
        nearer(l, from)(a, b) <==> comes_first(l, from, a, b),
{
    let (x, y, f) = (l[a as int], l[b as int], l[from]);
    let (p, q) = (apart(x, f), apart(y, f));
    lemma_apart(x, f, 0);
    lemma_apart(y, f, 0);
    lemma_apart(x, f, p);
    lemma_apart(y, f, p);
    lemma_apart(x, f, q);
    lemma_apart(y, f, q);
    if p <= q {
        assert forall|n: int| 0 <= n <= i32::MAX && #[trigger] is_away(x, f, n) implies is_away(
            y,
            f,
            n,
        ) by {
            lemma_apart(x, f, n);
            lemma_apart(y, f, n);
        }
    } else {
        assert(is_away(x, f, p) && !is_away(y, f, p));
    }
    if q <= p {
        assert forall|n: int| 0 <= n <= i32::MAX && #[trigger] is_away(y, f, n) implies is_away(
            x,
            f,
            n,
        ) by {
            lemma_apart(x, f, n);
            lemma_apart(y, f, n);
        }
    } else {
        assert(is_away(y, f, q) && !is_away(x, f, q));
    }
}

/// The list of all other enabled outputs that comes nearest first is the one by which
/// they are sorted.
proof fn lemma_nearest_first(l: Seq<Spot>, m: Seq<Spot>, moved: usize, order: Seq<usize>)
    requires
        l.len() <= usize::MAX,
        is_pull_order(l, moved, order),
    ensures
        is_nearest_first(m, moved as int, order) <==> order == others(
            l,
            moved as int,
            l.len(),
        ).sort_by(nearer(m, moved as int)),
{
    broadcast use group_to_multiset_ensures;

    let from = moved as int;
    let le = nearer(m, from);
    let rest = others(l, from, l.len());
    lemma_nearer(m, from);
    if is_nearest_first(m, from, order) {
        assert forall|i: int, j: int| 0 <= i < j < order.len() implies #[trigger] le(
            order[i],
            order[j],
        ) by {
            lemma_nearer_is(m, from, order[i], order[j]);
        }
        assert(sorted_by(order, le));
        lemma_others(l, from, l.len());
        order.lemma_multiset_has_no_duplicates();
        rest.lemma_multiset_has_no_duplicates();
        assert(order.to_multiset() =~= rest.to_multiset()) by {
            assert forall|e: usize| order.to_multiset().count(e) == rest.to_multiset().count(e) by {
                assert(order.contains(e) <==> rest.contains(e));
                assert(order.to_multiset().contains(e) <==> order.contains(e));
                assert(rest.to_multiset().contains(e) <==> rest.contains(e));
            }
        }
        order::lemma_sorted_is(rest, order, le);
    }
    if order == rest.sort_by(le) {
        rest.lemma_sort_by_ensures(le);
        assert forall|i: int, j: int| 0 <= i < j < order.len() implies #[trigger] comes_first(
            m,
            from,
            order[i],
            order[j],
        ) by {
            assert(le(order[i], order[j]));
            lemma_nearer_is(m, from, order[i], order[j]);
        }
    }
}

/// Whether an output of a size stands well along an edge from `low` to `high`. It is
/// aligned at the near end, at the far end or in the middle; or it stands where it stood,
/// or as near to that as leaves a pixel of the edge to share.
pub open spec fn is_along(
    v: int,
    stood: int,
    size: int,
    low: int,
    high: int,
    aligned: bool,
) -> bool {
    if aligned {
        v == low || v + size == high || 2 * v + size <= low + high < 2 * v + size + 2
    } else if stood < low - size + 256 {
        v == low - size + 256
    } else if stood > high - 256 {
        v == high - 256
    } else {
        v == stood
    }
}

/// Whether a place for an output is edge to edge with an area, on any of its four sides.
pub open spec fn is_beside(a: Area, s: Spot, p: Place) -> bool {
    ||| (p.x == a.right || p.x + s.width == a.left) && is_along(
        p.y,
        s.y,
        s.height,
        a.top,
        a.bottom,
        p.aligned,
    )
    ||| (p.y == a.bottom || p.y + s.height == a.top) && is_along(
        p.x,
        s.x,
        s.width,
        a.left,
        a.right,
        p.aligned,
    )
}

/// Whether an area is that of one of the outputs listed.
pub open spec fn is_area_of_one(l: Seq<Spot>, placed: Seq<usize>, a: Area) -> bool {
    exists|k: int|
        #![trigger placed[k]]
        0 <= k < placed.len() && {
            let s = l[placed[k] as int];
            a.left == s.x && a.top == s.y && a.right == s.x + s.width && a.bottom == s.y + s.height
        }
}

/// Whether an area is the box around the outputs listed: none sticks out, and every side
/// is that of one of them.
pub open spec fn is_box_around(l: Seq<Spot>, placed: Seq<usize>, a: Area) -> bool {
    &&& forall|k: int|
        #![trigger placed[k]]
        0 <= k < placed.len() ==> {
            let s = l[placed[k] as int];
            a.left <= s.x && a.top <= s.y && s.x + s.width <= a.right && s.y + s.height <= a.bottom
        }
    &&& exists|k: int| 0 <= k < placed.len() && a.left == l[#[trigger] placed[k] as int].x
    &&& exists|k: int| 0 <= k < placed.len() && a.top == l[#[trigger] placed[k] as int].y
    &&& exists|k: int|
        0 <= k < placed.len() && a.right == l[#[trigger] placed[k] as int].x
            + l[placed[k] as int].width
    &&& exists|k: int|
        0 <= k < placed.len() && a.bottom == l[#[trigger] placed[k] as int].y
            + l[placed[k] as int].height
}

/// Whether a place for output `i` is edge to edge with one of the outputs listed, or with
/// the box around them where there are several.
pub open spec fn is_place(l: Seq<Spot>, i: int, placed: Seq<usize>, p: Place) -> bool {
    exists|a: Area| #[trigger]
        is_beside(a, l[i], p) && (is_area_of_one(l, placed, a) || (placed.len() > 1
            && is_box_around(l, placed, a)))
}

/// Whether a coordinate is the whole pixel nearest to another; exactly between two, the
/// one farther from the origin.
pub open spec fn is_pixel_of(v: int, pixel: int) -> bool {
    &&& pixel % 256 == 0
    &&& -128 <= pixel - v <= 128
    &&& v >= 0 ==> -128 < pixel - v
    &&& v <= 0 ==> pixel - v < 128
}

/// Whether `to` is the output `s` moved to a place, on whole pixels.
pub open spec fn is_moved(s: Spot, p: Place, to: Spot) -> bool {
    &&& to.width == s.width
    &&& to.height == s.height
    &&& to.enabled == s.enabled
    &&& is_pixel_of(p.x, to.x)
    &&& is_pixel_of(p.y, to.y)
}

/// Whether one output hides a pixel or more of another.
pub open spec fn hides(a: Spot, b: Spot) -> bool {
    &&& a.x + 256 <= b.x + b.width
    &&& b.x + 256 <= a.x + a.width
    &&& a.y + 256 <= b.y + b.height
    &&& b.y + 256 <= a.y + a.height
}

/// Whether two outputs have an edge in common, along a stretch, to within `slack`.
pub open spec fn borders(a: Spot, b: Spot, slack: int) -> bool {
    ||| {
        &&& -slack <= a.x + a.width - b.x <= slack || -slack <= b.x + b.width - a.x <= slack
        &&& a.y < b.y + b.height
        &&& b.y < a.y + a.height
    }
    ||| {
        &&& -slack <= a.y + a.height - b.y <= slack || -slack <= b.y + b.height - a.y <= slack
        &&& a.x < b.x + b.width
        &&& b.x < a.x + a.width
    }
}

/// Whether an output has an edge in common with one of the outputs listed, to within
/// `slack`, and hides nothing of any of them.
pub open spec fn is_joined_to(l: Seq<Spot>, placed: Seq<usize>, s: Spot, slack: int) -> bool {
    &&& forall|k: int| 0 <= k < placed.len() ==> !hides(s, l[#[trigger] placed[k] as int])
    &&& exists|k: int|
        0 <= k < placed.len() && borders(s, l[#[trigger] placed[k] as int], slack)
}

/// The head start that a place has.
pub open spec fn head_start(p: Place, sticky: int) -> int {
    if p.aligned {
        256 * sticky
    } else {
        0
    }
}

/// Whether it is no farther from `s` to `p` than to `q`, as the crow flies, once an
/// alignment has its head start; to 256ths of the unit.
pub open spec fn is_no_farther(s: Spot, p: Place, q: Place, sticky: int) -> bool {
    let (px, py) = (p.x - s.x, p.y - s.y);
    let (qx, qy) = (q.x - s.x, q.y - s.y);
    let start = head_start(p, sticky) - head_start(q, sticky);
    forall|r: int|
        0 <= r && start <= r && #[trigger] (r * r) <= 65536 * (px * px + py * py) ==> (r - start)
            * (r - start) <= 65536 * (qx * qx + qy * qy)
}

/// Whether `to` is where output `i` has to go: joined to the outputs listed, and no
/// other such place is nearer to where it stands, once an alignment has its head start.
pub open spec fn is_best_place(
    l: Seq<Spot>,
    i: int,
    placed: Seq<usize>,
    sticky: int,
    to: Spot,
) -> bool {
    exists|p: Place| #[trigger]
        is_place(l, i, placed, p) && is_moved(l[i], p, to) && is_joined_to(l, placed, to, 128)
            && forall|q: Place, t: Spot| #[trigger]
            is_place(l, i, placed, q) && #[trigger] is_moved(l[i], q, t) && is_joined_to(
                l,
                placed,
                t,
                128,
            ) ==> is_no_farther(l[i], p, q, sticky)
}

/// The places beside an area are those on its four sides.
proof fn lemma_beside(a: Area, s: Spot, p: Place)
    requires
        is_roomy(a, s),
    ensures
        is_beside(a, s, p) <==> beside(a, s).contains(p),
{
    let ps = beside(a, s);
    if ps.contains(p) {
        let k = choose|k: int| 0 <= k < ps.len() && ps[k] == p;
        assert(is_beside(a, s, ps[k]));
    }
    if is_beside(a, s, p) {
        assert(exists|k: int| 0 <= k < 16 && #[trigger] ps[k] =~= p) by {
            if (p.x == a.right || p.x + s.width == a.left) && is_along(
                p.y,
                s.y,
                s.height,
                a.top,
                a.bottom,
                p.aligned,
            ) {
                let side = if p.x == a.right {
                    0int
                } else {
                    4int
                };
                if !p.aligned {
                    assert(ps[side] =~= p);
                } else if p.y == a.top {
                    assert(ps[side + 1] =~= p);
                } else if p.y + s.height == a.bottom {
                    assert(ps[side + 3] =~= p);
                } else {
                    assert(p.y == (a.top + a.bottom - s.height) / 2);
                    assert(ps[side + 2] =~= p);
                }
            } else {
                let side = if p.y == a.bottom {
                    8int
                } else {
                    12int
                };
                if !p.aligned {
                    assert(ps[side] =~= p);
                } else if p.x == a.left {
                    assert(ps[side + 1] =~= p);
                } else if p.x + s.width == a.right {
                    assert(ps[side + 3] =~= p);
                } else {
                    assert(p.x == (a.left + a.right - s.width) / 2);
                    assert(ps[side + 2] =~= p);
                }
            }
        }
    }
}

/// The block is the box, and the only one.
proof fn lemma_box(l: Seq<Spot>, placed: Seq<usize>, a: Area)
    requires
        placed.len() > 0,
    ensures
        is_box_around(l, placed, a) <==> a == block(areas_of(l, placed)),
    decreases placed.len(),
{
    lemma_block_is_box(l, placed);
    let b = block(areas_of(l, placed));
    if is_box_around(l, placed, a) {
        assert(a.left == b.left && a.top == b.top && a.right == b.right && a.bottom == b.bottom);
        assert(a =~= b);
    }
}

proof fn lemma_block_is_box(l: Seq<Spot>, placed: Seq<usize>)
    requires
        placed.len() > 0,
    ensures
        is_box_around(l, placed, block(areas_of(l, placed))),
    decreases placed.len(),
{
    let rs = areas_of(l, placed);
    let b = block(rs);
    let n = placed.len() - 1;
    assert(rs[n] == l[placed[n] as int].area());
    if placed.len() > 1 {
        let init = placed.drop_last();
        lemma_block_is_box(l, init);
        assert(rs.drop_last() =~= areas_of(l, init));
        let c = block(areas_of(l, init));
        assert forall|k: int| #![trigger placed[k]] 0 <= k < placed.len() implies {
            let s = l[placed[k] as int];
            b.left <= s.x && b.top <= s.y && s.x + s.width <= b.right && s.y + s.height <= b.bottom
        } by {
            if k < n {
                assert(placed[k] == init[k]);
            }
        }
        let k1 = choose|k: int| 0 <= k < init.len() && c.left == l[#[trigger] init[k] as int].x;
        let k2 = choose|k: int| 0 <= k < init.len() && c.top == l[#[trigger] init[k] as int].y;
        let k3 = choose|k: int|
            0 <= k < init.len() && c.right == l[#[trigger] init[k] as int].x
                + l[init[k] as int].width;
        let k4 = choose|k: int|
            0 <= k < init.len() && c.bottom == l[#[trigger] init[k] as int].y
                + l[init[k] as int].height;
        assert(placed[k1] == init[k1] && placed[k2] == init[k2] && placed[k3] == init[k3]
            && placed[k4] == init[k4]);
        assert(b.left == c.left || b.left == l[placed[n] as int].x);
        assert(b.top == c.top || b.top == l[placed[n] as int].y);
        assert(b.right == c.right || b.right == l[placed[n] as int].x + l[placed[n] as int].width);
        assert(b.bottom == c.bottom || b.bottom == l[placed[n] as int].y
            + l[placed[n] as int].height);
    } else {
        assert(b == rs[0]);
    }
}

/// The places there are.
proof fn lemma_is_place(l: Seq<Spot>, i: int, placed: Seq<usize>, p: Place)
    requires
        placed.len() > 0,
        leaves_room(l, i, placed),
    ensures
        is_place(l, i, placed, p) <==> all_places(anchors(areas_of(l, placed)), l[i]).contains(p),
{
    let rs = areas_of(l, placed);
    let s = l[i];
    let all = anchors(rs);
    lemma_block_is_box(l, placed);
    assert forall|k: int| 0 <= k < all.len() implies is_roomy(#[trigger] all[k], s) by {
        if k < rs.len() {
            assert(all[k] == l[placed[k] as int].area());
            assert(is_roomy(l[placed[k] as int].area(), s));
        } else {
            let b = block(rs);
            assert(is_roomy(l[placed[0] as int].area(), s));
            assert(b.left <= l[placed[0] as int].x);
        }
    }
    if is_place(l, i, placed, p) {
        let a = choose|a: Area| #[trigger]
            is_beside(a, s, p) && (is_area_of_one(l, placed, a) || (placed.len() > 1
                && is_box_around(l, placed, a)));
        let k = if is_area_of_one(l, placed, a) {
            let k = choose|k: int|
                #![trigger placed[k]]
                0 <= k < placed.len() && {
                    let s = l[placed[k] as int];
                    a.left == s.x && a.top == s.y && a.right == s.x + s.width && a.bottom == s.y
                        + s.height
                };
            assert(rs[k] =~= a);
            k
        } else {
            lemma_box(l, placed, a);
            rs.len() as int
        };
        assert(all[k] == a);
        lemma_beside(a, s, p);
        let j = choose|j: int| 0 <= j < beside(a, s).len() && beside(a, s)[j] == p;
        lemma_beside_is_a_place(all, s, k, j);
    }
    if all_places(all, s).contains(p) {
        let k = lemma_place_is_beside(all, s, p);
        let a = all[k];
        lemma_beside(a, s, p);
        if k < rs.len() {
            assert(a == l[placed[k] as int].area());
            assert(is_area_of_one(l, placed, a));
        }
        assert(is_beside(a, s, p));
    }
}

/// Every place is beside an anchor.
proof fn lemma_place_is_beside(anchors: Seq<Area>, s: Spot, p: Place) -> (k: int)
    requires
        all_places(anchors, s).contains(p),
    ensures
        0 <= k < anchors.len(),
        beside(anchors[k], s).contains(p),
    decreases anchors.len(),
{
    let ps = all_places(anchors, s);
    let j = choose|j: int| 0 <= j < ps.len() && ps[j] == p;
    let init = anchors.drop_last();
    let before = all_places(init, s);
    if j < before.len() {
        assert(before[j] == p);
        let k = lemma_place_is_beside(init, s, p);
        assert(init[k] == anchors[k]);
        k
    } else {
        assert(beside(anchors.last(), s)[j - before.len()] == p);
        anchors.len() - 1
    }
}

/// A coordinate has one nearest pixel.
proof fn lemma_pixel_of(v: int, pixel: int)
    ensures
        is_pixel_of(v, pixel) <==> pixel == whole(v),
{
    if v < 0 {
        let q = (-v + 128) / 256;
        assert(q * 256 <= -v + 128 < q * 256 + 256);
        assert(whole(v) == -(q * 256));
    } else {
        let q = (v + 128) / 256;
        assert(q * 256 <= v + 128 < q * 256 + 256);
        assert(whole(v) == q * 256);
    }
}

/// Where an output lands in a place, and whether it may.
proof fn lemma_landing(l: Seq<Spot>, placed: Seq<usize>, s: Spot, p: Place, to: Spot)
    requires
        is_moved(s, p, to),
    ensures
        to == s.at(whole(p.x), whole(p.y)),
        is_joined_to(l, placed, to, 128) <==> is_free(areas_of(l, placed), s, p),
{
    lemma_pixel_of(p.x, to.x);
    lemma_pixel_of(p.y, to.y);
    assert(to =~= s.at(whole(p.x), whole(p.y)));
    let rs = areas_of(l, placed);
    assert(landed(s, p) == to.area());
    lemma_joined_to(l, placed, to);
}

/// Being joined is meeting one and overlapping none.
proof fn lemma_joined_to(l: Seq<Spot>, placed: Seq<usize>, s: Spot)
    ensures
        is_joined_to(l, placed, s, 128) <==> {
            let rs = areas_of(l, placed);
            &&& forall|k: int| 0 <= k < rs.len() ==> !s.area().overlaps(#[trigger] rs[k])
            &&& exists|k: int| 0 <= k < rs.len() && s.area().meets(#[trigger] rs[k])
        },
        is_joined_to(l, placed, s, 127) <==> {
            let rs = areas_of(l, placed);
            &&& forall|k: int| 0 <= k < rs.len() ==> !s.area().overlaps(#[trigger] rs[k])
            &&& exists|k: int| 0 <= k < rs.len() && s.area().touches(#[trigger] rs[k])
        },
{
    let rs = areas_of(l, placed);
    assert forall|k: int| 0 <= k < rs.len() implies (s.area().overlaps(#[trigger] rs[k]) <==> hides(
        s,
        l[placed[k] as int],
    )) && (s.area().meets(rs[k]) <==> borders(s, l[placed[k] as int], 128)) && (s.area().touches(
        rs[k],
    ) <==> borders(s, l[placed[k] as int], 127)) by {
        assert(rs[k] == l[placed[k] as int].area());
    }
    assert forall|k: int| 0 <= k < placed.len() implies l[#[trigger] placed[k] as int].area()
        == rs[k] by {}
    if is_joined_to(l, placed, s, 128) {
        let k = choose|k: int|
            0 <= k < placed.len() && borders(s, l[#[trigger] placed[k] as int], 128);
        assert(s.area().meets(rs[k]));
    }
    if is_joined_to(l, placed, s, 127) {
        let k = choose|k: int|
            0 <= k < placed.len() && borders(s, l[#[trigger] placed[k] as int], 127);
        assert(s.area().touches(rs[k]));
    }
}

/// Not to cost more is to be no farther.
proof fn lemma_no_farther(s: Spot, p: Place, q: Place, sticky: int)
    requires
        cost(s, p, sticky) <= cost(s, q, sticky),
    ensures
        is_no_farther(s, p, q, sticky),
{
    let (px, py) = (p.x - s.x, p.y - s.y);
    let (qx, qy) = (q.x - s.x, q.y - s.y);
    let start = head_start(p, sticky) - head_start(q, sticky);
    let (m, n) = (px * px + py * py, qx * qx + qy * qy);
    assert(m >= 0 && n >= 0) by (nonlinear_arith)
        requires
            m == px * px + py * py,
            n == qx * qx + qy * qy,
    ;
    lemma_root_exists(m * 65536);
    lemma_root_exists(n * 65536);
    let (a, b) = (distance(px, py), distance(qx, qy));
    assert(a - start <= b);
    assert forall|r: int|
        0 <= r && start <= r && #[trigger] (r * r) <= 65536 * (px * px + py * py) implies (r
        - start) * (r - start) <= 65536 * (qx * qx + qy * qy) by {
        assert(r <= a) by (nonlinear_arith)
            requires
                0 <= r,
                0 <= a,
                r * r <= 65536 * m,
                m * 65536 < (a + 1) * (a + 1),
        ;
        let d = r - start;
        assert(d * d <= 65536 * n) by (nonlinear_arith)
            requires
                0 <= d <= b,
                b * b <= n * 65536,
        ;
    }
}

/// Where an output is put is where it has to go.
proof fn lemma_put_is_best(l: Seq<Spot>, i: int, placed: Seq<usize>, sticky: int)
    requires
        0 <= i < l.len(),
        placed.len() > 0,
        leaves_room(l, i, placed),
    ensures
        put(l, i, placed, sticky).len() == l.len(),
        is_best_place(l, i, placed, sticky, put(l, i, placed, sticky)[i]),
{
    let rs = areas_of(l, placed);
    let s = l[i];
    let ps = all_places(anchors(rs), s);
    law_there_is_always_a_place(l, i, placed, sticky);
    lemma_cheapest_is_free(ps, rs, s, sticky);
    let p = flush_place(l, i, placed, sticky)->0;
    let to = put(l, i, placed, sticky)[i];
    assert(to == s.at(whole(p.x), whole(p.y)));
    lemma_is_place(l, i, placed, p);
    lemma_pixel_of(p.x, to.x);
    lemma_pixel_of(p.y, to.y);
    assert(is_moved(s, p, to));
    lemma_landing(l, placed, s, p, to);
    assert forall|q: Place, t: Spot| #[trigger]
        is_place(l, i, placed, q) && #[trigger] is_moved(s, q, t) && is_joined_to(
            l,
            placed,
            t,
            128,
        ) implies is_no_farther(s, p, q, sticky) by {
        lemma_is_place(l, i, placed, q);
        lemma_landing(l, placed, s, q, t);
        law_the_move_is_the_shortest(l, i, placed, sticky, q);
        lemma_no_farther(s, p, q, sticky);
    }
}

/// It does not matter in which order the outputs are listed.
proof fn lemma_same_places(l: Seq<Spot>, i: int, a: Seq<usize>, b: Seq<usize>)
    requires
        a.len() == b.len(),
        forall|e: usize| #[trigger] a.contains(e) <==> b.contains(e),
    ensures
        forall|p: Place| #[trigger] is_place(l, i, a, p) ==> is_place(l, i, b, p),
        forall|s: Spot, slack: int| #[trigger]
            is_joined_to(l, a, s, slack) ==> is_joined_to(l, b, s, slack),
{
    assert forall|k: int| 0 <= k < a.len() implies b.contains(#[trigger] a[k]) by {
        assert(a.contains(a[k]));
    }
    assert forall|k: int| 0 <= k < b.len() implies a.contains(#[trigger] b[k]) by {
        assert(b.contains(b[k]));
    }
    assert forall|p: Place| #[trigger] is_place(l, i, a, p) implies is_place(l, i, b, p) by {
        let x = choose|x: Area| #[trigger]
            is_beside(x, l[i], p) && (is_area_of_one(l, a, x) || (a.len() > 1 && is_box_around(
                l,
                a,
                x,
            )));
        if is_area_of_one(l, a, x) {
            let k = choose|k: int|
                #![trigger a[k]]
                0 <= k < a.len() && {
                    let s = l[a[k] as int];
                    x.left == s.x && x.top == s.y && x.right == s.x + s.width && x.bottom == s.y
                        + s.height
                };
            let j = lemma_at(b, a[k]);
            assert(b[j] == a[k]);
            assert(is_area_of_one(l, b, x));
        } else {
            lemma_same_box(l, a, b, x);
        }
        assert(is_beside(x, l[i], p));
    }
    assert forall|s: Spot, slack: int| #[trigger] is_joined_to(l, a, s, slack) implies is_joined_to(
        l,
        b,
        s,
        slack,
    ) by {
        assert forall|k: int| 0 <= k < b.len() implies !hides(
            s,
            l[#[trigger] b[k] as int],
        ) by {
            let j = lemma_at(a, b[k]);
            assert(a[j] == b[k]);
        }
        let k = choose|k: int| 0 <= k < a.len() && borders(s, l[#[trigger] a[k] as int], slack);
        let j = lemma_at(b, a[k]);
        assert(borders(s, l[b[j] as int], slack));
    }
}

/// Where something stands in a list.
proof fn lemma_at(a: Seq<usize>, e: usize) -> (k: int)
    requires
        a.contains(e),
    ensures
        0 <= k < a.len(),
        a[k] == e,
{
    choose|k: int| 0 <= k < a.len() && a[k] == e
}

/// The box is around the outputs, however they are listed.
proof fn lemma_same_box(l: Seq<Spot>, a: Seq<usize>, b: Seq<usize>, x: Area)
    requires
        forall|e: usize| #[trigger] a.contains(e) <==> b.contains(e),
        is_box_around(l, a, x),
    ensures
        is_box_around(l, b, x),
{
    assert forall|k: int| #![trigger b[k]] 0 <= k < b.len() implies {
        let s = l[b[k] as int];
        x.left <= s.x && x.top <= s.y && s.x + s.width <= x.right && s.y + s.height <= x.bottom
    } by {
        assert(b.contains(b[k]));
        let j = lemma_at(a, b[k]);
        assert(a[j] == b[k]);
    }
    let k1 = choose|k: int| 0 <= k < a.len() && x.left == l[#[trigger] a[k] as int].x;
    let k2 = choose|k: int| 0 <= k < a.len() && x.top == l[#[trigger] a[k] as int].y;
    let k3 = choose|k: int|
        0 <= k < a.len() && x.right == l[#[trigger] a[k] as int].x + l[a[k] as int].width;
    let k4 = choose|k: int|
        0 <= k < a.len() && x.bottom == l[#[trigger] a[k] as int].y + l[a[k] as int].height;
    assert(a.contains(a[k1]) && a.contains(a[k2]) && a.contains(a[k3]) && a.contains(a[k4]));
    let j1 = lemma_at(b, a[k1]);
    let j2 = lemma_at(b, a[k2]);
    let j3 = lemma_at(b, a[k3]);
    let j4 = lemma_at(b, a[k4]);
    assert(x.left == l[b[j1] as int].x);
    assert(x.top == l[b[j2] as int].y);
    assert(x.right == l[b[j3] as int].x + l[b[j3] as int].width);
    assert(x.bottom == l[b[j4] as int].y + l[b[j4] as int].height);
}

/// Two lists of the other enabled outputs are as long and hold the same ones.
proof fn lemma_same_list(l: Seq<Spot>, moved: usize, a: Seq<usize>, b: Seq<usize>)
    requires
        is_pull_order(l, moved, a),
        is_pull_order(l, moved, b),
    ensures
        a.len() == b.len(),
        forall|e: usize| #[trigger] a.contains(e) <==> b.contains(e),
{
    a.unique_seq_to_set();
    b.unique_seq_to_set();
    assert(a.to_set() =~= b.to_set()) by {
        assert forall|e: usize| a.to_set().contains(e) <==> b.to_set().contains(e) by {
            assert(a.contains(e) <==> b.contains(e));
        }
    }
}

/// Where an output has to go does not depend on how the others are listed.
proof fn lemma_same_best(
    l: Seq<Spot>,
    i: int,
    a: Seq<usize>,
    b: Seq<usize>,
    sticky: int,
    to: Spot,
)
    requires
        a.len() == b.len(),
        forall|e: usize| #[trigger] a.contains(e) <==> b.contains(e),
        is_best_place(l, i, a, sticky, to),
    ensures
        is_best_place(l, i, b, sticky, to),
{
    lemma_same_places(l, i, a, b);
    lemma_same_places(l, i, b, a);
    let p = choose|p: Place| #[trigger]
        is_place(l, i, a, p) && is_moved(l[i], p, to) && is_joined_to(l, a, to, 128) && forall|
            q: Place,
            t: Spot,
        | #[trigger]
            is_place(l, i, a, q) && #[trigger] is_moved(l[i], q, t) && is_joined_to(l, a, t, 128)
                ==> is_no_farther(l[i], p, q, sticky);
    assert(is_place(l, i, b, p));
    assert forall|q: Place, t: Spot| #[trigger]
        is_place(l, i, b, q) && #[trigger] is_moved(l[i], q, t) && is_joined_to(
            l,
            b,
            t,
            128,
        ) implies is_no_farther(l[i], p, q, sticky) by {
        assert(is_place(l, i, a, q));
        assert(is_joined_to(l, a, t, 128));
    }
}

/// Whether every enabled output is a pixel wide and high, or more.
pub open spec fn have_size(l: Seq<Spot>) -> bool {
    forall|i: int|
        0 <= i < l.len() && (#[trigger] l[i]).enabled ==> l[i].width >= 256 && l[i].height >= 256
}

/// Outputs of a pixel or more can be settled, however many there are and wherever they
/// are dropped, if together they do not reach too far out.
pub proof fn law_outputs_of_a_pixel_can_be_settled(
    l: Seq<Spot>,
    moved: usize,
    sticky: int,
    b: int,
    z: int,
)
    requires
        l.len() <= usize::MAX,
        moved < l.len(),
        have_size(l),
        b >= 0,
        forall|i: int|
            0 <= i < l.len() ==> -b <= (#[trigger] l[i]).x <= b && -b <= l[i].y <= b && -z
                <= l[i].width <= z && -z <= l[i].height <= z,
        z <= 0x100_0000_0000,
        b + l.len() * (2 * z + 512) <= 0xf_f000_0000_0000,
    ensures
        is_settleable(l, moved, sticky),
{
    assert(all_roomy(l)) by {
        lemma_roomy(l);
    }
    assert forall|i: int| 0 <= i < l.len() implies is_near(#[trigger] l[i], b) by {
        assert(-b <= l[i].x <= b);
    }
    law_outputs_well_within_reach_can_be_settled(l, moved, sticky, b, z);
}

/// Outputs of a pixel or more leave room for each other.
proof fn lemma_roomy(l: Seq<Spot>)
    requires
        have_size(l),
    ensures
        all_roomy(l),
{
    assert forall|i: int, j: int|
        #![trigger l[i], l[j]]
        0 <= i < l.len() && 0 <= j < l.len() && i != j && l[i].enabled
            && l[j].enabled implies is_roomy(l[j].area(), l[i]) by {
        assert(l[i].width >= 256 && l[j].width >= 256);
    }
}

/// The output that was dropped goes to the best place there is against all the others,
/// and stays there whatever else is pulled in.
pub proof fn law_the_dropped_output_goes_to_the_best_place(
    l: Seq<Spot>,
    moved: usize,
    sticky: int,
    placed: Seq<usize>,
)
    requires
        l.len() <= usize::MAX,
        moved < l.len(),
        l[moved as int].enabled,
        have_size(l),
        is_pull_order(l, moved, placed),
        placed.len() > 0,
    ensures
        is_best_place(l, moved as int, placed, sticky, settled(l, moved, sticky)[moved as int]),
{
    let rest = others(l, moved as int, l.len());
    lemma_others(l, moved as int, l.len());
    assert(is_pull_order(l, moved, rest));
    lemma_same_list(l, moved, rest, placed);
    lemma_roomy(l);
    assert forall|k: int| 0 <= k < rest.len() implies is_roomy(
        l[#[trigger] rest[k] as int].area(),
        l[moved as int],
    ) by {
        assert(rest.contains(rest[k]));
    }
    lemma_put_is_best(l, moved as int, rest, sticky);
    let dropped = put(l, moved as int, rest, sticky);
    let order = rest.sort_by(nearer(dropped, moved as int));
    lemma_pull_order(l, dropped, moved);
    assert forall|k: int| 0 <= k < order.len() implies #[trigger] order[k] < l.len() && order[k]
        != moved by {
        assert(order.contains(order[k]));
    }
    lemma_pulled(dropped, order, moved, sticky);
    assert(settled(l, moved, sticky)[moved as int] == dropped[moved as int]) by {
        assert(!order.contains(moved));
        assert(moved as int as usize == moved);
    }
    lemma_same_best(l, moved as int, rest, placed, sticky, dropped[moved as int]);
}

/// Where an output has to go depends on where it stands and on the outputs listed, and on
/// no other.
proof fn lemma_best_elsewhere(
    l: Seq<Spot>,
    m: Seq<Spot>,
    i: int,
    placed: Seq<usize>,
    sticky: int,
)
    requires
        l[i] == m[i],
        areas_of(l, placed) == areas_of(m, placed),
    ensures
        flush_place(l, i, placed, sticky) == flush_place(m, i, placed, sticky),
        is_fitting(l, i, placed) == is_fitting(m, i, placed),
{
}

/// Then the others are gone through, nearest first. One that has an edge in common with
/// one that has had its turn, and hides nothing of any of them, keeps its place. Any
/// other goes to the best place there is against those that have had their turn.
pub proof fn law_what_fits_keeps_its_place(
    l: Seq<Spot>,
    moved: usize,
    sticky: int,
    order: Seq<usize>,
    k: int,
)
    requires
        l.len() <= usize::MAX,
        moved < l.len(),
        l[moved as int].enabled,
        have_size(l),
        is_pull_order(l, moved, order),
        is_nearest_first(
            l.update(moved as int, settled(l, moved, sticky)[moved as int]),
            moved as int,
            order,
        ),
        0 <= k < order.len(),
    ensures
        ({
            let m = settled(l, moved, sticky);
            let i = order[k] as int;
            let done = seq![moved] + order.take(k);
            let now = m.update(i, l[i]);
            if is_joined_to(now, done, l[i], 127) {
                m[i] == l[i]
            } else {
                is_best_place(now, i, done, sticky, m[i])
            }
        }),
{
    let rest = others(l, moved as int, l.len());
    let m = settled(l, moved, sticky);
    lemma_others(l, moved as int, l.len());
    assert(is_pull_order(l, moved, rest));
    lemma_same_list(l, moved, rest, order);
    lemma_roomy(l);
    let dropped = put(l, moved as int, rest, sticky);
    let way = rest.sort_by(nearer(dropped, moved as int));
    lemma_pull_order(l, dropped, moved);
    assert forall|j: int| 0 <= j < way.len() implies #[trigger] way[j] < l.len() && way[j]
        != moved by {
        assert(way.contains(way[j]));
    }
    lemma_pulled(dropped, way, moved, sticky);
    assert(m[moved as int] == dropped[moved as int]) by {
        assert(!way.contains(moved));
        assert(moved as int as usize == moved);
    }
    assert(dropped =~= l.update(moved as int, m[moved as int]));
    lemma_nearest_first(l, dropped, moved, order);
    assert(order == way);
    let i = order[k];
    let done = seq![moved] + order.take(k);
    let before = pulled(dropped, order.take(k), moved, sticky);
    let after = pulled(dropped, order.take(k + 1), moved, sticky);
    let now = m.update(i as int, l[i as int]);
    let n = order.len() as int;
    assert(order.take(n) == order);
    lemma_pulled_step(dropped, order, k, moved, sticky);
    assert forall|j: int| k + 1 <= j < n implies order[j] != i by {}
    lemma_stays(dropped, order, k + 1, n, moved, sticky, i);
    assert(m[i as int] == after[i as int]);
    assert forall|j: int| 0 <= j < k implies order[j] != i by {}
    lemma_stays(dropped, order, 0, k, moved, sticky, i);
    assert(order.take(0) =~= Seq::<usize>::empty());
    assert(before[i as int] == l[i as int]);
    let taken = order.take(k);
    assert forall|j: int| 0 <= j < taken.len() implies #[trigger] taken[j] < dropped.len() by {
        assert(order[j] < l.len());
    }
    lemma_pulled(dropped, taken, moved, sticky);
    assert(areas_of(before, done) =~= areas_of(now, done)) by {
        assert forall|j: int| 0 <= j < done.len() implies before[done[j] as int]
            == now[done[j] as int] by {
            let e = done[j];
            if j == 0 {
                lemma_stays(dropped, order, k, n, moved, sticky, moved);
            } else {
                assert(e == order[j - 1]);
                assert forall|x: int| k <= x < n implies order[x] != e by {}
                lemma_stays(dropped, order, k, n, moved, sticky, e);
            }
        }
    }
    assert(now.len() == l.len());
    lemma_best_elsewhere(before, now, i as int, done, sticky);
    lemma_joined_to(now, done, l[i as int]);
    assert(now[i as int] == l[i as int]);
    assert(is_fitting(now, i as int, done) == is_joined_to(now, done, l[i as int], 127));
    if !is_joined_to(now, done, l[i as int], 127) {
        assert(leaves_room(now, i as int, done)) by {
            assert forall|j: int| 0 <= j < done.len() implies is_roomy(
                now[#[trigger] done[j] as int].area(),
                now[i as int],
            ) by {
                let e = done[j] as int;
                if j > 0 {
                    assert(done[j] == order[j - 1]);
                    assert(order.contains(order[j - 1]));
                    assert(order[j - 1] != i);
                }
                assert(order.contains(i));
                law_settling_only_moves(l, moved, sticky);
                assert(m[e].width == l[e].width);
                assert(l[e].enabled && l[i as int].enabled);
                assert(l[e].width >= 256 && l[i as int].width >= 256);
            }
        }
        lemma_put_is_best(now, i as int, done, sticky);
        assert(put(now, i as int, done, sticky)[i as int] == put(
            before,
            i as int,
            done,
            sticky,
        )[i as int]);
    }
}

/// Dropping an output that is off, or the only one that is on, moves nothing.
pub proof fn law_an_output_by_itself_moves_nothing(l: Seq<Spot>, moved: usize, sticky: int)
    requires
        l.len() <= usize::MAX,
        moved < l.len(),
        !l[moved as int].enabled || forall|i: int|
            0 <= i < l.len() && i != moved ==> !(#[trigger] l[i]).enabled,
    ensures
        settled(l, moved, sticky) == l,
{
    let rest = others(l, moved as int, l.len());
    lemma_others(l, moved as int, l.len());
    if rest.len() > 0 {
        assert(rest.contains(rest[0]));
    }
}

/// A layout in which everything is joined up already stays as it is. The output that was
/// dropped is on whole pixels, aligned with another or with the box around the others,
/// and joined to one of them. Each of the others, nearest to it first, is joined to the
/// ones before it.
pub proof fn law_a_joined_layout_stays_as_it_is(
    l: Seq<Spot>,
    moved: usize,
    sticky: int,
    order: Seq<usize>,
)
    requires
        l.len() <= usize::MAX,
        moved < l.len(),
        l[moved as int].enabled,
        have_size(l),
        sticky >= 0,
        is_pull_order(l, moved, order),
        is_nearest_first(l, moved as int, order),
        l[moved as int].x % 256 == 0,
        l[moved as int].y % 256 == 0,
        is_place(
            l,
            moved as int,
            order,
            Place { x: l[moved as int].x, y: l[moved as int].y, aligned: true },
        ),
        is_joined_to(l, order, l[moved as int], 128),
        forall|k: int|
            0 <= k < order.len() ==> is_joined_to(
                l,
                seq![moved] + order.take(k),
                l[#[trigger] order[k] as int],
                127,
            ),
    ensures
        settled(l, moved, sticky) == l,
{
    let rest = others(l, moved as int, l.len());
    let s = l[moved as int];
    let here = Place { x: s.x, y: s.y, aligned: true };
    lemma_others(l, moved as int, l.len());
    assert(is_pull_order(l, moved, rest));
    lemma_same_list(l, moved, order, rest);
    lemma_same_places(l, moved as int, order, rest);
    lemma_roomy(l);
    assert forall|k: int| 0 <= k < rest.len() implies is_roomy(
        l[#[trigger] rest[k] as int].area(),
        s,
    ) by {
        assert(rest.contains(rest[k]));
    }
    assert(is_joined_to(l, rest, s, 128));
    lemma_is_place(l, moved as int, rest, here);
    assert(is_moved(s, here, s));
    lemma_landing(l, rest, s, here, s);
    lemma_nearest_first(l, l, moved, order);
    assert forall|k: int| 0 <= k < order.len() implies is_fitting(
        l,
        #[trigger] order[k] as int,
        seq![moved] + order.take(k),
    ) by {
        lemma_joined_to(l, seq![moved] + order.take(k), l[order[k] as int]);
    }
    law_a_layout_that_fits_is_left_alone(l, moved, sticky);
}

/// Whether the outputs stand in a row: all on, as high as each other, on whole pixels, each
/// beginning where the one before it ends.
pub open spec fn is_row(l: Seq<Spot>) -> bool {
    &&& forall|i: int|
        0 <= i < l.len() ==> {
            &&& (#[trigger] l[i]).enabled
            &&& l[i].x % 256 == 0
            &&& l[i].y % 256 == 0
            &&& l[i].width >= 256
            &&& l[i].height >= 256
        }
    &&& forall|i: int, j: int|
        #![trigger l[i], l[j]]
        0 <= i < l.len() && 0 <= j < l.len() ==> l[i].y == l[j].y && l[i].height == l[j].height
    &&& forall|i: int, j: int|
        #![trigger l[i], l[j]]
        0 <= i < l.len() && j == i + 1 && j < l.len() ==> l[j].x == l[i].x + l[i].width
}

/// In a row, what stands farther along begins where all before it have ended.
proof fn lemma_row(l: Seq<Spot>, i: int, j: int)
    requires
        is_row(l),
        0 <= i < j < l.len(),
    ensures
        l[i].x + l[i].width <= l[j].x,
    decreases j - i,
{
    if i + 1 < j {
        lemma_row(l, i, j - 1);
        assert(l[j].x == l[j - 1].x + l[j - 1].width);
    } else {
        assert(l[j].x == l[i].x + l[i].width);
    }
}

/// In a row, the neighbour on the way to an output is nearer to it, by a pixel or more.
proof fn lemma_row_nearer(l: Seq<Spot>, from: int, i: int, j: int)
    requires
        is_row(l),
        0 <= from < l.len(),
        0 <= i < l.len(),
        0 <= j < l.len(),
        from < j < i || i < j < from,
        l[l.len() - 1].x + l[l.len() - 1].width - l[0].x <= i32::MAX * 256,
    ensures
        apart(l[j], l[from]) < apart(l[i], l[from]),
{
    let (f, a, b) = (l[from], l[i], l[j]);
    let n = l.len() - 1;
    assert(a.y == f.y && b.y == f.y && a.height == f.height && b.height == f.height);
    let da = (2 * a.x + a.width) - (2 * f.x + f.width);
    let db = (2 * b.x + b.width) - (2 * f.x + f.width);
    let (ua, ub) = if from < i {
        lemma_row(l, from, j);
        lemma_row(l, j, i);
        if i < n {
            lemma_row(l, i, n);
        }
        if 0 < from {
            lemma_row(l, 0, from);
        }
        (da, db)
    } else {
        lemma_row(l, i, j);
        lemma_row(l, j, from);
        if from < n {
            lemma_row(l, from, n);
        }
        if 0 < i {
            lemma_row(l, 0, i);
        }
        (-da, -db)
    };
    assert(a.width >= 256 && b.width >= 256 && f.width >= 256);
    assert(0 < ub && ub + 512 <= ua);
    assert(l[n].width >= 256 && l[0].width >= 256);
    assert(ua <= 512 * i32::MAX);
    let k = ua / 512;
    assert(0 <= k <= i32::MAX);
    assert(centre_gap(a, f) == ua * ua && centre_gap(b, f) == ub * ub) by (nonlinear_arith)
        requires
            centre_gap(a, f) == da * da + 0 * 0,
            centre_gap(b, f) == db * db + 0 * 0,
            ua == da && ub == db || ua == -da && ub == -db,
    ;
    lemma_apart(a, f, k);
    lemma_apart(b, f, k);
    let w = 512 * k;
    assert(w <= ua && ub < w);
    assert(ua * ua >= w * w && ub * ub < w * w) by (nonlinear_arith)
        requires
            0 <= w <= ua,
            0 < ub < w,
    ;
}

/// In a row, neighbours have an edge in common.
proof fn lemma_row_borders(l: Seq<Spot>, i: int, j: int)
    requires
        is_row(l),
        0 <= i < l.len(),
        0 <= j < l.len(),
        j == i + 1 || i == j + 1,
    ensures
        borders(l[i], l[j], 127),
        borders(l[i], l[j], 128),
{
    assert(l[i].y == l[j].y && l[i].height == l[j].height);
    assert(l[i].height >= 256);
    if j == i + 1 {
        assert(l[j].x == l[i].x + l[i].width);
    } else {
        assert(l[i].x == l[j].x + l[j].width);
    }
}

/// In a row, nothing is hidden.
proof fn lemma_row_hides_nothing(l: Seq<Spot>, i: int, j: int)
    requires
        is_row(l),
        0 <= i < l.len(),
        0 <= j < l.len(),
        i != j,
    ensures
        !hides(l[i], l[j]),
{
    if i < j {
        lemma_row(l, i, j);
    } else {
        lemma_row(l, j, i);
    }
}

/// A row of outputs stays as it is, whichever of them is dropped where it stands.
pub proof fn law_a_row_stays_as_it_is(l: Seq<Spot>, moved: usize, sticky: int)
    requires
        l.len() <= usize::MAX,
        moved < l.len(),
        sticky >= 0,
        is_row(l),
        l[l.len() - 1].x + l[l.len() - 1].width - l[0].x <= i32::MAX * 256,
    ensures
        settled(l, moved, sticky) == l,
{
    let from = moved as int;
    let n = l.len() as int;
    let s = l[from];
    assert forall|i: int| 0 <= i < l.len() && (#[trigger] l[i]).enabled implies l[i].width >= 256
        && l[i].height >= 256 by {}
    assert(l[from].enabled);
    if n == 1 {
        law_an_output_by_itself_moves_nothing(l, moved, sticky);
    } else {
        let rest = others(l, from, l.len());
        let le = nearer(l, from);
        let order = rest.sort_by(le);
        lemma_pull_order(l, l, moved);
        lemma_nearest_first(l, l, moved, order);
        lemma_nearer(l, from);
        rest.lemma_sort_by_ensures(le);
        assert forall|e: usize| e < n && e != moved implies #[trigger] order.contains(e) by {
            assert(l[e as int].enabled);
        }
        assert forall|k: int| 0 <= k < order.len() implies #[trigger] order[k] < n && order[k]
            != moved by {
            assert(order.contains(order[k]));
        }
        let next = if from + 1 < n {
            from + 1
        } else {
            from - 1
        };
        assert(order.contains(next as usize));
        let at = lemma_at(order, next as usize);
        lemma_row_borders(l, from, next);
        assert(is_joined_to(l, order, s, 128)) by {
            assert forall|k: int| 0 <= k < order.len() implies !hides(
                s,
                l[#[trigger] order[k] as int],
            ) by {
                lemma_row_hides_nothing(l, from, order[k] as int);
            }
            assert(borders(s, l[order[at] as int], 128));
        }
        let here = Place { x: s.x, y: s.y, aligned: true };
        let a = l[next].area();
        assert(is_area_of_one(l, order, a)) by {
            assert(l[order[at] as int] == l[next]);
        }
        assert(l[next].y == s.y);
        assert(is_beside(a, s, here)) by {
            if next == from + 1 {
                assert(l[next].x == s.x + s.width);
            } else {
                assert(s.x == l[next].x + l[next].width);
            }
        }
        assert(is_place(l, from, order, here));
        assert forall|k: int| 0 <= k < order.len() implies is_joined_to(
            l,
            seq![moved] + order.take(k),
            l[#[trigger] order[k] as int],
            127,
        ) by {
            let i = order[k] as int;
            let done = seq![moved] + order.take(k);
            assert forall|j: int| 0 <= j < done.len() implies !hides(
                l[i],
                l[#[trigger] done[j] as int],
            ) by {
                if j > 0 {
                    assert(done[j] == order[j - 1]);
                    assert(order[j - 1] != order[k]);
                }
                lemma_row_hides_nothing(l, i, done[j] as int);
            }
            let j = if from < i {
                i - 1
            } else {
                i + 1
            };
            lemma_row_borders(l, i, j);
            if j == from {
                assert(done[0] == moved);
                assert(borders(l[i], l[done[0] as int], 127));
            } else {
                assert(order.contains(j as usize));
                let x = lemma_at(order, j as usize);
                lemma_row_nearer(l, from, i, j);
                if x > k {
                    assert(le(order[k], order[x]));
                }
                assert(x != k);
                assert(done[x + 1] == order[x]);
                assert(borders(l[i], l[done[x + 1] as int], 127));
            }
        }
        law_a_joined_layout_stays_as_it_is(l, moved, sticky, order);
    }
}

/// The box around a layout is around every enabled output, and each of its sides is that
/// of one of them. There is none exactly where no output is on.
pub proof fn law_the_bounding_box(l: Seq<Spot>, enabled: Seq<usize>)
    requires
        l.len() <= usize::MAX,
        forall|e: usize| #[trigger]
            enabled.contains(e) <==> e < l.len() && l[e as int].enabled,
    ensures
        match bounding_box(l) {
            Some(a) => enabled.len() > 0 && is_box_around(l, enabled, a),
            None => enabled.len() == 0,
        },
{
    let rest = others(l, l.len() as int, l.len());
    lemma_others(l, l.len() as int, l.len());
    assert forall|e: usize| #[trigger] rest.contains(e) <==> enabled.contains(e) by {}
    if rest.len() > 0 {
        assert(rest.contains(rest[0]));
        let k = lemma_at(enabled, rest[0]);
        lemma_block_is_box(l, rest);
        lemma_same_box(l, rest, enabled, block(areas_of(l, rest)));
    } else if enabled.len() > 0 {
        assert(enabled.contains(enabled[0]));
        assert(rest.contains(enabled[0]));
        let k = lemma_at(rest, enabled[0]);
    }
}

/// Whether a line shows that two areas are lined up: their left edges, their right edges
/// or their middles, by a line down, or their upper edges, their lower edges or their
/// middles, by a line across; to less than half a pixel, and as far as both reach.
pub open spec fn is_guide(t: Area, a: Area, s: Stroke) -> bool {
    let top = if t.top < a.top {
        t.top
    } else {
        a.top
    };
    let bottom = if t.bottom > a.bottom {
        t.bottom
    } else {
        a.bottom
    };
    let left = if t.left < a.left {
        t.left
    } else {
        a.left
    };
    let right = if t.right > a.right {
        t.right
    } else {
        a.right
    };
    ||| {
        &&& s.from_y == top
        &&& s.to_y == bottom
        &&& s.from_x == s.to_x
        &&& {
            ||| -128 < t.left - a.left < 128 && s.to_x == a.left
            ||| -128 < t.right - a.right < 128 && s.to_x == a.right
            ||| -256 < (t.left + t.right) - (a.left + a.right) < 256 && 2 * s.to_x <= a.left
                + a.right < 2 * s.to_x + 2
        }
    }
    ||| {
        &&& s.from_x == left
        &&& s.to_x == right
        &&& s.from_y == s.to_y
        &&& {
            ||| -128 < t.top - a.top < 128 && s.to_y == a.top
            ||| -128 < t.bottom - a.bottom < 128 && s.to_y == a.bottom
            ||| -256 < (t.top + t.bottom) - (a.top + a.bottom) < 256 && 2 * s.to_y <= a.top
                + a.bottom < 2 * s.to_y + 2
        }
    }
}

/// The guides drawn are all the lines, and only those, that show what the output is lined
/// up with: each other enabled output, and the box around them where there are several.
pub proof fn law_the_guides_show_every_alignment(
    l: Seq<Spot>,
    placed: Seq<usize>,
    t: Area,
    s: Stroke,
)
    requires
        placed.len() > 0,
    ensures
        without_repeats(all_alignments(t, anchors(areas_of(l, placed)))).contains(s) <==> exists|
            a: Area,
        | #[trigger]
            is_guide(t, a, s) && (is_area_of_one(l, placed, a) || (placed.len() > 1
                && is_box_around(l, placed, a))),
{
    let rs = areas_of(l, placed);
    let all = anchors(rs);
    let lines = all_alignments(t, all);
    lemma_repeats(lines, s);
    if lines.contains(s) {
        let k = lemma_alignment_of(t, all, s);
        lemma_guide(t, all[k], s);
        if k < rs.len() {
            assert(all[k] == l[placed[k] as int].area());
            assert(is_area_of_one(l, placed, all[k]));
        } else {
            lemma_block_is_box(l, placed);
        }
        assert(is_guide(t, all[k], s));
    }
    if exists|a: Area| #[trigger]
        is_guide(t, a, s) && (is_area_of_one(l, placed, a) || (placed.len() > 1 && is_box_around(
            l,
            placed,
            a,
        ))) {
        let a = choose|a: Area| #[trigger]
            is_guide(t, a, s) && (is_area_of_one(l, placed, a) || (placed.len() > 1
                && is_box_around(l, placed, a)));
        let k = if is_area_of_one(l, placed, a) {
            let k = choose|k: int|
                #![trigger placed[k]]
                0 <= k < placed.len() && {
                    let s = l[placed[k] as int];
                    a.left == s.x && a.top == s.y && a.right == s.x + s.width && a.bottom == s.y
                        + s.height
                };
            assert(rs[k] =~= a);
            k
        } else {
            lemma_box(l, placed, a);
            rs.len() as int
        };
        assert(all[k] == a);
        lemma_guide(t, a, s);
        lemma_alignment_in(t, all, k, s);
    }
}

proof fn lemma_repeats(lines: Seq<Stroke>, s: Stroke)
    ensures
        without_repeats(lines).contains(s) <==> lines.contains(s),
    decreases lines.len(),
{
    if lines.len() > 1 {
        let init = lines.drop_last();
        let n = lines.len() - 1;
        lemma_repeats(init, s);
        let r = without_repeats(init);
        if lines.contains(s) {
            let k = choose|k: int| 0 <= k < lines.len() && lines[k] == s;
            if k < n {
                assert(init[k] == s);
            } else if lines[n - 1] == lines[n] {
                assert(init[n - 1] == s);
            } else {
                assert(r.push(lines.last())[r.len() as int] == s);
            }
            if init.contains(s) {
                let j = choose|j: int| 0 <= j < r.len() && r[j] == s;
                assert(r.push(lines.last())[j] == s);
            }
        }
        if without_repeats(lines).contains(s) {
            let w = without_repeats(lines);
            let j = choose|j: int| 0 <= j < w.len() && w[j] == s;
            if lines[n - 1] != lines[n] && j == r.len() {
                assert(lines[n] == s);
            } else {
                assert(r[j] == s);
                let k = choose|k: int| 0 <= k < init.len() && init[k] == s;
                assert(lines[k] == s);
            }
        }
    }
}

proof fn lemma_alignment_of(t: Area, anchors: Seq<Area>, s: Stroke) -> (k: int)
    requires
        all_alignments(t, anchors).contains(s),
    ensures
        0 <= k < anchors.len(),
        alignments(t, anchors[k]).contains(s),
    decreases anchors.len(),
{
    let lines = all_alignments(t, anchors);
    let j = choose|j: int| 0 <= j < lines.len() && lines[j] == s;
    let init = anchors.drop_last();
    let before = all_alignments(t, init);
    if j < before.len() {
        assert(before[j] == s);
        let k = lemma_alignment_of(t, init, s);
        assert(init[k] == anchors[k]);
        k
    } else {
        assert(alignments(t, anchors.last())[j - before.len()] == s);
        anchors.len() - 1
    }
}

proof fn lemma_alignment_in(t: Area, anchors: Seq<Area>, k: int, s: Stroke)
    requires
        0 <= k < anchors.len(),
        alignments(t, anchors[k]).contains(s),
    ensures
        all_alignments(t, anchors).contains(s),
    decreases anchors.len(),
{
    let lines = all_alignments(t, anchors);
    let init = anchors.drop_last();
    let before = all_alignments(t, init);
    if k < anchors.len() - 1 {
        assert(init[k] == anchors[k]);
        lemma_alignment_in(t, init, k, s);
        let j = choose|j: int| 0 <= j < before.len() && before[j] == s;
        assert(lines[j] == s);
    } else {
        let own = alignments(t, anchors[k]);
        let j = choose|j: int| 0 <= j < own.len() && own[j] == s;
        assert(lines[before.len() + j] == s);
    }
}

/// What is in one of two lists is in both together.
proof fn lemma_in_both(a: Seq<Stroke>, b: Seq<Stroke>, s: Stroke)
    ensures
        (a + b).contains(s) <==> a.contains(s) || b.contains(s),
{
    if a.contains(s) {
        let k = choose|k: int| 0 <= k < a.len() && a[k] == s;
        assert((a + b)[k] == s);
    }
    if b.contains(s) {
        let k = choose|k: int| 0 <= k < b.len() && b[k] == s;
        assert((a + b)[a.len() + k] == s);
    }
    if (a + b).contains(s) {
        let k = choose|k: int| 0 <= k < (a + b).len() && (a + b)[k] == s;
        if k < a.len() {
            assert(a[k] == s);
        } else {
            assert(b[k - a.len()] == s);
        }
    }
}

proof fn lemma_shown(wanted: bool, line: Stroke, s: Stroke)
    ensures
        shown(wanted, line).contains(s) <==> wanted && s == line,
{
    if wanted {
        assert(shown(wanted, line)[0] == line);
    }
}

proof fn lemma_guide(t: Area, a: Area, s: Stroke)
    ensures
        is_guide(t, a, s) <==> alignments(t, a).contains(s),
{
    let b1 = flush(t.left, a.left);
    let b2 = -PIXEL < (t.left + t.right) - (a.left + a.right) < PIXEL;
    let b3 = flush(t.right, a.right);
    let b4 = flush(t.top, a.top);
    let b5 = -PIXEL < (t.top + t.bottom) - (a.top + a.bottom) < PIXEL;
    let b6 = flush(t.bottom, a.bottom);
    let l1 = down(t, a, a.left);
    let l2 = down(t, a, (a.left + a.right) / 2);
    let l3 = down(t, a, a.right);
    let l4 = across(t, a, a.top);
    let l5 = across(t, a, (a.top + a.bottom) / 2);
    let l6 = across(t, a, a.bottom);
    let s2 = shown(b1, l1) + shown(b2, l2);
    let s3 = s2 + shown(b3, l3);
    let s4 = s3 + shown(b4, l4);
    let s5 = s4 + shown(b5, l5);
    lemma_in_both(shown(b1, l1), shown(b2, l2), s);
    lemma_in_both(s2, shown(b3, l3), s);
    lemma_in_both(s3, shown(b4, l4), s);
    lemma_in_both(s4, shown(b5, l5), s);
    lemma_in_both(s5, shown(b6, l6), s);
    lemma_shown(b1, l1, s);
    lemma_shown(b2, l2, s);
    lemma_shown(b3, l3, s);
    lemma_shown(b4, l4, s);
    lemma_shown(b5, l5, s);
    lemma_shown(b6, l6, s);
    assert(alignments(t, a) == s5 + shown(b6, l6));
    if is_guide(t, a, s) {
        if s.from_x == s.to_x && s.from_y == l1.from_y && s.to_y == l1.to_y {
            if b1 && s.to_x == a.left {
                assert(s =~= l1);
            }
            if b3 && s.to_x == a.right {
                assert(s =~= l3);
            }
            if b2 && 2 * s.to_x <= a.left + a.right < 2 * s.to_x + 2 {
                assert(s.to_x == (a.left + a.right) / 2);
                assert(s =~= l2);
            }
        }
        if s.from_y == s.to_y && s.from_x == l4.from_x && s.to_x == l4.to_x {
            if b4 && s.to_y == a.top {
                assert(s =~= l4);
            }
            if b6 && s.to_y == a.bottom {
                assert(s =~= l6);
            }
            if b5 && 2 * s.to_y <= a.top + a.bottom < 2 * s.to_y + 2 {
                assert(s.to_y == (a.top + a.bottom) / 2);
                assert(s =~= l5);
            }
        }
    }
}

} // verus!
