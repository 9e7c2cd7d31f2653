//! A uniform-grid spatial index over integer world coordinates.
//!
//! Entities are circles and segments. Each one is listed in every grid cell
//! that its axis-aligned bounding box touches; queries gather candidates from
//! the cells of the query region and then apply an exact integer test.
//! Positions are `i16` world units, radii and distances `u16`, so every
//! product in a narrowphase test is exact in `i64` or `i128`.
use std::collections::hash_map::DefaultHasher;
use std::collections::{HashMap, HashSet};
use std::hash::Hasher;
use vstd::prelude::*;
use vstd::std_specs::hash::DefaultHasherAdditionalSpecFns;
use vstd::string::StringSliceAdditionalSpecFns;

verus! {

broadcast use vstd::std_specs::hash::group_hash_axioms;

/// The shape of an entity. A segment runs from the entity's position to
/// `(x2, y2)`.
#[derive(Clone, Copy, Debug, PartialEq, Eq)]
pub enum EntityKind {
    Circle { radius: u16 },
    Segment { x2: i32, y2: i32 },
}

/// An entity as the index stores it.
#[derive(Clone, Copy, Debug, PartialEq, Eq)]
pub struct Entity {
    pub id: u64,
    pub x: i16,
    pub y: i16,
    pub kind: EntityKind,
    pub tag_hash: u64,
}

/// The 64-bit hash of a tag: what `str`'s `Hash` feeds a `DefaultHasher`, that
/// is the tag's bytes followed by one `0xff` byte.
pub open spec fn tag_hash_of(tag: Seq<u8>) -> u64 {
    DefaultHasher::spec_finish(seq![tag, seq![0xffu8]])
}

/// Hashes a tag the way the index compares tags.
pub fn tag_hash(tag: &str) -> (r: u64)
    ensures
        r == tag_hash_of(tag.spec_bytes()),
{
    let mut h = DefaultHasher::new();
    h.write(tag.as_bytes());
    let sep: [u8; 1] = [0xff];
    let sep_bytes = sep.as_slice();
    assert(sep_bytes@ =~= seq![0xffu8]);
    h.write(sep_bytes);
    let r = h.finish();
    assert(h@ =~= seq![tag.spec_bytes(), seq![0xffu8]]);
    r
}

/// The entity passes an optional tag filter given by its hash.
pub open spec fn tag_passes(e: Entity, filter: Option<u64>) -> bool {
    match filter {
        Some(h) => e.tag_hash == h,
        None => true,
    }
}

// ------------------------------------------------------------ bounding boxes

pub open spec fn min_int(a: int, b: int) -> int {
    if a <= b {
        a
    } else {
        b
    }
}

pub open spec fn max_int(a: int, b: int) -> int {
    if a >= b {
        a
    } else {
        b
    }
}

pub open spec fn box_min_x(e: Entity) -> int {
    match e.kind {
        EntityKind::Circle { radius } => e.x - radius,
        EntityKind::Segment { x2, .. } => min_int(e.x as int, x2 as int),
    }
}

pub open spec fn box_max_x(e: Entity) -> int {
    match e.kind {
        EntityKind::Circle { radius } => e.x + radius,
        EntityKind::Segment { x2, .. } => max_int(e.x as int, x2 as int),
    }
}

pub open spec fn box_min_y(e: Entity) -> int {
    match e.kind {
        EntityKind::Circle { radius } => e.y - radius,
        EntityKind::Segment { y2, .. } => min_int(e.y as int, y2 as int),
    }
}

pub open spec fn box_max_y(e: Entity) -> int {
    match e.kind {
        EntityKind::Circle { radius } => e.y + radius,
        EntityKind::Segment { y2, .. } => max_int(e.y as int, y2 as int),
    }
}

/// The entity's bounding box overlaps the closed rectangle
/// `[min_x, max_x] x [min_y, max_y]`.
pub open spec fn box_overlaps(e: Entity, min_x: int, min_y: int, max_x: int, max_y: int) -> bool {
    box_max_x(e) >= min_x && box_min_x(e) <= max_x && box_max_y(e) >= min_y && box_min_y(e)
        <= max_y
}

/// The cell that holds coordinate `v`: `floor(v / cell)`.
pub open spec fn cell_of(v: int, cell: int) -> int {
    v / cell
}

/// The entity's bounding box touches cell `(cx, cy)`: the cell lies between
/// the cells of the box's two corners.
pub open spec fn touches(e: Entity, cell: int, cx: int, cy: int) -> bool {
    cell_of(box_min_x(e), cell) <= cx <= cell_of(box_max_x(e), cell) && cell_of(box_min_y(e), cell)
        <= cy <= cell_of(box_max_y(e), cell)
}

/// The entity touches some cell of the block `[cx0, cx1] x [cy0, cy1]`.
pub open spec fn touches_block(e: Entity, cell: int, cx0: int, cx1: int, cy0: int, cy1: int) -> bool {
    max_int(cell_of(box_min_x(e), cell), cx0) <= min_int(cell_of(box_max_x(e), cell), cx1)
        && max_int(cell_of(box_min_y(e), cell), cy0) <= min_int(cell_of(box_max_y(e), cell), cy1)
}

/// The grid key of cell `(cx, cy)`.
pub open spec fn cell_key(cx: int, cy: int) -> int {
    cx * 4294967296 + (cy + 2147483648)
}

pub open spec fn cell_in_range(cx: int, cy: int) -> bool {
    i32::MIN <= cx <= i32::MAX && i32::MIN <= cy <= i32::MAX
}

proof fn lemma_cell_key_injective(a: int, b: int, c: int, d: int)
    requires
        cell_in_range(a, b),
        cell_in_range(c, d),
        cell_key(a, b) == cell_key(c, d),
    ensures
        a == c && b == d,
{
    assert(a == c) by (nonlinear_arith)
        requires
            a * 4294967296 + b == c * 4294967296 + d,
            i32::MIN <= b <= i32::MAX,
            i32::MIN <= d <= i32::MAX,
    ;
}

proof fn lemma_cell_key_range(cx: int, cy: int)
    requires
        cell_in_range(cx, cy),
    ensures
        i64::MIN <= cell_key(cx, cy) <= i64::MAX,
{
    assert(i64::MIN <= cell_key(cx, cy) <= i64::MAX) by (nonlinear_arith)
        requires
            i32::MIN <= cx <= i32::MAX,
            i32::MIN <= cy <= i32::MAX,
    ;
}

fn key_of(cx: i32, cy: i32) -> (k: i64)
    ensures
        k == cell_key(cx as int, cy as int),
{
    proof {
        lemma_cell_key_range(cx as int, cy as int);
    }
    (cx as i64) * 4294967296 + ((cy as i64) + 2147483648)
}

/// `floor(v / cell)` for a positive cell size.
fn floor_div(v: i32, cell: u16) -> (r: i32)
    requires
        cell > 0,
    ensures
        r == cell_of(v as int, cell as int),
{
    if v >= 0 {
        let q = (v as u32) / (cell as u32);
        proof {
            vstd::arithmetic::div_mod::lemma_fundamental_div_mod(v as int, cell as int);
        }
        q as i32
    } else {
        let a: u32 = (-(v as i64) - 1) as u32;
        let q = a / (cell as u32);
        proof {
            let qi = q as int;
            let c = cell as int;
            let rem = a as int % c;
            vstd::arithmetic::div_mod::lemma_fundamental_div_mod(a as int, c);
            assert(qi == a as int / c);
            assert(v as int == (-qi - 1) * c + (c - rem - 1)) by (nonlinear_arith)
                requires
                    a as int == c * qi + rem,
                    v as int == -(a as int) - 1,
            ;
            vstd::arithmetic::div_mod::lemma_fundamental_div_mod_converse(
                v as int,
                c,
                -qi - 1,
                c - rem - 1,
            );
        }
        -(q as i32) - 1
    }
}

proof fn lemma_floor_monotone(a: int, b: int, c: int)
    requires
        a <= b,
        c > 0,
    ensures
        cell_of(a, c) <= cell_of(b, c),
{
    vstd::arithmetic::div_mod::lemma_div_is_ordered(a, b, c);
}

proof fn lemma_push_contains(s: Seq<u64>, x: u64)
    ensures
        forall|y: u64| #[trigger] s.push(x).contains(y) <==> (s.contains(y) || y == x),
{
    let t = s.push(x);
    assert forall|y: u64| #[trigger] t.contains(y) <==> (s.contains(y) || y == x) by {
        if s.contains(y) {
            let k = choose|k: int| 0 <= k < s.len() && s[k] == y;
            assert(t[k] == y);
        }
        if y == x {
            assert(t[s.len() as int] == x);
        }
        if t.contains(y) {
            let k = choose|k: int| 0 <= k < t.len() && t[k] == y;
            if k < s.len() {
                assert(s[k] == y);
            }
        }
    }
}

proof fn lemma_push_distinct(s: Seq<u64>, x: u64)
    requires
        s.no_duplicates(),
        !s.contains(x),
    ensures
        s.push(x).no_duplicates(),
        forall|y: u64| s.push(x).contains(y) <==> (s.contains(y) || y == x),
{
    let t = s.push(x);
    assert forall|i: int, j: int| 0 <= i < t.len() && 0 <= j < t.len() && i != j implies t[i]
        != t[j] by {
        if i < s.len() && j < s.len() {
            assert(t[i] == s[i] && t[j] == s[j]);
        } else if i < s.len() {
            assert(t[i] == s[i]);
        } else if j < s.len() {
            assert(t[j] == s[j]);
        }
    }
    assert forall|y: u64| t.contains(y) <==> (s.contains(y) || y == x) by {
        if s.contains(y) {
            let k = choose|k: int| 0 <= k < s.len() && s[k] == y;
            assert(t[k] == y);
        }
        if y == x {
            assert(t[s.len() as int] == x);
        }
        if t.contains(y) {
            let k = choose|k: int| 0 <= k < t.len() && t[k] == y;
            if k < s.len() {
                assert(s[k] == y);
            }
        }
    }
}

/// `t` holds the ids of `s` but `id`, each once.
pub open spec fn lists_without(s: Seq<u64>, t: Seq<u64>, id: u64) -> bool {
    &&& t.no_duplicates()
    &&& forall|y: u64| #[trigger] t.contains(y) <==> (s.contains(y) && y != id)
}

proof fn lemma_absent_without(s: Seq<u64>, id: u64)
    requires
        s.no_duplicates(),
        forall|t: int| 0 <= t < s.len() ==> s[t] != id,
    ensures
        lists_without(s, s, id),
{
}

proof fn lemma_swap_remove_without(s: Seq<u64>, k: int, id: u64)
    requires
        s.no_duplicates(),
        0 <= k < s.len(),
        s[k] == id,
    ensures
        lists_without(s, s.update(k, s.last()).drop_last(), id),
{
    let t = s.update(k, s.last()).drop_last();
    let n = s.len() - 1;
    assert forall|i: int, j: int| 0 <= i < t.len() && 0 <= j < t.len() && i != j implies t[i]
        != t[j] by {
        if i == k {
            assert(t[i] == s[n]);
        }
        if j == k {
            assert(t[j] == s[n]);
        }
    }
    assert forall|y: u64| #[trigger] t.contains(y) <==> (s.contains(y) && y != id) by {
        if t.contains(y) {
            let i = choose|i: int| 0 <= i < t.len() && t[i] == y;
            if i == k {
                assert(s[n] == y);
                assert(n != k);
            } else {
                assert(s[i] == y);
            }
        }
        if s.contains(y) && y != id {
            let i = choose|i: int| 0 <= i < s.len() && s[i] == y;
            if i == n {
                if k < n {
                    assert(t[k] == y);
                }
            } else {
                assert(i != k);
                assert(t[i] == y);
            }
        }
    }
}

// ---------------------------------------------------------------- the index

/// Bounds that keep every coordinate, cell and product in range: a segment's
/// far end lies within `u16::MAX` of its start on each axis.
pub open spec fn entity_bounded(e: Entity) -> bool {
    match e.kind {
        EntityKind::Circle { .. } => true,
        EntityKind::Segment { x2, y2 } => e.x - 65535 <= x2 <= e.x + 65535 && e.y - 65535 <= y2
            <= e.y + 65535,
    }
}

/// The ids that grid `g` lists in cell `(cx, cy)`.
pub open spec fn cell_ids(g: Map<i64, Vec<u64>>, cx: int, cy: int) -> Seq<u64> {
    let k = cell_key(cx, cy) as i64;
    if g.contains_key(k) {
        g[k]@
    } else {
        Seq::empty()
    }
}

/// Grid `g` lists, in every cell, exactly the entities of `ents` whose box
/// touches the cell, each once.
pub open spec fn grid_matches(g: Map<i64, Vec<u64>>, ents: Map<u64, Entity>, cell: int) -> bool {
    &&& forall|cx: int, cy: int, j: int|
        cell_in_range(cx, cy) && 0 <= j < cell_ids(g, cx, cy).len() ==> {
            let id = #[trigger] cell_ids(g, cx, cy)[j];
            &&& ents.contains_key(id)
            &&& touches(ents[id], cell, cx, cy)
        }
    &&& forall|id: u64, cx: int, cy: int|
        cell_in_range(cx, cy) && ents.contains_key(id) && touches(ents[id], cell, cx, cy)
            ==> #[trigger] cell_ids(g, cx, cy).contains(id)
    &&& forall|cx: int, cy: int|
        cell_in_range(cx, cy) ==> (#[trigger] cell_ids(g, cx, cy)).no_duplicates()
}

/// `e` moved so that its position is `(x, y)`, a segment's far end by the same
/// offset.
pub open spec fn moved(e: Entity, x: i16, y: i16) -> Entity {
    Entity {
        x,
        y,
        kind: match e.kind {
            EntityKind::Circle { radius } => EntityKind::Circle { radius },
            EntityKind::Segment { x2, y2 } => EntityKind::Segment {
                x2: (x2 + (x - e.x)) as i32,
                y2: (y2 + (y - e.y)) as i32,
            },
        },
        ..e
    }
}

/// The entity map after moving entity `id`, if it is there, to `(x, y)`.
pub open spec fn moved_entities(ents: Map<u64, Entity>, id: u64, x: i16, y: i16) -> Map<
    u64,
    Entity,
> {
    if ents.contains_key(id) {
        ents.insert(id, moved(ents[id], x, y))
    } else {
        ents
    }
}

fn moved_to(e: Entity, x: i16, y: i16) -> (r: Entity)
    requires
        entity_bounded(e),
    ensures
        r == moved(e, x, y),
        entity_bounded(r),
{
    let kind = match e.kind {
        EntityKind::Circle { radius } => EntityKind::Circle { radius },
        EntityKind::Segment { x2, y2 } => EntityKind::Segment {
            x2: x2 + (x as i32 - e.x as i32),
            y2: y2 + (y as i32 - e.y as i32),
        },
    };
    Entity { x, y, kind, ..e }
}

/// The hash that an optional tag filter compares against.
pub open spec fn filter_of(tag: Option<&str>) -> Option<u64> {
    match tag {
        Some(t) => Some(tag_hash_of(t.spec_bytes())),
        None => None,
    }
}

/// The entity is a hit of a rectangle query.
pub open spec fn rect_match(
    e: Entity,
    min_x: int,
    min_y: int,
    max_x: int,
    max_y: int,
    filter: Option<u64>,
) -> bool {
    &&& tag_passes(e, filter)
    &&& min_x <= max_x && min_y <= max_y
    &&& box_overlaps(e, min_x, min_y, max_x, max_y)
}

proof fn lemma_box_ordered(e: Entity)
    ensures
        box_min_x(e) <= e.x <= box_max_x(e),
        box_min_y(e) <= e.y <= box_max_y(e),
{
}

proof fn lemma_prefix_push(s: Seq<u64>, i: int)
    requires
        0 <= i < s.len(),
    ensures
        forall|y: u64| #[trigger]
            s.subrange(0, i + 1).contains(y) <==> (s.subrange(0, i).contains(y) || y == s[i]),
{
    assert(s.subrange(0, i + 1) =~= s.subrange(0, i).push(s[i]));
    lemma_push_contains(s.subrange(0, i), s[i]);
}

proof fn lemma_overlap_touches(e: Entity, c: int, min_x: int, min_y: int, max_x: int, max_y: int)
    requires
        c > 0,
        min_x <= max_x,
        min_y <= max_y,
        box_overlaps(e, min_x, min_y, max_x, max_y),
    ensures
        touches_block(
            e,
            c,
            cell_of(min_x, c),
            cell_of(max_x, c),
            cell_of(min_y, c),
            cell_of(max_y, c),
        ),
{
    lemma_box_ordered(e);
    lemma_floor_monotone(box_min_x(e), box_max_x(e), c);
    lemma_floor_monotone(box_min_x(e), max_x, c);
    lemma_floor_monotone(min_x, box_max_x(e), c);
    lemma_floor_monotone(min_x, max_x, c);
    lemma_floor_monotone(box_min_y(e), box_max_y(e), c);
    lemma_floor_monotone(box_min_y(e), max_y, c);
    lemma_floor_monotone(min_y, box_max_y(e), c);
    lemma_floor_monotone(min_y, max_y, c);
}

/// The bounding box of `e` as `(min_x, min_y, max_x, max_y)`.
fn entity_box(e: &Entity) -> (r: (i32, i32, i32, i32))
    requires
        entity_bounded(*e),
    ensures
        r.0 == box_min_x(*e),
        r.1 == box_min_y(*e),
        r.2 == box_max_x(*e),
        r.3 == box_max_y(*e),
{
    match e.kind {
        EntityKind::Circle { radius } => (
            e.x as i32 - radius as i32,
            e.y as i32 - radius as i32,
            e.x as i32 + radius as i32,
            e.y as i32 + radius as i32,
        ),
        EntityKind::Segment { x2, y2 } => (
            if (e.x as i32) <= x2 {
                e.x as i32
            } else {
                x2
            },
            if (e.y as i32) <= y2 {
                e.y as i32
            } else {
                y2
            },
            if (e.x as i32) >= x2 {
                e.x as i32
            } else {
                x2
            },
            if (e.y as i32) >= y2 {
                e.y as i32
            } else {
                y2
            },
        ),
    }
}

/// The point `(x, y)` lies within distance `range` of the entity: for a
/// circle, the distance between point and centre is at most `range + radius`;
/// for a segment, the distance to the closest point of the segment is at most
/// `range`. A segment of length zero is its start point. The perpendicular
/// case compares `cross^2 <= range^2 * len^2`, which is the same test without
/// a division.
pub open spec fn within_range(e: Entity, x: int, y: int, range: int) -> bool {
    match e.kind {
        EntityKind::Circle { radius } => {
            let dx = x - e.x;
            let dy = y - e.y;
            dx * dx + dy * dy <= (range + radius) * (range + radius)
        },
        EntityKind::Segment { x2, y2 } => {
            let vx = x2 - e.x;
            let vy = y2 - e.y;
            let wx = x - e.x;
            let wy = y - e.y;
            let dot = wx * vx + wy * vy;
            let len2 = vx * vx + vy * vy;
            if dot <= 0 {
                wx * wx + wy * wy <= range * range
            } else if dot >= len2 {
                (x - x2) * (x - x2) + (y - y2) * (y - y2) <= range * range
            } else {
                (wx * vy - wy * vx) * (wx * vy - wy * vx) <= range * range * len2
            }
        },
    }
}

/// The entity is a hit of a range query.
pub open spec fn range_match(e: Entity, x: int, y: int, range: int, filter: Option<u64>) -> bool {
    tag_passes(e, filter) && within_range(e, x, y, range)
}

proof fn lemma_abs_from_square(a: int, s: int)
    requires
        s >= 0,
        a * a <= s * s,
    ensures
        -s <= a <= s,
{
    if a > s {
        assert(a * a > s * s) by (nonlinear_arith)
            requires
                a > s,
                s >= 0,
        ;
    }
    if a < -s {
        assert(a * a > s * s) by (nonlinear_arith)
            requires
                a < -s,
                s >= 0,
        ;
    }
}

/// One axis of the perpendicular case: the closest point, scaled by `len2`,
/// is within `range * len2` of the query point and inside the segment's span.
proof fn lemma_perp_axis(p: int, a: int, b: int, w: int, v: int, wo: int, vo: int, r: int)
    requires
        w == p - a,
        v == b - a,
        r >= 0,
        0 < w * v + wo * vo < v * v + vo * vo,
        (w * vo - wo * v) * (w * vo - wo * v) <= r * r * (v * v + vo * vo),
    ensures
        p - r <= max_int(a, b),
        min_int(a, b) <= p + r,
{
    let d = w * v + wo * vo;
    let l = v * v + vo * vo;
    let cr = w * vo - wo * v;
    let t = w * l - d * v;
    assert(t == vo * cr) by (nonlinear_arith)
        requires
            t == w * l - d * v,
            l == v * v + vo * vo,
            d == w * v + wo * vo,
            cr == w * vo - wo * v,
    ;
    let c2 = cr * cr;
    assert(c2 >= 0) by (nonlinear_arith)
        requires
            c2 == cr * cr,
    ;
    assert(t * t == (vo * vo) * c2) by (nonlinear_arith)
        requires
            t == vo * cr,
            c2 == cr * cr,
    ;
    assert((vo * vo) * c2 <= l * c2) by (nonlinear_arith)
        requires
            l == v * v + vo * vo,
            c2 >= 0,
    ;
    assert(l * c2 <= (r * l) * (r * l)) by (nonlinear_arith)
        requires
            c2 <= r * r * l,
            l > 0,
    ;
    assert(l > 0);
    lemma_abs_from_square(t, r * l);
    // the closest point, scaled: a * l + d * v, lies between a * l and b * l
    let cl = a * l + d * v;
    assert(cl == p * l - t) by (nonlinear_arith)
        requires
            t == w * l - d * v,
            w == p - a,
            cl == a * l + d * v,
    ;
    assert(min_int(a, b) * l <= cl <= max_int(a, b) * l) by (nonlinear_arith)
        requires
            cl == a * l + d * v,
            v == b - a,
            0 < d < l,
    ;
    assert((p - r) * l <= max_int(a, b) * l) by (nonlinear_arith)
        requires
            cl == p * l - t,
            t <= r * l,
            cl <= max_int(a, b) * l,
    ;
    assert(min_int(a, b) * l <= (p + r) * l) by (nonlinear_arith)
        requires
            cl == p * l - t,
            -(r * l) <= t,
            min_int(a, b) * l <= cl,
    ;
    assert(p - r <= max_int(a, b)) by (nonlinear_arith)
        requires
            (p - r) * l <= max_int(a, b) * l,
            l > 0,
    ;
    assert(min_int(a, b) <= p + r) by (nonlinear_arith)
        requires
            min_int(a, b) * l <= (p + r) * l,
            l > 0,
    ;
}

/// An entity within range of a point has a bounding box that overlaps the
/// square of side `2 * range` around the point.
proof fn lemma_within_range_overlaps(e: Entity, x: int, y: int, range: int)
    requires
        range >= 0,
        within_range(e, x, y, range),
    ensures
        box_overlaps(e, x - range, y - range, x + range, y + range),
{
    match e.kind {
        EntityKind::Circle { radius } => {
            let dx = x - e.x;
            let dy = y - e.y;
            let s = range + radius;
            assert(dx * dx <= s * s) by (nonlinear_arith)
                requires
                    dx * dx + dy * dy <= s * s,
            ;
            assert(dy * dy <= s * s) by (nonlinear_arith)
                requires
                    dx * dx + dy * dy <= s * s,
            ;
            lemma_abs_from_square(dx, s);
            lemma_abs_from_square(dy, s);
        },
        EntityKind::Segment { x2, y2 } => {
            let vx = x2 - e.x;
            let vy = y2 - e.y;
            let wx = x - e.x;
            let wy = y - e.y;
            let dot = wx * vx + wy * vy;
            let len2 = vx * vx + vy * vy;
            if dot <= 0 {
                assert(wx * wx <= range * range && wy * wy <= range * range) by (nonlinear_arith)
                    requires
                        wx * wx + wy * wy <= range * range,
                ;
                lemma_abs_from_square(wx, range);
                lemma_abs_from_square(wy, range);
            } else if dot >= len2 {
                let ux = x - x2;
                let uy = y - y2;
                assert(ux * ux <= range * range && uy * uy <= range * range) by (nonlinear_arith)
                    requires
                        ux * ux + uy * uy <= range * range,
                ;
                lemma_abs_from_square(ux, range);
                lemma_abs_from_square(uy, range);
            } else {
                lemma_perp_axis(x, e.x as int, x2 as int, wx, vx, wy, vy, range);
                assert(wy * vx - wx * vy == -(wx * vy - wy * vx));
                assert((wy * vx - wx * vy) * (wy * vx - wx * vy) == (wx * vy - wy * vx) * (wx * vy
                    - wy * vx)) by (nonlinear_arith);
                lemma_perp_axis(y, e.y as int, y2 as int, wy, vy, wx, vx, range);
            }
        },
    }
}

proof fn lemma_prod_bound(a: int, b: int, m: int, n: int)
    requires
        -m <= a <= m,
        -n <= b <= n,
    ensures
        -(m * n) <= a * b <= m * n,
{
    assert(-(m * n) <= a * b <= m * n) by (nonlinear_arith)
        requires
            -m <= a <= m,
            -n <= b <= n,
    ;
}

proof fn lemma_square_nonneg(a: int)
    ensures
        a * a >= 0,
{
    assert(a * a >= 0) by (nonlinear_arith);
}

/// The exact range test of `within_range`.
fn within_range_exec(e: &Entity, x: i16, y: i16, range: u16) -> (r: bool)
    requires
        entity_bounded(*e),
    ensures
        r == within_range(*e, x as int, y as int, range as int),
{
    let px = x as i128;
    let py = y as i128;
    let sx = e.x as i128;
    let sy = e.y as i128;
    let rr = range as i128;
    match e.kind {
        EntityKind::Circle { radius } => {
            let dx = px - sx;
            let dy = py - sy;
            let s = rr + radius as i128;
            proof {
                lemma_prod_bound(dx as int, dx as int, 65536, 65536);
                lemma_prod_bound(dy as int, dy as int, 65536, 65536);
                lemma_prod_bound(s as int, s as int, 131072, 131072);
            }
            dx * dx + dy * dy <= s * s
        },
        EntityKind::Segment { x2, y2 } => {
            let ex = x2 as i128;
            let ey = y2 as i128;
            let vx = ex - sx;
            let vy = ey - sy;
            let wx = px - sx;
            let wy = py - sy;
            proof {
                lemma_prod_bound(wx as int, vx as int, 65536, 65536);
                lemma_prod_bound(wy as int, vy as int, 65536, 65536);
                lemma_prod_bound(vx as int, vx as int, 65536, 65536);
                lemma_prod_bound(vy as int, vy as int, 65536, 65536);
                lemma_prod_bound(wx as int, wx as int, 65536, 65536);
                lemma_prod_bound(wy as int, wy as int, 65536, 65536);
                lemma_prod_bound(wx as int, vy as int, 65536, 65536);
                lemma_prod_bound(wy as int, vx as int, 65536, 65536);
                lemma_prod_bound(rr as int, rr as int, 65536, 65536);
            }
            let dot = wx * vx + wy * vy;
            let len2 = vx * vx + vy * vy;
            if dot <= 0 {
                wx * wx + wy * wy <= rr * rr
            } else if dot >= len2 {
                let ux = px - ex;
                let uy = py - ey;
                proof {
                    lemma_prod_bound(ux as int, ux as int, 131072, 131072);
                    lemma_prod_bound(uy as int, uy as int, 131072, 131072);
                }
                ux * ux + uy * uy <= rr * rr
            } else {
                let cross = wx * vy - wy * vx;
                proof {
                    lemma_prod_bound(cross as int, cross as int, 8589934592, 8589934592);
                    lemma_prod_bound((rr * rr) as int, len2 as int, 4294967296, 8589934592);
                }
                cross * cross <= rr * rr * len2
            }
        },
    }
}

// ------------------------------------------------------------------ rays

/// The integer square root: the `k >= 0` with `k * k <= n < (k + 1) * (k + 1)`.
pub open spec fn isqrt(n: int) -> int {
    choose|k: int| 0 <= k && #[trigger] (k * k) <= n < (k + 1) * (k + 1)
}

proof fn lemma_isqrt_unique(n: int, k: int)
    requires
        0 <= k,
        k * k <= n < (k + 1) * (k + 1),
    ensures
        isqrt(n) == k,
{
    let j = isqrt(n);
    assert(0 <= j && j * j <= n < (j + 1) * (j + 1));
    if j < k {
        assert((j + 1) * (j + 1) <= k * k) by (nonlinear_arith)
            requires
                0 <= j < k,
        ;
    }
    if k < j {
        assert((k + 1) * (k + 1) <= j * j) by (nonlinear_arith)
            requires
                0 <= k < j,
        ;
    }
}

fn isqrt_exec(n: i128) -> (r: i128)
    requires
        0 <= n < 0x1_0000_0000_0000_0000_00,
    ensures
        r == isqrt(n as int),
        0 <= r < 0x10_0000_0000,
{
    let mut lo: i128 = 0;
    let mut hi: i128 = 0x10_0000_0000;
    while hi - lo > 1
        invariant
            0 <= lo < hi <= 0x10_0000_0000,
            lo * lo <= n < hi * hi,
        decreases hi - lo,
    {
        let mid = lo + (hi - lo) / 2;
        proof {
            lemma_prod_bound(mid as int, mid as int, 0x10_0000_0000, 0x10_0000_0000);
        }
        if mid * mid <= n {
            lo = mid;
        } else {
            hi = mid;
        }
    }
    proof {
        assert(hi == lo + 1);
        lemma_isqrt_unique(n as int, lo as int);
    }
    lo
}

/// The exact test of whether the ray from `(x1, y1)` to `(x2, y2)` enters
/// circle `e` at a fraction `s` in `[0, 1]`, where `s` is the smaller root of
/// `|P + s*D - C|^2 = radius^2`, that is `(-b - sqrt(disc)) / 2a`. The root is
/// at least zero exactly when `b <= 0` and `c >= 0` (the ray starts outside or
/// on the circle, heading towards it), and at most one exactly when
/// `b + 2a >= 0` or `(b + 2a)^2 <= disc`. A ray of length zero enters nothing.
pub open spec fn circle_entered(a: int, b: int, c: int, disc: int) -> bool {
    &&& a != 0
    &&& disc >= 0
    &&& b <= 0
    &&& c >= 0
    &&& (b + 2 * a >= 0 || (b + 2 * a) * (b + 2 * a) <= disc)
}

/// Where the ray from `(x1, y1)` to `(x2, y2)` first enters circle `e`, as
/// the fraction `num / den` of the ray, with `den = 2a > 0`. The hit exists
/// exactly as `circle_entered` says; the fraction is the exact root rounded
/// up to the integer square root of the discriminant, and at most one.
pub open spec fn circle_hit(e: Entity, radius: int, x1: int, y1: int, x2: int, y2: int) -> Option<
    (int, int),
> {
    let dx = x2 - x1;
    let dy = y2 - y1;
    let fx = x1 - e.x;
    let fy = y1 - e.y;
    let a = dx * dx + dy * dy;
    let b = 2 * (fx * dx + fy * dy);
    let c = fx * fx + fy * fy - radius * radius;
    let disc = b * b - 4 * (a * c);
    if circle_entered(a, b, c, disc) {
        Some((min_int(-b - isqrt(disc), 2 * a), 2 * a))
    } else {
        None
    }
}

/// Where the ray from `(x1, y1)` to `(x2, y2)` crosses segment `e`, as the
/// fraction `num / den` of the ray, with `den > 0`. Parallel lines never
/// cross; the crossing counts when it lies on both the ray and the segment.
pub open spec fn segment_hit(e: Entity, sx2: int, sy2: int, x1: int, y1: int, x2: int, y2: int) -> Option<
    (int, int),
> {
    let sx1 = e.x as int;
    let sy1 = e.y as int;
    let den = (x1 - x2) * (sy1 - sy2) - (y1 - y2) * (sx1 - sx2);
    let tn = (x1 - sx1) * (sy1 - sy2) - (y1 - sy1) * (sx1 - sx2);
    let un = -((x1 - x2) * (y1 - sy1) - (y1 - y2) * (x1 - sx1));
    if den == 0 {
        None
    } else {
        let (t, u, d) = if den > 0 {
            (tn, un, den)
        } else {
            (-tn, -un, -den)
        };
        if 0 <= t <= d && 0 <= u <= d {
            Some((t, d))
        } else {
            None
        }
    }
}

/// Where the ray from `(x1, y1)` to `(x2, y2)` first meets `e`, as a fraction
/// `num / den` of the ray.
pub open spec fn ray_hit(e: Entity, x1: int, y1: int, x2: int, y2: int) -> Option<(int, int)> {
    match e.kind {
        EntityKind::Circle { radius } => circle_hit(e, radius as int, x1, y1, x2, y2),
        EntityKind::Segment { x2: sx2, y2: sy2 } => segment_hit(
            e,
            sx2 as int,
            sy2 as int,
            x1,
            y1,
            x2,
            y2,
        ),
    }
}

proof fn lemma_frac_trans(a: int, b: int, c: int, d: int, e: int, f: int)
    requires
        b > 0,
        d > 0,
        f > 0,
        a * d < c * b,
        c * f <= e * d,
    ensures
        a * f <= e * b,
{
    assert(a * f * d < e * b * d) by (nonlinear_arith)
        requires
            b > 0,
            d > 0,
            f > 0,
            a * d < c * b,
            c * f <= e * d,
    ;
    assert(a * f <= e * b) by (nonlinear_arith)
        requires
            a * f * d < e * b * d,
            d > 0,
    ;
}

/// The rounded entry fraction of an entered circle lies in `[0, 1]`, and the
/// point it names lies between the two roots.
proof fn lemma_circle_fraction(a: int, b: int, c: int, disc: int)
    requires
        a >= 0,
        disc == b * b - 4 * (a * c),
        circle_entered(a, b, c, disc),
    ensures
        a > 0,
        0 <= min_int(-b - isqrt(disc), 2 * a) <= 2 * a,
        (min_int(-b - isqrt(disc), 2 * a) + b) * (min_int(-b - isqrt(disc), 2 * a) + b) <= disc,
{
    lemma_isqrt_exists(disc);
    let k = isqrt(disc);
    assert(a * c >= 0) by (nonlinear_arith)
        requires
            a >= 0,
            c >= 0,
    ;
    assert(k <= -b) by (nonlinear_arith)
        requires
            k * k <= disc,
            disc == b * b - 4 * (a * c),
            a * c >= 0,
            k >= 0,
            b <= 0,
    ;
    if -b - k <= 2 * a {
        assert((-b - k + b) * (-b - k + b) == k * k) by (nonlinear_arith);
    } else {
        assert(b + 2 * a < 0);
    }
}

proof fn lemma_ray_hit_positive(e: Entity, x1: int, y1: int, x2: int, y2: int)
    requires
        ray_hit(e, x1, y1, x2, y2) is Some,
    ensures
        hit_den(e, x1, y1, x2, y2) > 0,
        0 <= hit_num(e, x1, y1, x2, y2) <= hit_den(e, x1, y1, x2, y2),
{
    if let EntityKind::Circle { radius } = e.kind {
        let dx = x2 - x1;
        let dy = y2 - y1;
        let fx = x1 - e.x;
        let fy = y1 - e.y;
        let a = dx * dx + dy * dy;
        let b = 2 * (fx * dx + fy * dy);
        let c = fx * fx + fy * fy - radius * radius;
        let disc = b * b - 4 * (a * c);
        lemma_square_nonneg(dx);
        lemma_square_nonneg(dy);
        lemma_circle_fraction(a, b, c, disc);
    }
}

proof fn lemma_scaled_between(p: int, q: int, t: int, m: int)
    requires
        0 <= t <= m,
        m > 0,
    ensures
        min_int(p, q) * m <= p * m + t * (q - p) <= max_int(p, q) * m,
{
    if p <= q {
        assert(p * m <= p * m + t * (q - p) <= q * m) by (nonlinear_arith)
            requires
                0 <= t <= m,
                p <= q,
        ;
    } else {
        assert(q * m <= p * m + t * (q - p) <= p * m) by (nonlinear_arith)
            requires
                0 <= t <= m,
                q < p,
        ;
    }
}

proof fn lemma_cancel_le(a: int, b: int, m: int)
    requires
        a * m <= b * m,
        m > 0,
    ensures
        a <= b,
{
    assert(a <= b) by (nonlinear_arith)
        requires
            a * m <= b * m,
            m > 0,
    ;
}

/// On one axis: a point `h / m` inside both spans `[lo1, hi1]` and `[lo2, hi2]`
/// (scaled by `m > 0`) makes the spans overlap.
proof fn lemma_spans_meet(h: int, m: int, lo1: int, hi1: int, lo2: int, hi2: int)
    requires
        m > 0,
        lo1 * m <= h <= hi1 * m,
        lo2 * m <= h <= hi2 * m,
    ensures
        lo1 <= hi2,
        lo2 <= hi1,
{
    lemma_cancel_le(lo1, hi2, m);
    lemma_cancel_le(lo2, hi1, m);
}

proof fn lemma_segment_hit_overlaps(e: Entity, x1: int, y1: int, x2: int, y2: int)
    requires
        e.kind is Segment,
        ray_hit(e, x1, y1, x2, y2) is Some,
    ensures
        box_overlaps(e, min_int(x1, x2), min_int(y1, y2), max_int(x1, x2), max_int(y1, y2)),
        hit_point_on(e, x1, y1, x2, y2),
{
    let (sx2, sy2) = match e.kind {
        EntityKind::Segment { x2, y2 } => (x2 as int, y2 as int),
        _ => (0, 0),
    };
    let x3 = e.x as int;
    let y3 = e.y as int;
    let den = (x1 - x2) * (y3 - sy2) - (y1 - y2) * (x3 - sx2);
    let tn = (x1 - x3) * (y3 - sy2) - (y1 - y3) * (x3 - sx2);
    let un = -((x1 - x2) * (y1 - y3) - (y1 - y2) * (x1 - x3));
    let a = x2 - x1;
    let b = y2 - y1;
    let c = x3 - x1;
    let g = y3 - y1;
    let ex = sx2 - x3;
    let ey = sy2 - y3;
    assert(den == a * ey - b * ex) by (nonlinear_arith)
        requires
            den == (x1 - x2) * (y3 - sy2) - (y1 - y2) * (x3 - sx2),
            a == x2 - x1,
            b == y2 - y1,
            ex == sx2 - x3,
            ey == sy2 - y3,
    ;
    assert(tn == c * ey - g * ex) by (nonlinear_arith)
        requires
            tn == (x1 - x3) * (y3 - sy2) - (y1 - y3) * (x3 - sx2),
            c == x3 - x1,
            g == y3 - y1,
            ex == sx2 - x3,
            ey == sy2 - y3,
    ;
    assert(un == b * c - a * g) by (nonlinear_arith)
        requires
            un == -((x1 - x2) * (y1 - y3) - (y1 - y2) * (x1 - x3)),
            a == x2 - x1,
            b == y2 - y1,
            c == x3 - x1,
            g == y3 - y1,
    ;
    assert(tn * a == den * c + un * ex) by (nonlinear_arith)
        requires
            den == a * ey - b * ex,
            tn == c * ey - g * ex,
            un == b * c - a * g,
    ;
    assert(tn * b == den * g + un * ey) by (nonlinear_arith)
        requires
            den == a * ey - b * ex,
            tn == c * ey - g * ex,
            un == b * c - a * g,
    ;
    assert(den * x1 + tn * (x2 - x1) == den * x3 + un * (sx2 - x3)) by (nonlinear_arith)
        requires
            tn * a == den * c + un * ex,
            a == x2 - x1,
            c == x3 - x1,
            ex == sx2 - x3,
    ;
    assert(den * y1 + tn * (y2 - y1) == den * y3 + un * (sy2 - y3)) by (nonlinear_arith)
        requires
            tn * b == den * g + un * ey,
            b == y2 - y1,
            g == y3 - y1,
            ey == sy2 - y3,
    ;
    let (t, u, d) = if den > 0 {
        (tn, un, den)
    } else {
        (-tn, -un, -den)
    };
    assert(d * x1 + t * (x2 - x1) == d * x3 + u * (sx2 - x3)) by (nonlinear_arith)
        requires
            den * x1 + tn * (x2 - x1) == den * x3 + un * (sx2 - x3),
            (t == tn && u == un && d == den) || (t == -tn && u == -un && d == -den),
    ;
    assert(d * y1 + t * (y2 - y1) == d * y3 + u * (sy2 - y3)) by (nonlinear_arith)
        requires
            den * y1 + tn * (y2 - y1) == den * y3 + un * (sy2 - y3),
            (t == tn && u == un && d == den) || (t == -tn && u == -un && d == -den),
    ;
    let hx = x1 * d + t * (x2 - x1);
    let hy = y1 * d + t * (y2 - y1);
    lemma_scaled_between(x1, x2, t, d);
    lemma_scaled_between(y1, y2, t, d);
    lemma_scaled_between(x3, sx2, u, d);
    lemma_scaled_between(y3, sy2, u, d);
    assert(x3 * d + u * (sx2 - x3) == hx) by (nonlinear_arith)
        requires
            d * x1 + t * (x2 - x1) == d * x3 + u * (sx2 - x3),
            hx == x1 * d + t * (x2 - x1),
    ;
    assert(y3 * d + u * (sy2 - y3) == hy) by (nonlinear_arith)
        requires
            d * y1 + t * (y2 - y1) == d * y3 + u * (sy2 - y3),
            hy == y1 * d + t * (y2 - y1),
    ;
    lemma_spans_meet(hx, d, min_int(x1, x2), max_int(x1, x2), min_int(x3, sx2), max_int(x3, sx2));
    lemma_spans_meet(hy, d, min_int(y1, y2), max_int(y1, y2), min_int(y3, sy2), max_int(y3, sy2));
    assert(hit_num(e, x1, y1, x2, y2) == t && hit_den(e, x1, y1, x2, y2) == d);
    assert(hx == e.x * d + u * (sx2 - e.x));
}

proof fn lemma_sq_sum(p: int, q: int)
    ensures
        (p + q) * (p + q) == p * p + 2 * (p * q) + q * q,
{
    assert((p + q) * (p + q) == p * p + 2 * (p * q) + q * q) by (nonlinear_arith);
}

proof fn lemma_mul_pairs(a: int, b: int, c: int, d: int)
    ensures
        (a * b) * (c * d) == (a * c) * (b * d),
{
    assert((a * b) * (c * d) == (a * c) * (b * d)) by (nonlinear_arith);
}

proof fn lemma_isqrt_exists(n: int)
    requires
        n >= 0,
    ensures
        0 <= isqrt(n),
        isqrt(n) * isqrt(n) <= n < (isqrt(n) + 1) * (isqrt(n) + 1),
    decreases n,
{
    if n == 0 {
        lemma_isqrt_unique(0, 0);
    } else {
        lemma_isqrt_exists(n - 1);
        let k = isqrt(n - 1);
        assert((k + 1) * (k + 1) >= n);
        if (k + 1) * (k + 1) <= n {
            assert((k + 2) * (k + 2) > n) by (nonlinear_arith)
                requires
                    (k + 1) * (k + 1) <= n,
                    (k + 1) * (k + 1) >= n,
                    k >= 0,
            ;
            lemma_isqrt_unique(n, k + 1);
        } else {
            lemma_isqrt_unique(n, k);
        }
    }
}

proof fn lemma_circle_hit_overlaps(e: Entity, x1: int, y1: int, x2: int, y2: int)
    requires
        e.kind is Circle,
        ray_hit(e, x1, y1, x2, y2) is Some,
    ensures
        box_overlaps(e, min_int(x1, x2), min_int(y1, y2), max_int(x1, x2), max_int(y1, y2)),
        hit_point_on(e, x1, y1, x2, y2),
{
    let r = match e.kind {
        EntityKind::Circle { radius } => radius as int,
        _ => 0,
    };
    let cx = e.x as int;
    let cy = e.y as int;
    let dx = x2 - x1;
    let dy = y2 - y1;
    let fx = x1 - cx;
    let fy = y1 - cy;
    let a = dx * dx + dy * dy;
    let b = 2 * (fx * dx + fy * dy);
    let f2 = fx * fx + fy * fy;
    let c = f2 - r * r;
    let disc = b * b - 4 * (a * c);
    assert(circle_entered(a, b, c, disc));
    lemma_square_nonneg(dx);
    lemma_square_nonneg(dy);
    lemma_circle_fraction(a, b, c, disc);
    let num = min_int(-b - isqrt(disc), 2 * a);
    let m = 2 * a;
    assert(0 <= num <= m);
    let g = fx * m + num * dx;
    let h = fy * m + num * dy;
    lemma_sq_sum(fx * m, num * dx);
    lemma_sq_sum(fy * m, num * dy);
    lemma_mul_pairs(fx, m, fx, m);
    lemma_mul_pairs(fy, m, fy, m);
    lemma_mul_pairs(num, dx, num, dx);
    lemma_mul_pairs(num, dy, num, dy);
    assert(m * m * f2 == (fx * fx) * (m * m) + (fy * fy) * (m * m)) by (nonlinear_arith)
        requires
            f2 == fx * fx + fy * fy,
    ;
    let w = m * num;
    assert(w * b == 2 * (w * (fx * dx)) + 2 * (w * (fy * dy))) by (nonlinear_arith)
        requires
            b == 2 * (fx * dx + fy * dy),
    ;
    lemma_mul_pairs(m, num, fx, dx);
    lemma_mul_pairs(m, num, fy, dy);
    assert(m * fx == fx * m && m * fy == fy * m);
    assert(m * num * b == 2 * ((fx * m) * (num * dx)) + 2 * ((fy * m) * (num * dy)));
    assert(num * num * a == (num * num) * (dx * dx) + (num * num) * (dy * dy)) by (nonlinear_arith)
        requires
            a == dx * dx + dy * dy,
    ;
    assert(g * g + h * h == m * m * f2 + m * num * b + num * num * a);
    assert(m * m * f2 + m * num * b + num * num * a == a * (4 * a * f2 + 2 * num * b + num * num))
        by (nonlinear_arith)
        requires
            m == 2 * a,
    ;
    assert(2 * num * b + num * num == (num + b) * (num + b) - b * b) by (nonlinear_arith);
    assert(4 * a * f2 - b * b == 4 * a * (r * r) - disc) by (nonlinear_arith)
        requires
            disc == b * b - 4 * (a * c),
            c == f2 - r * r,
    ;
    assert(g * g + h * h <= (m * r) * (m * r)) by (nonlinear_arith)
        requires
            g * g + h * h == a * (4 * a * f2 + 2 * num * b + num * num),
            2 * num * b + num * num == (num + b) * (num + b) - b * b,
            4 * a * f2 - b * b == 4 * a * (r * r) - disc,
            (num + b) * (num + b) <= disc,
            a > 0,
            m == 2 * a,
    ;
    assert(g * g <= (m * r) * (m * r) && h * h <= (m * r) * (m * r)) by (nonlinear_arith)
        requires
            g * g + h * h <= (m * r) * (m * r),
    ;
    assert(m * r >= 0) by (nonlinear_arith)
        requires
            m > 0,
            r >= 0,
    ;
    lemma_abs_from_square(g, m * r);
    lemma_abs_from_square(h, m * r);
    let ex = x1 * m + num * (x2 - x1);
    let ey = y1 * m + num * (y2 - y1);
    lemma_scaled_between(x1, x2, num, m);
    lemma_scaled_between(y1, y2, num, m);
    assert((cx - r) * m <= ex <= (cx + r) * m) by (nonlinear_arith)
        requires
            ex == x1 * m + num * (x2 - x1),
            g == fx * m + num * dx,
            fx == x1 - cx,
            dx == x2 - x1,
            -(m * r) <= g <= m * r,
    ;
    assert((cy - r) * m <= ey <= (cy + r) * m) by (nonlinear_arith)
        requires
            ey == y1 * m + num * (y2 - y1),
            h == fy * m + num * dy,
            fy == y1 - cy,
            dy == y2 - y1,
            -(m * r) <= h <= m * r,
    ;
    lemma_spans_meet(ex, m, min_int(x1, x2), max_int(x1, x2), cx - r, cx + r);
    lemma_spans_meet(ey, m, min_int(y1, y2), max_int(y1, y2), cy - r, cy + r);
    assert(hit_num(e, x1, y1, x2, y2) == num && hit_den(e, x1, y1, x2, y2) == m);
    assert(g == ex - cx * m) by (nonlinear_arith)
        requires
            g == fx * m + num * dx,
            ex == x1 * m + num * (x2 - x1),
            fx == x1 - cx,
            dx == x2 - x1,
    ;
    assert(h == ey - cy * m) by (nonlinear_arith)
        requires
            h == fy * m + num * dy,
            ey == y1 * m + num * (y2 - y1),
            fy == y1 - cy,
            dy == y2 - y1,
    ;
    assert((r * m) * (r * m) == (m * r) * (m * r)) by (nonlinear_arith);
}

/// The point `P + (num / den) * (Q - P)` of a hit, scaled by `den`.
pub open spec fn hit_point_scaled(x1: int, y1: int, x2: int, y2: int, num: int, den: int) -> (int, int) {
    (x1 * den + num * (x2 - x1), y1 * den + num * (y2 - y1))
}

/// The point at which the ray is reported to meet `e` lies on `e`: for a
/// segment, on the segment itself; for a circle, in the closed disc (the
/// fraction is rounded up, so the point may lie just inside the rim).
pub open spec fn hit_point_on(e: Entity, x1: int, y1: int, x2: int, y2: int) -> bool {
    let n = hit_num(e, x1, y1, x2, y2);
    let d = hit_den(e, x1, y1, x2, y2);
    let (hx, hy) = hit_point_scaled(x1, y1, x2, y2, n, d);
    match e.kind {
        EntityKind::Circle { radius } => (hx - e.x * d) * (hx - e.x * d) + (hy - e.y * d) * (hy
            - e.y * d) <= (radius * d) * (radius * d),
        EntityKind::Segment { x2: sx2, y2: sy2 } => exists|u: int|
            0 <= u <= d && hx == #[trigger] (e.x * d + u * (sx2 - e.x)) && hy == e.y * d + u * (sy2
                - e.y),
    }
}

/// A ray meets only entities whose bounding box overlaps the ray's own, and
/// the point at the reported fraction lies on the entity it names.
pub proof fn lemma_ray_hit_overlaps(e: Entity, x1: int, y1: int, x2: int, y2: int)
    requires
        ray_hit(e, x1, y1, x2, y2) is Some,
    ensures
        box_overlaps(e, min_int(x1, x2), min_int(y1, y2), max_int(x1, x2), max_int(y1, y2)),
        hit_point_on(e, x1, y1, x2, y2),
{
    if e.kind is Circle {
        lemma_circle_hit_overlaps(e, x1, y1, x2, y2);
    } else {
        lemma_segment_hit_overlaps(e, x1, y1, x2, y2);
    }
}

/// The hit of a ray cast: the entity, and the fraction `num / den` of the
/// ray at which it is met (`0 <= num <= den`, `den > 0`).
#[derive(Clone, Copy, Debug, PartialEq, Eq)]
pub struct RayHit {
    pub id: u64,
    pub num: i128,
    pub den: i128,
}

fn ray_hit_exec(e: &Entity, x1: i16, y1: i16, x2: i16, y2: i16) -> (r: Option<(i128, i128)>)
    requires
        entity_bounded(*e),
    ensures
        match ray_hit(*e, x1 as int, y1 as int, x2 as int, y2 as int) {
            Some((n, d)) => r matches Some(v) && v.0 == n && v.1 == d && 0 <= n <= d && 0 < d
                <= 0x10_0000_0000,
            None => r is None,
        },
{
    let px = x1 as i128;
    let py = y1 as i128;
    let qx = x2 as i128;
    let qy = y2 as i128;
    let sx = e.x as i128;
    let sy = e.y as i128;
    match e.kind {
        EntityKind::Circle { radius } => {
            let rad = radius as i128;
            let dx = qx - px;
            let dy = qy - py;
            let fx = px - sx;
            let fy = py - sy;
            proof {
                lemma_prod_bound(dx as int, dx as int, 65536, 65536);
                lemma_prod_bound(dy as int, dy as int, 65536, 65536);
                lemma_prod_bound(fx as int, dx as int, 65536, 65536);
                lemma_prod_bound(fy as int, dy as int, 65536, 65536);
                lemma_prod_bound(fx as int, fx as int, 65536, 65536);
                lemma_prod_bound(fy as int, fy as int, 65536, 65536);
                lemma_prod_bound(rad as int, rad as int, 65536, 65536);
                lemma_square_nonneg(dx as int);
                lemma_square_nonneg(dy as int);
                lemma_square_nonneg(fx as int);
                lemma_square_nonneg(fy as int);
            }
            let a = dx * dx + dy * dy;
            let b = 2 * (fx * dx + fy * dy);
            let c = fx * fx + fy * fy - rad * rad;
            proof {
                lemma_prod_bound(b as int, b as int, 0x4_0000_0000, 0x4_0000_0000);
                lemma_prod_bound(a as int, c as int, 0x2_0000_0000, 0x2_0000_0000);
            }
            let ac = a * c;
            let disc = b * b - 4 * ac;
            let a2 = 2 * a;
            let reach = b + a2;
            proof {
                lemma_prod_bound(reach as int, reach as int, 0x8_0000_0000, 0x8_0000_0000);
            }
            if !(a != 0 && disc >= 0 && b <= 0 && c >= 0 && (reach >= 0 || reach * reach <= disc)) {
                return None;
            }
            let k = isqrt_exec(disc);
            let num = -b - k;
            proof {
                lemma_isqrt_exists(disc as int);
                assert(k <= -b) by (nonlinear_arith)
                    requires
                        k * k <= disc,
                        disc == b * b - 4 * ac,
                        ac >= 0,
                        k >= 0,
                        b <= 0,
                ;
                assert(ac >= 0) by (nonlinear_arith)
                    requires
                        ac == a * c,
                        a >= 0,
                        c >= 0,
                ;
            }
            if num <= a2 {
                Some((num, a2))
            } else {
                Some((a2, a2))
            }
        },
        EntityKind::Segment { x2: ex, y2: ey } => {
            let tx = ex as i128;
            let ty = ey as i128;
            proof {
                lemma_prod_bound((px - qx) as int, (sy - ty) as int, 65536, 65536);
                lemma_prod_bound((py - qy) as int, (sx - tx) as int, 65536, 65536);
                lemma_prod_bound((px - sx) as int, (sy - ty) as int, 65536, 65536);
                lemma_prod_bound((py - sy) as int, (sx - tx) as int, 65536, 65536);
                lemma_prod_bound((px - qx) as int, (py - sy) as int, 65536, 65536);
                lemma_prod_bound((py - qy) as int, (px - sx) as int, 65536, 65536);
            }
            let den = (px - qx) * (sy - ty) - (py - qy) * (sx - tx);
            let tn = (px - sx) * (sy - ty) - (py - sy) * (sx - tx);
            let un = -((px - qx) * (py - sy) - (py - qy) * (px - sx));
            if den == 0 {
                return None;
            }
            let (t, u, d) = if den > 0 {
                (tn, un, den)
            } else {
                (-tn, -un, -den)
            };
            if 0 <= t && t <= d && 0 <= u && u <= d {
                Some((t, d))
            } else {
                None
            }
        },
    }
}

/// The entity is met by the ray from `(x1, y1)` to `(x2, y2)` and passes the
/// filter.
pub open spec fn ray_match(e: Entity, x1: int, y1: int, x2: int, y2: int, filter: Option<u64>) -> bool {
    &&& tag_passes(e, filter)
    &&& ray_hit(e, x1, y1, x2, y2) is Some
}

/// The fraction at which the ray meets a matching entity.
pub open spec fn hit_num(e: Entity, x1: int, y1: int, x2: int, y2: int) -> int {
    ray_hit(e, x1, y1, x2, y2).unwrap().0
}

pub open spec fn hit_den(e: Entity, x1: int, y1: int, x2: int, y2: int) -> int {
    ray_hit(e, x1, y1, x2, y2).unwrap().1
}

/// A uniform-grid spatial index.
pub struct SpatialDb {
    next_id: u64,
    cell_size: u16,
    entities: HashMap<u64, Entity>,
    grid: HashMap<i64, Vec<u64>>,
}

impl SpatialDb {
    /// The live entities, by id.
    pub closed spec fn entities(&self) -> Map<u64, Entity> {
        self.entities@
    }

    /// The side of a grid cell.
    pub closed spec fn cell(&self) -> int {
        self.cell_size as int
    }

    /// The id the next added entity receives.
    pub closed spec fn next_id(&self) -> u64 {
        self.next_id
    }

    /// The ids listed in cell `(cx, cy)`.
    pub closed spec fn ids_in(&self, cx: int, cy: int) -> Seq<u64> {
        cell_ids(self.grid@, cx, cy)
    }

    /// The index's invariant.
    pub closed spec fn wf(&self) -> bool {
        &&& self.cell() > 0
        &&& self.next_id() >= 1
        &&& forall|id: u64| #[trigger]
            self.entities().contains_key(id) ==> {
                &&& self.entities()[id].id == id
                &&& 1 <= id < self.next_id()
                &&& entity_bounded(self.entities()[id])
            }
        &&& grid_matches(self.grid@, self.entities(), self.cell())
    }

    /// An empty index whose cells have side `cell_size`.
    pub fn new(cell_size: u16) -> (r: Self)
        requires
            cell_size > 0,
        ensures
            r.wf(),
            r.cell() == cell_size,
            r.next_id() == 1,
            r.entities() == Map::<u64, Entity>::empty(),
    {
        let r = SpatialDb {
            next_id: 1,
            cell_size,
            entities: HashMap::new(),
            grid: HashMap::new(),
        };
        assert(r.entities() =~= Map::<u64, Entity>::empty());
        assert forall|cx: int, cy: int| #[trigger] r.ids_in(cx, cy) == Seq::<u64>::empty() by {}
        r
    }

    /// The ids of the live entities that touch some cell of the block
    /// `[cx0, cx1] x [cy0, cy1]`, each once.
    fn collect_block(&self, cx0: i32, cx1: i32, cy0: i32, cy1: i32) -> (r: Vec<u64>)
        requires
            self.wf(),
            cx1 < i32::MAX,
            cy1 < i32::MAX,
        ensures
            r@.no_duplicates(),
            forall|id: u64|
                #![trigger r@.contains(id)]
                r@.contains(id) <==> self.entities().contains_key(id) && touches_block(
                    self.entities()[id],
                    self.cell(),
                    cx0 as int,
                    cx1 as int,
                    cy0 as int,
                    cy1 as int,
                ),
    {
        let ghost c = self.cell();
        let ghost ents = self.entities();
        let mut seen: HashSet<u64> = HashSet::new();
        let mut out: Vec<u64> = Vec::new();
        let mut cx: i32 = cx0;
        while cx <= cx1
            invariant
                self.wf(),
                c == self.cell(),
                ents == self.entities(),
                cx0 <= cx <= cx1 + 1 || (cx == cx0 && cx0 > cx1),
                cx1 < i32::MAX,
                cy1 < i32::MAX,
                out@.no_duplicates(),
                forall|id: u64| seen@.contains(id) <==> out@.contains(id),
                forall|id: u64|
                    #![trigger out@.contains(id)]
                    out@.contains(id) <==> ents.contains_key(id) && touches_block(
                        ents[id],
                        c,
                        cx0 as int,
                        cx - 1,
                        cy0 as int,
                        cy1 as int,
                    ),
            decreases cx1 + 1 - cx,
        {
            let mut cy: i32 = cy0;
            while cy <= cy1
                invariant
                    self.wf(),
                    c == self.cell(),
                    ents == self.entities(),
                    cx0 <= cx <= cx1,
                    cy0 <= cy <= cy1 + 1 || (cy == cy0 && cy0 > cy1),
                    cx1 < i32::MAX,
                    cy1 < i32::MAX,
                    out@.no_duplicates(),
                    forall|id: u64| seen@.contains(id) <==> out@.contains(id),
                    forall|id: u64|
                        #![trigger out@.contains(id)]
                        out@.contains(id) <==> ents.contains_key(id) && (touches_block(
                            ents[id],
                            c,
                            cx0 as int,
                            cx - 1,
                            cy0 as int,
                            cy1 as int,
                        ) || touches_block(ents[id], c, cx as int, cx as int, cy0 as int, cy - 1)),
                decreases cy1 + 1 - cy,
            {
                let key = key_of(cx, cy);
                let ghost cell_ids = self.ids_in(cx as int, cy as int);
                assert(cell_in_range(cx as int, cy as int));
                match self.grid.get(&key) {
                    Some(list) => {
                        assert(list@ == cell_ids);
                        let mut j: usize = 0;
                        while j < list.len()
                            invariant
                                self.wf(),
                                c == self.cell(),
                                ents == self.entities(),
                                cx0 <= cx <= cx1,
                                cy0 <= cy <= cy1,
                                cx1 < i32::MAX,
                                cy1 < i32::MAX,
                                list@ == cell_ids,
                                cell_ids == self.ids_in(cx as int, cy as int),
                                j <= list@.len(),
                                out@.no_duplicates(),
                                forall|id: u64| seen@.contains(id) <==> out@.contains(id),
                                forall|id: u64|
                                    #![trigger out@.contains(id)]
                                    out@.contains(id) <==> ents.contains_key(id) && (
                                    touches_block(
                                        ents[id],
                                        c,
                                        cx0 as int,
                                        cx - 1,
                                        cy0 as int,
                                        cy1 as int,
                                    ) || touches_block(
                                        ents[id],
                                        c,
                                        cx as int,
                                        cx as int,
                                        cy0 as int,
                                        cy - 1,
                                    ) || list@.subrange(0, j as int).contains(id)),
                            decreases list@.len() - j,
                        {
                            let id = list[j];
                            proof {
                                assert(cell_ids[j as int] == id);
                                assert(ents.contains_key(id));
                                assert(list@.subrange(0, j + 1) =~= list@.subrange(
                                    0,
                                    j as int,
                                ).push(id));
                                lemma_push_contains(list@.subrange(0, j as int), id);
                            }
                            let ghost before = out@;
                            if !seen.contains(&id) {
                                proof {
                                    lemma_push_distinct(out@, id);
                                    lemma_push_contains(out@, id);
                                }
                                seen.insert(id);
                                out.push(id);
                            }
                            assert(forall|y: u64|
                                #![trigger out@.contains(y)]
                                out@.contains(y) <==> (before.contains(y) || y == id));
                            j += 1;
                        }
                        proof {
                            assert(list@.subrange(0, list@.len() as int) =~= list@);
                        }
                    },
                    None => {
                        assert(cell_ids == Seq::<u64>::empty());
                    },
                }
                proof {
                    assert forall|id: u64| #![trigger out@.contains(id)]
                        ents.contains_key(id) && touches(ents[id], c, cx as int, cy as int)
                            implies out@.contains(id) by {
                        assert(self.ids_in(cx as int, cy as int).contains(id));
                    }
                    assert forall|id: u64| #![trigger out@.contains(id)]
                        ents.contains_key(id) && cell_ids.contains(id) implies touches(
                        ents[id],
                        c,
                        cx as int,
                        cy as int,
                    ) by {
                        let k = choose|k: int| 0 <= k < cell_ids.len() && cell_ids[k] == id;
                        assert(self.ids_in(cx as int, cy as int)[k] == id);
                    }
                }
                cy += 1;
            }
            cx += 1;
        }
        out
    }

    /// The cells of the grid and the bounding boxes of the entities agree: a
    /// cell lists an id only if that entity is live and its box touches the
    /// cell, every live entity is listed in every cell its box touches, and no
    /// cell lists an id twice. `wf` holds after construction and after every
    /// `add_circle`, `add_segment`, `update_position` and `remove`.
    pub proof fn lemma_grid_exact(&self)
        requires
            self.wf(),
        ensures
            self.cell() > 0,
            forall|cx: int, cy: int, j: int|
                cell_in_range(cx, cy) && 0 <= j < self.ids_in(cx, cy).len() ==> {
                    let id = #[trigger] self.ids_in(cx, cy)[j];
                    &&& self.entities().contains_key(id)
                    &&& touches(self.entities()[id], self.cell(), cx, cy)
                },
            forall|id: u64, cx: int, cy: int|
                cell_in_range(cx, cy) && self.entities().contains_key(id) && touches(
                    self.entities()[id],
                    self.cell(),
                    cx,
                    cy,
                ) ==> #[trigger] self.ids_in(cx, cy).contains(id),
            forall|cx: int, cy: int|
                cell_in_range(cx, cy) ==> (#[trigger] self.ids_in(cx, cy)).no_duplicates(),
    {
    }

    /// Every live entity is stored under its own id, and ids below
    /// `next_id()` only: an added entity never takes the id of a live one, and
    /// an id is never handed out twice.
    pub proof fn lemma_ids_below_next(&self)
        requires
            self.wf(),
        ensures
            self.next_id() >= 1,
            forall|id: u64| #[trigger]
                self.entities().contains_key(id) ==> self.entities()[id].id == id && 1 <= id
                    < self.next_id(),
    {
    }

    /// Lists `e` in every cell its box touches.
    fn add_to_grid(&mut self, e: Entity, Ghost(ents): Ghost<Map<u64, Entity>>)
        requires
            old(self).cell() > 0,
            grid_matches(old(self).grid@, ents, old(self).cell()),
            !ents.contains_key(e.id),
            entity_bounded(e),
        ensures
            grid_matches(final(self).grid@, ents.insert(e.id, e), final(self).cell()),
            final(self).cell() == old(self).cell(),
            final(self).next_id() == old(self).next_id(),
            final(self).entities() == old(self).entities(),
    {
        let ghost g0 = self.grid@;
        let ghost c = self.cell();
        let id = e.id;
        let (cx0, cx1, cy0, cy1) = entity_cells(&e, self.cell_size);
        let mut cx: i32 = cx0;
        while cx <= cx1
            invariant
                self.cell() == c,
                c > 0,
                self.next_id() == old(self).next_id(),
                self.entities() == old(self).entities(),
                cx0 == cell_of(box_min_x(e), c),
                cx1 == cell_of(box_max_x(e), c),
                cy0 == cell_of(box_min_y(e), c),
                cy1 == cell_of(box_max_y(e), c),
                cx1 < i32::MAX,
                cy1 < i32::MAX,
                cx0 <= cx <= cx1 + 1 || (cx == cx0 && cx0 > cx1),
                forall|px: int, py: int|
                    cell_in_range(px, py) ==> #[trigger] cell_ids(self.grid@, px, py) == if (cx0
                        <= px < cx && cy0 <= py <= cy1) {
                        cell_ids(g0, px, py).push(id)
                    } else {
                        cell_ids(g0, px, py)
                    },
            decreases cx1 + 1 - cx,
        {
            let mut cy: i32 = cy0;
            while cy <= cy1
                invariant
                    self.cell() == c,
                    c > 0,
                    self.next_id() == old(self).next_id(),
                    self.entities() == old(self).entities(),
                    cx0 <= cx <= cx1,
                    cy1 < i32::MAX,
                    cy0 <= cy <= cy1 + 1 || (cy == cy0 && cy0 > cy1),
                    forall|px: int, py: int|
                        cell_in_range(px, py) ==> #[trigger] cell_ids(self.grid@, px, py) == if ((
                        cx0 <= px < cx && cy0 <= py <= cy1) || (px == cx && cy0 <= py < cy)) {
                            cell_ids(g0, px, py).push(id)
                        } else {
                            cell_ids(g0, px, py)
                        },
                decreases cy1 + 1 - cy,
            {
                let key = key_of(cx, cy);
                let ghost g1 = self.grid@;
                let list = match self.grid.remove(&key) {
                    Some(mut v) => {
                        v.push(id);
                        v
                    },
                    None => {
                        let mut v: Vec<u64> = Vec::new();
                        v.push(id);
                        v
                    },
                };
                assert(list@ == cell_ids(g1, cx as int, cy as int).push(id));
                self.grid.insert(key, list);
                proof {
                    assert forall|px: int, py: int| cell_in_range(px, py) implies #[trigger] cell_ids(
                        self.grid@,
                        px,
                        py,
                    ) == if (px == cx && py == cy) {
                        cell_ids(g1, px, py).push(id)
                    } else {
                        cell_ids(g1, px, py)
                    } by {
                        if cell_key(px, py) == cell_key(cx as int, cy as int) {
                            lemma_cell_key_injective(px, py, cx as int, cy as int);
                        }
                    }
                }
                cy += 1;
            }
            cx += 1;
        }
        proof {
            let ents2 = ents.insert(id, e);
            let g = self.grid@;
            assert forall|px: int, py: int|
                cell_in_range(px, py) implies #[trigger] cell_ids(g, px, py) == if touches(
                e,
                c,
                px,
                py,
            ) {
                cell_ids(g0, px, py).push(id)
            } else {
                cell_ids(g0, px, py)
            } by {}
            assert forall|px: int, py: int, j: int|
                cell_in_range(px, py) && 0 <= j < cell_ids(g, px, py).len() implies {
                let y = #[trigger] cell_ids(g, px, py)[j];
                &&& ents2.contains_key(y)
                &&& touches(ents2[y], c, px, py)
            } by {
                let old_ids = cell_ids(g0, px, py);
                if touches(e, c, px, py) && j == old_ids.len() {
                } else {
                    assert(cell_ids(g, px, py)[j] == old_ids[j]);
                    assert(ents.contains_key(old_ids[j]));
                }
            }
            assert forall|y: u64, px: int, py: int|
                cell_in_range(px, py) && ents2.contains_key(y) && touches(
                    ents2[y],
                    c,
                    px,
                    py,
                ) implies #[trigger] cell_ids(g, px, py).contains(y) by {
                let old_ids = cell_ids(g0, px, py);
                lemma_push_contains(old_ids, id);
                if y != id {
                    assert(old_ids.contains(y));
                }
            }
            assert forall|px: int, py: int| cell_in_range(px, py) implies (#[trigger] cell_ids(
                g,
                px,
                py,
            )).no_duplicates() by {
                let old_ids = cell_ids(g0, px, py);
                if touches(e, c, px, py) {
                    if old_ids.contains(id) {
                        let k = choose|k: int| 0 <= k < old_ids.len() && old_ids[k] == id;
                        assert(ents.contains_key(cell_ids(g0, px, py)[k]));
                    }
                    lemma_push_distinct(old_ids, id);
                }
            }
        }
    }

    /// Takes `e` out of every cell its box touches.
    fn remove_from_grid(&mut self, e: Entity, Ghost(ents): Ghost<Map<u64, Entity>>)
        requires
            old(self).cell() > 0,
            grid_matches(old(self).grid@, ents, old(self).cell()),
            ents.contains_key(e.id),
            ents[e.id] == e,
            entity_bounded(e),
        ensures
            grid_matches(final(self).grid@, ents.remove(e.id), final(self).cell()),
            final(self).cell() == old(self).cell(),
            final(self).next_id() == old(self).next_id(),
            final(self).entities() == old(self).entities(),
    {
        let ghost g0 = self.grid@;
        let ghost c = self.cell();
        let id = e.id;
        let (cx0, cx1, cy0, cy1) = entity_cells(&e, self.cell_size);
        let mut cx: i32 = cx0;
        while cx <= cx1
            invariant
                self.cell() == c,
                c > 0,
                grid_matches(g0, ents, c),
                self.next_id() == old(self).next_id(),
                self.entities() == old(self).entities(),
                cx0 == cell_of(box_min_x(e), c),
                cx1 == cell_of(box_max_x(e), c),
                cy0 == cell_of(box_min_y(e), c),
                cy1 == cell_of(box_max_y(e), c),
                cx1 < i32::MAX,
                cy1 < i32::MAX,
                cx0 <= cx <= cx1 + 1 || (cx == cx0 && cx0 > cx1),
                forall|px: int, py: int|
                    cell_in_range(px, py) ==> if (cx0 <= px < cx && cy0 <= py <= cy1) {
                        lists_without(cell_ids(g0, px, py), #[trigger] cell_ids(self.grid@, px, py), id)
                    } else {
                        cell_ids(self.grid@, px, py) == cell_ids(g0, px, py)
                    },
            decreases cx1 + 1 - cx,
        {
            let mut cy: i32 = cy0;
            while cy <= cy1
                invariant
                    self.cell() == c,
                    c > 0,
                    grid_matches(g0, ents, c),
                    self.next_id() == old(self).next_id(),
                    self.entities() == old(self).entities(),
                    cx0 <= cx <= cx1,
                    cy1 < i32::MAX,
                    cy0 <= cy <= cy1 + 1 || (cy == cy0 && cy0 > cy1),
                    forall|px: int, py: int|
                        cell_in_range(px, py) ==> if ((cx0 <= px < cx && cy0 <= py <= cy1) || (px
                            == cx && cy0 <= py < cy)) {
                            lists_without(
                                cell_ids(g0, px, py),
                                #[trigger] cell_ids(self.grid@, px, py),
                                id,
                            )
                        } else {
                            cell_ids(self.grid@, px, py) == cell_ids(g0, px, py)
                        },
                decreases cy1 + 1 - cy,
            {
                let key = key_of(cx, cy);
                let ghost g1 = self.grid@;
                assert(cell_in_range(cx as int, cy as int));
                assert(cell_ids(g1, cx as int, cy as int) == cell_ids(g0, cx as int, cy as int));
                assert(cell_ids(g0, cx as int, cy as int).no_duplicates());
                match self.grid.remove(&key) {
                    Some(mut v) => {
                        let ghost before = v@;
                        let mut k: usize = 0;
                        while k < v.len() && v[k] != id
                            invariant
                                k <= v@.len(),
                                forall|t: int| 0 <= t < k ==> v@[t] != id,
                            decreases v@.len() - k,
                        {
                            k += 1;
                        }
                        if k < v.len() {
                            v.swap_remove(k);
                            proof {
                                lemma_swap_remove_without(before, k as int, id);
                            }
                        } else {
                            proof {
                                lemma_absent_without(before, id);
                            }
                        }
                        self.grid.insert(key, v);
                    },
                    None => {
                        proof {
                            lemma_absent_without(Seq::<u64>::empty(), id);
                        }
                    },
                }
                proof {
                    assert forall|px: int, py: int| cell_in_range(px, py) && !(px == cx && py
                        == cy) implies #[trigger] cell_ids(self.grid@, px, py) == cell_ids(
                        g1,
                        px,
                        py,
                    ) by {
                        if cell_key(px, py) == cell_key(cx as int, cy as int) {
                            lemma_cell_key_injective(px, py, cx as int, cy as int);
                        }
                    }
                    assert(lists_without(
                        cell_ids(g0, cx as int, cy as int),
                        cell_ids(self.grid@, cx as int, cy as int),
                        id,
                    ));
                }
                cy += 1;
            }
            cx += 1;
        }
        proof {
            let ents2 = ents.remove(id);
            let g = self.grid@;
            assert forall|px: int, py: int| cell_in_range(px, py) implies if touches(e, c, px, py) {
                lists_without(cell_ids(g0, px, py), #[trigger] cell_ids(g, px, py), id)
            } else {
                cell_ids(g, px, py) == cell_ids(g0, px, py)
            } by {}
            assert forall|px: int, py: int, j: int|
                cell_in_range(px, py) && 0 <= j < cell_ids(g, px, py).len() implies {
                let y = #[trigger] cell_ids(g, px, py)[j];
                &&& ents2.contains_key(y)
                &&& touches(ents2[y], c, px, py)
            } by {
                let old_ids = cell_ids(g0, px, py);
                let y = cell_ids(g, px, py)[j];
                if touches(e, c, px, py) {
                    assert(cell_ids(g, px, py).contains(y));
                    assert(old_ids.contains(y));
                    let k = choose|k: int| 0 <= k < old_ids.len() && old_ids[k] == y;
                    assert(ents.contains_key(cell_ids(g0, px, py)[k]));
                } else {
                    assert(ents.contains_key(old_ids[j]));
                }
            }
            assert forall|y: u64, px: int, py: int|
                cell_in_range(px, py) && ents2.contains_key(y) && touches(
                    ents2[y],
                    c,
                    px,
                    py,
                ) implies #[trigger] cell_ids(g, px, py).contains(y) by {
                assert(cell_ids(g0, px, py).contains(y));
            }
            assert forall|px: int, py: int| cell_in_range(px, py) implies (#[trigger] cell_ids(
                g,
                px,
                py,
            )).no_duplicates() by {}
        }
    }

    fn insert_entity(&mut self, e: Entity) -> (id: u64)
        requires
            old(self).wf(),
            old(self).next_id() < u64::MAX,
            e.id == old(self).next_id(),
            entity_bounded(e),
        ensures
            final(self).wf(),
            id == old(self).next_id(),
            final(self).next_id() == id + 1,
            final(self).cell() == old(self).cell(),
            final(self).entities() == old(self).entities().insert(id, e),
    {
        let id = self.next_id;
        let ghost ents = self.entities();
        assert(!ents.contains_key(id));
        self.add_to_grid(e, Ghost(ents));
        self.entities.insert(id, e);
        self.next_id = id + 1;
        assert(self.entities() =~= ents.insert(id, e));
        id
    }

    /// Adds a circle centred at `(x, y)` and returns its id.
    pub fn add_circle(&mut self, x: i16, y: i16, radius: u16, tag: &str) -> (id: u64)
        requires
            old(self).wf(),
            old(self).next_id() < u64::MAX,
        ensures
            final(self).wf(),
            id == old(self).next_id(),
            final(self).next_id() == id + 1,
            final(self).cell() == old(self).cell(),
            final(self).entities() == old(self).entities().insert(
                id,
                Entity {
                    id,
                    x,
                    y,
                    kind: EntityKind::Circle { radius },
                    tag_hash: tag_hash_of(tag.spec_bytes()),
                },
            ),
    {
        let e = Entity {
            id: self.next_id,
            x,
            y,
            kind: EntityKind::Circle { radius },
            tag_hash: tag_hash(tag),
        };
        self.insert_entity(e)
    }

    /// Adds the segment from `(x1, y1)` to `(x2, y2)` and returns its id.
    pub fn add_segment(&mut self, x1: i16, y1: i16, x2: i16, y2: i16, tag: &str) -> (id: u64)
        requires
            old(self).wf(),
            old(self).next_id() < u64::MAX,
        ensures
            final(self).wf(),
            id == old(self).next_id(),
            final(self).next_id() == id + 1,
            final(self).cell() == old(self).cell(),
            final(self).entities() == old(self).entities().insert(
                id,
                Entity {
                    id,
                    x: x1,
                    y: y1,
                    kind: EntityKind::Segment { x2: x2 as i32, y2: y2 as i32 },
                    tag_hash: tag_hash_of(tag.spec_bytes()),
                },
            ),
    {
        let e = Entity {
            id: self.next_id,
            x: x1,
            y: y1,
            kind: EntityKind::Segment { x2: x2 as i32, y2: y2 as i32 },
            tag_hash: tag_hash(tag),
        };
        self.insert_entity(e)
    }

    /// The position of a live entity: a circle's centre or a segment's start.
    pub fn get_position(&self, id: u64) -> (r: Option<(i16, i16)>)
        requires
            self.wf(),
        ensures
            r == if self.entities().contains_key(id) {
                Some((self.entities()[id].x, self.entities()[id].y))
            } else {
                None
            },
    {
        match self.entities.get(&id) {
            Some(e) => Some((e.x, e.y)),
            None => None,
        }
    }

    /// The position and shape of a live entity.
    pub fn get_entity_info(&self, id: u64) -> (r: Option<(i16, i16, EntityKind)>)
        requires
            self.wf(),
        ensures
            r == if self.entities().contains_key(id) {
                Some((self.entities()[id].x, self.entities()[id].y, self.entities()[id].kind))
            } else {
                None
            },
    {
        match self.entities.get(&id) {
            Some(e) => Some((e.x, e.y, e.kind)),
            None => None,
        }
    }

    /// Moves a live entity so that its position is `(x, y)`; a segment's far
    /// end moves by the same offset. An unknown id changes nothing.
    pub fn update_position(&mut self, id: u64, x: i16, y: i16)
        requires
            old(self).wf(),
        ensures
            final(self).wf(),
            final(self).cell() == old(self).cell(),
            final(self).next_id() == old(self).next_id(),
            final(self).entities() == moved_entities(old(self).entities(), id, x, y),
            !old(self).entities().contains_key(id) ==> *final(self) == *old(self),
    {
        let ghost ents = self.entities();
        let found = match self.entities.get(&id) {
            Some(e) => Some(*e),
            None => None,
        };
        match found {
            Some(e) => {
                self.remove_from_grid(e, Ghost(ents));
                let moved = moved_to(e, x, y);
                let ghost rest = ents.remove(id);
                assert(!rest.contains_key(id));
                self.add_to_grid(moved, Ghost(rest));
                self.entities.insert(id, moved);
                assert(rest.insert(id, moved) =~= ents.insert(id, moved));
                assert(self.entities() =~= ents.insert(id, moved));
            },
            None => {},
        }
    }

    /// Removes a live entity from the index. An unknown or already removed id
    /// changes nothing.
    pub fn remove(&mut self, id: u64)
        requires
            old(self).wf(),
        ensures
            final(self).wf(),
            final(self).cell() == old(self).cell(),
            final(self).next_id() == old(self).next_id(),
            final(self).entities() == old(self).entities().remove(id),
            !old(self).entities().contains_key(id) ==> *final(self) == *old(self),
    {
        let ghost ents = self.entities();
        let found = match self.entities.get(&id) {
            Some(e) => Some(*e),
            None => None,
        };
        match found {
            Some(e) => {
                self.remove_from_grid(e, Ghost(ents));
                self.entities.remove(&id);
                assert(self.entities() =~= ents.remove(id));
            },
            None => {
                assert(ents.remove(id) =~= ents);
            },
        }
    }

    /// The live entities that pass the tag filter and whose bounding box
    /// overlaps the rectangle `[min_x, max_x] x [min_y, max_y]`, each once, in
    /// no particular order. An empty rectangle (`min > max` on an axis) finds
    /// nothing.
    pub fn query_rect(
        &self,
        min_x: i16,
        min_y: i16,
        max_x: i16,
        max_y: i16,
        tag_filter: Option<&str>,
    ) -> (r: Vec<u64>)
        requires
            self.wf(),
        ensures
            r@.no_duplicates(),
            forall|id: u64|
                #![trigger r@.contains(id)]
                r@.contains(id) <==> self.entities().contains_key(id) && rect_match(
                    self.entities()[id],
                    min_x as int,
                    min_y as int,
                    max_x as int,
                    max_y as int,
                    filter_of(tag_filter),
                ),
    {
        let filter = match tag_filter {
            Some(t) => Some(tag_hash(t)),
            None => None,
        };
        let ghost c = self.cell();
        let ghost ents = self.entities();
        let cx0 = floor_div(min_x as i32, self.cell_size);
        let cx1 = floor_div(max_x as i32, self.cell_size);
        let cy0 = floor_div(min_y as i32, self.cell_size);
        let cy1 = floor_div(max_y as i32, self.cell_size);
        proof {
            lemma_cell_bounded(max_x as int, c);
            lemma_cell_bounded(max_y as int, c);
        }
        let cands = self.collect_block(cx0, cx1, cy0, cy1);
        let mut out: Vec<u64> = Vec::new();
        let mut i: usize = 0;
        while i < cands.len()
            invariant
                self.wf(),
                ents == self.entities(),
                c == self.cell(),
                filter == filter_of(tag_filter),
                i <= cands@.len(),
                cands@.no_duplicates(),
                forall|id: u64|
                    #![trigger cands@.contains(id)]
                    cands@.contains(id) <==> ents.contains_key(id) && touches_block(
                        ents[id],
                        c,
                        cx0 as int,
                        cx1 as int,
                        cy0 as int,
                        cy1 as int,
                    ),
                out@.no_duplicates(),
                forall|id: u64|
                    #![trigger out@.contains(id)]
                    out@.contains(id) <==> cands@.subrange(0, i as int).contains(id)
                        && ents.contains_key(id) && rect_match(
                        ents[id],
                        min_x as int,
                        min_y as int,
                        max_x as int,
                        max_y as int,
                        filter,
                    ),
            decreases cands@.len() - i,
        {
            let id = cands[i];
            assert(cands@.contains(id));
            let e = *self.entities.get(&id).unwrap();
            let pass = match filter {
                Some(h) => e.tag_hash == h,
                None => true,
            };
            let (bx0, by0, bx1, by1) = entity_box(&e);
            let hit = pass && min_x <= max_x && min_y <= max_y && bx1 >= min_x as i32 && bx0
                <= max_x as i32 && by1 >= min_y as i32 && by0 <= max_y as i32;
            proof {
                lemma_prefix_push(cands@, i as int);
                if out@.contains(id) {
                    let k = choose|k: int| 0 <= k < i && cands@.subrange(0, i as int)[k] == id;
                    assert(cands@[k] == cands@[i as int]);
                }
            }
            let ghost before = out@;
            if hit {
                proof {
                    lemma_push_distinct(out@, id);
                    lemma_push_contains(out@, id);
                }
                out.push(id);
            }
            assert(forall|y: u64| #![trigger out@.contains(y)]
                out@.contains(y) <==> (before.contains(y) || (hit && y == id)));
            i += 1;
        }
        proof {
            assert(cands@.subrange(0, cands@.len() as int) =~= cands@);
            assert forall|id: u64| #![trigger out@.contains(id)]
                ents.contains_key(id) && rect_match(
                    ents[id],
                    min_x as int,
                    min_y as int,
                    max_x as int,
                    max_y as int,
                    filter,
                ) implies out@.contains(id) by {
                lemma_overlap_touches(
                    ents[id],
                    c,
                    min_x as int,
                    min_y as int,
                    max_x as int,
                    max_y as int,
                );
                assert(cands@.contains(id));
            }
        }
        out
    }

    /// The live entities that pass the tag filter and lie within `range` of
    /// the point `(x, y)` (see `within_range`), each once, in no particular
    /// order.
    pub fn query_range(&self, x: i16, y: i16, range: u16, tag_filter: Option<&str>) -> (r: Vec<
        u64,
    >)
        requires
            self.wf(),
        ensures
            r@.no_duplicates(),
            forall|id: u64|
                #![trigger r@.contains(id)]
                r@.contains(id) <==> self.entities().contains_key(id) && range_match(
                    self.entities()[id],
                    x as int,
                    y as int,
                    range as int,
                    filter_of(tag_filter),
                ),
    {
        let filter = match tag_filter {
            Some(t) => Some(tag_hash(t)),
            None => None,
        };
        let ghost c = self.cell();
        let ghost ents = self.entities();
        let lo_x = x as i32 - range as i32;
        let hi_x = x as i32 + range as i32;
        let lo_y = y as i32 - range as i32;
        let hi_y = y as i32 + range as i32;
        let cx0 = floor_div(lo_x, self.cell_size);
        let cx1 = floor_div(hi_x, self.cell_size);
        let cy0 = floor_div(lo_y, self.cell_size);
        let cy1 = floor_div(hi_y, self.cell_size);
        proof {
            lemma_cell_bounded(hi_x as int, c);
            lemma_cell_bounded(hi_y as int, c);
        }
        let cands = self.collect_block(cx0, cx1, cy0, cy1);
        let mut out: Vec<u64> = Vec::new();
        let mut i: usize = 0;
        while i < cands.len()
            invariant
                self.wf(),
                ents == self.entities(),
                c == self.cell(),
                filter == filter_of(tag_filter),
                i <= cands@.len(),
                cands@.no_duplicates(),
                forall|id: u64|
                    #![trigger cands@.contains(id)]
                    cands@.contains(id) <==> ents.contains_key(id) && touches_block(
                        ents[id],
                        c,
                        cx0 as int,
                        cx1 as int,
                        cy0 as int,
                        cy1 as int,
                    ),
                out@.no_duplicates(),
                forall|id: u64|
                    #![trigger out@.contains(id)]
                    out@.contains(id) <==> cands@.subrange(0, i as int).contains(id)
                        && ents.contains_key(id) && range_match(
                        ents[id],
                        x as int,
                        y as int,
                        range as int,
                        filter,
                    ),
            decreases cands@.len() - i,
        {
            let id = cands[i];
            assert(cands@.contains(id));
            let e = *self.entities.get(&id).unwrap();
            let pass = match filter {
                Some(h) => e.tag_hash == h,
                None => true,
            };
            let hit = pass && within_range_exec(&e, x, y, range);
            proof {
                lemma_prefix_push(cands@, i as int);
                if out@.contains(id) {
                    let k = choose|k: int| 0 <= k < i && cands@.subrange(0, i as int)[k] == id;
                    assert(cands@[k] == cands@[i as int]);
                }
            }
            let ghost before = out@;
            if hit {
                proof {
                    lemma_push_distinct(out@, id);
                    lemma_push_contains(out@, id);
                }
                out.push(id);
            }
            assert(forall|y: u64| #![trigger out@.contains(y)]
                out@.contains(y) <==> (before.contains(y) || (hit && y == id)));
            i += 1;
        }
        proof {
            assert(cands@.subrange(0, cands@.len() as int) =~= cands@);
            assert forall|id: u64| #![trigger out@.contains(id)]
                ents.contains_key(id) && range_match(
                    ents[id],
                    x as int,
                    y as int,
                    range as int,
                    filter,
                ) implies out@.contains(id) by {
                lemma_within_range_overlaps(ents[id], x as int, y as int, range as int);
                lemma_overlap_touches(
                    ents[id],
                    c,
                    lo_x as int,
                    lo_y as int,
                    hi_x as int,
                    hi_y as int,
                );
                assert(cands@.contains(id));
            }
        }
        out
    }

    /// Casts the ray from `(x1, y1)` to `(x2, y2)` and returns the entity it
    /// meets first, with the fraction of the ray at which it is met. `None`
    /// when it meets no entity that passes the filter; a ray of length zero
    /// meets nothing.
    pub fn cast_ray(&self, x1: i16, y1: i16, x2: i16, y2: i16, tag_filter: Option<&str>) -> (r:
        Option<RayHit>)
        requires
            self.wf(),
        ensures
            r is None <==> !exists|id: u64|
                #![trigger self.entities().contains_key(id)]
                self.entities().contains_key(id) && ray_match(
                    self.entities()[id],
                    x1 as int,
                    y1 as int,
                    x2 as int,
                    y2 as int,
                    filter_of(tag_filter),
                ),
            r matches Some(h) ==> {
                &&& self.entities().contains_key(h.id)
                &&& ray_match(
                    self.entities()[h.id],
                    x1 as int,
                    y1 as int,
                    x2 as int,
                    y2 as int,
                    filter_of(tag_filter),
                )
                &&& ray_hit(self.entities()[h.id], x1 as int, y1 as int, x2 as int, y2 as int)
                    == Some((h.num as int, h.den as int))
                &&& hit_point_on(self.entities()[h.id], x1 as int, y1 as int, x2 as int, y2 as int)
                &&& forall|id: u64|
                    #![trigger self.entities().contains_key(id)]
                    self.entities().contains_key(id) && ray_match(
                        self.entities()[id],
                        x1 as int,
                        y1 as int,
                        x2 as int,
                        y2 as int,
                        filter_of(tag_filter),
                    ) ==> h.num * hit_den(self.entities()[id], x1 as int, y1 as int, x2 as int, y2 as int)
                        <= hit_num(self.entities()[id], x1 as int, y1 as int, x2 as int, y2 as int)
                        * h.den
            },
    {
        let filter = match tag_filter {
            Some(t) => Some(tag_hash(t)),
            None => None,
        };
        let ghost c = self.cell();
        let ghost ents = self.entities();
        let ghost fx1 = x1 as int;
        let ghost fy1 = y1 as int;
        let ghost fx2 = x2 as int;
        let ghost fy2 = y2 as int;
        let lo_x: i32 = if x1 <= x2 { x1 as i32 } else { x2 as i32 };
        let hi_x: i32 = if x1 <= x2 { x2 as i32 } else { x1 as i32 };
        let lo_y: i32 = if y1 <= y2 { y1 as i32 } else { y2 as i32 };
        let hi_y: i32 = if y1 <= y2 { y2 as i32 } else { y1 as i32 };
        let cx0 = floor_div(lo_x, self.cell_size);
        let cx1 = floor_div(hi_x, self.cell_size);
        let cy0 = floor_div(lo_y, self.cell_size);
        let cy1 = floor_div(hi_y, self.cell_size);
        proof {
            lemma_cell_bounded(hi_x as int, c);
            lemma_cell_bounded(hi_y as int, c);
        }
        let cands = self.collect_block(cx0, cx1, cy0, cy1);
        let mut best: Option<RayHit> = None;
        let mut i: usize = 0;
        while i < cands.len()
            invariant
                self.wf(),
                ents == self.entities(),
                c == self.cell(),
                filter == filter_of(tag_filter),
                fx1 == x1 as int && fy1 == y1 as int && fx2 == x2 as int && fy2 == y2 as int,
                lo_x == min_int(fx1, fx2) && hi_x == max_int(fx1, fx2),
                lo_y == min_int(fy1, fy2) && hi_y == max_int(fy1, fy2),
                i <= cands@.len(),
                forall|id: u64|
                    #![trigger cands@.contains(id)]
                    cands@.contains(id) <==> ents.contains_key(id) && touches_block(
                        ents[id],
                        c,
                        cx0 as int,
                        cx1 as int,
                        cy0 as int,
                        cy1 as int,
                    ),
                best is None <==> !exists|k: int|
                    0 <= k < i && ents.contains_key(#[trigger] cands@[k]) && ray_match(
                        ents[cands@[k]],
                        fx1,
                        fy1,
                        fx2,
                        fy2,
                        filter,
                    ),
                best matches Some(h) ==> {
                    &&& ents.contains_key(h.id)
                    &&& ray_match(ents[h.id], fx1, fy1, fx2, fy2, filter)
                    &&& ray_hit(ents[h.id], fx1, fy1, fx2, fy2) == Some((h.num as int, h.den as int))
                    &&& 0 <= h.num <= h.den
                    &&& 0 < h.den <= 0x10_0000_0000
                    &&& forall|k: int|
                        0 <= k < i && ents.contains_key(#[trigger] cands@[k]) && ray_match(
                            ents[cands@[k]],
                            fx1,
                            fy1,
                            fx2,
                            fy2,
                            filter,
                        ) ==> h.num * hit_den(ents[cands@[k]], fx1, fy1, fx2, fy2) <= hit_num(
                            ents[cands@[k]],
                            fx1,
                            fy1,
                            fx2,
                            fy2,
                        ) * h.den
                },
            decreases cands@.len() - i,
        {
            let id = cands[i];
            assert(cands@.contains(id));
            let e = *self.entities.get(&id).unwrap();
            let pass = match filter {
                Some(h) => e.tag_hash == h,
                None => true,
            };
            let (bx0, by0, bx1, by1) = entity_box(&e);
            let near = bx1 >= lo_x && bx0 <= hi_x && by1 >= lo_y && by0 <= hi_y;
            proof {
                if ray_hit(e, fx1, fy1, fx2, fy2) is Some {
                    lemma_ray_hit_overlaps(e, fx1, fy1, fx2, fy2);
                }
            }
            if pass && near {
                let rh = ray_hit_exec(&e, x1, y1, x2, y2);
                match rh {
                    Some((num, den)) => {
                        let ghost old_best = best;
                        let better = match best {
                            Some(h) => {
                                proof {
                                    lemma_prod_bound(num as int, h.den as int, 0x10_0000_0000, 0x10_0000_0000);
                                    lemma_prod_bound(h.num as int, den as int, 0x10_0000_0000, 0x10_0000_0000);
                                }
                                num * h.den < h.num * den
                            },
                            None => true,
                        };
                        if better {
                            best = Some(RayHit { id, num, den });
                        }
                        proof {
                            let e_i = ents[cands@[i as int]];
                            assert(e_i == e);
                            assert(hit_num(e_i, fx1, fy1, fx2, fy2) == num as int);
                            assert(hit_den(e_i, fx1, fy1, fx2, fy2) == den as int);
                            if better {
                                if let Some(h) = old_best {
                                    assert forall|k: int|
                                        0 <= k < i && ents.contains_key(#[trigger] cands@[k])
                                            && ray_match(
                                            ents[cands@[k]],
                                            fx1,
                                            fy1,
                                            fx2,
                                            fy2,
                                            filter,
                                        ) implies num * hit_den(ents[cands@[k]], fx1, fy1, fx2, fy2)
                                        <= hit_num(ents[cands@[k]], fx1, fy1, fx2, fy2) * den by {
                                        let ek = ents[cands@[k]];
                                        let dk = hit_den(ek, fx1, fy1, fx2, fy2);
                                        let nk = hit_num(ek, fx1, fy1, fx2, fy2);
                                        assert(dk > 0) by {
                                            lemma_ray_hit_positive(ek, fx1, fy1, fx2, fy2);
                                        }
                                        lemma_frac_trans(
                                            num as int,
                                            den as int,
                                            h.num as int,
                                            h.den as int,
                                            nk,
                                            dk,
                                        );
                                    }
                                }
                            }
                        }
                    },
                    None => {},
                }
            }
            i += 1;
        }
        proof {
            assert forall|id: u64|
                #![trigger ents.contains_key(id)]
                ents.contains_key(id) && ray_match(
                    ents[id],
                    fx1,
                    fy1,
                    fx2,
                    fy2,
                    filter,
                ) implies exists|k: int|
                0 <= k < cands@.len() && #[trigger] cands@[k] == id by {
                lemma_ray_hit_overlaps(ents[id], fx1, fy1, fx2, fy2);
                lemma_overlap_touches(
                    ents[id],
                    c,
                    lo_x as int,
                    lo_y as int,
                    hi_x as int,
                    hi_y as int,
                );
                assert(cands@.contains(id));
            }
        }
        proof {
            if let Some(h) = best {
                lemma_ray_hit_overlaps(ents[h.id], fx1, fy1, fx2, fy2);
            }
        }
        best
    }
}

/// The cells of the corners of `e`'s bounding box: `(cx0, cx1, cy0, cy1)`.
fn entity_cells(e: &Entity, cell: u16) -> (r: (i32, i32, i32, i32))
    requires
        cell > 0,
        entity_bounded(*e),
    ensures
        r.0 == cell_of(box_min_x(*e), cell as int),
        r.1 == cell_of(box_max_x(*e), cell as int),
        r.2 == cell_of(box_min_y(*e), cell as int),
        r.3 == cell_of(box_max_y(*e), cell as int),
        r.1 < i32::MAX,
        r.3 < i32::MAX,
{
    let (min_x, min_y, max_x, max_y) = entity_box(e);
    proof {
        lemma_cell_bounded(max_x as int, cell as int);
        lemma_cell_bounded(max_y as int, cell as int);
    }
    (floor_div(min_x, cell), floor_div(max_x, cell), floor_div(min_y, cell), floor_div(max_y, cell))
}

proof fn lemma_cell_bounded(v: int, c: int)
    requires
        c >= 1,
        v <= 1048576,
    ensures
        cell_of(v, c) <= 1048576,
{
    vstd::arithmetic::div_mod::lemma_fundamental_div_mod(v, c);
    let q = v / c;
    let r = v % c;
    assert(q <= 1048576) by (nonlinear_arith)
        requires
            v == c * q + r,
            0 <= r < c,
            c >= 1,
            v <= 1048576,
    ;
}

// ------------------------------------------------------------------ laws

/// Moving an entity to a position twice leaves the entities as moving it once.
pub proof fn lemma_move_twice(ents: Map<u64, Entity>, id: u64, x: i16, y: i16)
    ensures
        moved_entities(moved_entities(ents, id, x, y), id, x, y) == moved_entities(ents, id, x, y),
{
    if ents.contains_key(id) {
        let once = moved_entities(ents, id, x, y);
        assert(moved(once[id], x, y) == once[id]);
        assert(once.insert(id, once[id]) =~= once);
    }
}

/// Two well-formed indexes with the same cell size and the same entities list
/// the same ids in every cell. With `lemma_move_twice`, a second
/// `update_position(id, x, y)` leaves every cell listing the ids it listed
/// after the first.
pub proof fn lemma_cells_follow_entities(a: &SpatialDb, b: &SpatialDb)
    requires
        a.wf(),
        b.wf(),
        a.cell() == b.cell(),
        a.entities() == b.entities(),
    ensures
        forall|cx: int, cy: int, id: u64|
            cell_in_range(cx, cy) ==> (#[trigger] a.ids_in(cx, cy).contains(id) <==> #[trigger] b.ids_in(
                cx,
                cy,
            ).contains(id)),
{
    assert forall|cx: int, cy: int, id: u64| cell_in_range(cx, cy) implies (#[trigger] a.ids_in(
        cx,
        cy,
    ).contains(id) <==> #[trigger] b.ids_in(cx, cy).contains(id)) by {
        if a.ids_in(cx, cy).contains(id) {
            let k = choose|k: int| 0 <= k < a.ids_in(cx, cy).len() && a.ids_in(cx, cy)[k] == id;
            assert(a.entities().contains_key(a.ids_in(cx, cy)[k]));
        }
        if b.ids_in(cx, cy).contains(id) {
            let k = choose|k: int| 0 <= k < b.ids_in(cx, cy).len() && b.ids_in(cx, cy)[k] == id;
            assert(b.entities().contains_key(b.ids_in(cx, cy)[k]));
        }
    }
}

/// A segment of length zero is within range of a point exactly when its
/// endpoint is.
pub proof fn lemma_point_segment_range(e: Entity, x: int, y: int, range: int)
    requires
        e.kind == (EntityKind::Segment { x2: e.x as i32, y2: e.y as i32 }),
    ensures
        within_range(e, x, y, range) <==> (x - e.x) * (x - e.x) + (y - e.y) * (y - e.y) <= range
            * range,
{
    let wx = x - e.x;
    let wy = y - e.y;
    assert(wx * 0 + wy * 0 == 0) by (nonlinear_arith);
}

/// A ray of length zero meets no entity, so `cast_ray` from a point to itself
/// returns `None`.
pub proof fn lemma_zero_ray(e: Entity, x: int, y: int)
    ensures
        ray_hit(e, x, y, x, y) is None,
{
}

} // verus!
