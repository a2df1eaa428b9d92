use crate::angle::{angle_tenths, lemma_angle_tenths_bound, Angle};
use vstd::arithmetic::div_mod::{
    lemma_div_by_multiple, lemma_div_multiples_vanish_fancy, lemma_fundamental_div_mod,
    lemma_mod_multiples_basic, lemma_mod_multiples_vanish, lemma_small_mod,
};
use vstd::prelude::*;

verus! {

/// The metadata of the User Header Label. Spacings are in tenths of an
/// arcsecond; the origin is the south-west corner of the grid.
#[derive(Clone, Copy, Debug, PartialEq, Eq, Structural)]
pub struct DtedHeader {
    pub origin_lon: Angle,
    pub origin_lat: Angle,
    pub lon_interval: u16,
    pub lat_interval: u16,
    pub accuracy: Option<u16>,
    pub num_lon_lines: u16,
    pub num_lat_lines: u16,
}

/// One longitude line of elevation posts, ordered south to north.
#[derive(Debug)]
pub struct DtedRecord {
    pub block_count: u32,
    pub lon_count: u16,
    pub lat_count: u16,
    pub elevations: Vec<i16>,
}

/// A decoded tile: the header and its records, ordered west to east.
#[derive(Debug)]
pub struct DtedData {
    pub header: DtedHeader,
    pub records: Vec<DtedRecord>,
}

/// An exact elevation, `numer / denom` metres.
#[derive(Clone, Copy, Debug, PartialEq, Eq, Structural)]
pub struct Interpolated {
    pub numer: i64,
    pub denom: i64,
}

/// Splits an offset along one axis into a cell index and the remainder inside
/// the cell. At the last post the index steps back one cell and the remainder
/// becomes a whole step, so that the following post always exists.
pub open spec fn axis_cell(off: int, step: int, n: int) -> (int, int) {
    let idx = off / step;
    let rem = off % step;
    if idx == n - 1 {
        (idx - 1, rem + step)
    } else {
        (idx, rem)
    }
}

impl DtedData {
    /// Rectangular and complete: one record per longitude line, each with one
    /// post per latitude line.
    pub open spec fn wf(&self) -> bool {
        &&& self.records@.len() == self.header.num_lon_lines
        &&& forall|i: int|
            0 <= i < self.records@.len() ==> #[trigger] self.records@[i].elevations@.len()
                == self.header.num_lat_lines
    }

    /// A grid on which interpolation is defined: at least one cell along each
    /// axis and a positive spacing.
    pub open spec fn queryable(&self) -> bool {
        &&& self.wf()
        &&& self.header.lat_interval > 0
        &&& self.header.lon_interval > 0
        &&& self.header.num_lat_lines >= 2
        &&& self.header.num_lon_lines >= 2
    }

    /// The post on longitude line `i`, latitude line `j`.
    pub open spec fn elev(&self, i: int, j: int) -> int {
        self.records@[i].elevations@[j] as int
    }

    pub open spec fn lat_of(&self, j: int) -> int {
        angle_tenths(self.header.origin_lat) + j * self.header.lat_interval
    }

    pub open spec fn lon_of(&self, i: int) -> int {
        angle_tenths(self.header.origin_lon) + i * self.header.lon_interval
    }

    pub open spec fn spec_max_lat(&self) -> int {
        self.lat_of(self.header.num_lat_lines - 1)
    }

    pub open spec fn spec_max_lon(&self) -> int {
        self.lon_of(self.header.num_lon_lines - 1)
    }

    /// Whether `(lat, lon)` lies in the closed bounding box of the grid.
    pub open spec fn in_bounds(&self, lat: int, lon: int) -> bool {
        &&& self.lat_of(0) <= lat <= self.spec_max_lat()
        &&& self.lon_of(0) <= lon <= self.spec_max_lon()
    }

    /// The bilinear interpolation at `(lat, lon)`, scaled by the cell area
    /// `lat_interval * lon_interval`; `None` outside the bounding box.
    pub open spec fn interpolation(&self, lat: int, lon: int) -> Option<int> {
        if !self.in_bounds(lat, lon) {
            None
        } else {
            let a_step = self.header.lat_interval as int;
            let l_step = self.header.lon_interval as int;
            let (j, a) = axis_cell(lat - self.lat_of(0), a_step, self.header.num_lat_lines as int);
            let (i, l) = axis_cell(lon - self.lon_of(0), l_step, self.header.num_lon_lines as int);
            Some(
                self.elev(i, j) * (l_step - l) * (a_step - a) + self.elev(i, j + 1) * (l_step - l)
                    * a + self.elev(i + 1, j) * l * (a_step - a) + self.elev(i + 1, j + 1) * l
                    * a,
            )
        }
    }

    pub open spec fn num_posts(&self) -> int {
        self.header.num_lon_lines * self.header.num_lat_lines
    }

    /// The longitude line of the `k`-th post in traversal order.
    pub open spec fn post_lon_index(&self, k: int) -> int {
        k / (self.header.num_lat_lines as int)
    }

    /// The latitude line of the `k`-th post in traversal order.
    pub open spec fn post_lat_index(&self, k: int) -> int {
        k % (self.header.num_lat_lines as int)
    }

    /// The `k`-th post in traversal order, as `(lat, lon, elevation)`.
    pub open spec fn post(&self, k: int) -> (i64, i64, i16) {
        let i = self.post_lon_index(k);
        let j = self.post_lat_index(k);
        (self.lat_of(j) as i64, self.lon_of(i) as i64, self.records@[i].elevations@[j])
    }

    /// Whether the grid is rectangular and complete.
    pub fn is_rectangular(&self) -> (r: bool)
        ensures
            r == self.wf(),
    {
        if self.records.len() != self.header.num_lon_lines as usize {
            return false;
        }
        let mut i: usize = 0;
        while i < self.records.len()
            invariant
                i <= self.records@.len(),
                forall|t: int|
                    0 <= t < i ==> #[trigger] self.records@[t].elevations@.len()
                        == self.header.num_lat_lines,
            decreases self.records@.len() - i,
        {
            if self.records[i].elevations.len() != self.header.num_lat_lines as usize {
                return false;
            }
            i = i + 1;
        }
        true
    }

    /// Whether `get_elev` may be asked of this grid.
    pub fn is_queryable(&self) -> (r: bool)
        ensures
            r == self.queryable(),
    {
        self.is_rectangular() && self.header.lat_interval > 0 && self.header.lon_interval > 0
            && self.header.num_lat_lines >= 2 && self.header.num_lon_lines >= 2
    }

    /// A traversal of every post, starting at the first.
    pub fn into_iter(self) -> (r: DtedDataIntoIterator)
        requires
            self.wf(),
        ensures
            r.wf(),
            r.data() == self,
            r.position() == 0,
    {
        DtedDataIntoIterator { dted_data: self, lon_index: 0, lat_index: 0 }
    }

    /// Latitude spacing in tenths of an arcsecond.
    pub fn lat_interval(&self) -> (r: i64)
        ensures
            r == self.header.lat_interval,
    {
        self.header.lat_interval as i64
    }

    /// Longitude spacing in tenths of an arcsecond.
    pub fn lon_interval(&self) -> (r: i64)
        ensures
            r == self.header.lon_interval,
    {
        self.header.lon_interval as i64
    }

    /// Southern edge in tenths of an arcsecond.
    pub fn min_lat(&self) -> (r: i64)
        ensures
            r == self.lat_of(0),
    {
        self.header.origin_lat.to_tenths()
    }

    /// Western edge in tenths of an arcsecond.
    pub fn min_lon(&self) -> (r: i64)
        ensures
            r == self.lon_of(0),
    {
        self.header.origin_lon.to_tenths()
    }

    /// Northern edge in tenths of an arcsecond.
    pub fn max_lat(&self) -> (r: i64)
        requires
            self.header.num_lat_lines >= 1,
        ensures
            r == self.spec_max_lat(),
    {
        proof {
            lemma_span_bound(self.header.lat_interval as int, self.header.num_lat_lines - 1);
            assert(self.header.lat_interval * (self.header.num_lat_lines - 1) == (self.header.num_lat_lines - 1)
                * self.header.lat_interval) by (nonlinear_arith);
        }
        self.min_lat() + self.lat_interval() * (self.header.num_lat_lines - 1) as i64
    }

    /// Eastern edge in tenths of an arcsecond.
    pub fn max_lon(&self) -> (r: i64)
        requires
            self.header.num_lon_lines >= 1,
        ensures
            r == self.spec_max_lon(),
    {
        proof {
            lemma_span_bound(self.header.lon_interval as int, self.header.num_lon_lines - 1);
            assert(self.header.lon_interval * (self.header.num_lon_lines - 1) == (self.header.num_lon_lines - 1)
                * self.header.lon_interval) by (nonlinear_arith);
        }
        self.min_lon() + self.lon_interval() * (self.header.num_lon_lines - 1) as i64
    }

    /// The elevation at `(lat, lon)`, both in tenths of an arcsecond, by
    /// bilinear interpolation between the four posts around it, as an exact
    /// fraction over the cell area. `None` when the point lies outside the
    /// bounding box (the bounds belong to the grid), and also inside it when
    /// the grid has a single line along an axis or a zero spacing, where no
    /// cell surrounds the point.
    pub fn get_elev(&self, lat: i64, lon: i64) -> (r: Option<Interpolated>)
        requires
            self.wf(),
            self.header.num_lat_lines >= 1,
            self.header.num_lon_lines >= 1,
        ensures
            !self.in_bounds(lat as int, lon as int) ==> r is None,
            r is Some <==> self.queryable() && self.in_bounds(lat as int, lon as int),
            r is Some ==> r.unwrap().numer == self.interpolation(lat as int, lon as int).unwrap()
                && r.unwrap().denom == self.header.lat_interval * self.header.lon_interval,
    {
        let min_lat = self.min_lat();
        let min_lon = self.min_lon();
        let max_lat = self.max_lat();
        let max_lon = self.max_lon();
        if lat < min_lat || lat > max_lat || lon < min_lon || lon > max_lon {
            return None;
        }
        if self.header.lat_interval == 0 || self.header.lon_interval == 0
            || self.header.num_lat_lines < 2 || self.header.num_lon_lines < 2 {
            return None;
        }
        let a_step = self.lat_interval();
        let l_step = self.lon_interval();
        proof {
            lemma_angle_tenths_bound(self.header.origin_lat);
            lemma_angle_tenths_bound(self.header.origin_lon);
            lemma_span_bound(a_step as int, self.header.num_lat_lines - 1);
            lemma_span_bound(l_step as int, self.header.num_lon_lines - 1);
            assert((self.header.num_lat_lines - 1) * a_step == a_step * (
            self.header.num_lat_lines - 1)) by (nonlinear_arith);
            assert((self.header.num_lon_lines - 1) * l_step == l_step * (
            self.header.num_lon_lines - 1)) by (nonlinear_arith);
        }
        let (j, a) = cell(lat - min_lat, a_step, self.header.num_lat_lines as i64);
        let (i, l) = cell(lon - min_lon, l_step, self.header.num_lon_lines as i64);
        let iu = i as usize;
        let ju = j as usize;
        proof {
            assert(self.records@[iu as int].elevations@.len() == self.header.num_lat_lines);
            assert(self.records@[iu + 1].elevations@.len() == self.header.num_lat_lines);
        }
        let e00 = self.records[iu].elevations[ju] as i64;
        let e01 = self.records[iu].elevations[ju + 1] as i64;
        let e10 = self.records[iu + 1].elevations[ju] as i64;
        let e11 = self.records[iu + 1].elevations[ju + 1] as i64;
        proof {
            lemma_term_bound(e00 as int, l_step - l, a_step - a);
            lemma_term_bound(e01 as int, l_step - l, a as int);
            lemma_term_bound(e10 as int, l as int, a_step - a);
            lemma_term_bound(e11 as int, l as int, a as int);
            lemma_span_bound(a_step as int, l_step as int);
        }
        let numer = e00 * (l_step - l) * (a_step - a) + e01 * (l_step - l) * a + e10 * l * (a_step
            - a) + e11 * l * a;
        Some(Interpolated { numer, denom: a_step * l_step })
    }
}

/// Walks the posts of a grid longitude line by longitude line, west to east,
/// and south to north within a line.
pub struct DtedDataIntoIterator {
    dted_data: DtedData,
    lon_index: usize,
    lat_index: usize,
}

impl DtedDataIntoIterator {
    /// The grid being walked.
    pub closed spec fn data(&self) -> DtedData {
        self.dted_data
    }

    /// How many posts have been produced so far.
    pub closed spec fn position(&self) -> int {
        self.lon_index * self.dted_data.header.num_lat_lines + self.lat_index
    }

    pub closed spec fn wf(&self) -> bool {
        let n_lat = self.dted_data.header.num_lat_lines as int;
        &&& self.dted_data.wf()
        &&& self.lon_index <= self.dted_data.header.num_lon_lines
        &&& n_lat > 0 ==> self.lat_index < n_lat
        &&& n_lat == 0 ==> self.lat_index == 0
        &&& self.lon_index == self.dted_data.header.num_lon_lines ==> self.lat_index == 0
    }

    /// A walk over a grid stands between its first post and its end.
    pub proof fn lemma_position_in_range(&self)
        requires
            self.wf(),
        ensures
            0 <= self.position() <= self.data().num_posts(),
    {
        let n = self.dted_data.header.num_lat_lines as int;
        let m = self.dted_data.header.num_lon_lines as int;
        let i = self.lon_index as int;
        let j = self.lat_index as int;
        if n == 0 {
            assert(i * n + j == 0 && m * n == 0) by (nonlinear_arith)
                requires
                    n == 0,
                    j == 0,
            ;
        } else if i < m {
            assert(0 <= i * n + j <= m * n) by (nonlinear_arith)
                requires
                    0 <= i < m,
                    0 <= j < n,
            ;
        } else {
            assert(i * n + j == m * n) by (nonlinear_arith)
                requires
                    i == m,
                    j == 0,
            ;
        }
    }

    /// The next post, or `None` once all `num_posts` have been produced.
    pub fn next(&mut self) -> (r: Option<(i64, i64, i16)>)
        requires
            old(self).wf(),
        ensures
            final(self).wf(),
            final(self).data() == old(self).data(),
            0 <= final(self).position() <= final(self).data().num_posts(),
            old(self).position() < old(self).data().num_posts() ==> r == Some(
                old(self).data().post(old(self).position()),
            ) && final(self).position() == old(self).position() + 1,
            old(self).position() >= old(self).data().num_posts() ==> r is None
                && final(self).position() == old(self).position(),
    {
        let n_lon = self.dted_data.header.num_lon_lines as usize;
        let n_lat = self.dted_data.header.num_lat_lines as usize;
        let ghost pos = self.position();
        proof {
            self.lemma_position_in_range();
        }
        if self.lon_index >= n_lon || n_lat == 0 {
            proof {
                if n_lat == 0 {
                    assert(self.dted_data.num_posts() == 0) by (nonlinear_arith)
                        requires
                            n_lat == 0,
                            self.dted_data.num_posts() == n_lon * n_lat,
                    ;
                    assert(pos == 0) by (nonlinear_arith)
                        requires
                            n_lat == 0,
                            self.lat_index == 0,
                            pos == self.lon_index * n_lat + self.lat_index,
                    ;
                } else {
                    assert(pos == self.dted_data.num_posts()) by (nonlinear_arith)
                        requires
                            self.lon_index == n_lon,
                            self.lat_index == 0,
                            pos == self.lon_index * n_lat + self.lat_index,
                            self.dted_data.num_posts() == n_lon * n_lat,
                    ;
                }
            }
            return None;
        }
        let i = self.lon_index;
        let j = self.lat_index;
        proof {
            let n = n_lat as int;
            assert(pos + 1 <= self.dted_data.num_posts()) by (nonlinear_arith)
                requires
                    i < n_lon,
                    j < n,
                    pos == i * n + j,
                    self.dted_data.num_posts() == n_lon * n,
            ;
            assert(pos == n * i + j) by (nonlinear_arith)
                requires
                    pos == i * n + j,
            ;
            lemma_div_multiples_vanish_fancy(i as int, j as int, n);
            lemma_mod_multiples_vanish(i as int, j as int, n);
            lemma_small_mod(j as nat, n as nat);
            lemma_angle_tenths_bound(self.dted_data.header.origin_lat);
            lemma_angle_tenths_bound(self.dted_data.header.origin_lon);
            lemma_span_bound(self.dted_data.header.lat_interval as int, j as int);
            lemma_span_bound(self.dted_data.header.lon_interval as int, i as int);
            assert(self.dted_data.records@[i as int].elevations@.len() == n_lat);
        }
        let lat = self.dted_data.min_lat() + j as i64 * self.dted_data.lat_interval();
        let lon = self.dted_data.min_lon() + i as i64 * self.dted_data.lon_interval();
        let elev = self.dted_data.records[i].elevations[j];
        if j + 1 >= n_lat {
            self.lat_index = 0;
            self.lon_index = i + 1;
            proof {
                assert(self.position() == pos + 1) by (nonlinear_arith)
                    requires
                        self.position() == (i + 1) * n_lat + 0,
                        pos == i * n_lat + j,
                        j + 1 == n_lat,
                ;
            }
        } else {
            self.lat_index = j + 1;
        }
        proof {
            self.lemma_position_in_range();
        }
        Some((lat, lon, elev))
    }
}

/// The traversal is longitude-major: of two posts, the earlier one lies on an
/// earlier longitude line, or on the same line and further south.
pub proof fn lemma_posts_longitude_major(d: DtedData, k1: int, k2: int)
    requires
        d.wf(),
        0 <= k1 < k2 < d.num_posts(),
    ensures
        d.post_lon_index(k1) < d.post_lon_index(k2) || (d.post_lon_index(k1) == d.post_lon_index(
            k2,
        ) && d.post_lat_index(k1) < d.post_lat_index(k2)),
        0 <= d.post_lon_index(k1) <= d.post_lon_index(k2) < d.header.num_lon_lines,
{
    let n = d.header.num_lat_lines as int;
    let m = d.header.num_lon_lines as int;
    assert(n > 0) by (nonlinear_arith)
        requires
            0 < k2 < m * n,
            0 <= m,
            0 <= n,
    ;
    lemma_fundamental_div_mod(k1, n);
    lemma_fundamental_div_mod(k2, n);
    let q1 = k1 / n;
    let q2 = k2 / n;
    let r1 = k1 % n;
    let r2 = k2 % n;
    assert(q1 <= q2) by (nonlinear_arith)
        requires
            k1 == n * q1 + r1,
            k2 == n * q2 + r2,
            0 <= r1 < n,
            0 <= r2 < n,
            k1 < k2,
    ;
    assert(0 <= q1) by (nonlinear_arith)
        requires
            k1 == n * q1 + r1,
            0 <= r1 < n,
            0 <= k1,
    ;
    assert(q2 < m) by (nonlinear_arith)
        requires
            k2 == n * q2 + r2,
            0 <= r2 < n,
            k2 < m * n,
    ;
    if q1 == q2 {
        assert(r1 < r2);
    }
}

/// Every position of the walk is a post of the grid: its elevation is the one
/// stored there, so the walk has no holes.
pub proof fn lemma_post_in_grid(d: DtedData, k: int)
    requires
        d.wf(),
        0 <= k < d.num_posts(),
    ensures
        0 <= d.post_lon_index(k) < d.header.num_lon_lines,
        0 <= d.post_lat_index(k) < d.header.num_lat_lines,
        d.post(k).2 == d.records@[d.post_lon_index(k)].elevations@[d.post_lat_index(k)],
        d.post(k).2 as int == d.elev(d.post_lon_index(k), d.post_lat_index(k)),
{
    let n = d.header.num_lat_lines as int;
    let m = d.header.num_lon_lines as int;
    assert(n > 0) by (nonlinear_arith)
        requires
            0 <= k < m * n,
            0 <= m,
            0 <= n,
    ;
    lemma_fundamental_div_mod(k, n);
    let q = k / n;
    let r = k % n;
    assert(0 <= q < m) by (nonlinear_arith)
        requires
            k == n * q + r,
            0 <= r < n,
            0 <= k < m * n,
    ;
}

/// Every post of the grid is produced, at position `i * num_lat_lines + j`.
pub proof fn lemma_every_post_produced(d: DtedData, i: int, j: int)
    requires
        d.wf(),
        0 <= i < d.header.num_lon_lines,
        0 <= j < d.header.num_lat_lines,
    ensures
        0 <= i * d.header.num_lat_lines + j < d.num_posts(),
        d.post_lon_index(i * d.header.num_lat_lines + j) == i,
        d.post_lat_index(i * d.header.num_lat_lines + j) == j,
{
    let n = d.header.num_lat_lines as int;
    let m = d.header.num_lon_lines as int;
    assert(0 <= i * n + j < m * n) by (nonlinear_arith)
        requires
            0 <= i < m,
            0 <= j < n,
    ;
    assert(i * n + j == n * i + j) by (nonlinear_arith);
    lemma_div_multiples_vanish_fancy(i, j, n);
    lemma_mod_multiples_vanish(i, j, n);
    lemma_small_mod(j as nat, n as nat);
}

/// Along an axis, the post at index `k` falls in a cell whose weights pick
/// that post alone: either the cell starting at `k` with remainder 0, or, at
/// the last post, the cell before it with a whole step as remainder.
proof fn lemma_axis_cell_at_post(k: int, step: int, n: int)
    requires
        0 < step,
        2 <= n,
        0 <= k < n,
    ensures
        ({
            let (idx, rem) = axis_cell(k * step, step, n);
            (k < n - 1 && idx == k && rem == 0) || (k == n - 1 && idx == k - 1 && rem == step)
        }),
{
    lemma_div_by_multiple(k, step);
    lemma_mod_multiples_basic(k, step);
}

/// Querying the grid exactly at a post gives that post's stored elevation:
/// the interpolation equals the elevation times the cell area.
pub proof fn lemma_exact_at_posts(d: DtedData, i: int, j: int)
    requires
        d.queryable(),
        0 <= i < d.header.num_lon_lines,
        0 <= j < d.header.num_lat_lines,
    ensures
        d.interpolation(d.lat_of(j), d.lon_of(i)) == Some(
            d.elev(i, j) * d.header.lon_interval * d.header.lat_interval,
        ),
{
    let a_step = d.header.lat_interval as int;
    let l_step = d.header.lon_interval as int;
    let n_lat = d.header.num_lat_lines as int;
    let n_lon = d.header.num_lon_lines as int;
    assert(0 <= j * a_step <= (n_lat - 1) * a_step) by (nonlinear_arith)
        requires
            0 <= j < n_lat,
            0 < a_step,
    ;
    assert(0 <= i * l_step <= (n_lon - 1) * l_step) by (nonlinear_arith)
        requires
            0 <= i < n_lon,
            0 < l_step,
    ;
    assert(d.lat_of(j) - d.lat_of(0) == j * a_step);
    assert(d.lon_of(i) - d.lon_of(0) == i * l_step);
    lemma_axis_cell_at_post(j, a_step, n_lat);
    lemma_axis_cell_at_post(i, l_step, n_lon);
    assert(d.in_bounds(d.lat_of(j), d.lon_of(i)));
    let (jj, a) = axis_cell(d.lat_of(j) - d.lat_of(0), a_step, n_lat);
    let (ii, l) = axis_cell(d.lon_of(i) - d.lon_of(0), l_step, n_lon);
    let v = d.elev(ii, jj) * (l_step - l) * (a_step - a) + d.elev(ii, jj + 1) * (l_step - l) * a
        + d.elev(ii + 1, jj) * l * (a_step - a) + d.elev(ii + 1, jj + 1) * l * a;
    assert(d.interpolation(d.lat_of(j), d.lon_of(i)) == Some(v));
    let e = d.elev(i, j);
    if j < n_lat - 1 {
        if i < n_lon - 1 {
            assert(v == e * l_step * a_step) by (nonlinear_arith)
                requires
                    v == d.elev(ii, jj) * (l_step - l) * (a_step - a) + d.elev(ii, jj + 1) * (
                    l_step - l) * a + d.elev(ii + 1, jj) * l * (a_step - a) + d.elev(ii + 1, jj + 1)
                        * l * a,
                    a == 0,
                    l == 0,
                    e == d.elev(ii, jj),
            ;
        } else {
            assert(v == e * l_step * a_step) by (nonlinear_arith)
                requires
                    v == d.elev(ii, jj) * (l_step - l) * (a_step - a) + d.elev(ii, jj + 1) * (
                    l_step - l) * a + d.elev(ii + 1, jj) * l * (a_step - a) + d.elev(ii + 1, jj + 1)
                        * l * a,
                    a == 0,
                    l == l_step,
                    e == d.elev(ii + 1, jj),
            ;
        }
    } else {
        if i < n_lon - 1 {
            assert(v == e * l_step * a_step) by (nonlinear_arith)
                requires
                    v == d.elev(ii, jj) * (l_step - l) * (a_step - a) + d.elev(ii, jj + 1) * (
                    l_step - l) * a + d.elev(ii + 1, jj) * l * (a_step - a) + d.elev(ii + 1, jj + 1)
                        * l * a,
                    a == a_step,
                    l == 0,
                    e == d.elev(ii, jj + 1),
            ;
        } else {
            assert(v == e * l_step * a_step) by (nonlinear_arith)
                requires
                    v == d.elev(ii, jj) * (l_step - l) * (a_step - a) + d.elev(ii, jj + 1) * (
                    l_step - l) * a + d.elev(ii + 1, jj) * l * (a_step - a) + d.elev(ii + 1, jj + 1)
                        * l * a,
                    a == a_step,
                    l == l_step,
                    e == d.elev(ii + 1, jj + 1),
            ;
        }
    }
}

/// Every point strictly outside the bounding box has no elevation.
pub proof fn lemma_outside_not_found(d: DtedData, lat: int, lon: int)
    requires
        lat < d.lat_of(0) || lat > d.spec_max_lat() || lon < d.lon_of(0) || lon
            > d.spec_max_lon(),
    ensures
        d.interpolation(lat, lon) is None,
{
}

/// The north-east corner of a queryable grid has an elevation, the one stored
/// at the last post.
pub proof fn lemma_corner_defined(d: DtedData)
    requires
        d.queryable(),
    ensures
        d.interpolation(d.spec_max_lat(), d.spec_max_lon()) == Some(
            d.elev(d.header.num_lon_lines - 1, d.header.num_lat_lines - 1) * d.header.lon_interval
                * d.header.lat_interval,
        ),
{
    lemma_exact_at_posts(d, d.header.num_lon_lines - 1, d.header.num_lat_lines - 1);
}

/// The index of the cell that holds `off` along an axis of `n` posts spaced
/// `step` apart, and the remainder inside it (see `axis_cell`).
fn cell(off: i64, step: i64, n: i64) -> (r: (i64, i64))
    requires
        0 < step <= 65535,
        2 <= n <= 65535,
        0 <= off <= step * (n - 1),
    ensures
        r.0 == axis_cell(off as int, step as int, n as int).0,
        r.1 == axis_cell(off as int, step as int, n as int).1,
        0 <= r.0 <= n - 2,
        0 <= r.1 <= step,
{
    let idx = off / step;
    let rem = off % step;
    proof {
        lemma_fundamental_div_mod(off as int, step as int);
        assert(idx <= n - 1) by (nonlinear_arith)
            requires
                off == step * idx + rem,
                0 <= rem < step,
                off <= step * (n - 1),
        ;
        assert(idx >= 0) by (nonlinear_arith)
            requires
                off == step * idx + rem,
                0 <= rem < step,
                off >= 0,
        ;
        if idx == n - 1 {
            assert(rem == 0) by (nonlinear_arith)
                requires
                    off == step * idx + rem,
                    idx == n - 1,
                    0 <= rem,
                    off <= step * (n - 1),
            ;
        }
    }
    if idx == n - 1 {
        (idx - 1, rem + step)
    } else {
        (idx, rem)
    }
}

proof fn lemma_term_bound(e: int, x: int, y: int)
    requires
        -32768 <= e <= 32767,
        0 <= x <= 65535,
        0 <= y <= 65535,
    ensures
        -32768 * 65535 <= e * x <= 32767 * 65535,
        -32768 * 65535 * 65535 <= e * x * y <= 32767 * 65535 * 65535,
{
    assert(-32768 * 65535 <= e * x <= 32767 * 65535) by (nonlinear_arith)
        requires
            -32768 <= e <= 32767,
            0 <= x <= 65535,
    ;
    assert(-32768 * 65535 * 65535 <= (e * x) * y <= 32767 * 65535 * 65535) by (nonlinear_arith)
        requires
            -32768 * 65535 <= e * x <= 32767 * 65535,
            0 <= y <= 65535,
    ;
}

proof fn lemma_span_bound(step: int, n: int)
    requires
        0 <= step <= 65535,
        0 <= n <= 65535,
    ensures
        0 <= step * n <= 65535 * 65535,
{
    assert(0 <= step * n <= 65535 * 65535) by (nonlinear_arith)
        requires
            0 <= step <= 65535,
            0 <= n <= 65535,
    ;
}

} // verus!
