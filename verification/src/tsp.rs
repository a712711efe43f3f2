//! The city catalog and the fitness of a tour through it.
//!
//! A tour is scored as an open path: the squared distances between
//! consecutive cities are summed, and no edge leads from the last city back
//! to the first.

use vstd::prelude::*;
use crate::random::random_below;

verus! {

/// The largest fitness value; a tour of cost zero has it.
pub const MAX_FITNESS: i64 = 0x7fff_ffff_ffff_ffff;

/// A labelled point on the integer grid.
#[derive(Debug, Clone, Copy)]
pub struct City {
    pub id: usize,
    pub x: u32,
    pub y: u32,
}

/// The squared Euclidean distance between two points.
pub open spec fn squared_distance(a: City, b: City) -> nat {
    ((a.x - b.x) * (a.x - b.x) + (a.y - b.y) * (a.y - b.y)) as nat
}

/// The cost of a tour: the sum of the squared distances between each city
/// of the tour and the next one.
pub open spec fn tour_cost(cities: Seq<City>, tour: Seq<usize>) -> nat
    decreases tour.len(),
{
    if tour.len() < 2 {
        0
    } else {
        tour_cost(cities, tour.drop_last()) + squared_distance(
            cities[tour[tour.len() - 2] as int],
            cities[tour.last() as int],
        )
    }
}

/// The fitness that belongs to a cost: `MAX_FITNESS / cost`, rounded to the
/// nearest integer with halves rounded up, and `MAX_FITNESS` for cost zero.
pub open spec fn fitness_of_cost(cost: nat) -> int {
    if cost == 0 {
        MAX_FITNESS as int
    } else {
        (2 * MAX_FITNESS + cost) / (2 * cost as int)
    }
}

/// The fitness of a tour through the cities.
pub open spec fn tour_fitness(cities: Seq<City>, tour: Seq<usize>) -> int {
    fitness_of_cost(tour_cost(cities, tour))
}

/// Every entry of the tour names a city of the catalog.
pub open spec fn tour_in_range(tour: Seq<usize>, n: nat) -> bool {
    forall|i: int| 0 <= i < tour.len() ==> (#[trigger] tour[i]) < n
}

/// Each city's id is its place in the catalog.
pub open spec fn ids_in_order(cities: Seq<City>) -> bool {
    forall|i: int| 0 <= i < cities.len() ==> (#[trigger] cities[i]).id == i
}

/// Every city lies in `[0, width) x [0, height)`; a bound of zero leaves
/// the coordinate at zero.
pub open spec fn on_canvas(cities: Seq<City>, width: u32, height: u32) -> bool {
    forall|i: int|
        0 <= i < cities.len() ==> {
            let c = #[trigger] cities[i];
            &&& (c.x < width || (width == 0 && c.x == 0))
            &&& (c.y < height || (height == 0 && c.y == 0))
        }
}

/// The sum of the values.
pub open spec fn sum_of(values: Seq<i64>) -> int
    decreases values.len(),
{
    if values.len() == 0 {
        0
    } else {
        sum_of(values.drop_last()) + values.last()
    }
}

/// The arithmetic mean of the values, truncated toward zero; zero for no
/// values.
pub open spec fn mean_of(values: Seq<i64>) -> int {
    let total = sum_of(values);
    if values.len() == 0 {
        0
    } else if total >= 0 {
        total / (values.len() as int)
    } else {
        -((-total) / (values.len() as int))
    }
}

impl City {
    /// The city `id` at `(x, y)`.
    pub fn new(id: usize, x: u32, y: u32) -> (c: City)
        ensures
            c == (City { id, x, y }),
    {
        City { id, x, y }
    }

    /// The city `id` at a random point of `[0, max_x) x [0, max_y)`. A bound
    /// of zero leaves the coordinate at zero.
    pub fn random(id: usize, max_x: u32, max_y: u32) -> (c: City)
        ensures
            c.id == id,
            c.x < max_x || (max_x == 0 && c.x == 0),
            c.y < max_y || (max_y == 0 && c.y == 0),
    {
        let x: u32 = if max_x == 0 {
            0
        } else {
            random_below(max_x as u128) as u32
        };
        let y: u32 = if max_y == 0 {
            0
        } else {
            random_below(max_y as u128) as u32
        };
        City { id, x, y }
    }

    /// The squared Euclidean distance to `other`; no root is taken.
    pub fn distance_squared(&self, other: &City) -> (d: u128)
        ensures
            d == squared_distance(*self, *other),
            d <= 0x1_ffff_fffc_0000_0002,
    {
        let dx: u128 = if self.x >= other.x {
            (self.x - other.x) as u128
        } else {
            (other.x - self.x) as u128
        };
        let dy: u128 = if self.y >= other.y {
            (self.y - other.y) as u128
        } else {
            (other.y - self.y) as u128
        };
        proof {
            assert(dx * dx <= 0xffff_ffff * 0xffff_ffff) by (nonlinear_arith)
                requires
                    dx <= 0xffff_ffff,
            ;
            assert(dy * dy <= 0xffff_ffff * 0xffff_ffff) by (nonlinear_arith)
                requires
                    dy <= 0xffff_ffff,
            ;
            assert(dx * dx == (self.x - other.x) * (self.x - other.x)) by (nonlinear_arith)
                requires
                    dx == self.x - other.x || dx == -(self.x - other.x),
            ;
            assert(dy * dy == (self.y - other.y) * (self.y - other.y)) by (nonlinear_arith)
                requires
                    dy == self.y - other.y || dy == -(self.y - other.y),
            ;
        }
        dx * dx + dy * dy
    }
}

/// The catalog of cities that the tours run through.
#[derive(Debug, Clone)]
pub struct TSP {
    pub cities: Vec<City>,
}

impl TSP {
    /// Each city's id is its place in the catalog.
    pub open spec fn well_formed(&self) -> bool {
        ids_in_order(self.cities@)
    }

    /// The number of cities.
    pub open spec fn spec_len(&self) -> nat {
        self.cities@.len()
    }

    /// `n` cities at random points of `[0, width) x [0, height)`, with the
    /// ids `0..n`.
    pub fn new(n: usize, width: u32, height: u32) -> (tsp: TSP)
        ensures
            tsp.spec_len() == n,
            tsp.well_formed(),
            on_canvas(tsp.cities@, width, height),
    {
        let mut cities: Vec<City> = Vec::new();
        let mut id: usize = 0;
        while id < n
            invariant
                id <= n,
                cities@.len() == id,
                ids_in_order(cities@),
                on_canvas(cities@, width, height),
            decreases n - id,
        {
            cities.push(City::random(id, width, height));
            id += 1;
        }
        TSP { cities }
    }

    /// The catalog of the given points, with the ids `0..points.len()`.
    pub fn from_points(points: &Vec<(u32, u32)>) -> (tsp: TSP)
        ensures
            tsp.spec_len() == points@.len(),
            tsp.well_formed(),
            forall|i: int|
                0 <= i < points@.len() ==> (#[trigger] tsp.cities@[i]).x == points@[i].0
                    && tsp.cities@[i].y == points@[i].1,
    {
        let mut cities: Vec<City> = Vec::new();
        let mut id: usize = 0;
        while id < points.len()
            invariant
                id <= points@.len(),
                cities@.len() == id,
                forall|i: int| 0 <= i < id ==> (#[trigger] cities@[i]).id == i,
                forall|i: int|
                    0 <= i < id ==> (#[trigger] cities@[i]).x == points@[i].0 && cities@[i].y
                        == points@[i].1,
            decreases points@.len() - id,
        {
            let p = points[id];
            cities.push(City { id, x: p.0, y: p.1 });
            id += 1;
        }
        TSP { cities }
    }

    /// The number of cities.
    pub fn len(&self) -> (n: usize)
        ensures
            n == self.spec_len(),
    {
        self.cities.len()
    }

    /// The squared Euclidean distance between the cities `a` and `b`.
    pub fn distance_squared(&self, a: usize, b: usize) -> (d: u128)
        requires
            a < self.spec_len(),
            b < self.spec_len(),
        ensures
            d == squared_distance(self.cities@[a as int], self.cities@[b as int]),
            d <= 0x1_ffff_fffc_0000_0002,
    {
        self.cities[a].distance_squared(&self.cities[b])
    }

    /// The cost of the tour: the sum of the squared distances between
    /// consecutive cities, capped once it exceeds `2 * MAX_FITNESS`, from
    /// where on the fitness is zero.
    pub fn capped_cost(&self, tour: &Vec<usize>) -> (sum: u128)
        requires
            tour_in_range(tour@, self.spec_len()),
        ensures
            sum <= 2 * MAX_FITNESS ==> sum == tour_cost(self.cities@, tour@),
            sum > 2 * MAX_FITNESS ==> tour_cost(self.cities@, tour@) > 2 * MAX_FITNESS,
    {
        let mut sum: u128 = 0;
        if tour.len() < 2 {
            return sum;
        }
        let mut k: usize = 1;
        assert(tour_cost(self.cities@, tour@.take(1)) == 0);
        while k < tour.len()
            invariant
                1 <= k <= tour@.len(),
                tour_in_range(tour@, self.spec_len()),
                sum <= 2 * MAX_FITNESS ==> sum == tour_cost(self.cities@, tour@.take(k as int)),
                sum > 2 * MAX_FITNESS ==> tour_cost(self.cities@, tour@.take(k as int)) > 2
                    * MAX_FITNESS,
                sum <= 0x3_ffff_ffff_ffff_ffff,
            decreases tour@.len() - k,
        {
            let from = tour[k - 1];
            let to = tour[k];
            let d = self.distance_squared(from, to);
            proof {
                let next = tour@.take(k + 1);
                assert(next.drop_last() =~= tour@.take(k as int));
                assert(next[next.len() - 2] == from);
                assert(next.last() == to);
                assert(tour_cost(self.cities@, next) == tour_cost(self.cities@, tour@.take(k as int))
                    + d);
            }
            if sum <= 2 * (MAX_FITNESS as u128) {
                sum = sum + d;
            }
            k += 1;
        }
        assert(tour@.take(k as int) =~= tour@);
        sum
    }

    /// The fitness of the tour: `MAX_FITNESS` divided by the tour's cost and
    /// rounded to the nearest integer, and `MAX_FITNESS` for a tour of cost
    /// zero.
    pub fn fitness_of(&self, tour: &Vec<usize>) -> (fitness: i64)
        requires
            tour_in_range(tour@, self.spec_len()),
        ensures
            fitness == tour_fitness(self.cities@, tour@),
            0 <= fitness <= MAX_FITNESS,
    {
        let sum = self.capped_cost(tour);
        proof {
            lemma_fitness_bounds(tour_cost(self.cities@, tour@));
        }
        if sum == 0 {
            MAX_FITNESS
        } else if sum > 2 * (MAX_FITNESS as u128) {
            0
        } else {
            let q: u128 = (2 * (MAX_FITNESS as u128) + sum) / (2 * sum);
            q as i64
        }
    }

    /// The arithmetic mean of the values, truncated toward zero; zero for no
    /// values.
    pub fn average(&self, values: &[i64]) -> (mean: i64)
        ensures
            mean == mean_of(values@),
    {
        let n = values.len();
        if n == 0 {
            return 0;
        }
        let mut total: i128 = 0;
        let mut k: usize = 0;
        assert(values@.take(0) =~= Seq::<i64>::empty());
        while k < n
            invariant
                k <= n,
                n == values@.len(),
                total == sum_of(values@.take(k as int)),
                -(k * 0x8000_0000_0000_0000) <= total <= k * 0x7fff_ffff_ffff_ffff,
            decreases n - k,
        {
            let v = values[k];
            proof {
                let next = values@.take(k + 1);
                assert(next.drop_last() =~= values@.take(k as int));
                assert(next.last() == v);
                assert(k * 0x8000_0000_0000_0000 <= 0xffff_ffff_ffff_ffff * 0x8000_0000_0000_0000)
                    by (nonlinear_arith)
                    requires
                        k <= 0xffff_ffff_ffff_ffff,
                ;
            }
            total = total + (v as i128);
            k += 1;
        }
        assert(values@.take(k as int) =~= values@);
        proof {
            lemma_mean_bounds(total as int, n as int);
        }
        if total >= 0 {
            let q: u128 = (total as u128) / (n as u128);
            q as i64
        } else {
            let q: u128 = ((-total) as u128) / (n as u128);
            if q == 0x8000_0000_0000_0000 {
                -0x8000_0000_0000_0000
            } else {
                -(q as i64)
            }
        }
    }

    /// The largest fitness that a tour can have.
    pub fn highest_possible_fitness(&self) -> (f: i64)
        ensures
            f == MAX_FITNESS,
    {
        MAX_FITNESS
    }

    /// The smallest fitness that a tour can have.
    pub fn lowest_possible_fitness(&self) -> (f: i64)
        ensures
            f == 0,
    {
        0
    }

    /// The smallest and the largest fitness that a tour can have.
    pub fn fitness_bounds(&self) -> (bounds: (i64, i64))
        ensures
            bounds == (0i64, MAX_FITNESS),
    {
        (0, MAX_FITNESS)
    }
}

/// A mean lies between the bounds of its values.
proof fn lemma_mean_bounds(total: int, n: int)
    requires
        0 < n,
        -(n * 0x8000_0000_0000_0000) <= total <= n * 0x7fff_ffff_ffff_ffff,
    ensures
        total >= 0 ==> total / n <= 0x7fff_ffff_ffff_ffff,
        total < 0 ==> (-total) / n <= 0x8000_0000_0000_0000,
{
    if total >= 0 {
        assert(total / n <= 0x7fff_ffff_ffff_ffff) by (nonlinear_arith)
            requires
                0 < n,
                0 <= total <= n * 0x7fff_ffff_ffff_ffff,
        ;
    } else {
        assert((-total) / n <= 0x8000_0000_0000_0000) by (nonlinear_arith)
            requires
                0 < n,
                0 <= -total <= n * 0x8000_0000_0000_0000,
        ;
    }
}

/// Every fitness lies between zero and `MAX_FITNESS`, and it is zero once
/// the cost exceeds `2 * MAX_FITNESS`.
pub proof fn lemma_fitness_bounds(cost: nat)
    ensures
        0 <= fitness_of_cost(cost) <= MAX_FITNESS,
        cost > 2 * MAX_FITNESS ==> fitness_of_cost(cost) == 0,
{
    if cost > 0 {
        let m = MAX_FITNESS as int;
        let c = cost as int;
        assert(0 <= (2 * m + c) / (2 * c) <= m) by (nonlinear_arith)
            requires
                c >= 1,
                m >= 1,
        ;
        if c > 2 * m {
            assert((2 * m + c) / (2 * c) == 0) by (nonlinear_arith)
                requires
                    c > 2 * m,
                    m >= 1,
            ;
        }
    }
}

/// A quotient is at least `q` if `q` times the divisor is at most the
/// dividend.
proof fn lemma_quotient_at_least(q: int, x: int, d: int)
    requires
        0 < d,
        q * d <= x,
    ensures
        q <= x / d,
{
    assert(q <= x / d) by (nonlinear_arith)
        requires
            0 < d,
            q * d <= x,
    ;
}

/// The fitness falls as the cost grows: a cost that is no higher gives a
/// fitness that is no lower.
pub proof fn lemma_fitness_falls_with_cost(a: nat, b: nat)
    requires
        a <= b,
    ensures
        fitness_of_cost(a) >= fitness_of_cost(b),
{
    lemma_fitness_bounds(b);
    if a > 0 {
        let m = MAX_FITNESS as int;
        let x = a as int;
        let y = b as int;
        let q = (2 * m + y) / (2 * y);
        assert(q * (2 * y) <= 2 * m + y) by (nonlinear_arith)
            requires
                q == (2 * m + y) / (2 * y),
                y > 0,
                m > 0,
        ;
        assert(q * (2 * x) <= 2 * m + x) by (nonlinear_arith)
            requires
                q * (2 * y) <= 2 * m + y,
                0 < x <= y,
                m > 0,
                q >= 0,
        ;
        lemma_quotient_at_least(q, 2 * m + x, 2 * x);
    }
}

/// A lower cost gives a strictly higher fitness where the two costs are far
/// enough apart for `MAX_FITNESS / a` and `MAX_FITNESS / b` to differ by one
/// or more, and the higher cost is at least two.
pub proof fn lemma_fitness_falls_strictly(a: nat, b: nat)
    requires
        a < b,
        b >= 2,
        a * b <= MAX_FITNESS * (b - a),
    ensures
        fitness_of_cost(a) > fitness_of_cost(b),
{
    lemma_fitness_bounds(b);
    let m = MAX_FITNESS as int;
    let x = a as int;
    let y = b as int;
    let q = (2 * m + y) / (2 * y);
    if a == 0 {
        assert(q < m) by (nonlinear_arith)
            requires
                q == (2 * m + y) / (2 * y),
                y >= 2,
                m >= 4,
        ;
    } else {
        assert(q * (2 * y) <= 2 * m + y) by (nonlinear_arith)
            requires
                q == (2 * m + y) / (2 * y),
                y > 0,
                m > 0,
        ;
        assert((q + 1) * (2 * x) <= 2 * m + x) by (nonlinear_arith)
            requires
                q * (2 * y) <= 2 * m + y,
                0 < x < y,
                x * y <= m * (y - x),
                q >= 0,
        ;
        lemma_quotient_at_least(q + 1, 2 * m + x, 2 * x);
    }
}

/// Of two tours through the same cities, one that costs no more is at least
/// as fit, and one that costs less by enough is fitter.
pub proof fn lemma_cheaper_tour_is_fitter(cities: Seq<City>, a: Seq<usize>, b: Seq<usize>)
    requires
        tour_cost(cities, a) <= tour_cost(cities, b),
    ensures
        tour_fitness(cities, a) >= tour_fitness(cities, b),
        tour_cost(cities, b) >= 2 && tour_cost(cities, a) * tour_cost(cities, b) <= MAX_FITNESS * (
        tour_cost(cities, b) - tour_cost(cities, a)) && tour_cost(cities, a) < tour_cost(cities, b)
            ==> tour_fitness(cities, a) > tour_fitness(cities, b),
{
    let x = tour_cost(cities, a);
    let y = tour_cost(cities, b);
    lemma_fitness_falls_with_cost(x, y);
    if y >= 2 && x * y <= MAX_FITNESS * (y - x) && x < y {
        lemma_fitness_falls_strictly(x, y);
    }
}

} // verus!
