//! Fee rates, and the price-ordered book of limit orders kept per trade pair.

use vstd::prelude::*;
use std::collections::BTreeMap;
use crate::{H256, Price};
use crate::trade::{LimitOrder, OrderType};
use crate::wide::{Wide, wide_from_u128, wide_mul, wide_div, wide_to_u128, u128_bound, u256_bound};
use vstd::std_specs::ops::AddSpec;

verus! {

broadcast use vstd::std_specs::btree::group_btree_axioms, vstd::laws_cmp::group_laws_cmp;

/// The scale of a `FeeRate`: `FeeRate(SCALE_FACTOR)` is one, or 100%.
pub const SCALE_FACTOR: u128 = 1_000_000;

/// A rate scaled by `SCALE_FACTOR` (based on `Permill`).
#[derive(Clone, Copy, PartialEq, Eq, Structural, Debug, Default)]
pub struct FeeRate(pub u128);

impl FeeRate {
    /// The FeeRate `x / 1000`.
    pub fn from_milli(x: u128) -> (r: FeeRate)
        requires
            x * SCALE_FACTOR <= u128::MAX,
        ensures
            r.0 == x * SCALE_FACTOR / 1000,
    {
        FeeRate(x * SCALE_FACTOR / 1000)
    }

    /// The FeeRate `x / 100`, i.e. `x` percent.
    pub fn from_percent(x: u128) -> (r: FeeRate)
        requires
            x * SCALE_FACTOR <= u128::MAX,
        ensures
            r.0 == x * SCALE_FACTOR / 100,
    {
        FeeRate(x * SCALE_FACTOR / 100)
    }

    /// Divides `lhs` by the rate `rhs`, rounding down.
    pub fn div(lhs: u128, rhs: FeeRate) -> (r: u128)
        requires
            lhs * SCALE_FACTOR <= u128::MAX,
            rhs.0 != 0,
        ensures
            r == lhs * SCALE_FACTOR / (rhs.0 as int),
    {
        lhs * SCALE_FACTOR / rhs.0
    }

    /// Divides `lhs` by the rate `rhs` in 256-bit arithmetic, rounding down;
    /// fails with "Overflow error" when the quotient does not fit in a `u128`.
    pub fn safe_div(lhs: u128, rhs: FeeRate) -> (r: Result<u128, &'static str>)
        requires
            rhs.0 != 0,
        ensures
            (lhs * SCALE_FACTOR / (rhs.0 as int) <= u128::MAX) ==> r == Ok::<u128, &'static str>(
                (lhs * SCALE_FACTOR / (rhs.0 as int)) as u128),
            (lhs * SCALE_FACTOR / (rhs.0 as int) > u128::MAX) ==> r == Err::<u128, &'static str>(
                "Overflow error"),
    {
        let l = wide_from_u128(lhs);
        let s = wide_from_u128(SCALE_FACTOR);
        let d = wide_from_u128(rhs.0);
        assert(l.value() * s.value() < u256_bound()) by (nonlinear_arith)
            requires
                l.value() < u128_bound(),
                s.value() < u128_bound(),
                u256_bound() == u128_bound() * u128_bound(),
        ;
        let p = wide_mul(l, s);
        let q = wide_div(p, d);
        match wide_to_u128(q) {
            Ok(v) => Ok(v),
            Err(_) => Err("Overflow error"),
        }
    }

    /// Multiplies the rate `lhs` by `rhs` in 256-bit arithmetic, rounding
    /// down; fails with "Overflow error" when the product does not fit in a
    /// `u128`.
    pub fn safe_mul(lhs: FeeRate, rhs: u128) -> (r: Result<u128, &'static str>)
        ensures
            (lhs.0 * rhs / (SCALE_FACTOR as int) <= u128::MAX) ==> r == Ok::<u128, &'static str>(
                (lhs.0 * rhs / (SCALE_FACTOR as int)) as u128),
            (lhs.0 * rhs / (SCALE_FACTOR as int) > u128::MAX) ==> r == Err::<u128, &'static str>(
                "Overflow error"),
    {
        let l = wide_from_u128(lhs.0);
        let r = wide_from_u128(rhs);
        let s = wide_from_u128(SCALE_FACTOR);
        assert(l.value() * r.value() < u256_bound()) by (nonlinear_arith)
            requires
                l.value() < u128_bound(),
                r.value() < u128_bound(),
                u256_bound() == u128_bound() * u128_bound(),
        ;
        let p = wide_mul(l, r);
        let q = wide_div(p, s);
        match wide_to_u128(q) {
            Ok(v) => Ok(v),
            Err(_) => Err("Overflow error"),
        }
    }

    /// The rate one, or 100%.
    pub fn one() -> (r: FeeRate)
        ensures
            r.0 == SCALE_FACTOR,
    {
        FeeRate(SCALE_FACTOR)
    }

}

/// Rates in percent add up: `x` percent and `y` percent make `x + y`
/// percent, and in thousandths likewise.
pub proof fn lemma_rates_add(x: u128, y: u128)
    requires
        (x + y) * SCALE_FACTOR <= u128::MAX,
    ensures
        x * SCALE_FACTOR / 100 + y * SCALE_FACTOR / 100 == (x + y) * SCALE_FACTOR / 100,
        x * SCALE_FACTOR / 1000 + y * SCALE_FACTOR / 1000 == (x + y) * SCALE_FACTOR / 1000,
{
    assert(x * SCALE_FACTOR / 100 == x * 10000) by (nonlinear_arith);
    assert(y * SCALE_FACTOR / 100 == y * 10000) by (nonlinear_arith);
    assert((x + y) * SCALE_FACTOR / 100 == (x + y) * 10000) by (nonlinear_arith);
    assert(x * SCALE_FACTOR / 1000 == x * 1000) by (nonlinear_arith);
    assert(y * SCALE_FACTOR / 1000 == y * 1000) by (nonlinear_arith);
    assert((x + y) * SCALE_FACTOR / 1000 == (x + y) * 1000) by (nonlinear_arith);
}

/// One is a hundred percent, and a thousand thousandths.
pub proof fn lemma_one_whole()
    ensures
        100 * SCALE_FACTOR / 100 == SCALE_FACTOR,
        1000 * SCALE_FACTOR / 1000 == SCALE_FACTOR,
{
}

impl core::ops::Add<FeeRate> for FeeRate {
    type Output = FeeRate;

    /// The sum of two rates.
    fn add(self, rhs: FeeRate) -> (r: FeeRate) {
        FeeRate(self.0 + rhs.0)
    }
}

impl vstd::std_specs::ops::AddSpecImpl<FeeRate> for FeeRate {
    open spec fn obeys_add_spec() -> bool {
        true
    }

    open spec fn add_req(self, rhs: FeeRate) -> bool {
        self.0 + rhs.0 <= u128::MAX
    }

    open spec fn add_spec(self, rhs: FeeRate) -> FeeRate {
        FeeRate((self.0 + rhs.0) as u128)
    }
}


/// Adding two fee rates adds their scaled values: where the sum fits, the
/// sum of `x` and `y` is the rate whose value is that of `x` plus that of
/// `y`, and the addition is allowed.
pub proof fn lemma_fee_rate_sum(x: FeeRate, y: FeeRate)
    requires
        x.0 + y.0 <= u128::MAX,
    ensures
        x.add_req(y),
        x.add_spec(y).0 == x.0 + y.0,
        x.add_spec(y) == y.add_spec(x),
{
}

/// A rate of `a` percent and one of `b` percent add up to a rate of
/// `a + b` percent, and likewise in thousandths.
pub proof fn lemma_fee_rates_add_up(a: u128, b: u128)
    requires
        (a + b) * SCALE_FACTOR <= u128::MAX,
    ensures
        FeeRate((a * SCALE_FACTOR / 100) as u128).add_spec(FeeRate((b * SCALE_FACTOR / 100) as u128)).0
            == (a + b) * SCALE_FACTOR / 100,
        FeeRate((a * SCALE_FACTOR / 1000) as u128).add_spec(FeeRate((b * SCALE_FACTOR / 1000) as u128)).0
            == (a + b) * SCALE_FACTOR / 1000,
{
    lemma_rates_add(a, b);
    assert(a * SCALE_FACTOR <= (a + b) * SCALE_FACTOR) by (nonlinear_arith)
        requires
            b >= 0,
    ;
    assert(b * SCALE_FACTOR <= (a + b) * SCALE_FACTOR) by (nonlinear_arith)
        requires
            a >= 0,
    ;
    assert(a * SCALE_FACTOR / 100 <= a * SCALE_FACTOR) by (nonlinear_arith)
        requires
            a >= 0,
    ;
    assert(b * SCALE_FACTOR / 100 <= b * SCALE_FACTOR) by (nonlinear_arith)
        requires
            b >= 0,
    ;
    assert(a * SCALE_FACTOR / 1000 <= a * SCALE_FACTOR) by (nonlinear_arith)
        requires
            a >= 0,
    ;
    assert(b * SCALE_FACTOR / 1000 <= b * SCALE_FACTOR) by (nonlinear_arith)
        requires
            b >= 0,
    ;
    assert((a + b) * SCALE_FACTOR / 100 <= (a + b) * SCALE_FACTOR) by (nonlinear_arith)
        requires
            a + b >= 0,
    ;
    assert((a + b) * SCALE_FACTOR / 1000 <= (a + b) * SCALE_FACTOR) by (nonlinear_arith)
        requires
            a + b >= 0,
    ;
}

/// The price of the bottom sentinel of a book, below every buy level.
pub const PRICE_MIN: Price = 0;

/// The price of the top sentinel of a book, above every sell level.
pub const PRICE_MAX: Price = 0xffff_ffff_ffff_ffff_ffff_ffff_ffff_ffffu128;

/// One node of a trade pair's book: a price level with the hashes of the
/// orders resting at it, oldest first, linked to its neighbours by price.
///
/// ```text
///  Bottom            Buy level       Head              Sell level      Top
///  price: 0          price: 8        price: None       price: 10       price: max
///  next ----------->                 next ----------->                 next: 0
///  prev: max   <---- prev            <---- prev        <---- prev
/// ```
/// Buy levels go up in price from the bottom to the head, sell levels from
/// the head to the top; the top links on to the bottom, the bottom back to
/// the top. Orders at one level match in the order they came.
#[derive(PartialEq, Eq, Debug)]
pub struct LinkedItem {
    pub prev: Option<Price>,
    pub next: Option<Price>,
    pub price: Option<Price>,
    pub orders: Vec<H256>,
}

/// A node with its orders as a sequence.
pub struct ItemView {
    pub prev: Option<Price>,
    pub next: Option<Price>,
    pub price: Option<Price>,
    pub orders: Seq<H256>,
}

impl View for LinkedItem {
    type V = ItemView;

    open spec fn view(&self) -> ItemView {
        ItemView { prev: self.prev, next: self.next, price: self.price, orders: self.orders@ }
    }
}

impl LinkedItem {
    /// A copy of the node.
    pub fn copy(&self) -> (r: LinkedItem)
        ensures
            r@ == self@,
    {
        let mut orders: Vec<H256> = Vec::new();
        let mut i: usize = 0;
        while i < self.orders.len()
            invariant
                i <= self.orders@.len(),
                orders@ == self.orders@.subrange(0, i as int),
            decreases self.orders@.len() - i,
        {
            orders.push(self.orders[i]);
            i = i + 1;
            assert(orders@ =~= self.orders@.subrange(0, i as int));
        }
        assert(orders@ =~= self.orders@);
        LinkedItem { prev: self.prev, next: self.next, price: self.price, orders }
    }
}

/// The bottom sentinel of a new book.
pub open spec fn bottom_view() -> ItemView {
    ItemView { prev: Some(PRICE_MAX), next: None, price: Some(PRICE_MIN), orders: Seq::empty() }
}

/// The top sentinel of a new book.
pub open spec fn top_view() -> ItemView {
    ItemView { prev: None, next: Some(PRICE_MIN), price: Some(PRICE_MAX), orders: Seq::empty() }
}

/// The head of a new book.
pub open spec fn head_view() -> ItemView {
    ItemView { prev: Some(PRICE_MIN), next: Some(PRICE_MAX), price: None, orders: Seq::empty() }
}

/// The sentinel of a new book stored under `key2`: the bottom for the lowest
/// price, the top for the highest, the head for any other key.
pub open spec fn fresh_sentinel(key2: Option<Price>) -> ItemView {
    if key2 == Some(PRICE_MIN) {
        bottom_view()
    } else if key2 == Some(PRICE_MAX) {
        top_view()
    } else {
        head_view()
    }
}

/// The key of the node at position `i` of a book with buy levels `b` and sell
/// levels `s`: bottom, the buy levels, head, the sell levels, top.
pub open spec fn key_at(b: Seq<Price>, s: Seq<Price>, i: int) -> Option<Price> {
    if i == 0 {
        Some(PRICE_MIN)
    } else if i <= b.len() {
        Some(b[i - 1])
    } else if i == b.len() + 1 {
        None
    } else if i < b.len() + s.len() + 2 {
        Some(s[i - b.len() - 2])
    } else {
        Some(PRICE_MAX)
    }
}

/// The keys of a book's nodes, in link order from the bottom.
pub open spec fn chain(b: Seq<Price>, s: Seq<Price>) -> Seq<Option<Price>> {
    Seq::new((b.len() + s.len() + 3) as nat, |i: int| key_at(b, s, i))
}

/// The position after `i` in a ring of `n`.
pub open spec fn ring_next(n: int, i: int) -> int {
    if i + 1 == n {
        0
    } else {
        i + 1
    }
}

/// The position before `i` in a ring of `n`.
pub open spec fn ring_prev(n: int, i: int) -> int {
    if i == 0 {
        n - 1
    } else {
        i - 1
    }
}

/// Strictly increasing, each strictly between the two sentinel prices.
pub open spec fn proper_levels(l: Seq<Price>) -> bool {
    &&& forall|i: int, j: int| 0 <= i < j < l.len() ==> l[i] < l[j]
    &&& forall|i: int| 0 <= i < l.len() ==> PRICE_MIN < #[trigger] l[i] < PRICE_MAX
}

/// The buy and the sell levels are proper and have no price in common.
pub open spec fn proper_sides(b: Seq<Price>, s: Seq<Price>) -> bool {
    &&& proper_levels(b)
    &&& proper_levels(s)
    &&& forall|i: int, j: int| 0 <= i < b.len() && 0 <= j < s.len() ==> b[i] != s[j]
}

/// The node at position `i` of `c` is stored with its own key and the keys
/// of its neighbours in the ring.
pub open spec fn node_linked(v: Map<(H256, Option<Price>), ItemView>, k1: H256, c: Seq<Option<Price>>, i: int) -> bool {
    &&& v.contains_key((k1, c[i]))
    &&& v[(k1, c[i])].price == c[i]
    &&& v[(k1, c[i])].next == c[ring_next(c.len() as int, i)]
    &&& v[(k1, c[i])].prev == c[ring_prev(c.len() as int, i)]
}

/// The nodes stored under `k1` are exactly those of the ring `c`, each linked
/// to its neighbours.
pub open spec fn ring_linked(v: Map<(H256, Option<Price>), ItemView>, k1: H256, c: Seq<Option<Price>>) -> bool {
    &&& forall|i: int| 0 <= i < c.len() ==> #[trigger] node_linked(v, k1, c, i)
    &&& forall|p: Option<Price>| #[trigger] v.contains_key((k1, p)) ==> c.contains(p)
}

/// Every level holds at least one order.
pub open spec fn levels_occupied(v: Map<(H256, Option<Price>), ItemView>, k1: H256, l: Seq<Price>) -> bool {
    forall|i: int| 0 <= i < l.len() ==> #[trigger] v[(k1, Some(l[i]))].orders.len() > 0
}

/// The nodes under `k1` form the book with buy levels `b` and sell levels `s`.
pub open spec fn book_shape(v: Map<(H256, Option<Price>), ItemView>, k1: H256, b: Seq<Price>, s: Seq<Price>) -> bool {
    &&& proper_sides(b, s)
    &&& ring_linked(v, k1, chain(b, s))
    &&& levels_occupied(v, k1, b)
    &&& levels_occupied(v, k1, s)
}

/// The books of all trade pairs, stored node by node under
/// `(pair hash, price)`; the head of a book is stored under price `None`.
pub struct LinkedList {
    pub items: BTreeMap<(H256, Option<Price>), LinkedItem>,
    /// pair hash => (buy levels, sell levels), each increasing in price
    pub sides: Ghost<Map<H256, (Seq<Price>, Seq<Price>)>>,
}

impl View for LinkedList {
    type V = Map<(H256, Option<Price>), ItemView>;

    open spec fn view(&self) -> Map<(H256, Option<Price>), ItemView> {
        self.items@.map_values(|it: LinkedItem| it@)
    }
}

impl LinkedList {
    /// The buy levels of pair `k1`'s book, increasing in price.
    pub open spec fn buys(self, k1: H256) -> Seq<Price> {
        self.sides@[k1].0
    }

    /// The sell levels of pair `k1`'s book, increasing in price.
    pub open spec fn sells(self, k1: H256) -> Seq<Price> {
        self.sides@[k1].1
    }

    /// Whether pair `k1` has a book yet.
    pub open spec fn built(self, k1: H256) -> bool {
        self.sides@.contains_key(k1)
    }

    /// Every stored node belongs to a book, and every book has its shape.
    pub open spec fn wf(self) -> bool {
        &&& forall|k: (H256, Option<Price>)| #[trigger] self@.contains_key(k) ==> self.built(k.0)
        &&& forall|k1: H256| #[trigger] self.built(k1) ==> book_shape(
            self@,
            k1,
            self.buys(k1),
            self.sells(k1),
        )
    }

    /// No books.
    pub fn new() -> (l: LinkedList)
        ensures
            l.wf(),
            l@ == Map::<(H256, Option<Price>), ItemView>::empty(),
            l.sides@ == Map::<H256, (Seq<Price>, Seq<Price>)>::empty(),
    {
        let l = LinkedList { items: BTreeMap::new(), sides: Ghost(Map::empty()) };
        assert(l@ =~= Map::<(H256, Option<Price>), ItemView>::empty());
        l
    }
}

/// Positions of a ring: each key at one position only.
pub open spec fn ring_distinct(c: Seq<Option<Price>>) -> bool {
    forall|i: int, j: int| 0 <= i < c.len() && 0 <= j < c.len() && i != j ==> c[i] != c[j]
}

/// The keys of a book with proper sides are distinct.
pub proof fn lemma_chain_distinct(b: Seq<Price>, s: Seq<Price>)
    requires
        proper_sides(b, s),
    ensures
        ring_distinct(chain(b, s)),
        chain(b, s).len() == b.len() + s.len() + 3,
{
    let c = chain(b, s);
    assert forall|i: int, j: int| 0 <= i < c.len() && 0 <= j < c.len() && i != j implies c[i] != c[j] by {
        if 1 <= i <= b.len() {
            assert(PRICE_MIN < b[i - 1] < PRICE_MAX);
        }
        if 1 <= j <= b.len() {
            assert(PRICE_MIN < b[j - 1] < PRICE_MAX);
        }
        if b.len() + 2 <= i < b.len() + s.len() + 2 {
            assert(PRICE_MIN < s[i - b.len() - 2] < PRICE_MAX);
        }
        if b.len() + 2 <= j < b.len() + s.len() + 2 {
            assert(PRICE_MIN < s[j - b.len() - 2] < PRICE_MAX);
        }
    }
}

/// A new buy level at index `j` is a new node at position `j + 1`.
pub proof fn lemma_chain_insert_buy(b: Seq<Price>, s: Seq<Price>, j: int, k: Price)
    requires
        0 <= j <= b.len(),
    ensures
        chain(b.insert(j, k), s) == chain(b, s).insert(j + 1, Some(k)),
{
    assert(chain(b.insert(j, k), s) =~= chain(b, s).insert(j + 1, Some(k)));
}

/// A new sell level at index `j` is a new node at position `|b| + 2 + j`.
pub proof fn lemma_chain_insert_sell(b: Seq<Price>, s: Seq<Price>, j: int, k: Price)
    requires
        0 <= j <= s.len(),
    ensures
        chain(b, s.insert(j, k)) == chain(b, s).insert(b.len() + 2 + j, Some(k)),
{
    assert(chain(b, s.insert(j, k)) =~= chain(b, s).insert(b.len() + 2 + j, Some(k)));
}

/// Removing buy level `j` removes the node at position `j + 1`.
pub proof fn lemma_chain_remove_buy(b: Seq<Price>, s: Seq<Price>, j: int)
    requires
        0 <= j < b.len(),
    ensures
        chain(b.remove(j), s) == chain(b, s).remove(j + 1),
{
    assert(chain(b.remove(j), s) =~= chain(b, s).remove(j + 1));
}

/// Removing sell level `j` removes the node at position `|b| + 2 + j`.
pub proof fn lemma_chain_remove_sell(b: Seq<Price>, s: Seq<Price>, j: int)
    requires
        0 <= j < s.len(),
    ensures
        chain(b, s.remove(j)) == chain(b, s).remove(b.len() + 2 + j),
{
    assert(chain(b, s.remove(j)) =~= chain(b, s).remove(b.len() + 2 + j));
}

/// Linking a new node `x` in between positions `q - 1` and `q` of a ring.
pub proof fn lemma_ring_insert(
    v: Map<(H256, Option<Price>), ItemView>,
    k1: H256,
    c: Seq<Option<Price>>,
    q: int,
    x: Option<Price>,
    os: Seq<H256>,
)
    requires
        ring_linked(v, k1, c),
        ring_distinct(c),
        c.len() >= 2,
        0 < q < c.len(),
        !c.contains(x),
    ensures
        ({
            let pk = (k1, c[q - 1]);
            let nk = (k1, c[q]);
            let v1 = v.insert(pk, ItemView { next: x, ..v[pk] });
            let v2 = v1.insert(nk, ItemView { prev: x, ..v1[nk] });
            let v3 = v2.insert((k1, x), ItemView { prev: c[q - 1], next: c[q], price: x, orders: os });
            &&& ring_linked(v3, k1, c.insert(q, x))
            &&& ring_distinct(c.insert(q, x))
        }),
{
    let pk = (k1, c[q - 1]);
    let nk = (k1, c[q]);
    let v1 = v.insert(pk, ItemView { next: x, ..v[pk] });
    let v2 = v1.insert(nk, ItemView { prev: x, ..v1[nk] });
    let v3 = v2.insert((k1, x), ItemView { prev: c[q - 1], next: c[q], price: x, orders: os });
    let c2 = c.insert(q, x);
    let n = c.len() as int;
    assert(node_linked(v, k1, c, q - 1));
    assert(node_linked(v, k1, c, q));
    assert forall|i: int| 0 <= i < c2.len() implies #[trigger] node_linked(v3, k1, c2, i) by {
        if i < q {
            assert(node_linked(v, k1, c, i));
            assert(c2[i] == c[i]);
        } else if i > q {
            assert(node_linked(v, k1, c, i - 1));
            assert(c2[i] == c[i - 1]);
        }
    }
    assert forall|p: Option<Price>| #[trigger] v3.contains_key((k1, p)) implies c2.contains(p) by {
        if p != x {
            assert(v.contains_key((k1, p)));
            let i = choose|i: int| 0 <= i < c.len() && c[i] == p;
            if i < q {
                assert(c2[i] == p);
            } else {
                assert(c2[i + 1] == p);
            }
        } else {
            assert(c2[q] == p);
        }
    }
    assert forall|i: int, j: int| 0 <= i < c2.len() && 0 <= j < c2.len() && i != j implies c2[i] != c2[j] by {
        if i != q && j != q {
            let i0 = if i < q { i } else { i - 1 };
            let j0 = if j < q { j } else { j - 1 };
            assert(c2[i] == c[i0]);
            assert(c2[j] == c[j0]);
        } else if i == q {
            let j0 = if j < q { j } else { j - 1 };
            assert(c2[j] == c[j0]);
        } else {
            let i0 = if i < q { i } else { i - 1 };
            assert(c2[i] == c[i0]);
        }
    }
}

/// Unlinking the node at position `q` of a ring, joining its neighbours.
pub proof fn lemma_ring_remove(
    v: Map<(H256, Option<Price>), ItemView>,
    k1: H256,
    c: Seq<Option<Price>>,
    q: int,
)
    requires
        ring_linked(v, k1, c),
        ring_distinct(c),
        c.len() >= 3,
        0 < q < c.len() - 1,
    ensures
        ({
            let pk = (k1, c[q - 1]);
            let nk = (k1, c[q + 1]);
            let v1 = v.remove((k1, c[q]));
            let v2 = v1.insert(pk, ItemView { next: c[q + 1], ..v1[pk] });
            let v3 = v2.insert(nk, ItemView { prev: c[q - 1], ..v2[nk] });
            &&& ring_linked(v3, k1, c.remove(q))
            &&& ring_distinct(c.remove(q))
        }),
{
    let pk = (k1, c[q - 1]);
    let nk = (k1, c[q + 1]);
    let v1 = v.remove((k1, c[q]));
    let v2 = v1.insert(pk, ItemView { next: c[q + 1], ..v1[pk] });
    let v3 = v2.insert(nk, ItemView { prev: c[q - 1], ..v2[nk] });
    let c2 = c.remove(q);
    assert(node_linked(v, k1, c, q - 1));
    assert(node_linked(v, k1, c, q + 1));
    assert forall|i: int| 0 <= i < c2.len() implies #[trigger] node_linked(v3, k1, c2, i) by {
        if i < q {
            assert(node_linked(v, k1, c, i));
            assert(c2[i] == c[i]);
        } else {
            assert(node_linked(v, k1, c, i + 1));
            assert(c2[i] == c[i + 1]);
        }
    }
    assert forall|p: Option<Price>| #[trigger] v3.contains_key((k1, p)) implies c2.contains(p) by {
        assert(v.contains_key((k1, p)));
        let i = choose|i: int| 0 <= i < c.len() && c[i] == p;
        assert(i != q);
        if i < q {
            assert(c2[i] == p);
        } else {
            assert(c2[i - 1] == p);
        }
    }
    assert forall|i: int, j: int| 0 <= i < c2.len() && 0 <= j < c2.len() && i != j implies c2[i] != c2[j] by {
        let i0 = if i < q { i } else { i + 1 };
        let j0 = if j < q { j } else { j + 1 };
        assert(c2[i] == c[i0]);
        assert(c2[j] == c[j0]);
    }
}

/// A book depends only on the nodes stored under its own pair hash.
pub proof fn lemma_book_frame(
    v: Map<(H256, Option<Price>), ItemView>,
    w: Map<(H256, Option<Price>), ItemView>,
    k1: H256,
    b: Seq<Price>,
    s: Seq<Price>,
)
    requires
        book_shape(v, k1, b, s),
        forall|p: Option<Price>| #[trigger] w.contains_key((k1, p)) == v.contains_key((k1, p)),
        forall|p: Option<Price>| v.contains_key((k1, p)) ==> #[trigger] w[(k1, p)] == v[(k1, p)],
    ensures
        book_shape(w, k1, b, s),
{
    let c = chain(b, s);
    assert forall|i: int| 0 <= i < c.len() implies #[trigger] node_linked(w, k1, c, i) by {
        assert(node_linked(v, k1, c, i));
    }
    assert forall|i: int| 0 <= i < b.len() implies #[trigger] w[(k1, Some(b[i]))].orders.len() > 0 by {
        assert(v[(k1, Some(b[i]))].orders.len() > 0);
        assert(node_linked(v, k1, c, i + 1));
    }
    assert forall|i: int| 0 <= i < s.len() implies #[trigger] w[(k1, Some(s[i]))].orders.len() > 0 by {
        assert(v[(k1, Some(s[i]))].orders.len() > 0);
        assert(node_linked(v, k1, c, b.len() + 2 + i));
    }
}

/// The number of leading levels of `l` priced below `k`: where a new level
/// priced `k` goes in an increasing sequence.
pub open spec fn rank(l: Seq<Price>, k: Price) -> nat
    decreases l.len(),
{
    if l.len() == 0 {
        0
    } else if l[0] < k {
        1 + rank(l.drop_first(), k)
    } else {
        0
    }
}

/// In an increasing sequence, the levels below `k` are the first `i`.
pub proof fn lemma_rank(l: Seq<Price>, k: Price, i: int)
    requires
        proper_levels(l),
        0 <= i <= l.len(),
        forall|j: int| 0 <= j < i ==> l[j] < k,
        i == l.len() || k < l[i],
    ensures
        rank(l, k) == i,
    decreases l.len(),
{
    if l.len() > 0 && i > 0 {
        let t = l.drop_first();
        assert(proper_levels(t)) by {
            assert forall|a: int, b: int| 0 <= a < b < t.len() implies t[a] < t[b] by {
                assert(t[a] == l[a + 1] && t[b] == l[b + 1]);
            }
            assert forall|a: int| 0 <= a < t.len() implies PRICE_MIN < #[trigger] t[a] < PRICE_MAX by {
                assert(t[a] == l[a + 1]);
            }
        }
        assert(l[0] < k);
        assert forall|j: int| 0 <= j < i - 1 implies t[j] < k by {
            assert(t[j] == l[j + 1]);
        }
        if i < l.len() {
            assert(t[i - 1] == l[i]);
        }
        lemma_rank(t, k, i - 1);
    }
}

/// The first `rank(l, k)` levels are below `k`, and the next is not.
pub proof fn lemma_rank_bounds(l: Seq<Price>, k: Price)
    ensures
        rank(l, k) <= l.len(),
        forall|j: int| 0 <= j < rank(l, k) ==> l[j] < k,
        rank(l, k) < l.len() ==> k <= l[rank(l, k) as int],
    decreases l.len(),
{
    if l.len() > 0 && l[0] < k {
        let t = l.drop_first();
        lemma_rank_bounds(t, k);
        assert forall|j: int| 0 <= j < rank(l, k) implies l[j] < k by {
            if j > 0 {
                assert(l[j] == t[j - 1]);
            }
        }
        if rank(l, k) < l.len() {
            assert(l[rank(l, k) as int] == t[rank(t, k) as int]);
        }
    }
}

/// Inserting `k`, absent and strictly between the sentinel prices, at its
/// rank keeps a sequence of levels proper.
pub proof fn lemma_insert_proper(l: Seq<Price>, k: Price)
    requires
        proper_levels(l),
        !l.contains(k),
        PRICE_MIN < k < PRICE_MAX,
    ensures
        proper_levels(l.insert(rank(l, k) as int, k)),
        rank(l, k) <= l.len(),
        forall|j: int| 0 <= j < rank(l, k) ==> l[j] < k,
        rank(l, k) < l.len() ==> k < l[rank(l, k) as int],
{
    lemma_rank_bounds(l, k);
    let i = rank(l, k) as int;
    if i < l.len() {
        assert(l[i] != k);
    }
    let m = l.insert(i, k);
    assert forall|a: int, b: int| 0 <= a < b < m.len() implies m[a] < m[b] by {
        if b < i {
        } else if a > i {
            assert(m[a] == l[a - 1] && m[b] == l[b - 1]);
        } else if a == i {
            assert(m[b] == l[b - 1]);
            assert(l[i] <= l[b - 1]);
        } else {
            assert(m[a] == l[a]);
            if b == i {
            } else {
                assert(m[b] == l[b - 1]);
                assert(l[a] < l[b - 1] || a == b - 1);
            }
        }
    }
    assert forall|a: int| 0 <= a < m.len() implies PRICE_MIN < #[trigger] m[a] < PRICE_MAX by {
        if a < i {
            assert(m[a] == l[a]);
        } else if a > i {
            assert(m[a] == l[a - 1]);
        }
    }
}

impl LinkedList {
    /// The node stored under `(key1, key2)`. Where there is none, the book of
    /// `key1` is (re)started: its bottom, top and head are written afresh and
    /// the sentinel asked for is returned as just stored (the bottom for the
    /// lowest price, the top for the highest, the head otherwise).
    pub fn read(&mut self, key1: H256, key2: Option<Price>) -> (r: LinkedItem)
        ensures
            old(self)@.contains_key((key1, key2)) ==> r@ == old(self)@[(key1, key2)] && *final(self)
                == *old(self),
            !old(self)@.contains_key((key1, key2)) ==> {
                &&& r@ == fresh_sentinel(key2)
                &&& final(self)@ == old(self)@.insert((key1, Some(PRICE_MIN)), bottom_view()).insert(
                    (key1, Some(PRICE_MAX)),
                    top_view(),
                ).insert((key1, None), head_view())
                &&& final(self).sides@ == old(self).sides@.insert(key1, (Seq::empty(), Seq::empty()))
            },
            // reading a stored node, or starting the book of a new pair, keeps the books whole
            old(self).wf() && (old(self)@.contains_key((key1, key2)) || !old(self).built(key1))
                ==> final(self).wf(),
    {
        match self.items.get(&(key1, key2)) {
            Some(it) => {
                return it.copy();
            },
            None => {},
        }
        let bottom = LinkedItem {
            prev: Some(PRICE_MAX),
            next: None,
            price: Some(PRICE_MIN),
            orders: Vec::new(),
        };
        let top = LinkedItem {
            prev: None,
            next: Some(PRICE_MIN),
            price: Some(PRICE_MAX),
            orders: Vec::new(),
        };
        let head = LinkedItem {
            prev: Some(PRICE_MIN),
            next: Some(PRICE_MAX),
            price: None,
            orders: Vec::new(),
        };
        let ghost old_list = *self;
        let r = if key2 == Some(PRICE_MIN) {
            bottom.copy()
        } else if key2 == Some(PRICE_MAX) {
            top.copy()
        } else {
            head.copy()
        };
        self.items.insert((key1, bottom.price), bottom);
        self.items.insert((key1, top.price), top);
        self.items.insert((key1, head.price), head);
        proof {
            self.sides@ = self.sides@.insert(key1, (Seq::empty(), Seq::empty()));
            assert(self@ =~= old_list@.insert((key1, Some(PRICE_MIN)), bottom_view()).insert(
                (key1, Some(PRICE_MAX)),
                top_view(),
            ).insert((key1, None), head_view()));
            if old_list.wf() && !old_list.built(key1) {
                self.lemma_fresh_book(old_list, key1);
            }
        }
        r
    }

    /// Starting the book of a pair that had none keeps the books whole.
    proof fn lemma_fresh_book(self, old_list: LinkedList, key1: H256)
        requires
            old_list.wf(),
            !old_list.built(key1),
            self@ == old_list@.insert((key1, Some(PRICE_MIN)), bottom_view()).insert(
                (key1, Some(PRICE_MAX)),
                top_view(),
            ).insert((key1, None), head_view()),
            self.sides@ == old_list.sides@.insert(key1, (Seq::<Price>::empty(), Seq::<Price>::empty())),
        ensures
            self.wf(),
    {
        let e = Seq::<Price>::empty();
        let c = chain(e, e);
        assert(c.len() == 3);
        assert(c[0] == Some(PRICE_MIN) && c[1] == None::<Price> && c[2] == Some(PRICE_MAX));
        assert forall|i: int| 0 <= i < c.len() implies #[trigger] node_linked(self@, key1, c, i) by {}
        assert forall|p: Option<Price>| #[trigger] self@.contains_key((key1, p)) implies c.contains(p) by {
            if p == Some(PRICE_MIN) {
                assert(c[0] == p);
            } else if p == None::<Price> {
                assert(c[1] == p);
            } else if p == Some(PRICE_MAX) {
                assert(c[2] == p);
            } else {
                assert(old_list@.contains_key((key1, p)));
            }
        }
        assert forall|k1: H256| #[trigger] self.built(k1) implies book_shape(
            self@,
            k1,
            self.buys(k1),
            self.sells(k1),
        ) by {
            if k1 != key1 {
                assert(old_list.built(k1));
                assert(self.sides@[k1] == old_list.sides@[k1]);
                lemma_book_frame(old_list@, self@, k1, old_list.buys(k1), old_list.sells(k1));
            }
        }
    }

    /// The head of `key`'s book.
    pub fn read_head(&mut self, key: H256) -> (r: LinkedItem)
        ensures
            old(self)@.contains_key((key, None)) ==> r@ == old(self)@[(key, None)] && *final(self)
                == *old(self),
            !old(self)@.contains_key((key, None)) ==> {
                &&& r@ == head_view()
                &&& final(self)@ == old(self)@.insert((key, Some(PRICE_MIN)), bottom_view()).insert(
                    (key, Some(PRICE_MAX)),
                    top_view(),
                ).insert((key, None), head_view())
                &&& final(self).sides@ == old(self).sides@.insert(key, (Seq::empty(), Seq::empty()))
            },
            old(self).wf() ==> final(self).wf(),
            old(self).wf() ==> final(self).built(key),
    {
        proof {
            if old(self).wf() && old(self).built(key) {
                let c = chain(old(self).buys(key), old(self).sells(key));
                assert(node_linked(old(self)@, key, c, old(self).buys(key).len() as int + 1));
            }
        }
        self.read(key, None)
    }

    /// The bottom sentinel of `key`'s book (where `key` has no book yet, the
    /// book is started and its new bottom returned).
    pub fn read_bottom(&mut self, key: H256) -> (r: LinkedItem)
        ensures
            old(self)@.contains_key((key, Some(PRICE_MIN))) ==> r@ == old(self)@[(
                key,
                Some(PRICE_MIN),
            )] && *final(self) == *old(self),
            !old(self)@.contains_key((key, Some(PRICE_MIN))) ==> {
                &&& r@ == bottom_view()
                &&& final(self)@ == old(self)@.insert((key, Some(PRICE_MIN)), bottom_view()).insert(
                    (key, Some(PRICE_MAX)),
                    top_view(),
                ).insert((key, None), head_view())
            },
            old(self).wf() ==> final(self).wf(),
    {
        proof {
            if old(self).wf() && old(self).built(key) {
                let c = chain(old(self).buys(key), old(self).sells(key));
                assert(node_linked(old(self)@, key, c, 0));
            }
        }
        self.read(key, Some(PRICE_MIN))
    }

    /// The top sentinel of `key`'s book (where `key` has no book yet, the
    /// book is started and its new top returned).
    pub fn read_top(&mut self, key: H256) -> (r: LinkedItem)
        ensures
            old(self)@.contains_key((key, Some(PRICE_MAX))) ==> r@ == old(self)@[(
                key,
                Some(PRICE_MAX),
            )] && *final(self) == *old(self),
            !old(self)@.contains_key((key, Some(PRICE_MAX))) ==> {
                &&& r@ == top_view()
                &&& final(self)@ == old(self)@.insert((key, Some(PRICE_MIN)), bottom_view()).insert(
                    (key, Some(PRICE_MAX)),
                    top_view(),
                ).insert((key, None), head_view())
            },
            old(self).wf() ==> final(self).wf(),
    {
        proof {
            if old(self).wf() && old(self).built(key) {
                let c = chain(old(self).buys(key), old(self).sells(key));
                assert(node_linked(old(self)@, key, c, c.len() as int - 1));
            }
        }
        self.read(key, Some(PRICE_MAX))
    }

    /// Stores `item` under `(key1, key2)`.
    pub fn write(&mut self, key1: H256, key2: Option<Price>, item: LinkedItem)
        ensures
            final(self)@ == old(self)@.insert((key1, key2), item@),
            final(self).sides == old(self).sides,
    {
        let ghost iv = item@;
        self.items.insert((key1, key2), item);
        assert(self@ =~= old(self)@.insert((key1, key2), iv));
    }

    /// The price of the next level to match against on side `otype` of the
    /// book whose head is `item`: its `prev` for buys, its `next` for sells.
    pub fn next_match_price(item: &LinkedItem, otype: OrderType) -> (r: Option<Price>)
        ensures
            r == (if otype == OrderType::Buy {
                item.prev
            } else {
                item.next
            }),
    {
        if otype == OrderType::Buy {
            item.prev
        } else {
            item.next
        }
    }
}

/// A book whose nodes keep their keys and links, and whose levels keep an
/// order each, keeps its shape.
pub proof fn lemma_book_same_links(
    v: Map<(H256, Option<Price>), ItemView>,
    w: Map<(H256, Option<Price>), ItemView>,
    k1: H256,
    b: Seq<Price>,
    s: Seq<Price>,
)
    requires
        book_shape(v, k1, b, s),
        forall|p: Option<Price>| #[trigger] w.contains_key((k1, p)) == v.contains_key((k1, p)),
        forall|p: Option<Price>| v.contains_key((k1, p)) ==> {
            &&& #[trigger] w[(k1, p)].prev == v[(k1, p)].prev
            &&& w[(k1, p)].next == v[(k1, p)].next
            &&& w[(k1, p)].price == v[(k1, p)].price
            &&& (p matches Some(x) && PRICE_MIN < x < PRICE_MAX && v[(k1, p)].orders.len() > 0) ==> w[(
                k1,
                p,
            )].orders.len() > 0
        },
    ensures
        book_shape(w, k1, b, s),
{
    let c = chain(b, s);
    assert forall|i: int| 0 <= i < c.len() implies #[trigger] node_linked(w, k1, c, i) by {
        assert(node_linked(v, k1, c, i));
    }
    assert forall|i: int| 0 <= i < b.len() implies #[trigger] w[(k1, Some(b[i]))].orders.len() > 0 by {
        assert(node_linked(v, k1, c, i + 1));
        assert(v[(k1, Some(b[i]))].orders.len() > 0);
        assert(w[(k1, Some(b[i]))].prev == v[(k1, Some(b[i]))].prev);
    }
    assert forall|i: int| 0 <= i < s.len() implies #[trigger] w[(k1, Some(s[i]))].orders.len() > 0 by {
        assert(node_linked(v, k1, c, b.len() + 2 + i));
        assert(v[(k1, Some(s[i]))].orders.len() > 0);
        assert(w[(k1, Some(s[i]))].prev == v[(k1, Some(s[i]))].prev);
    }
}

/// The levels after a new level priced `k` goes in right after position
/// `pos` of the walk: among the buys when `buy_walk`, else among the sells.
pub open spec fn walk_sides(b: Seq<Price>, s: Seq<Price>, pos: int, k: Price, buy_walk: bool) -> (Seq<Price>, Seq<Price>) {
    if buy_walk {
        (b.insert(pos, k), s)
    } else {
        (b, s.insert(pos - b.len() - 1, k))
    }
}

/// Linking a new level in where `append`'s walk stopped gives a book again.
pub proof fn lemma_append_shape(
    v: Map<(H256, Option<Price>), ItemView>,
    key1: H256,
    b: Seq<Price>,
    s: Seq<Price>,
    pos: int,
    key2: Price,
    value: H256,
    buy_walk: bool,
)
    requires
        book_shape(v, key1, b, s),
        !v.contains_key((key1, Some(key2))),
        0 <= pos < b.len() + s.len() + 2,
        buy_walk ==> pos <= b.len() && forall|j: int| 0 <= j < pos ==> b[j] < key2,
        !buy_walk ==> b.len() + 1 <= pos && forall|j: int| 0 <= j < pos - b.len() - 1 ==> s[j] < key2,
        ({
            let c = chain(b, s);
            ||| c[pos + 1] == None::<Price>
            ||| c[pos + 1] == Some(PRICE_MAX)
            ||| (c[pos + 1] matches Some(p) && key2 < p)
        }),
    ensures
        ({
            let c = chain(b, s);
            let q = pos + 1;
            let x = Some(key2);
            let pk = (key1, c[q - 1]);
            let nk = (key1, c[q]);
            let v1 = v.insert(pk, ItemView { next: x, ..v[pk] });
            let v2 = v1.insert(nk, ItemView { prev: x, ..v1[nk] });
            let v3 = v2.insert((key1, x), ItemView { prev: c[q - 1], next: c[q], price: x, orders: seq![value] });
            let (nb, ns) = walk_sides(b, s, pos, key2, buy_walk);
            &&& book_shape(v3, key1, nb, ns)
            &&& buy_walk ==> rank(b, key2) == pos
            &&& !buy_walk ==> rank(s, key2) == pos - b.len() - 1
        }),
{
    let c = chain(b, s);
    lemma_chain_distinct(b, s);
    let q = pos + 1;
    let x = Some(key2);
    let pk = (key1, c[q - 1]);
    let nk = (key1, c[q]);
    let v1 = v.insert(pk, ItemView { next: x, ..v[pk] });
    let v2 = v1.insert(nk, ItemView { prev: x, ..v1[nk] });
    let v3 = v2.insert((key1, x), ItemView { prev: c[q - 1], next: c[q], price: x, orders: seq![value] });
    assert(!c.contains(x)) by {
        if c.contains(x) {
            let i = choose|i: int| 0 <= i < c.len() && c[i] == x;
            assert(node_linked(v, key1, c, i));
        }
    }
    lemma_ring_insert(v, key1, c, q, x, seq![value]);
    assert(c[0] != x && c[c.len() - 1] != x);
    assert(PRICE_MIN < key2 < PRICE_MAX);
    let (nb, ns) = walk_sides(b, s, pos, key2, buy_walk);
    if buy_walk {
        if pos < b.len() {
            assert(c[q] == Some(b[pos]));
        } else {
            assert(c[q] == None::<Price>);
        }
        lemma_rank(b, key2, pos);
        lemma_chain_insert_buy(b, s, pos, key2);
        assert(!b.contains(key2)) by {
            if b.contains(key2) {
                let i = choose|i: int| 0 <= i < b.len() && b[i] == key2;
                assert(c[i + 1] == x);
            }
        }
        lemma_insert_proper(b, key2);
        assert forall|i: int, j: int| 0 <= i < nb.len() && 0 <= j < ns.len() implies nb[i] != ns[j] by {
            if i != pos {
                let i0 = if i < pos { i } else { i - 1 };
                assert(nb[i] == b[i0]);
            } else {
                assert(c[b.len() + 2 + j] == Some(s[j]));
            }
        }
    } else {
        let j = pos - b.len() - 1;
        if j < s.len() {
            assert(c[q] == Some(s[j]));
        } else {
            assert(c[q] == Some(PRICE_MAX));
        }
        lemma_rank(s, key2, j);
        lemma_chain_insert_sell(b, s, j, key2);
        assert(!s.contains(key2)) by {
            if s.contains(key2) {
                let i = choose|i: int| 0 <= i < s.len() && s[i] == key2;
                assert(c[b.len() + 2 + i] == x);
            }
        }
        lemma_insert_proper(s, key2);
        assert forall|i: int, k: int| 0 <= i < nb.len() && 0 <= k < ns.len() implies nb[i] != ns[k] by {
            if k != j {
                let k0 = if k < j { k } else { k - 1 };
                assert(ns[k] == s[k0]);
            } else {
                assert(c[i + 1] == Some(b[i]));
            }
        }
    }
    let nc = chain(nb, ns);
    assert(nc == c.insert(q, x));
    assert forall|i: int| 0 <= i < nb.len() implies #[trigger] v3[(key1, Some(nb[i]))].orders.len() > 0 by {
        if nb[i] != key2 {
            assert(nc[i + 1] == Some(nb[i]));
            let i0 = if i + 1 < q { i + 1 } else { i };
            assert(nc[i + 1] == c[i0]);
            assert(1 <= i0 <= b.len());
            assert(c[i0] == Some(b[i0 - 1]));
            assert(v[(key1, Some(b[i0 - 1]))].orders.len() > 0);
        }
    }
    assert forall|i: int| 0 <= i < ns.len() implies #[trigger] v3[(key1, Some(ns[i]))].orders.len() > 0 by {
        let pi = nb.len() + 2 + i;
        assert(nc[pi] == Some(ns[i]));
        if ns[i] != key2 {
            let i0 = if pi < q { pi } else { pi - 1 };
            assert(nc[pi] == c[i0]);
            assert(b.len() + 2 <= i0 < b.len() + s.len() + 2);
            assert(c[i0] == Some(s[i0 - b.len() - 2]));
            assert(v[(key1, Some(s[i0 - b.len() - 2]))].orders.len() > 0);
        }
    }
}

impl LinkedList {
    /// The levels of `key1`'s book once `append` has added a level priced
    /// `key2` for an order of type `otype`, on that order's side at its
    /// place (a book not started yet counts as one with no levels).
    pub open spec fn appended_sides(self, key1: H256, key2: Price, otype: OrderType) -> (Seq<Price>, Seq<Price>) {
        let b = if self.built(key1) { self.buys(key1) } else { Seq::empty() };
        let s = if self.built(key1) { self.sells(key1) } else { Seq::empty() };
        if otype == OrderType::Buy {
            (b.insert(rank(b, key2) as int, key2), s)
        } else {
            (b, s.insert(rank(s, key2) as int, key2))
        }
    }

    /// `self` is `o` with order `value` added at price `key2` of `key1`'s
    /// book: after the orders already at that price if there is a node for
    /// it, else in a new level linked in at its place among the levels of
    /// side `otype`.
    pub open spec fn appended(self, o: LinkedList, key1: H256, key2: Price, value: H256, otype: OrderType) -> bool {
        &&& o@.contains_key((key1, Some(key2))) ==> {
            &&& self@ == o@.insert(
                (key1, Some(key2)),
                (ItemView { orders: o@[(key1, Some(key2))].orders.push(value), ..o@[(key1, Some(key2))] }),
            )
            &&& self.sides == o.sides
        }
        &&& !o@.contains_key((key1, Some(key2))) ==> {
            &&& self.sides@ == o.sides@.insert(key1, o.appended_sides(key1, key2, otype))
            &&& forall|k: (H256, Option<Price>)| #[trigger] self@.contains_key(k) ==> {
                ||| o@.contains_key(k)
                ||| k.0 == key1
            }
            &&& forall|k: (H256, Option<Price>)| #[trigger] self@.contains_key(k) ==> (self@[k].orders
                == if k == (key1, Some(key2)) {
                seq![value]
            } else if o@.contains_key(k) {
                o@[k].orders
            } else {
                Seq::<H256>::empty()
            })
            &&& forall|k: (H256, Option<Price>)| #[trigger] o@.contains_key(k) && k.0 != key1
                ==> self@.contains_key(k) && self@[k] == o@[k]
        }
    }

    /// Adds the order `value` at price `key2` of `key1`'s book: after the
    /// orders already at that price if there is a node for it, else in a new
    /// level linked in at its place among the levels of side `otype`
    /// (starting the book first if `key1` has none).
    pub fn append(&mut self, key1: H256, key2: Price, value: H256, otype: OrderType)
        requires
            old(self).wf(),
            old(self).built(key1) || PRICE_MIN < key2 < PRICE_MAX,
        ensures
            final(self).wf(),
            final(self).appended(*old(self), key1, key2, value, otype),
    {
        match self.items.get(&(key1, Some(key2))) {
            Some(it) => {
                let mut item = it.copy();
                item.orders.push(value);
                let ghost iv = item@;
                self.write(key1, Some(key2), item);
                proof {
                    let o = *old(self);
                    let key = (key1, Some(key2));
                    assert(self@ == o@.insert(key, iv));
                    assert(iv.orders.len() > 0);
                    assert(iv.prev == o@[key].prev && iv.next == o@[key].next && iv.price == o@[key].price);
                    assert(self@.dom() =~= o@.dom());
                    assert forall|k1: H256| #[trigger] self.built(k1) implies book_shape(
                        self@,
                        k1,
                        self.buys(k1),
                        self.sells(k1),
                    ) by {
                        assert(o.built(k1));
                        assert forall|p: Option<Price>| #[trigger] self@.contains_key((k1, p)) == o@.contains_key(
                            (k1, p),
                        ) by {}
                        lemma_book_same_links(o@, self@, k1, o.buys(k1), o.sells(k1));
                    }
                    assert(self.wf());
                }
                return ;
            },
            None => {},
        }
        let start_item: Option<Price>;
        let end_item: Option<Price>;
        match otype {
            OrderType::Buy => {
                start_item = Some(PRICE_MIN);
                end_item = None;
            },
            OrderType::Sell => {
                start_item = None;
                end_item = Some(PRICE_MAX);
            },
        }
        let ghost was_built = old(self).built(key1);
        proof {
            if was_built {
                let c0 = chain(old(self).buys(key1), old(self).sells(key1));
                assert(node_linked(old(self)@, key1, c0, 0));
                assert(node_linked(old(self)@, key1, c0, old(self).buys(key1).len() as int + 1));
            } else {
                assert(!old(self)@.contains_key((key1, start_item)));
            }
        }
        let mut item = self.read(key1, start_item);
        let ghost b = self.buys(key1);
        let ghost s = self.sells(key1);
        let ghost c = chain(b, s);
        let ghost buy_walk = otype == OrderType::Buy;
        let ghost mut pos: int = if buy_walk { 0 } else { b.len() as int + 1 };
        let ghost frozen = *self;
        proof {
            lemma_chain_distinct(b, s);
            assert(node_linked(self@, key1, c, pos));
            assert(!self@.contains_key((key1, Some(key2))));
        }
        while item.next != end_item
            invariant_except_break
                item.next != end_item ==> 0 <= pos < c.len() - 1,
            invariant
                *self == frozen,
                self.wf(),
                self.built(key1),
                self.buys(key1) == b,
                self.sells(key1) == s,
                c == chain(b, s),
                c.len() == b.len() + s.len() + 3,
                ring_distinct(c),
                !self@.contains_key((key1, Some(key2))),
                was_built || (b.len() == 0 && s.len() == 0 && PRICE_MIN < key2 < PRICE_MAX),
                buy_walk == (otype == OrderType::Buy),
                0 <= pos < c.len(),
                item@ == self@[(key1, c[pos])],
                node_linked(self@, key1, c, pos),
                end_item == (if otype == OrderType::Buy {
                    None
                } else {
                    Some(PRICE_MAX)
                }),
                buy_walk ==> pos <= b.len() && forall|j: int| 0 <= j < pos ==> b[j] < key2,
                !buy_walk ==> b.len() + 1 <= pos < c.len() - 1 && forall|j: int|
                    0 <= j < pos - b.len() - 1 ==> s[j] < key2,
            ensures
                0 <= pos < c.len() - 1,
                item.next == c[pos + 1],
                item.next == end_item || (item.next matches Some(p) && key2 < p),
            decreases c.len() - pos,
        {
            proof {
                assert(item.next == c[ring_next(c.len() as int, pos)]);
                if buy_walk {
                    assert(c[b.len() as int + 1] == None::<Price>);
                } else {
                    assert(c[c.len() - 1] == Some(PRICE_MAX));
                }
            }
            match item.next {
                None => {},
                Some(price) => {
                    if key2 < price {
                        break;
                    }
                },
            }
            proof {
                let q = pos + 1;
                assert(c[q] != Some(key2)) by {
                    assert(node_linked(self@, key1, c, q));
                }
                if buy_walk {
                    assert(q <= b.len());
                    assert(c[q] == Some(b[q - 1]));
                } else {
                    assert(q < c.len() - 1);
                    assert(c[q] == Some(s[q - b.len() - 2]));
                }
                assert(node_linked(self@, key1, c, q));
            }
            item = self.read(key1, item.next);
            proof {
                pos = pos + 1;
            }
        }
        proof {
            assert(self@[(key1, c[pos])].next == c[pos + 1]);
            assert(node_linked(self@, key1, c, pos + 1));
        }
        let item_next = item.next;
        let new_prev = LinkedItem { prev: item.prev, next: Some(key2), price: item.price, orders: item.orders };
        let new_prev_price = new_prev.price;
        self.write(key1, new_prev_price, new_prev);
        let next = self.read(key1, item_next);
        let new_next = LinkedItem { prev: Some(key2), next: next.next, price: next.price, orders: next.orders };
        let new_next_price = new_next.price;
        self.write(key1, new_next_price, new_next);
        let mut v: Vec<H256> = Vec::new();
        v.push(value);
        let new_item = LinkedItem { prev: new_prev_price, next: new_next_price, orders: v, price: Some(key2) };
        self.write(key1, Some(key2), new_item);
        proof {
            let q = pos + 1;
            let x = Some(key2);
            let fv = frozen@;
            let pk = (key1, c[q - 1]);
            let nk = (key1, c[q]);
            let v1 = fv.insert(pk, ItemView { next: x, ..fv[pk] });
            let v2 = v1.insert(nk, ItemView { prev: x, ..v1[nk] });
            let v3 = v2.insert((key1, x), ItemView { prev: c[q - 1], next: c[q], price: x, orders: seq![value] });
            assert(self@ =~= v3);
            lemma_append_shape(fv, key1, b, s, pos, key2, value, buy_walk);
            let (nb, ns) = walk_sides(b, s, pos, key2, buy_walk);
            assert((nb, ns) == old(self).appended_sides(key1, key2, otype));
            self.sides@ = self.sides@.insert(key1, (nb, ns));
            assert forall|k1: H256| #[trigger] self.built(k1) implies book_shape(
                self@,
                k1,
                self.buys(k1),
                self.sells(k1),
            ) by {
                if k1 != key1 {
                    assert(frozen.built(k1));
                    assert(self.sides@[k1] == frozen.sides@[k1]);
                    lemma_book_frame(fv, self@, k1, frozen.buys(k1), frozen.sells(k1));
                }
            }
            assert forall|k: (H256, Option<Price>)| #[trigger] self@.contains_key(k) implies self.built(k.0) by {
                if k.0 != key1 {
                    assert(fv.contains_key(k));
                }
            }
            let o = old(self)@;
            if was_built {
                assert(fv == o);
            } else {
                assert(fv == o.insert((key1, Some(PRICE_MIN)), bottom_view()).insert(
                    (key1, Some(PRICE_MAX)),
                    top_view(),
                ).insert((key1, None), head_view()));
            }
            assert forall|k: (H256, Option<Price>)| #[trigger] self@.contains_key(k) implies (
            self@[k].orders == if k == (key1, Some(key2)) {
                seq![value]
            } else if o.contains_key(k) {
                o[k].orders
            } else {
                Seq::<H256>::empty()
            }) by {
                if k != (key1, x) {
                    assert(fv.contains_key(k));
                    assert(self@[k].orders == fv[k].orders);
                }
            }
            assert forall|k: (H256, Option<Price>)| #[trigger] o.contains_key(k) && k.0 != key1
                implies self@.contains_key(k) && self@[k] == o[k] by {
                assert(fv.contains_key(k) && fv[k] == o[k]);
            }
            assert(self.sides@ =~= old(self).sides@.insert(key1, old(self).appended_sides(key1, key2, otype)));
            assert forall|k: (H256, Option<Price>)| #[trigger] self@.contains_key(k) implies o.contains_key(k) || k.0 == key1 by {
                if k.0 != key1 {
                    assert(fv.contains_key(k));
                }
            }
            if !was_built {
                assert(frozen@ == old(self)@.insert((key1, Some(PRICE_MIN)), bottom_view()).insert(
                    (key1, Some(PRICE_MAX)),
                    top_view(),
                ).insert((key1, None), head_view()));
            }
        }
    }
}

/// An order that `remove_item` may take off the book: stored, and finished.
pub open spec fn order_removable(orders: Map<H256, LimitOrder>, h: H256) -> bool {
    orders.contains_key(h) && orders[h].finished()
}

/// The number of leading orders of `os` that may be taken off the book.
pub open spec fn removable_prefix(os: Seq<H256>, orders: Map<H256, LimitOrder>) -> nat
    decreases os.len(),
{
    if os.len() > 0 && order_removable(orders, os[0]) {
        1 + removable_prefix(os.drop_first(), orders)
    } else {
        0
    }
}

/// When the first `k` orders may be taken off and the next may not (or there
/// is none), `k` is the removable prefix.
pub proof fn lemma_removable_prefix(os: Seq<H256>, orders: Map<H256, LimitOrder>, k: int)
    requires
        0 <= k <= os.len(),
        forall|j: int| 0 <= j < k ==> order_removable(orders, #[trigger] os[j]),
        k == os.len() || !order_removable(orders, os[k]),
    ensures
        removable_prefix(os, orders) == k,
    decreases os.len(),
{
    if os.len() > 0 && k > 0 {
        let t = os.drop_first();
        assert(order_removable(orders, os[0]));
        assert forall|j: int| 0 <= j < k - 1 implies order_removable(orders, #[trigger] t[j]) by {
            assert(t[j] == os[j + 1]);
        }
        if k < os.len() {
            assert(t[k - 1] == os[k]);
        }
        lemma_removable_prefix(t, orders, k - 1);
    }
}

/// The removable prefix is a prefix.
pub proof fn lemma_removable_prefix_bound(os: Seq<H256>, orders: Map<H256, LimitOrder>)
    ensures
        removable_prefix(os, orders) <= os.len(),
    decreases os.len(),
{
    if os.len() > 0 && order_removable(orders, os[0]) {
        lemma_removable_prefix_bound(os.drop_first(), orders);
    }
}

/// Why `remove_item` stops at order `h`.
pub open spec fn remove_error(orders: Map<H256, LimitOrder>, h: H256) -> &'static str {
    if !orders.contains_key(h) {
        "can not get order"
    } else {
        "try to remove not finished order"
    }
}

/// The nodes once the node under `(k1, Some(k2))` is taken out and its
/// neighbours (those that are stored) are linked to each other.
pub open spec fn unlinked(v: Map<(H256, Option<Price>), ItemView>, k1: H256, k2: Price) -> Map<(H256, Option<Price>), ItemView> {
    let it = v[(k1, Some(k2))];
    let pk = (k1, it.prev);
    let nk = (k1, it.next);
    let v1 = v.remove((k1, Some(k2)));
    let v2 = if v1.contains_key(pk) {
        v1.insert(pk, ItemView { next: it.next, ..v1[pk] })
    } else {
        v1
    };
    if v2.contains_key(nk) {
        v2.insert(nk, ItemView { prev: it.prev, ..v2[nk] })
    } else {
        v2
    }
}

/// The index of `k` in `l`, where it occurs.
pub open spec fn index_in(l: Seq<Price>, k: Price) -> int {
    choose|i: int| 0 <= i < l.len() && l[i] == k
}

/// Removing a level keeps a sequence of levels proper.
pub proof fn lemma_remove_proper(l: Seq<Price>, i: int)
    requires
        proper_levels(l),
        0 <= i < l.len(),
    ensures
        proper_levels(l.remove(i)),
{
    let m = l.remove(i);
    assert forall|a: int, b: int| 0 <= a < b < m.len() implies m[a] < m[b] by {
        let a0 = if a < i { a } else { a + 1 };
        let b0 = if b < i { b } else { b + 1 };
        assert(m[a] == l[a0] && m[b] == l[b0]);
    }
    assert forall|a: int| 0 <= a < m.len() implies PRICE_MIN < #[trigger] m[a] < PRICE_MAX by {
        let a0 = if a < i { a } else { a + 1 };
        assert(m[a] == l[a0]);
    }
}

/// Taking a level out of a book, and linking its neighbours, gives a book.
pub proof fn lemma_level_removed(
    v: Map<(H256, Option<Price>), ItemView>,
    k1: H256,
    b: Seq<Price>,
    s: Seq<Price>,
    k2: Price,
)
    requires
        book_shape(v, k1, b, s),
        b.contains(k2) || s.contains(k2),
    ensures
        b.contains(k2) ==> book_shape(unlinked(v, k1, k2), k1, b.remove(index_in(b, k2)), s),
        !b.contains(k2) ==> book_shape(unlinked(v, k1, k2), k1, b, s.remove(index_in(s, k2))),
        forall|k: (H256, Option<Price>)| #[trigger] unlinked(v, k1, k2).contains_key(k) ==> v.contains_key(k),
        forall|k: (H256, Option<Price>)| k.0 != k1 ==> #[trigger] unlinked(v, k1, k2).contains_key(k)
            == v.contains_key(k) && (v.contains_key(k) ==> unlinked(v, k1, k2)[k] == v[k]),
{
    let c = chain(b, s);
    lemma_chain_distinct(b, s);
    let (q, nb, ns) = if b.contains(k2) {
        let i = index_in(b, k2);
        lemma_chain_remove_buy(b, s, i);
        lemma_remove_proper(b, i);
        (i + 1, b.remove(i), s)
    } else {
        let i = index_in(s, k2);
        lemma_chain_remove_sell(b, s, i);
        lemma_remove_proper(s, i);
        (b.len() + 2 + i, b, s.remove(i))
    };
    assert(c[q] == Some(k2));
    assert(node_linked(v, k1, c, q));
    assert(node_linked(v, k1, c, q - 1));
    assert(node_linked(v, k1, c, q + 1));
    lemma_ring_remove(v, k1, c, q);
    let u = unlinked(v, k1, k2);
    let pk = (k1, c[q - 1]);
    let nk = (k1, c[q + 1]);
    let v1 = v.remove((k1, c[q]));
    let v2 = v1.insert(pk, ItemView { next: c[q + 1], ..v1[pk] });
    let v3 = v2.insert(nk, ItemView { prev: c[q - 1], ..v2[nk] });
    assert(u =~= v3);
    let nc = chain(nb, ns);
    assert(nc == c.remove(q));
    assert forall|i: int, j: int| 0 <= i < nb.len() && 0 <= j < ns.len() implies nb[i] != ns[j] by {
        if b.contains(k2) {
            let bi = index_in(b, k2);
            let i0 = if i < bi { i } else { i + 1 };
            assert(nb[i] == b[i0]);
        } else {
            let si = index_in(s, k2);
            let j0 = if j < si { j } else { j + 1 };
            assert(ns[j] == s[j0]);
        }
    }
    assert forall|i: int| 0 <= i < nb.len() implies #[trigger] u[(k1, Some(nb[i]))].orders.len() > 0 by {
        assert(nc[i + 1] == Some(nb[i]));
        let i0 = if i + 1 < q { i + 1 } else { i + 2 };
        assert(nc[i + 1] == c[i0]);
        assert(c[i0] == Some(b[i0 - 1]));
        assert(v[(k1, Some(b[i0 - 1]))].orders.len() > 0);
        assert(node_linked(v, k1, c, i0));
    }
    assert forall|i: int| 0 <= i < ns.len() implies #[trigger] u[(k1, Some(ns[i]))].orders.len() > 0 by {
        let pi = nb.len() + 2 + i;
        assert(nc[pi] == Some(ns[i]));
        let i0 = if pi < q { pi } else { pi + 1 };
        assert(nc[pi] == c[i0]);
        assert(b.len() + 2 <= i0 < b.len() + s.len() + 2);
        assert(c[i0] == Some(s[i0 - b.len() - 2]));
        assert(v[(k1, Some(s[i0 - b.len() - 2]))].orders.len() > 0);
        assert(node_linked(v, k1, c, i0));
    }
}

/// Trimming orders off the front of a node, leaving at least one, keeps the
/// books whole.
pub proof fn lemma_orders_trimmed(o: LinkedList, n: LinkedList, key1: H256, key2: Price)
    requires
        o.wf(),
        n.sides == o.sides,
        o@.contains_key((key1, Some(key2))),
        n@.dom() == o@.dom(),
        forall|k: (H256, Option<Price>)| k != (key1, Some(key2)) && #[trigger] o@.contains_key(k) ==> n@[k] == o@[k],
        n@[(key1, Some(key2))].prev == o@[(key1, Some(key2))].prev,
        n@[(key1, Some(key2))].next == o@[(key1, Some(key2))].next,
        n@[(key1, Some(key2))].price == o@[(key1, Some(key2))].price,
        n@[(key1, Some(key2))].orders.len() > 0 || !(PRICE_MIN < key2 < PRICE_MAX),
    ensures
        n.wf(),
{
    assert forall|k1: H256| #[trigger] n.built(k1) implies book_shape(n@, k1, n.buys(k1), n.sells(k1)) by {
        assert(o.built(k1));
        lemma_book_same_links(o@, n@, k1, o.buys(k1), o.sells(k1));
    }
}

/// Taking out a node does not look at its orders.
pub proof fn lemma_unlinked_ignores_orders(
    v: Map<(H256, Option<Price>), ItemView>,
    k1: H256,
    k2: Price,
    w: Map<(H256, Option<Price>), ItemView>,
)
    requires
        v.contains_key((k1, Some(k2))),
        w.dom() == v.dom(),
        forall|k: (H256, Option<Price>)| k != (k1, Some(k2)) && #[trigger] v.contains_key(k) ==> w[k] == v[k],
        w[(k1, Some(k2))].prev == v[(k1, Some(k2))].prev,
        w[(k1, Some(k2))].next == v[(k1, Some(k2))].next,
    ensures
        unlinked(w, k1, k2) == unlinked(v, k1, k2),
{
    assert(w.remove((k1, Some(k2))) =~= v.remove((k1, Some(k2))));
    assert(unlinked(w, k1, k2) =~= unlinked(v, k1, k2));
}

impl LinkedList {
    /// Takes the node under `(key1, Some(key2))` out and links its stored
    /// neighbours to each other.
    fn take_level(&mut self, key1: H256, key2: Price)
        requires
            old(self)@.contains_key((key1, Some(key2))),
        ensures
            final(self)@ == unlinked(old(self)@, key1, key2),
            final(self).sides == old(self).sides,
    {
        let ghost ov = old(self)@;
        let ghost it = ov[(key1, Some(key2))];
        let ghost pk = (key1, it.prev);
        let ghost nk = (key1, it.next);
        proof {
            assert(ov[(key1, Some(key2))] == old(self).items@[(key1, Some(key2))]@);
        }
        let taken = self.items.remove(&(key1, Some(key2)));
        let ghost u1 = ov.remove((key1, Some(key2)));
        assert(self@ =~= u1);
        let ghost u2 = if u1.contains_key(pk) {
            u1.insert(pk, ItemView { next: it.next, ..u1[pk] })
        } else {
            u1
        };
        match taken {
            Some(t) => {
                assert(t.prev == it.prev && t.next == it.next);
                let prev_key = (key1, t.prev);
                match self.items.get(&prev_key) {
                    Some(x) => {
                        let mut x2 = x.copy();
                        x2.next = t.next;
                        self.items.insert(prev_key, x2);
                        assert(self@ =~= u2);
                    },
                    None => {
                        assert(self@ =~= u2);
                    },
                }
                let next_key = (key1, t.next);
                match self.items.get(&next_key) {
                    Some(x) => {
                        let mut x2 = x.copy();
                        x2.prev = t.prev;
                        self.items.insert(next_key, x2);
                        assert(self@ =~= unlinked(ov, key1, key2));
                    },
                    None => {
                        assert(self@ =~= unlinked(ov, key1, key2));
                    },
                }
            },
            None => {
                assert(false);
            },
        }
    }
}

impl LinkedList {
    /// The levels of `key1`'s book once the level priced `key2` is gone.
    pub open spec fn removed_sides(self, key1: H256, key2: Price) -> (Seq<Price>, Seq<Price>) {
        let b = self.buys(key1);
        let s = self.sells(key1);
        if b.contains(key2) {
            (b.remove(index_in(b, key2)), s)
        } else if s.contains(key2) {
            (b, s.remove(index_in(s, key2)))
        } else {
            (b, s)
        }
    }

    /// Takes the finished orders off the front of the level priced `key2`
    /// of `key1`'s book. Stops with an error at the first order that is not
    /// stored in `orders` or not finished; where none is left, the level is
    /// taken out of the book and its neighbours are linked to each other.
    pub fn remove_item(&mut self, key1: H256, key2: Price, orders: &BTreeMap<H256, LimitOrder>) -> (r:
        Result<(), &'static str>)
        ensures
            !old(self)@.contains_key((key1, Some(key2))) ==> r == Ok::<(), &'static str>(())
                && *final(self) == *old(self),
            old(self)@.contains_key((key1, Some(key2))) ==> {
                let it = old(self)@[(key1, Some(key2))];
                let m = removable_prefix(it.orders, orders@);
                &&& m < it.orders.len() ==> {
                    &&& r == Err::<(), &'static str>(remove_error(orders@, it.orders[m as int]))
                    &&& final(self)@ == old(self)@.insert(
                        (key1, Some(key2)),
                        (ItemView { orders: it.orders.skip(m as int), ..it }),
                    )
                    &&& final(self).sides == old(self).sides
                }
                &&& m == it.orders.len() ==> {
                    &&& r == Ok::<(), &'static str>(())
                    &&& final(self)@ == unlinked(old(self)@, key1, key2)
                    &&& old(self).wf() ==> final(self).sides@ == old(self).sides@.insert(
                        key1,
                        old(self).removed_sides(key1, key2),
                    )
                }
            },
            // taking out a level (never a sentinel) keeps the books whole
            old(self).wf() && PRICE_MIN < key2 < PRICE_MAX ==> final(self).wf(),
    {
        let mut item = match self.items.get(&(key1, Some(key2))) {
            Some(it) => it.copy(),
            None => {
                return Ok(());
            },
        };
        let ghost it = item@;
        let ghost os = it.orders;
        let ghost mut k: int = 0;
        assert(os.skip(0) =~= os);
        while item.orders.len() > 0
            invariant
                0 <= k <= os.len(),
                old(self)@.contains_key((key1, Some(key2))),
                it == old(self)@[(key1, Some(key2))],
                os == it.orders,
                item@ == (ItemView { orders: os.skip(k), ..it }),
                forall|j: int| 0 <= j < k ==> order_removable(orders@, #[trigger] os[j]),
                k == 0 ==> *self == *old(self),
                k > 0 ==> self@ == old(self)@.insert((key1, Some(key2)), item@) && self.sides
                    == old(self).sides,
            decreases os.len() - k,
        {
            let order_hash = item.orders[0];
            assert(order_hash == os[k]);
            let order = match orders.get(&order_hash) {
                Some(o) => o,
                None => {
                    proof {
                        lemma_removable_prefix(os, orders@, k);
                        if k > 0 {
                            assert(old(self)@.insert((key1, Some(key2)), item@) =~= old(self)@.insert(
                                (key1, Some(key2)),
                                (ItemView { orders: it.orders.skip(k), ..it }),
                            ));
                        } else {
                            assert(os.skip(0) =~= os);
                            assert(old(self)@.insert((key1, Some(key2)), it) =~= old(self)@);
                        }
                        if k > 0 && old(self).wf() {
                            assert(self@.dom() =~= old(self)@.dom());
                            lemma_orders_trimmed(*old(self), *self, key1, key2);
                        }
                    }
                    return Err("can not get order");
                },
            };
            if !order.is_finished() {
                proof {
                    lemma_removable_prefix(os, orders@, k);
                    if k == 0 {
                        assert(os.skip(0) =~= os);
                        assert(old(self)@.insert((key1, Some(key2)), it) =~= old(self)@);
                    }
                    if k > 0 && old(self).wf() {
                        assert(self@.dom() =~= old(self)@.dom());
                        lemma_orders_trimmed(*old(self), *self, key1, key2);
                    }
                }
                return Err("try to remove not finished order");
            }
            item.orders.remove(0);
            proof {
                assert(os.skip(k).remove(0) =~= os.skip(k + 1));
                k = k + 1;
            }
            let copy = item.copy();
            self.write(key1, Some(key2), copy);
        }
        proof {
            lemma_removable_prefix(os, orders@, k);
        }
        let ghost before_take = *self;
        proof {
            assert(before_take@.contains_key((key1, Some(key2))));
            assert(before_take@.dom() =~= old(self)@.dom());
            lemma_unlinked_ignores_orders(old(self)@, key1, key2, before_take@);
        }
        self.take_level(key1, key2);
        proof {
            let o = *old(self);
            assert(self@ =~= unlinked(o@, key1, key2));
            if o.wf() {
                if o.built(key1) && (o.buys(key1).contains(key2) || o.sells(key1).contains(key2)) {
                    lemma_level_removed(o@, key1, o.buys(key1), o.sells(key1), key2);
                    self.sides@ = self.sides@.insert(key1, o.removed_sides(key1, key2));
                    assert forall|k1: H256| #[trigger] self.built(k1) implies book_shape(
                        self@,
                        k1,
                        self.buys(k1),
                        self.sells(k1),
                    ) by {
                        if k1 != key1 {
                            assert(o.built(k1));
                            lemma_book_frame(o@, self@, k1, o.buys(k1), o.sells(k1));
                        }
                    }
                } else {
                    assert(o.built(key1));
                    let c = chain(o.buys(key1), o.sells(key1));
                    assert(c.contains(Some(key2)));
                    let i = choose|i: int| 0 <= i < c.len() && c[i] == Some(key2);
                    if 1 <= i <= o.buys(key1).len() {
                        assert(o.buys(key1)[i - 1] == key2);
                    } else if o.buys(key1).len() + 2 <= i < c.len() - 1 {
                        assert(o.sells(key1)[i - o.buys(key1).len() - 2] == key2);
                    }
                    assert(o.removed_sides(key1, key2) == o.sides@[key1]);
                    assert(self.sides@ =~= o.sides@.insert(key1, o.removed_sides(key1, key2)));
                }
            }
        }
        Ok(())
    }
}

/// Every order of the level priced `p` may be taken off the book.
pub open spec fn level_clear(v: Map<(H256, Option<Price>), ItemView>, k1: H256, p: Price, orders: Map<H256, LimitOrder>) -> bool {
    removable_prefix(v[(k1, Some(p))].orders, orders) == v[(k1, Some(p))].orders.len()
}

/// How many buy levels, from the highest down, are clear in a row.
pub open spec fn clear_buys(v: Map<(H256, Option<Price>), ItemView>, k1: H256, l: Seq<Price>, orders: Map<H256, LimitOrder>) -> nat
    decreases l.len(),
{
    if l.len() > 0 && level_clear(v, k1, l.last(), orders) {
        1 + clear_buys(v, k1, l.drop_last(), orders)
    } else {
        0
    }
}

/// How many sell levels, from the lowest up, are clear in a row.
pub open spec fn clear_sells(v: Map<(H256, Option<Price>), ItemView>, k1: H256, l: Seq<Price>, orders: Map<H256, LimitOrder>) -> nat
    decreases l.len(),
{
    if l.len() > 0 && level_clear(v, k1, l[0], orders) {
        1 + clear_sells(v, k1, l.drop_first(), orders)
    } else {
        0
    }
}

/// The nodes once `key1`'s book is started (they are, if it has one).
pub open spec fn started(v: Map<(H256, Option<Price>), ItemView>, key1: H256, built: bool) -> Map<(H256, Option<Price>), ItemView> {
    if built {
        v
    } else {
        v.insert((key1, Some(PRICE_MIN)), bottom_view()).insert((key1, Some(PRICE_MAX)), top_view()).insert(
            (key1, None),
            head_view(),
        )
    }
}

/// The level where `remove_items` stops, if it stops at one: the innermost
/// level of side `otype` that is not clear.
pub open spec fn blocking_level(v: Map<(H256, Option<Price>), ItemView>, key1: H256, b: Seq<Price>, s: Seq<Price>, otype: OrderType, orders: Map<H256, LimitOrder>) -> Option<Price> {
    if otype == OrderType::Buy {
        let r = clear_buys(v, key1, b, orders);
        if r < b.len() {
            Some(b[b.len() - r - 1])
        } else {
            None
        }
    } else {
        let r = clear_sells(v, key1, s, orders);
        if r < s.len() {
            Some(s[r as int])
        } else {
            None
        }
    }
}

/// In a sequence of distinct levels, the last is found at the last index.
pub proof fn lemma_index_in_proper(l: Seq<Price>, i: int)
    requires
        proper_levels(l),
        0 <= i < l.len(),
    ensures
        index_in(l, l[i]) == i,
{
    assert(l.contains(l[i]));
    let j = index_in(l, l[i]);
    assert(0 <= j < l.len() && l[j] == l[i]);
    if j < i {
        assert(l[j] < l[i]);
    } else if j > i {
        assert(l[i] < l[j]);
    }
}

impl LinkedList {
    /// What `remove_items` leaves of the books `o`.
    pub open spec fn items_removed(self, o: LinkedList, key1: H256, otype: OrderType, orders: Map<H256, LimitOrder>) -> bool {
        let v0 = started(o@, key1, o.built(key1));
        let b = if o.built(key1) { o.buys(key1) } else { Seq::<Price>::empty() };
        let s = if o.built(key1) { o.sells(key1) } else { Seq::<Price>::empty() };
        let blocking = blocking_level(v0, key1, b, s, otype, orders);
        &&& otype == OrderType::Buy ==> {
            &&& self.buys(key1) == b.take(b.len() - clear_buys(v0, key1, b, orders))
            &&& self.sells(key1) == s
        }
        &&& otype == OrderType::Sell ==> {
            &&& self.buys(key1) == b
            &&& self.sells(key1) == s.skip(clear_sells(v0, key1, s, orders) as int)
        }
        &&& forall|k: (H256, Option<Price>)| #[trigger] self@.contains_key(k) ==> {
            &&& v0.contains_key(k)
            &&& self@[k].orders == if blocking is Some && k.1 == blocking && k.0 == key1 {
                v0[k].orders.skip(removable_prefix(v0[k].orders, orders) as int)
            } else {
                v0[k].orders
            }
        }
        &&& forall|k: (H256, Option<Price>)| k.0 != key1 ==> (#[trigger] self@.contains_key(k)
            == o@.contains_key(k) && (o@.contains_key(k) ==> self@[k]
            == o@[k]))
        &&& forall|k1: H256| k1 != key1 ==> #[trigger] self.sides@.contains_key(k1)
            == o.sides@.contains_key(k1) && (o.sides@.contains_key(k1)
            ==> self.sides@[k1] == o.sides@[k1])
    }

    /// Takes finished orders off side `otype` of `key1`'s book, from the
    /// level next to the head outwards: each clear level is taken out, and
    /// the first one that is not keeps its orders from the first that may
    /// not be taken off. Starts the book if `key1` has none.
    pub fn remove_items(&mut self, key1: H256, otype: OrderType, orders: &BTreeMap<H256, LimitOrder>)
        requires
            old(self).wf(),
        ensures
            final(self).wf(),
            final(self).built(key1),
            final(self).items_removed(*old(self), key1, otype, orders@),
    {
        let end_item: Option<Price> = if otype == OrderType::Buy {
            Some(PRICE_MIN)
        } else {
            Some(PRICE_MAX)
        };
        let ghost was_built = old(self).built(key1);
        proof {
            if was_built {
                let c = chain(old(self).buys(key1), old(self).sells(key1));
                assert(node_linked(old(self)@, key1, c, old(self).buys(key1).len() as int + 1));
            } else {
                assert(!old(self)@.contains_key((key1, None)));
            }
        }
        let mut head = self.read_head(key1);
        let ghost v0 = self@;
        let ghost l0 = *self;
        let ghost b = self.buys(key1);
        let ghost s = self.sells(key1);
        proof {
            assert(v0 == started(old(self)@, key1, was_built));
            if was_built {
                assert(*self == *old(self));
            }
            assert(b.take(b.len() as int) =~= b);
            assert(s.skip(0) =~= s);
            let c = chain(b, s);
            assert(node_linked(self@, key1, c, b.len() as int + 1));
        }
        let ghost mut i: int = 0;
        loop
            invariant_except_break
                self.wf(),
                self.built(key1),
                head@ == self@[(key1, None)],
                0 <= i,
                otype == OrderType::Buy ==> i <= b.len() && self.buys(key1) == b.take(b.len() - i)
                    && self.sells(key1) == s && clear_buys(v0, key1, b, orders@) == i + clear_buys(
                    v0,
                    key1,
                    b.take(b.len() - i),
                    orders@,
                ),
                otype == OrderType::Sell ==> i <= s.len() && self.sells(key1) == s.skip(i)
                    && self.buys(key1) == b && clear_sells(v0, key1, s, orders@) == i + clear_sells(
                    v0,
                    key1,
                    s.skip(i),
                    orders@,
                ),
                forall|k: (H256, Option<Price>)| #[trigger] self@.contains_key(k) ==> v0.contains_key(k)
                    && self@[k].orders == v0[k].orders,
            invariant
                l0.wf(),
                l0@ == v0,
                l0.built(key1),
                l0.buys(key1) == b,
                l0.sells(key1) == s,
                end_item == (if otype == OrderType::Buy { Some(PRICE_MIN) } else { Some(PRICE_MAX) }),
                forall|k: (H256, Option<Price>)| k.0 != key1 ==> (#[trigger] self@.contains_key(k)
                    == v0.contains_key(k) && (v0.contains_key(k) ==> self@[k] == v0[k])),
                forall|k1: H256| k1 != key1 ==> #[trigger] self.sides@.contains_key(k1)
                    == l0.sides@.contains_key(k1) && (l0.sides@.contains_key(k1) ==> self.sides@[k1]
                    == l0.sides@[k1]),
            ensures
                self.wf(),
                self.built(key1),
                ({
                    let blocking = blocking_level(v0, key1, b, s, otype, orders@);
                    &&& otype == OrderType::Buy ==> {
                        &&& self.buys(key1) == b.take(b.len() - clear_buys(v0, key1, b, orders@))
                        &&& self.sells(key1) == s
                    }
                    &&& otype == OrderType::Sell ==> {
                        &&& self.buys(key1) == b
                        &&& self.sells(key1) == s.skip(clear_sells(v0, key1, s, orders@) as int)
                    }
                    &&& forall|k: (H256, Option<Price>)| #[trigger] self@.contains_key(k) ==> {
                        &&& v0.contains_key(k)
                        &&& self@[k].orders == if blocking is Some && k.1 == blocking && k.0 == key1 {
                            v0[k].orders.skip(removable_prefix(v0[k].orders, orders@) as int)
                        } else {
                            v0[k].orders
                        }
                    }
                }),
            decreases (if otype == OrderType::Buy { b.len() - i } else { s.len() - i }),
        {
            let ghost cur = *self;
            let ghost cb = self.buys(key1);
            let ghost cs = self.sells(key1);
            let ghost c = chain(cb, cs);
            proof {
                lemma_chain_distinct(cb, cs);
                assert(node_linked(self@, key1, c, cb.len() as int + 1));
            }
            let key2 = Self::next_match_price(&head, otype);
            if key2 == end_item {
                proof {
                    if otype == OrderType::Buy {
                        if cb.len() > 0 {
                            assert(c[cb.len() as int] == Some(cb.last()));
                            assert(c[0] == Some(PRICE_MIN));
                        }
                        assert(cb.len() == 0);
                        assert(b.take(b.len() - i).len() == 0);
                        assert(clear_buys(v0, key1, b.take(b.len() - i), orders@) == 0);
                        assert(b.take(b.len() - i) =~= b.take(b.len() - clear_buys(v0, key1, b, orders@)));
                    } else {
                        if cs.len() > 0 {
                            assert(c[cb.len() as int + 2] == Some(cs[0]));
                            assert(c[c.len() - 1] == Some(PRICE_MAX));
                        }
                        assert(cs.len() == 0);
                        assert(clear_sells(v0, key1, s.skip(i), orders@) == 0);
                    }
                }
                break;
            }
            let ghost p: Price = key2->0;
            let ghost j: int = if otype == OrderType::Buy { cb.len() - 1 } else { 0 };
            proof {
                if otype == OrderType::Buy {
                    assert(cb.len() > 0) by {
                        if cb.len() == 0 {
                            assert(c[0] == Some(PRICE_MIN));
                        }
                    }
                    assert(c[cb.len() as int] == Some(cb[j]));
                    assert(cb[j] == b[b.len() - i - 1]);
                } else {
                    assert(cs.len() > 0) by {
                        if cs.len() == 0 {
                            assert(c[c.len() - 1] == Some(PRICE_MAX));
                        }
                    }
                    assert(c[cb.len() as int + 2] == Some(cs[0]));
                    assert(cs[0] == s[i]);
                }
                assert(key2 == Some(p));
                assert(PRICE_MIN < p < PRICE_MAX);
            }
            proof {
                lemma_removable_prefix_bound(cur@[(key1, Some(p))].orders, orders@);
            }
            let removed = self.remove_item(key1, key2.unwrap(), orders);
            match removed {
                Ok(_) => {},
                Err(_) => {
                    proof {
                        let k = (key1, Some(p));
                        assert(cur@.contains_key(k)) by {
                            if otype == OrderType::Buy {
                                assert(node_linked(cur@, key1, c, cb.len() as int));
                            } else {
                                assert(node_linked(cur@, key1, c, cb.len() as int + 2));
                            }
                        }
                        assert(cur@[k].orders == v0[k].orders);
                        assert(!level_clear(v0, key1, p, orders@));
                        if otype == OrderType::Buy {
                            let t = b.take(b.len() - i);
                            assert(t.last() == p);
                            assert(clear_buys(v0, key1, t, orders@) == 0);
                            assert(blocking_level(v0, key1, b, s, otype, orders@) == Some(p));
                            assert(t =~= b.take(b.len() - clear_buys(v0, key1, b, orders@)));
                        } else {
                            let t = s.skip(i);
                            assert(t[0] == p);
                            assert(clear_sells(v0, key1, t, orders@) == 0);
                            assert(blocking_level(v0, key1, b, s, otype, orders@) == Some(p));
                        }
                        assert(removable_prefix(cur@[k].orders, orders@) < cur@[k].orders.len());
                        assert(self@ == cur@.insert(k, (ItemView {
                            orders: cur@[k].orders.skip(removable_prefix(cur@[k].orders, orders@) as int),
                            ..cur@[k]
                        })));
                        assert(self.sides == cur.sides);
                        assert forall|kk: (H256, Option<Price>)| kk.0 != key1 implies (#[trigger] self@.contains_key(kk)
                            == v0.contains_key(kk) && (v0.contains_key(kk) ==> self@[kk] == v0[kk])) by {
                            assert(cur@.contains_key(kk) == v0.contains_key(kk));
                        }
                    }
                    break;
                },
            }
            proof {
                let k = (key1, Some(p));
                assert(cur@.contains_key(k)) by {
                    if otype == OrderType::Buy {
                        assert(node_linked(cur@, key1, c, cb.len() as int));
                    } else {
                        assert(node_linked(cur@, key1, c, cb.len() as int + 2));
                    }
                }
                assert(cur@[k].orders == v0[k].orders);
                assert(level_clear(v0, key1, p, orders@));
                if otype == OrderType::Buy {
                    lemma_index_in_proper(cb, j);
                    assert(cb.contains(p));
                    assert(cb.remove(j) =~= cb.drop_last());
                    let t = b.take(b.len() - i);
                    assert(t.drop_last() =~= b.take(b.len() - (i + 1)));
                    assert(t.last() == p);
                } else {
                    lemma_index_in_proper(cs, 0);
                    assert(cs.contains(p));
                    assert(!cb.contains(p)) by {
                        if cb.contains(p) {
                            let x = choose|x: int| 0 <= x < cb.len() && cb[x] == p;
                        }
                    }
                    assert(cs.remove(0) =~= cs.drop_first());
                    let t = s.skip(i);
                    assert(t.drop_first() =~= s.skip(i + 1));
                    assert(t[0] == p);
                }
                assert forall|kk: (H256, Option<Price>)| #[trigger] self@.contains_key(kk) implies v0.contains_key(kk)
                    && self@[kk].orders == v0[kk].orders by {
                    assert(cur@.contains_key(kk));
                }
                i = i + 1;
            }
            head = self.read_head(key1);
        }
        proof {
            let o = *old(self);
            assert(v0 == started(o@, key1, was_built));
            if !was_built {
                assert(b == Seq::<Price>::empty());
                assert(s == Seq::<Price>::empty());
            } else {
                assert(b == o.buys(key1));
                assert(s == o.sells(key1));
            }
            let bb = if o.built(key1) { o.buys(key1) } else { Seq::<Price>::empty() };
            let ss = if o.built(key1) { o.sells(key1) } else { Seq::<Price>::empty() };
            assert(bb == b);
            assert(ss == s);
            let blocking = blocking_level(v0, key1, b, s, otype, orders@);
            assert(otype == OrderType::Buy ==> {
                &&& self.buys(key1) == b.take(b.len() - clear_buys(v0, key1, b, orders@))
                &&& self.sells(key1) == s
            });
            assert(otype == OrderType::Sell ==> {
                &&& self.buys(key1) == b
                &&& self.sells(key1) == s.skip(clear_sells(v0, key1, s, orders@) as int)
            });
            assert(forall|k: (H256, Option<Price>)| #[trigger] self@.contains_key(k) ==> {
                &&& v0.contains_key(k)
                &&& self@[k].orders == if blocking is Some && k.1 == blocking && k.0 == key1 {
                    v0[k].orders.skip(removable_prefix(v0[k].orders, orders@) as int)
                } else {
                    v0[k].orders
                }
            });
            assert forall|k: (H256, Option<Price>)| k.0 != key1 implies (#[trigger] self@.contains_key(k)
                == o@.contains_key(k) && (o@.contains_key(k) ==> self@[k] == o@[k])) by {
                assert(self@.contains_key(k) == v0.contains_key(k));
            }
            assert forall|k1: H256| k1 != key1 implies #[trigger] self.sides@.contains_key(k1)
                == o.sides@.contains_key(k1) && (o.sides@.contains_key(k1) ==> self.sides@[k1]
                == o.sides@[k1]) by {
                assert(self.sides@.contains_key(k1) == l0.sides@.contains_key(k1));
            }
            assert(self.items_removed(o, key1, otype, orders@));
        }
    }
}

/// `os` without the occurrences of `h`.
pub open spec fn without(os: Seq<H256>, h: H256) -> Seq<H256>
    decreases os.len(),
{
    if os.len() == 0 {
        os
    } else if os.last() != h {
        without(os.drop_last(), h).push(os.last())
    } else {
        without(os.drop_last(), h)
    }
}

/// Taking `h` out of `os` keeps every other entry, in its order: the result
/// is `os` filtered of `h`.
pub proof fn lemma_without_filter(os: Seq<H256>, h: H256)
    ensures
        without(os, h) == os.filter(|x: H256| x != h),
    decreases os.len(),
{
    reveal(Seq::filter);
    if os.len() > 0 {
        lemma_without_filter(os.drop_last(), h);
    }
}

/// Taking `h` out of `os` keeps exactly the entries other than `h`, each as
/// often and in the same order: an entry other than `h` is in the result
/// exactly where it is in `os`, and `h` is not.
pub proof fn lemma_without_keeps_others(os: Seq<H256>, h: H256)
    ensures
        !without(os, h).contains(h),
        forall|x: H256| x != h ==> (#[trigger] without(os, h).contains(x) <==> os.contains(x)),
        without(os, h).len() + os.filter(|x: H256| x == h).len() == os.len(),
    decreases os.len(),
{
    reveal(Seq::filter);
    if os.len() > 0 {
        let p = os.drop_last();
        lemma_without_keeps_others(p, h);
        let w = without(os, h);
        let wp = without(p, h);
        assert(w == if os.last() != h { wp.push(os.last()) } else { wp });
        assert forall|x: H256| x != h implies (#[trigger] w.contains(x) <==> os.contains(x)) by {
            if os.contains(x) {
                let i = choose|i: int| 0 <= i < os.len() && os[i] == x;
                if i < os.len() - 1 {
                    assert(p[i] == x);
                    assert(p.contains(x));
                    assert(wp.contains(x));
                    let j = choose|j: int| 0 <= j < wp.len() && wp[j] == x;
                    assert(w[j] == x);
                } else {
                    assert(w[wp.len() as int] == x);
                }
            }
            if w.contains(x) {
                let j = choose|j: int| 0 <= j < w.len() && w[j] == x;
                if j < wp.len() {
                    assert(wp[j] == x);
                    assert(wp.contains(x));
                    assert(p.contains(x));
                    let i = choose|i: int| 0 <= i < p.len() && p[i] == x;
                    assert(os[i] == x);
                } else {
                    assert(os[os.len() - 1] == x);
                }
            }
        }
        if without(os, h).contains(h) {
            if !without(p, h).contains(h) {
                let i = choose|i: int| 0 <= i < without(os, h).len() && without(os, h)[i] == h;
                assert(i == without(os, h).len() - 1 || without(p, h)[i] == h);
            }
        }
    }
}

impl LinkedList {
    /// `self` is `o` with order `order_hash` taken off the node priced
    /// `price` of `key1`'s book (every occurrence of it); a level left
    /// without orders is taken out of the book and its neighbours are linked
    /// to each other, a sentinel stays.
    pub open spec fn order_taken_off(self, o: LinkedList, key1: H256, price: Price, order_hash: H256) -> bool {
        &&& !o@.contains_key((key1, Some(price))) ==> self == o
        &&& o@.contains_key((key1, Some(price))) ==> {
            let it = o@[(key1, Some(price))];
            let kept = without(it.orders, order_hash);
            &&& (kept.len() > 0 || !(PRICE_MIN < price < PRICE_MAX)) ==> {
                &&& self@ == o@.insert((key1, Some(price)), (ItemView { orders: kept, ..it }))
                &&& self.sides == o.sides
            }
            &&& (kept.len() == 0 && PRICE_MIN < price < PRICE_MAX) ==> {
                &&& self@ == unlinked(o@, key1, price)
                &&& self.sides@ == o.sides@.insert(key1, o.removed_sides(key1, price))
            }
        }
    }

    /// Takes order `order_hash` off the node priced `price` of `key1`'s book
    /// (every occurrence of it). A level left without orders is taken out of
    /// the book and its neighbours are linked to each other; a sentinel stays.
    pub fn remove_order(&mut self, key1: H256, price: Price, order_hash: H256)
        requires
            old(self).wf(),
        ensures
            final(self).wf(),
            final(self).order_taken_off(*old(self), key1, price, order_hash),
    {
        let mut item = match self.items.get(&(key1, Some(price))) {
            Some(it) => it.copy(),
            None => {
                return ;
            },
        };
        let ghost it = item@;
        let ghost os = it.orders;
        let mut kept: Vec<H256> = Vec::new();
        let mut i: usize = 0;
        while i < item.orders.len()
            invariant
                i <= os.len(),
                item@ == it,
                os == it.orders,
                kept@ == without(os.take(i as int), order_hash),
            decreases os.len() - i,
        {
            let h = item.orders[i];
            assert(os.take(i + 1).drop_last() =~= os.take(i as int));
            if !(h.0 == order_hash.0 && h.1 == order_hash.1) {
                kept.push(h);
            }
            i = i + 1;
        }
        assert(os.take(os.len() as int) =~= os);
        let empty = kept.len() == 0;
        item.orders = kept;
        self.write(key1, Some(price), item);
        let ghost trimmed = *self;
        proof {
            let o = *old(self);
            assert(o@.contains_key((key1, Some(price))));
            assert(trimmed@.dom() =~= o@.dom());
            if !empty || !(PRICE_MIN < price < PRICE_MAX) {
                lemma_orders_trimmed(o, trimmed, key1, price);
            }
        }
        if empty && PRICE_MIN < price && price < PRICE_MAX {
            proof {
                lemma_unlinked_ignores_orders(old(self)@, key1, price, trimmed@);
            }
            self.take_level(key1, price);
            proof {
                let o = *old(self);
                assert(o.built(key1));
                let c = chain(o.buys(key1), o.sells(key1));
                assert(c.contains(Some(price)));
                let j = choose|j: int| 0 <= j < c.len() && c[j] == Some(price);
                if 1 <= j <= o.buys(key1).len() {
                    assert(o.buys(key1)[j - 1] == price);
                } else if o.buys(key1).len() + 2 <= j < c.len() - 1 {
                    assert(o.sells(key1)[j - o.buys(key1).len() - 2] == price);
                } else {
                    assert(j == 0 || j == o.buys(key1).len() + 1 || j == c.len() - 1);
                }
                lemma_level_removed(o@, key1, o.buys(key1), o.sells(key1), price);
                self.sides@ = self.sides@.insert(key1, o.removed_sides(key1, price));
                assert forall|k1: H256| #[trigger] self.built(k1) implies book_shape(
                    self@,
                    k1,
                    self.buys(k1),
                    self.sells(k1),
                ) by {
                    if k1 != key1 {
                        assert(o.built(k1));
                        lemma_book_frame(o@, self@, k1, o.buys(k1), o.sells(k1));
                    }
                }
            }
        }
    }
}

/// What is left of a list of orders without `h` does not hold `h`.
pub proof fn lemma_without_excludes(os: Seq<H256>, h: H256)
    ensures
        !without(os, h).contains(h),
    decreases os.len(),
{
    if os.len() > 0 {
        lemma_without_excludes(os.drop_last(), h);
        let w = without(os.drop_last(), h);
        if os.last() != h {
            assert forall|j: int| 0 <= j < w.push(os.last()).len() implies w.push(os.last())[j] != h by {
                if j < w.len() {
                    assert(w.push(os.last())[j] == w[j]);
                }
            }
        }
    }
}

/// Once order `h` is taken off the node priced `price` of `key1`'s book,
/// that node, if it is still there, no longer holds it.
pub proof fn lemma_order_taken_off_gone(before: LinkedList, after: LinkedList, key1: H256, price: Price, h: H256)
    requires
        before.wf(),
        after.order_taken_off(before, key1, price, h),
    ensures
        !(after@.contains_key((key1, Some(price))) && after@[(key1, Some(price))].orders.contains(h)),
{
    let key = (key1, Some(price));
    if before@.contains_key(key) {
        let it = before@[key];
        let kept = without(it.orders, h);
        lemma_without_excludes(it.orders, h);
        if !(kept.len() > 0 || !(PRICE_MIN < price < PRICE_MAX)) {
            assert(before.built(key1));
            let b = before.buys(key1);
            let sl = before.sells(key1);
            let c = chain(b, sl);
            assert(book_shape(before@, key1, b, sl));
            lemma_chain_distinct(b, sl);
            assert(c.contains(Some(price)));
            let i = choose|i: int| 0 <= i < c.len() && c[i] == Some(price);
            assert(node_linked(before@, key1, c, i));
            let n = c.len() as int;
            assert(c[ring_prev(n, i)] != c[i]);
            assert(c[ring_next(n, i)] != c[i]);
            assert(!after@.contains_key(key));
        }
    }
}
} // verus!
