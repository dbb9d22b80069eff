//! Orders: which side an order is on, the state key of each side of a
//! symbol's book, and the price order of the orders of one side.
use vstd::prelude::*;
use vstd::utf8::encode_utf8;
use crate::bytes::extend_bytes;
use crate::sort::{is_stable_sort, sorted_stably, stable_sort_by_keys};
use vstd::arithmetic::power2::{
    lemma2_to64, lemma_pow2_pos, lemma_pow2_strictly_increases, lemma_pow2_unfold, pow2,
};

verus! {

/// An order submitted by a user. The price is kept as the bit pattern of
/// its IEEE 754 double (`f64::to_bits`); the id is the order's UUID as a
/// 128-bit number.
pub struct Order {
    pub id: u128,
    pub symbol: String,
    pub price_bits: u64,
    pub side: String,
    pub position: u64,
}

/// The sign bit of a double.
pub open spec fn sign_bit() -> int {
    0x8000_0000_0000_0000
}

/// The magnitude bits of a double (all but the sign).
pub open spec fn price_magnitude(bits: u64) -> int {
    if bits >= sign_bit() {
        bits - sign_bit()
    } else {
        bits as int
    }
}

/// Whether the double is NaN: exponent all ones and a non-zero fraction.
pub open spec fn price_is_nan(bits: u64) -> bool {
    price_magnitude(bits) > 0x7FF0_0000_0000_0000
}

/// The position of a (non-NaN) double on the number line, as an integer:
/// doubles compare as their ranks do, and the two zeros share rank 0.
pub open spec fn price_rank(bits: u64) -> int {
    if bits >= sign_bit() {
        -price_magnitude(bits)
    } else {
        bits as int
    }
}

/// The rank of a price, as `price_rank` says.
pub fn price_rank_of(bits: u64) -> (r: i64)
    ensures
        r == price_rank(bits),
{
    if bits >= 0x8000_0000_0000_0000 {
        let m = bits - 0x8000_0000_0000_0000;
        -(m as i64)
    } else {
        bits as i64
    }
}

/// Whether the price is NaN, as `price_is_nan` says.
pub fn price_bits_is_nan(bits: u64) -> (r: bool)
    ensures
        r == price_is_nan(bits),
{
    let m = if bits >= 0x8000_0000_0000_0000 {
        bits - 0x8000_0000_0000_0000
    } else {
        bits
    };
    m > 0x7FF0_0000_0000_0000
}

/// ASCII lower case of a byte.
pub open spec fn ascii_lower(b: u8) -> u8 {
    if 65 <= b <= 90 {
        (b + 32) as u8
    } else {
        b
    }
}

/// The side text is "buy" up to ASCII case (`eq_ignore_ascii_case`).
pub open spec fn is_buy_text(side: Seq<u8>) -> bool {
    &&& side.len() == 3
    &&& ascii_lower(side[0]) == 98
    &&& ascii_lower(side[1]) == 117
    &&& ascii_lower(side[2]) == 121
}

/// The UTF-8 bytes of a text.
pub open spec fn text_bytes(s: Seq<char>) -> Seq<u8> {
    encode_utf8(s)
}

fn lower_byte(b: u8) -> (r: u8)
    ensures
        r == ascii_lower(b),
{
    if 65 <= b && b <= 90 {
        b + 32
    } else {
        b
    }
}

/// Whether an order side is the buy side: "buy" in any ASCII case; every
/// other side is the sell side.
pub fn is_buy(side: &str) -> (r: bool)
    ensures
        r == is_buy_text(text_bytes(side@)),
{
    let b = side.as_bytes();
    b.len() == 3 && lower_byte(b[0]) == 98 && lower_byte(b[1]) == 117 && lower_byte(b[2]) == 121
}

/// The bytes of "book:".
pub open spec fn book_prefix() -> Seq<u8> {
    seq![98u8, 111u8, 111u8, 107u8, 58u8]
}

/// The bytes of ":buy".
pub open spec fn buy_suffix() -> Seq<u8> {
    seq![58u8, 98u8, 117u8, 121u8]
}

/// The bytes of ":sell".
pub open spec fn sell_suffix() -> Seq<u8> {
    seq![58u8, 115u8, 101u8, 108u8, 108u8]
}

/// State key of the buy side of a symbol's book: "book:{symbol}:buy".
pub open spec fn buy_key(symbol: Seq<char>) -> Seq<u8> {
    book_prefix() + text_bytes(symbol) + buy_suffix()
}

/// State key of the sell side of a symbol's book: "book:{symbol}:sell".
pub open spec fn sell_key(symbol: Seq<char>) -> Seq<u8> {
    book_prefix() + text_bytes(symbol) + sell_suffix()
}

/// State key of the side of a symbol's book that an order side names.
pub open spec fn side_key_of(symbol: Seq<char>, side: Seq<char>) -> Seq<u8> {
    if is_buy_text(text_bytes(side)) {
        buy_key(symbol)
    } else {
        sell_key(symbol)
    }
}

/// The state key of the buy side of `symbol`'s book.
pub fn key_buy(symbol: &str) -> (key: Vec<u8>)
    ensures
        key@ == buy_key(symbol@),
{
    let mut key: Vec<u8> = Vec::new();
    key.push(98);
    key.push(111);
    key.push(111);
    key.push(107);
    key.push(58);
    extend_bytes(&mut key, symbol.as_bytes());
    key.push(58);
    key.push(98);
    key.push(117);
    key.push(121);
    assert(key@ =~= buy_key(symbol@));
    key
}

/// The state key of the sell side of `symbol`'s book.
pub fn key_sell(symbol: &str) -> (key: Vec<u8>)
    ensures
        key@ == sell_key(symbol@),
{
    let mut key: Vec<u8> = Vec::new();
    key.push(98);
    key.push(111);
    key.push(111);
    key.push(107);
    key.push(58);
    extend_bytes(&mut key, symbol.as_bytes());
    key.push(58);
    key.push(115);
    key.push(101);
    key.push(108);
    key.push(108);
    assert(key@ =~= sell_key(symbol@));
    key
}

/// The state key of the side of `symbol`'s book that `side` names.
pub fn side_key(symbol: &str, side: &str) -> (key: Vec<u8>)
    ensures
        key@ == side_key_of(symbol@, side@),
{
    if is_buy(side) {
        key_buy(symbol)
    } else {
        key_sell(symbol)
    }
}

/// The sort key of an order on one side of the book: best price first,
/// so the highest price on the buy side and the lowest on the sell side.
pub open spec fn book_rank(o: Order, buy: bool) -> i128 {
    if buy {
        (-price_rank(o.price_bits)) as i128
    } else {
        price_rank(o.price_bits) as i128
    }
}

/// The sort keys of a list of orders on one side of the book.
pub open spec fn book_ranks(orders: Seq<Order>, buy: bool) -> Seq<i128> {
    orders.map_values(|o: Order| book_rank(o, buy))
}

/// The prices can be compared: a list of fewer than two orders needs no
/// comparison, and otherwise no price is NaN.
pub open spec fn prices_comparable(orders: Seq<Order>) -> bool {
    orders.len() < 2 || forall|i: int| 0 <= i < orders.len() ==> !price_is_nan(#[trigger] orders[i].price_bits)
}

/// Whether the prices of `orders` can be compared, as `prices_comparable`
/// says.
pub fn orders_prices_comparable(orders: &Vec<Order>) -> (r: bool)
    ensures
        r == prices_comparable(orders@),
{
    orders.len() < 2 || orders_prices_comparable_all(orders)
}

fn orders_prices_comparable_all(orders: &Vec<Order>) -> (r: bool)
    ensures
        r == forall|i: int| 0 <= i < orders@.len() ==> !price_is_nan(#[trigger] orders@[i].price_bits),
{
    let mut i: usize = 0;
    while i < orders.len()
        invariant
            i <= orders.len(),
            forall|j: int| 0 <= j < i ==> !price_is_nan(#[trigger] orders@[j].price_bits),
        decreases orders.len() - i,
    {
        if price_bits_is_nan(orders[i].price_bits) {
            assert(price_is_nan(orders@[i as int].price_bits));
            return false;
        }
        i = i + 1;
    }
    true
}

/// Sorts the orders of one side of a book stably by price, best first: the
/// buy side from the highest price down, any other side from the lowest
/// up. NaN prices cannot be compared, so a list of two or more orders must
/// hold none.
pub fn sort_orders_by_price(orders: &mut Vec<Order>, side: &str)
    requires
        prices_comparable(old(orders)@),
    ensures
        is_stable_sort(
            book_ranks(old(orders)@, is_buy_text(text_bytes(side@))),
            old(orders)@,
            final(orders)@,
        ),
{
    let buy = is_buy(side);
    let mut items: Vec<Order> = Vec::new();
    std::mem::swap(&mut items, orders);
    let ghost given = items@;
    let mut keys: Vec<i128> = Vec::new();
    let mut i: usize = 0;
    while i < items.len()
        invariant
            i <= items.len(),
            items@ == given,
            keys.len() == i,
            forall|j: int| 0 <= j < i ==> keys@[j] == #[trigger] book_rank(given[j], buy),
        decreases items.len() - i,
    {
        let r = price_rank_of(items[i].price_bits) as i128;
        if buy {
            keys.push(-r);
        } else {
            keys.push(r);
        }
        i = i + 1;
    }
    assert(keys@ =~= book_ranks(given, buy));
    let sorted = stable_sort_by_keys(keys, items);
    *orders = sorted;
}

/// 2^52: one unit of a double's exponent field within its magnitude bits.
pub open spec fn exponent_unit() -> int {
    0x10_0000_0000_0000
}

/// The magnitude of a double's value times 2^1074, from its magnitude
/// bits (exponent field `e`, fraction `f`): `f` for subnormals, else
/// `(2^52 + f) * 2^(e - 1)`. An integer for every finite double; the
/// infinities come out above every finite value.
pub open spec fn scaled_magnitude(mag: int) -> int {
    let e = mag / exponent_unit();
    let f = mag % exponent_unit();
    if e == 0 {
        f
    } else {
        (exponent_unit() + f) * pow2((e - 1) as nat)
    }
}

/// The value of a (non-NaN) double times 2^1074, as IEEE 754 gives it:
/// its sign applied to `scaled_magnitude`. Doubles compare as these do.
pub open spec fn double_value(bits: u64) -> int {
    if bits >= sign_bit() {
        -scaled_magnitude(price_magnitude(bits))
    } else {
        scaled_magnitude(price_magnitude(bits))
    }
}

proof fn lemma_scaled_below_next_exponent(mag: int)
    requires
        0 <= mag,
    ensures
        0 <= scaled_magnitude(mag) < exponent_unit() * pow2((mag / exponent_unit()) as nat),
        mag / exponent_unit() > 0 ==> scaled_magnitude(mag) >= exponent_unit() * pow2(
            ((mag / exponent_unit()) - 1) as nat,
        ),
{
    let u = exponent_unit();
    let e = mag / u;
    let f = mag % u;
    assert(0 <= f < u);
    assert(e >= 0);
    if e == 0 {
        lemma2_to64();
    } else {
        let p = pow2((e - 1) as nat);
        lemma_pow2_pos((e - 1) as nat);
        lemma_pow2_unfold(e as nat);
        assert((u + f) * p < u * (2 * p)) by (nonlinear_arith)
            requires
                0 <= f < u,
                p > 0,
        ;
        assert((u + f) * p >= u * p) by (nonlinear_arith)
            requires
                0 <= f,
                p > 0,
        ;
    }
}

proof fn lemma_scaled_strictly_increases(m1: int, m2: int)
    requires
        0 <= m1 < m2,
    ensures
        scaled_magnitude(m1) < scaled_magnitude(m2),
{
    let u = exponent_unit();
    let (e1, f1) = (m1 / u, m1 % u);
    let (e2, f2) = (m2 / u, m2 % u);
    assert(e1 <= e2);
    lemma_scaled_below_next_exponent(m1);
    lemma_scaled_below_next_exponent(m2);
    if e1 == e2 {
        assert(f1 < f2);
        if e1 > 0 {
            let p = pow2((e1 - 1) as nat);
            lemma_pow2_pos((e1 - 1) as nat);
            assert((u + f1) * p < (u + f2) * p) by (nonlinear_arith)
                requires
                    f1 < f2,
                    p > 0,
            ;
        }
    } else {
        // scaled(m1) < u * 2^e1 <= u * 2^(e2 - 1) <= scaled(m2)
        let a = pow2(e1 as nat);
        let b = pow2((e2 - 1) as nat);
        if e1 < e2 - 1 {
            lemma_pow2_strictly_increases(e1 as nat, (e2 - 1) as nat);
        }
        assert(a <= b);
        assert(u * a <= u * b) by (nonlinear_arith)
            requires
                a <= b,
                u > 0,
        ;
    }
}

proof fn lemma_scaled_order(m1: int, m2: int)
    requires
        0 <= m1,
        0 <= m2,
    ensures
        (m1 < m2) == (scaled_magnitude(m1) < scaled_magnitude(m2)),
        (m1 == m2) == (scaled_magnitude(m1) == scaled_magnitude(m2)),
        (m1 == 0) == (scaled_magnitude(m1) == 0),
        scaled_magnitude(m1) >= 0,
{
    lemma_scaled_below_next_exponent(m1);
    if m1 < m2 {
        lemma_scaled_strictly_increases(m1, m2);
    } else if m2 < m1 {
        lemma_scaled_strictly_increases(m2, m1);
    }
    if m1 > 0 {
        lemma_scaled_strictly_increases(0, m1);
        assert(scaled_magnitude(0) == 0);
    }
    assert(scaled_magnitude(0) == 0);
}

/// Prices rank as doubles compare: for any two non-NaN doubles, one ranks
/// before the other exactly when its value is smaller, and they rank the
/// same exactly when their values are equal (so 0.0 and -0.0 share a
/// rank).
pub proof fn law_price_rank_orders_prices(a: u64, b: u64)
    requires
        !price_is_nan(a),
        !price_is_nan(b),
    ensures
        (price_rank(a) < price_rank(b)) == (double_value(a) < double_value(b)),
        (price_rank(a) == price_rank(b)) == (double_value(a) == double_value(b)),
{
    let ma = price_magnitude(a);
    let mb = price_magnitude(b);
    lemma_scaled_order(ma, mb);
    lemma_scaled_order(mb, ma);
}

/// A side sorted by `sort_orders_by_price` is in price order: on the buy
/// side no order has a higher price than one before it, on the other side
/// no lower.
pub proof fn law_side_sorted_by_price(orders: Seq<Order>, buy: bool, out: Seq<Order>)
    requires
        prices_comparable(orders),
        is_stable_sort(book_ranks(orders, buy), orders, out),
    ensures
        forall|k: int, l: int|
            0 <= k < l < out.len() ==> if buy {
                double_value(#[trigger] out[k].price_bits) >= double_value(#[trigger] out[l].price_bits)
            } else {
                double_value(out[k].price_bits) <= double_value(out[l].price_bits)
            },
{
    let p = choose|p: Seq<int>| sorted_stably(book_ranks(orders, buy), orders, out, p);
    assert forall|k: int, l: int| 0 <= k < l < out.len() implies if buy {
        double_value(#[trigger] out[k].price_bits) >= double_value(#[trigger] out[l].price_bits)
    } else {
        double_value(out[k].price_bits) <= double_value(out[l].price_bits)
    } by {
        assert(p[k] != p[l]);
        let (x, y) = (orders[p[k]], orders[p[l]]);
        assert(out[k] == x && out[l] == y);
        assert(!price_is_nan(x.price_bits) && !price_is_nan(y.price_bits));
        assert(!(book_ranks(orders, buy)[p[l]] < book_ranks(orders, buy)[p[k]]));
        assert(book_ranks(orders, buy)[p[k]] == book_rank(x, buy));
        assert(book_ranks(orders, buy)[p[l]] == book_rank(y, buy));
        law_price_rank_orders_prices(x.price_bits, y.price_bits);
    }
}

} // verus!
