//! The order book that committed blocks write into the replicated
//! application state: for each side of a symbol's book, one level per
//! price key holding the positions added up, best price first, and the
//! list of symbols with a book.
use vstd::prelude::*;
use crate::api::{
    decode_levels, decode_symbols, find_level, first_level_index, level_fits,
    level_fits_order, lemma_first_level_exists, lemma_side_key_not_symbols_key, opt_bytes,
    levels_in_order, levels_preferring, parsed_levels, parsed_symbols, sort_symbols, symbol_listed,
    symbols_key, symbols_key_bytes, symbols_preferring,
};
use crate::bytes::{bytes_equal, copy_bytes};
use crate::codec::{
    byte_views, json_levels, json_levels_parsed, json_strings, json_strings_parsed, levels_json,
    string_list_json, string_views,
};
use crate::kv::{apply_ops, law_last_write_wins, BatchOp};
use crate::orders::{
    book_prefix, buy_suffix, is_buy, is_buy_text, sell_suffix, side_key,
    side_key_of, text_bytes,
};
use crate::sort::{
    byte_sorted_stably, is_byte_stable_sort, law_byte_stable_sort_unique, lemma_byte_sort_keeps,
};

verus! {

/// An order as the committed book records it: its symbol and side, the
/// key of its price (the price in millionths, rounded), and its position.
pub struct BlockOrder {
    pub symbol: String,
    pub side: String,
    pub price_key: i64,
    pub position: u64,
}

/// The state key of the side of the book an order goes to.
pub open spec fn order_key(o: BlockOrder) -> Seq<u8> {
    side_key_of(o.symbol@, o.side@)
}

/// Whether an order is on the buy side.
pub open spec fn order_buy(o: BlockOrder) -> bool {
    is_buy_text(text_bytes(o.side@))
}

/// A level ranks after a new level at price key `pk`: on the buy side its
/// price is lower, on the other side higher.
pub open spec fn ranks_after(l: (i64, u64), pk: i64, buy: bool) -> bool {
    if buy {
        l.0 < pk
    } else {
        l.0 > pk
    }
}

/// The position of the first level that ranks after price key `pk` (the
/// length of the list when none does).
pub open spec fn first_after(levels: Seq<(i64, u64)>, pk: i64, buy: bool) -> int
    decreases levels.len(),
{
    if levels.len() == 0 {
        0
    } else if ranks_after(levels[0], pk, buy) {
        0
    } else {
        1 + first_after(levels.drop_first(), pk, buy)
    }
}

proof fn lemma_first_after_bounds(levels: Seq<(i64, u64)>, pk: i64, buy: bool)
    ensures
        0 <= first_after(levels, pk, buy) <= levels.len(),
    decreases levels.len(),
{
    if levels.len() > 0 {
        lemma_first_after_bounds(levels.drop_first(), pk, buy);
    }
}

/// The levels after an order at price key `pk` for `position`: added to
/// the first level with that key, or a new level placed before the first
/// level that ranks after it.
pub open spec fn place_level(levels: Seq<(i64, u64)>, pk: i64, position: u64, buy: bool) -> Seq<(i64, u64)> {
    let i = first_level_index(levels, pk);
    if i < levels.len() {
        levels.update(i, (pk, (levels[i].1 + position) as u64))
    } else {
        levels.insert(first_after(levels, pk, buy), (pk, position))
    }
}

fn find_after(levels: &Vec<(i64, u64)>, pk: i64, buy: bool) -> (i: usize)
    ensures
        i == first_after(levels@, pk, buy),
{
    let mut i: usize = 0;
    assert(levels@.skip(0) =~= levels@);
    while i < levels.len()
        invariant
            i <= levels.len(),
            first_after(levels@, pk, buy) == i + first_after(levels@.skip(i as int), pk, buy),
        decreases levels.len() - i,
    {
        let l = levels[i];
        let after = if buy {
            l.0 < pk
        } else {
            l.0 > pk
        };
        assert(levels@.skip(i as int)[0] == l);
        if after {
            return i;
        }
        assert(levels@.skip(i as int).drop_first() =~= levels@.skip(i + 1));
        i = i + 1;
    }
    i
}

proof fn lemma_first_after_props(levels: Seq<(i64, u64)>, pk: i64, buy: bool)
    ensures
        forall|m: int| 0 <= m < first_after(levels, pk, buy) ==> !ranks_after(#[trigger] levels[m], pk, buy),
        first_after(levels, pk, buy) < levels.len() ==> ranks_after(levels[first_after(levels, pk, buy)], pk, buy),
    decreases levels.len(),
{
    lemma_first_after_bounds(levels, pk, buy);
    if levels.len() > 0 && !ranks_after(levels[0], pk, buy) {
        let rest = levels.drop_first();
        lemma_first_after_props(rest, pk, buy);
        assert forall|m: int| 0 <= m < first_after(levels, pk, buy) implies !ranks_after(
            #[trigger] levels[m],
            pk,
            buy,
        ) by {
            if m > 0 {
                assert(levels[m] == rest[m - 1]);
            }
        }
        lemma_first_after_bounds(rest, pk, buy);
        let f = first_after(rest, pk, buy);
        assert(first_after(levels, pk, buy) == 1 + f);
        if f < rest.len() {
            assert(levels[1 + f] == rest[f]);
        }
    }
}

/// Placing an order's level keeps levels in book order: one level per
/// price, best price first.
pub proof fn law_place_level_in_order(levels: Seq<(i64, u64)>, pk: i64, position: u64, buy: bool)
    requires
        levels_in_order(levels, buy),
        level_fits(levels, pk, position),
    ensures
        levels_in_order(place_level(levels, pk, position, buy), buy),
{
    let i = first_level_index(levels, pk);
    lemma_first_level_exists(levels, pk);
    let out = place_level(levels, pk, position, buy);
    if i < levels.len() {
        assert forall|a: int, b: int| #![trigger out[a], out[b]] 0 <= a < b < out.len() implies (if buy {
            out[a].0 > out[b].0
        } else {
            out[a].0 < out[b].0
        }) by {
            assert(out[a].0 == levels[a].0 && out[b].0 == levels[b].0);
            assert(levels[a] == levels[a] && levels[b] == levels[b]);
        }
    } else {
        let j = first_after(levels, pk, buy);
        lemma_first_after_props(levels, pk, buy);
        lemma_first_after_bounds(levels, pk, buy);
        assert forall|a: int, b: int| #![trigger out[a], out[b]] 0 <= a < b < out.len() implies (if buy {
            out[a].0 > out[b].0
        } else {
            out[a].0 < out[b].0
        }) by {
            if b < j {
                assert(out[a] == levels[a] && out[b] == levels[b]);
            } else if a > j {
                assert(out[a] == levels[a - 1] && out[b] == levels[b - 1]);
            } else if a == j {
                assert(out[a] == (pk, position) && out[b] == levels[b - 1]);
                assert(levels[j].0 != pk);
                if b - 1 > j {
                    assert(levels[j] == levels[j] && levels[b - 1] == levels[b - 1]);
                }
            } else if b == j {
                assert(out[a] == levels[a] && out[b] == (pk, position));
                assert(!ranks_after(levels[a], pk, buy));
                assert(levels[a].0 != pk);
            } else {
                assert(out[a] == levels[a] && out[b] == levels[b - 1]);
            }
        }
    }
}

/// Places an order's level, as `place_level` says.
pub fn place_order_level(levels: Vec<(i64, u64)>, pk: i64, position: u64, buy: bool) -> (r: Vec<(i64, u64)>)
    requires
        level_fits(levels@, pk, position),
    ensures
        r@ == place_level(levels@, pk, position, buy),
{
    let mut levels = levels;
    let i = find_level(&levels, pk);
    if i < levels.len() {
        let total = levels[i].1 + position;
        levels.set(i, (pk, total));
    } else {
        let j = find_after(&levels, pk, buy);
        proof {
            lemma_first_after_bounds(levels@, pk, buy);
        }
        levels.insert(j, (pk, position));
    }
    levels
}

/// The positions that the levels with price key `pk` hold together.
pub open spec fn level_total(levels: Seq<(i64, u64)>, pk: i64) -> int
    decreases levels.len(),
{
    if levels.len() == 0 {
        0
    } else {
        level_total(levels.drop_last(), pk) + if levels.last().0 == pk {
            levels.last().1 as int
        } else {
            0
        }
    }
}

proof fn lemma_total_concat(a: Seq<(i64, u64)>, b: Seq<(i64, u64)>, pk: i64)
    ensures
        level_total(a + b, pk) == level_total(a, pk) + level_total(b, pk),
    decreases b.len(),
{
    if b.len() == 0 {
        assert(a + b =~= a);
    } else {
        lemma_total_concat(a, b.drop_last(), pk);
        assert((a + b).drop_last() =~= a + b.drop_last());
        assert((a + b).last() == b.last());
    }
}

proof fn lemma_total_single(x: (i64, u64), pk: i64)
    ensures
        level_total(seq![x], pk) == if x.0 == pk {
            x.1 as int
        } else {
            0
        },
{
    assert(seq![x].drop_last() =~= Seq::<(i64, u64)>::empty());
    assert(level_total(Seq::<(i64, u64)>::empty(), pk) == 0);
    assert(seq![x].last() == x);
}

/// Placing an order's level adds its position to the total of its price
/// key and leaves the totals of every other key as they were.
pub proof fn law_place_level_counts(levels: Seq<(i64, u64)>, pk: i64, position: u64, buy: bool, q: i64)
    requires
        level_fits(levels, pk, position),
    ensures
        level_total(place_level(levels, pk, position, buy), q) == level_total(levels, q) + if q
            == pk {
            position as int
        } else {
            0
        },
{
    let i = first_level_index(levels, pk);
    lemma_first_level_exists(levels, pk);
    if i < levels.len() {
        let y = (pk, (levels[i].1 + position) as u64);
        assert(levels =~= levels.take(i) + seq![levels[i]] + levels.skip(i + 1));
        assert(levels.update(i, y) =~= levels.take(i) + seq![y] + levels.skip(i + 1));
        lemma_total_concat(levels.take(i) + seq![levels[i]], levels.skip(i + 1), q);
        lemma_total_concat(levels.take(i), seq![levels[i]], q);
        lemma_total_concat(levels.take(i) + seq![y], levels.skip(i + 1), q);
        lemma_total_concat(levels.take(i), seq![y], q);
        lemma_total_single(levels[i], q);
        lemma_total_single(y, q);
    } else {
        let j = first_after(levels, pk, buy);
        lemma_first_after_bounds(levels, pk, buy);
        let x = (pk, position);
        assert(levels =~= levels.take(j) + levels.skip(j));
        assert(levels.insert(j, x) =~= levels.take(j) + seq![x] + levels.skip(j));
        lemma_total_concat(levels.take(j) + seq![x], levels.skip(j), q);
        lemma_total_concat(levels.take(j), seq![x], q);
        lemma_total_concat(levels.take(j), levels.skip(j), q);
        lemma_total_single(x, q);
    }
}

/// The side keys that a block's orders touch, each once, in the order in
/// which they first come.
pub open spec fn block_keys(orders: Seq<BlockOrder>) -> Seq<Seq<u8>>
    decreases orders.len(),
{
    if orders.len() == 0 {
        Seq::empty()
    } else {
        let rest = block_keys(orders.drop_last());
        let k = order_key(orders.last());
        if rest.contains(k) {
            rest
        } else {
            rest.push(k)
        }
    }
}

/// No key occurs twice.
pub open spec fn distinct_keys(keys: Seq<Seq<u8>>) -> bool {
    forall|i: int, j: int| #![trigger keys[i], keys[j]] 0 <= i < j < keys.len() ==> keys[i] != keys[j]
}

proof fn lemma_block_keys(orders: Seq<BlockOrder>)
    ensures
        distinct_keys(block_keys(orders)),
        forall|j: int| 0 <= j < orders.len() ==> block_keys(orders).contains(order_key(#[trigger] orders[j])),
        forall|i: int| 0 <= i < block_keys(orders).len() ==> #[trigger] block_keys(orders)[i] != symbols_key_bytes(),
    decreases orders.len(),
{
    if orders.len() > 0 {
        let rest = orders.drop_last();
        lemma_block_keys(rest);
        let k = order_key(orders.last());
        lemma_side_key_not_symbols_key(orders.last().symbol@, orders.last().side@);
        assert forall|j: int| 0 <= j < orders.len() implies block_keys(orders).contains(
            order_key(#[trigger] orders[j]),
        ) by {
            if j < rest.len() {
                assert(rest[j] == orders[j]);
                assert(block_keys(rest).contains(order_key(rest[j])));
                let w = choose|w: int| 0 <= w < block_keys(rest).len() && block_keys(rest)[w] == order_key(rest[j]);
                assert(block_keys(orders)[w] == order_key(orders[j]));
            } else {
                if !block_keys(rest).contains(k) {
                    assert(block_keys(orders)[block_keys(rest).len() as int] == k);
                }
            }
        }
    }
}

/// The index at which key `k` stands in `keys`.
pub open spec fn key_index(keys: Seq<Seq<u8>>, k: Seq<u8>) -> int {
    choose|i: int| 0 <= i < keys.len() && keys[i] == k
}

proof fn lemma_key_index(keys: Seq<Seq<u8>>, i: int, k: Seq<u8>)
    requires
        distinct_keys(keys),
        0 <= i < keys.len(),
        keys[i] == k,
    ensures
        key_index(keys, k) == i,
{
    let j = key_index(keys, k);
    assert(0 <= j < keys.len() && keys[j] == k);
    if j < i {
        assert(keys[j] != keys[i]);
    } else if j > i {
        assert(keys[i] != keys[j]);
    }
}

/// The levels of each touched side (`sides[i]` for `keys[i]`) after the
/// orders are placed one after another; `None` where adding a position to
/// its level would overflow.
pub open spec fn sides_after(
    keys: Seq<Seq<u8>>,
    sides: Seq<Seq<(i64, u64)>>,
    orders: Seq<BlockOrder>,
) -> Option<Seq<Seq<(i64, u64)>>>
    decreases orders.len(),
{
    if orders.len() == 0 {
        Some(sides)
    } else {
        match sides_after(keys, sides, orders.drop_last()) {
            None => None,
            Some(s) => {
                let o = orders.last();
                let i = key_index(keys, order_key(o));
                if level_fits(s[i], o.price_key, o.position) {
                    Some(s.update(i, place_level(s[i], o.price_key, o.position, order_buy(o))))
                } else {
                    None
                }
            },
        }
    }
}

proof fn lemma_sides_after_none(
    keys: Seq<Seq<u8>>,
    sides: Seq<Seq<(i64, u64)>>,
    orders: Seq<BlockOrder>,
    t: int,
)
    requires
        0 <= t <= orders.len(),
        sides_after(keys, sides, orders.take(t)) is None,
    ensures
        sides_after(keys, sides, orders) is None,
    decreases orders.len(),
{
    if t == orders.len() {
        assert(orders.take(t) =~= orders);
    } else {
        assert(orders.drop_last().take(t) =~= orders.take(t));
        lemma_sides_after_none(keys, sides, orders.drop_last(), t);
    }
}

/// The symbol list with each order's symbol added where it is missing, in
/// the order the orders come.
pub open spec fn symbols_with(list: Seq<Seq<char>>, orders: Seq<BlockOrder>) -> Seq<Seq<char>>
    decreases orders.len(),
{
    if orders.len() == 0 {
        list
    } else {
        let rest = symbols_with(list, orders.drop_last());
        let s = orders.last().symbol@;
        if rest.contains(s) {
            rest
        } else {
            rest.push(s)
        }
    }
}

/// The levels that stored bytes hold, for each touched side.
pub open spec fn stored_sides(stored: Seq<Option<Seq<u8>>>) -> Seq<Seq<(i64, u64)>> {
    stored.map_values(|b: Option<Seq<u8>>| parsed_levels(b))
}

/// The views of optional byte vectors.
pub open spec fn opt_byte_views(stored: Seq<Option<Vec<u8>>>) -> Seq<Option<Seq<u8>>> {
    stored.map_values(|b: Option<Vec<u8>>| opt_bytes(b))
}

/// The views of level lists.
pub open spec fn level_lists(sides: Seq<Vec<(i64, u64)>>) -> Seq<Seq<(i64, u64)>> {
    sides.map_values(|v: Vec<(i64, u64)>| v@)
}

/// The writes of a committed block's book: the symbol list, then each
/// touched side's levels, all as JSON.
pub open spec fn committed_writes(
    keys: Seq<Seq<u8>>,
    symbols: Seq<Seq<char>>,
    sides: Seq<Seq<(i64, u64)>>,
) -> Seq<BatchOp> {
    seq![(symbols_key_bytes(), Some(json_strings(symbols)))] + Seq::new(
        keys.len(),
        |i: int| (keys[i], Some(json_levels(sides[i]))),
    )
}

/// The views of (key, value) writes.
pub open spec fn write_views(writes: Seq<(Vec<u8>, Vec<u8>)>) -> Seq<BatchOp> {
    writes.map_values(|w: (Vec<u8>, Vec<u8>)| (w.0@, Some(w.1@)))
}

/// The book that a committed block writes: the symbol list, the levels of
/// each side the block touches, and the writes that store them.
pub struct CommittedBook {
    pub symbols: Vec<String>,
    pub sides: Vec<Vec<(i64, u64)>>,
    pub writes: Vec<(Vec<u8>, Vec<u8>)>,
}

/// `b` is the book that a block with `orders` commits over the stored
/// levels `stored` (one for each of `block_keys(orders)`) and the stored
/// symbol list `stored_symbols`: every order placed in the levels of its
/// side, the symbols of the block added to the list and the list sorted,
/// and, where the block has orders, the writes of all of it.
pub open spec fn is_committed_book(
    orders: Seq<BlockOrder>,
    stored: Seq<Option<Seq<u8>>>,
    stored_symbols: Option<Seq<u8>>,
    b: CommittedBook,
) -> bool {
    let keys = block_keys(orders);
    let symbols = string_views(b.symbols@);
    let sides = level_lists(b.sides@);
    let listed = symbols_with(parsed_symbols(stored_symbols), orders);
    &&& sides_after(keys, stored_sides(stored), orders) == Some(sides)
    &&& is_byte_stable_sort(listed.map_values(|s: Seq<char>| text_bytes(s)), listed, symbols)
    &&& write_views(b.writes@) == if orders.len() == 0 {
        Seq::<BatchOp>::empty()
    } else {
        committed_writes(keys, symbols, sides)
    }
    &&& json_strings_parsed(json_strings(symbols)) == Some(symbols)
    &&& forall|i: int|
        0 <= i < sides.len() ==> json_levels_parsed(json_levels(#[trigger] sides[i])) == Some(
            sides[i],
        )
}

fn key_position(keys: &Vec<Vec<u8>>, k: &[u8]) -> (i: usize)
    ensures
        i <= keys.len(),
        forall|j: int| 0 <= j < i ==> (#[trigger] keys@[j])@ != k@,
        i < keys.len() ==> keys@[i as int]@ == k@,
{
    let mut i: usize = 0;
    while i < keys.len()
        invariant
            i <= keys.len(),
            forall|j: int| 0 <= j < i ==> (#[trigger] keys@[j])@ != k@,
        decreases keys.len() - i,
    {
        if bytes_equal(keys[i].as_slice(), k) {
            return i;
        }
        i = i + 1;
    }
    i
}

/// The side keys that a block's orders touch, as `block_keys` says: the
/// keys under which the stored levels are read for `committed_book`.
pub fn block_book_keys(orders: &Vec<BlockOrder>) -> (keys: Vec<Vec<u8>>)
    ensures
        byte_views(keys@) == block_keys(orders@),
{
    let mut keys: Vec<Vec<u8>> = Vec::new();
    let mut t: usize = 0;
    assert(orders@.take(0) =~= Seq::<BlockOrder>::empty());
    assert(byte_views(keys@) =~= Seq::<Seq<u8>>::empty());
    while t < orders.len()
        invariant
            t <= orders.len(),
            byte_views(keys@) == block_keys(orders@.take(t as int)),
        decreases orders.len() - t,
    {
        let k = side_key(orders[t].symbol.as_str(), orders[t].side.as_str());
        let p = key_position(&keys, k.as_slice());
        assert(orders@.take(t + 1).drop_last() =~= orders@.take(t as int));
        assert(orders@.take(t + 1).last() == orders@[t as int]);
        let ghost before = keys@;
        if p == keys.len() {
            proof {
                if byte_views(before).contains(k@) {
                    let j = choose|j: int| 0 <= j < before.len() && byte_views(before)[j] == k@;
                    assert(before[j]@ == k@);
                }
            }
            keys.push(k);
            assert(byte_views(keys@) =~= byte_views(before).push(k@));
        } else {
            assert(byte_views(before)[p as int] == k@);
        }
        t = t + 1;
    }
    assert(orders@.take(orders.len() as int) =~= orders@);
    keys
}

/// The book that a committed block writes, as `is_committed_book` says;
/// `None` where adding an order's position to its level would overflow.
/// `stored[i]` is what the application state holds under the `i`-th key of
/// `block_book_keys(orders)`, and `stored_symbols` what it holds under the
/// symbol-list key.
pub fn committed_book(
    orders: &Vec<BlockOrder>,
    stored: &Vec<Option<Vec<u8>>>,
    stored_symbols: &Option<Vec<u8>>,
) -> (r: Option<CommittedBook>)
    requires
        stored.len() == block_keys(orders@).len(),
    ensures
        match r {
            None => sides_after(
                block_keys(orders@),
                stored_sides(opt_byte_views(stored@)),
                orders@,
            ) is None,
            Some(b) => is_committed_book(orders@, opt_byte_views(stored@), opt_bytes(*stored_symbols), b),
        },
{
    let keys = block_book_keys(orders);
    let ghost kv = block_keys(orders@);
    proof {
        lemma_block_keys(orders@);
    }
    let ghost init = stored_sides(opt_byte_views(stored@));
    let mut sides: Vec<Vec<(i64, u64)>> = Vec::new();
    let mut i: usize = 0;
    while i < stored.len()
        invariant
            i <= stored.len(),
            sides.len() == i,
            init == stored_sides(opt_byte_views(stored@)),
            forall|j: int| 0 <= j < i ==> (#[trigger] sides@[j])@ == init[j],
        decreases stored.len() - i,
    {
        let levels = decode_levels(&stored[i]);
        sides.push(levels);
        i = i + 1;
    }
    assert(level_lists(sides@) =~= init);
    let mut t: usize = 0;
    assert(orders@.take(0) =~= Seq::<BlockOrder>::empty());
    while t < orders.len()
        invariant
            t <= orders.len(),
            byte_views(keys@) == kv,
            kv == block_keys(orders@),
            init == stored_sides(opt_byte_views(stored@)),
            distinct_keys(kv),
            forall|j: int| 0 <= j < orders.len() ==> kv.contains(order_key(#[trigger] orders@[j])),
            sides.len() == kv.len(),
            sides_after(kv, init, orders@.take(t as int)) == Some(level_lists(sides@)),
        decreases orders.len() - t,
    {
        let o = &orders[t];
        let k = side_key(o.symbol.as_str(), o.side.as_str());
        let p = key_position(&keys, k.as_slice());
        proof {
            assert(kv.contains(order_key(orders@[t as int])));
            let j = choose|j: int| 0 <= j < kv.len() && kv[j] == k@;
            assert(keys@[j]@ == k@);
            assert(kv[p as int] == k@);
            lemma_key_index(kv, p as int, k@);
        }
        assert(orders@.take(t + 1).drop_last() =~= orders@.take(t as int));
        assert(orders@.take(t + 1).last() == orders@[t as int]);
        let ghost before = sides@;
        let cur = sides.remove(p);
        assert(cur@ == level_lists(before)[p as int]);
        if !level_fits_order(&cur, o.price_key, o.position) {
            proof {
                let pre = orders@.take(t + 1);
                assert(pre.drop_last() =~= orders@.take(t as int));
                assert(pre.last() == *o);
                assert(order_key(*o) == k@);
                assert(key_index(kv, order_key(pre.last())) == p);
                assert(level_lists(before)[p as int] == cur@);
                assert(!level_fits(cur@, o.price_key, o.position));
                assert(sides_after(kv, init, pre) is None);
                lemma_sides_after_none(kv, init, orders@, t + 1);
            }
            return None;
        }
        let ghost removed = sides@;
        let placed = place_order_level(cur, o.price_key, o.position, is_buy(o.side.as_str()));
        sides.insert(p, placed);
        proof {
            before.remove_ensures(p as int);
            removed.insert_ensures(p as int, sides@[p as int]);
            assert(level_lists(sides@) =~= level_lists(before).update(
                p as int,
                place_level(level_lists(before)[p as int], o.price_key, o.position, order_buy(*o)),
            ));
        }
        t = t + 1;
    }
    assert(orders@.take(orders.len() as int) =~= orders@);
    let ghost start = parsed_symbols(opt_bytes(*stored_symbols));
    let mut list = decode_symbols(stored_symbols);
    let mut t: usize = 0;
    while t < orders.len()
        invariant
            t <= orders.len(),
            string_views(list@) == symbols_with(start, orders@.take(t as int)),
        decreases orders.len() - t,
    {
        assert(orders@.take(t + 1).drop_last() =~= orders@.take(t as int));
        assert(orders@.take(t + 1).last() == orders@[t as int]);
        if !symbol_listed(&list, &orders[t].symbol) {
            let ghost before = string_views(list@);
            list.push(orders[t].symbol.clone());
            assert(string_views(list@) =~= before.push(orders@[t as int].symbol@));
        }
        t = t + 1;
    }
    let symbols = sort_symbols(list);
    let ghost sv = string_views(symbols@);
    let ghost lists = level_lists(sides@);
    let mut writes: Vec<(Vec<u8>, Vec<u8>)> = Vec::new();
    let symbols_bytes = string_list_json(&symbols);
    writes.push((symbols_key(), symbols_bytes));
    let mut i: usize = 0;
    assert(write_views(writes@) =~= committed_writes(kv.take(0), sv, lists));
    while i < keys.len()
        invariant
            i <= keys.len(),
            byte_views(keys@) == kv,
            sides.len() == kv.len(),
            lists == level_lists(sides@),
            write_views(writes@) == committed_writes(kv.take(i as int), sv, lists),
            forall|j: int|
                0 <= j < i ==> json_levels_parsed(json_levels(#[trigger] lists[j])) == Some(lists[j]),
        decreases keys.len() - i,
    {
        let bytes = levels_json(&sides[i]);
        let key = copy_bytes(keys[i].as_slice());
        let ghost before = writes@;
        writes.push((key, bytes));
        assert(lists[i as int] == sides@[i as int]@);
        assert(kv[i as int] == keys@[i as int]@);
        assert(write_views(writes@) =~= write_views(before).push((kv[i as int], Some(json_levels(lists[i as int])))));
        assert(Seq::new((i + 1) as nat, |j: int| (kv.take(i + 1)[j], Some(json_levels(lists[j])))) =~= Seq::new(i as nat, |j: int| (kv.take(i as int)[j], Some(json_levels(lists[j])))).push((kv[i as int], Some(json_levels(lists[i as int])))));
        assert(write_views(writes@) =~= committed_writes(kv.take(i + 1), sv, lists));
        i = i + 1;
    }
    assert(kv.take(kv.len() as int) =~= kv);
    let writes = if orders.len() == 0 {
        Vec::new()
    } else {
        writes
    };
    assert(orders.len() == 0 ==> write_views(writes@) =~= Seq::<BatchOp>::empty());
    Some(CommittedBook { symbols, sides, writes })
}

/// Two books committed for the same block over the same stored state are
/// the same: a replica that checks a block writes what its leader wrote.
pub proof fn law_committed_book_unique(
    orders: Seq<BlockOrder>,
    stored: Seq<Option<Seq<u8>>>,
    stored_symbols: Option<Seq<u8>>,
    b1: CommittedBook,
    b2: CommittedBook,
)
    requires
        is_committed_book(orders, stored, stored_symbols, b1),
        is_committed_book(orders, stored, stored_symbols, b2),
    ensures
        string_views(b1.symbols@) == string_views(b2.symbols@),
        level_lists(b1.sides@) == level_lists(b2.sides@),
        write_views(b1.writes@) == write_views(b2.writes@),
{
    let listed = symbols_with(parsed_symbols(stored_symbols), orders);
    law_byte_stable_sort_unique(
        listed.map_values(|s: Seq<char>| text_bytes(s)),
        listed,
        string_views(b1.symbols@),
        string_views(b2.symbols@),
    );
}

/// A committed book reads back as written: after its writes, the symbol
/// list key holds the symbols and each touched side key holds its levels.
pub proof fn law_committed_book_reads_back(
    m: Map<Seq<u8>, Seq<u8>>,
    orders: Seq<BlockOrder>,
    symbols: Seq<Seq<char>>,
    sides: Seq<Seq<(i64, u64)>>,
)
    requires
        sides.len() == block_keys(orders).len(),
        json_strings_parsed(json_strings(symbols)) == Some(symbols),
        forall|i: int|
            0 <= i < sides.len() ==> json_levels_parsed(json_levels(#[trigger] sides[i])) == Some(
                sides[i],
            ),
    ensures
        ({
            let keys = block_keys(orders);
            let after = apply_ops(m, committed_writes(keys, symbols, sides));
            &&& parsed_symbols(crate::api::stored(after, symbols_key_bytes())) == symbols
            &&& forall|i: int|
                0 <= i < keys.len() ==> parsed_levels(crate::api::stored(after, #[trigger] keys[i]))
                    == sides[i]
        }),
{
    let keys = block_keys(orders);
    lemma_block_keys(orders);
    let ops = committed_writes(keys, symbols, sides);
    assert forall|j: int| 0 < j < ops.len() implies (#[trigger] ops[j]).0 != ops[0].0 by {
        assert(ops[j].0 == keys[j - 1]);
    }
    law_last_write_wins(m, ops, 0);
    assert forall|i: int| 0 <= i < keys.len() implies parsed_levels(
        crate::api::stored(apply_ops(m, ops), #[trigger] keys[i]),
    ) == sides[i] by {
        assert(ops[i + 1] == (keys[i], Some(json_levels(sides[i]))));
        assert forall|j: int| i + 1 < j < ops.len() implies (#[trigger] ops[j]).0 != ops[i + 1].0 by {
            assert(ops[j].0 == keys[j - 1]);
            assert(keys[i] != keys[j - 1]);
        }
        law_last_write_wins(m, ops, i + 1);
    }
}

/// The positions that the orders with side key `k` and price key `q`
/// bring together.
pub open spec fn orders_total(orders: Seq<BlockOrder>, k: Seq<u8>, q: i64) -> int
    decreases orders.len(),
{
    if orders.len() == 0 {
        0
    } else {
        orders_total(orders.drop_last(), k, q) + if order_key(orders.last()) == k
            && orders.last().price_key == q {
            orders.last().position as int
        } else {
            0
        }
    }
}

proof fn lemma_sides_counted(
    keys: Seq<Seq<u8>>,
    init: Seq<Seq<(i64, u64)>>,
    orders: Seq<BlockOrder>,
    fin: Seq<Seq<(i64, u64)>>,
)
    requires
        distinct_keys(keys),
        init.len() == keys.len(),
        forall|j: int| 0 <= j < orders.len() ==> keys.contains(order_key(#[trigger] orders[j])),
        sides_after(keys, init, orders) == Some(fin),
    ensures
        fin.len() == keys.len(),
        forall|i: int, q: i64|
            0 <= i < keys.len() ==> #[trigger] level_total(fin[i], q) == level_total(init[i], q)
                + orders_total(orders, keys[i], q),
    decreases orders.len(),
{
    if orders.len() == 0 {
        assert(fin == init);
    } else {
        let rest = orders.drop_last();
        assert forall|j: int| 0 <= j < rest.len() implies keys.contains(order_key(#[trigger] rest[j])) by {
            assert(rest[j] == orders[j]);
        }
        let s = sides_after(keys, init, rest).unwrap();
        lemma_sides_counted(keys, init, rest, s);
        let o = orders.last();
        assert(o == orders[orders.len() - 1]);
        assert(keys.contains(order_key(o)));
        let idx = key_index(keys, order_key(o));
        assert(0 <= idx < keys.len() && keys[idx] == order_key(o));
        assert(level_fits(s[idx], o.price_key, o.position));
        assert(fin == s.update(idx, place_level(s[idx], o.price_key, o.position, order_buy(o))));
        assert forall|i: int, q: i64| 0 <= i < keys.len() implies #[trigger] level_total(fin[i], q)
            == level_total(init[i], q) + orders_total(orders, keys[i], q) by {
            assert(level_total(s[i], q) == level_total(init[i], q) + orders_total(rest, keys[i], q));
            if i == idx {
                law_place_level_counts(s[idx], o.price_key, o.position, order_buy(o), q);
            } else {
                if i < idx {
                    assert(keys[i] != keys[idx]);
                } else {
                    assert(keys[idx] != keys[i]);
                }
            }
        }
    }
}

/// Every order of a committed block is counted in the book: its side's
/// key is among the keys the block writes, and under each written key the
/// positions at each price key are those stored before plus those of the
/// block's orders for that side and price.
pub proof fn law_block_orders_counted(
    orders: Seq<BlockOrder>,
    init: Seq<Seq<(i64, u64)>>,
    fin: Seq<Seq<(i64, u64)>>,
)
    requires
        init.len() == block_keys(orders).len(),
        sides_after(block_keys(orders), init, orders) == Some(fin),
    ensures
        fin.len() == init.len(),
        forall|j: int| 0 <= j < orders.len() ==> block_keys(orders).contains(order_key(#[trigger] orders[j])),
        forall|i: int, q: i64|
            0 <= i < block_keys(orders).len() ==> #[trigger] level_total(fin[i], q) == level_total(
                init[i],
                q,
            ) + orders_total(orders, block_keys(orders)[i], q),
{
    lemma_block_keys(orders);
    lemma_sides_counted(block_keys(orders), init, orders, fin);
}

/// A side key names the buy side: it ends in ":buy" (a sell-side key ends
/// in ":sell").
pub open spec fn key_is_buy(k: Seq<u8>) -> bool {
    k.len() > 0 && k.last() == 121u8
}

proof fn lemma_order_key_side(o: BlockOrder)
    ensures
        key_is_buy(order_key(o)) == order_buy(o),
{
    let t = text_bytes(o.symbol@);
    if order_buy(o) {
        assert(order_key(o) == book_prefix() + t + buy_suffix());
        assert(order_key(o).last() == 121u8);
    } else {
        assert(order_key(o) == book_prefix() + t + sell_suffix());
        assert(order_key(o).last() == 108u8);
    }
}

proof fn lemma_sides_in_order(
    keys: Seq<Seq<u8>>,
    init: Seq<Seq<(i64, u64)>>,
    orders: Seq<BlockOrder>,
    fin: Seq<Seq<(i64, u64)>>,
)
    requires
        distinct_keys(keys),
        init.len() == keys.len(),
        forall|j: int| 0 <= j < orders.len() ==> keys.contains(order_key(#[trigger] orders[j])),
        forall|i: int| 0 <= i < keys.len() ==> levels_in_order(#[trigger] init[i], key_is_buy(keys[i])),
        sides_after(keys, init, orders) == Some(fin),
    ensures
        fin.len() == keys.len(),
        forall|i: int| 0 <= i < keys.len() ==> levels_in_order(#[trigger] fin[i], key_is_buy(keys[i])),
    decreases orders.len(),
{
    if orders.len() == 0 {
        assert(fin == init);
    } else {
        let rest = orders.drop_last();
        assert forall|j: int| 0 <= j < rest.len() implies keys.contains(order_key(#[trigger] rest[j])) by {
            assert(rest[j] == orders[j]);
        }
        let s = sides_after(keys, init, rest).unwrap();
        lemma_sides_in_order(keys, init, rest, s);
        let o = orders.last();
        assert(o == orders[orders.len() - 1]);
        assert(keys.contains(order_key(o)));
        let idx = key_index(keys, order_key(o));
        assert(0 <= idx < keys.len() && keys[idx] == order_key(o));
        lemma_order_key_side(o);
        law_place_level_in_order(s[idx], o.price_key, o.position, order_buy(o));
        assert forall|i: int| 0 <= i < keys.len() implies levels_in_order(#[trigger] fin[i], key_is_buy(keys[i])) by {
            if i != idx {
                assert(fin[i] == s[i]);
            }
        }
    }
}

/// A committed book stays in book order: where each touched side was
/// stored in book order (one level per price, best price first), each is
/// so after the block.
pub proof fn law_committed_sides_in_order(
    orders: Seq<BlockOrder>,
    init: Seq<Seq<(i64, u64)>>,
    fin: Seq<Seq<(i64, u64)>>,
)
    requires
        init.len() == block_keys(orders).len(),
        forall|i: int|
            0 <= i < init.len() ==> levels_in_order(#[trigger] init[i], key_is_buy(block_keys(orders)[i])),
        sides_after(block_keys(orders), init, orders) == Some(fin),
    ensures
        forall|i: int|
            0 <= i < fin.len() ==> levels_in_order(#[trigger] fin[i], key_is_buy(block_keys(orders)[i])),
{
    lemma_block_keys(orders);
    lemma_sides_in_order(block_keys(orders), init, orders, fin);
}

proof fn lemma_symbols_with_has(list: Seq<Seq<char>>, orders: Seq<BlockOrder>)
    ensures
        forall|j: int| 0 <= j < orders.len() ==> symbols_with(list, orders).contains(#[trigger] orders[j].symbol@),
    decreases orders.len(),
{
    if orders.len() > 0 {
        let rest = orders.drop_last();
        lemma_symbols_with_has(list, rest);
        let r = symbols_with(list, rest);
        assert forall|j: int| 0 <= j < orders.len() implies symbols_with(list, orders).contains(
            #[trigger] orders[j].symbol@,
        ) by {
            if j < rest.len() {
                assert(rest[j] == orders[j]);
                assert(r.contains(rest[j].symbol@));
                if !r.contains(orders.last().symbol@) {
                    let w = choose|w: int| 0 <= w < r.len() && r[w] == orders[j].symbol@;
                    assert(r.push(orders.last().symbol@)[w] == orders[j].symbol@);
                }
            } else if !r.contains(orders.last().symbol@) {
                assert(r.push(orders.last().symbol@)[r.len() as int] == orders.last().symbol@);
            }
        }
    }
}

proof fn lemma_level_total_nonneg(levels: Seq<(i64, u64)>, pk: i64)
    ensures
        level_total(levels, pk) >= 0,
    decreases levels.len(),
{
    if levels.len() > 0 {
        lemma_level_total_nonneg(levels.drop_last(), pk);
    }
}

proof fn lemma_orders_total_has(orders: Seq<BlockOrder>, j: int)
    requires
        0 <= j < orders.len(),
    ensures
        orders_total(orders, order_key(orders[j]), orders[j].price_key) >= orders[j].position,
    decreases orders.len(),
{
    let k = order_key(orders[j]);
    let q = orders[j].price_key;
    lemma_orders_total_nonneg(orders.drop_last(), k, q);
    if j < orders.len() - 1 {
        assert(orders.drop_last()[j] == orders[j]);
        lemma_orders_total_has(orders.drop_last(), j);
    }
}

proof fn lemma_orders_total_nonneg(orders: Seq<BlockOrder>, k: Seq<u8>, q: i64)
    ensures
        orders_total(orders, k, q) >= 0,
    decreases orders.len(),
{
    if orders.len() > 0 {
        lemma_orders_total_nonneg(orders.drop_last(), k, q);
    }
}

/// The served book shows what a block committed: after the writes of a
/// block's committed book, the symbols served (the committed list, or the
/// store's where that is empty) list each order's symbol, and the levels
/// served for its side hold at its price key at least its position.
pub proof fn law_committed_orders_served(
    m: Map<Seq<u8>, Seq<u8>>,
    orders: Seq<BlockOrder>,
    stored_levels: Seq<Option<Seq<u8>>>,
    stored_symbols: Option<Seq<u8>>,
    b: CommittedBook,
    raw_symbols: Option<Seq<u8>>,
    raw_levels: Option<Seq<u8>>,
    j: int,
)
    requires
        stored_levels.len() == block_keys(orders).len(),
        is_committed_book(orders, stored_levels, stored_symbols, b),
        0 <= j < orders.len(),
    ensures
        ({
            let after = apply_ops(m, write_views(b.writes@));
            let o = orders[j];
            &&& symbols_preferring(crate::api::stored(after, symbols_key_bytes()), raw_symbols).contains(
                o.symbol@,
            )
            &&& level_total(
                levels_preferring(crate::api::stored(after, order_key(o)), raw_levels),
                o.price_key,
            ) >= o.position
        }),
{
    let keys = block_keys(orders);
    let symbols = string_views(b.symbols@);
    let sides = level_lists(b.sides@);
    let init = stored_sides(stored_levels);
    let o = orders[j];
    lemma_block_keys(orders);
    law_block_orders_counted(orders, init, sides);
    law_committed_book_reads_back(m, orders, symbols, sides);
    let after = apply_ops(m, write_views(b.writes@));
    assert(write_views(b.writes@) == committed_writes(keys, symbols, sides));
    // the symbol
    let listed = symbols_with(parsed_symbols(stored_symbols), orders);
    lemma_symbols_with_has(parsed_symbols(stored_symbols), orders);
    assert(listed.contains(orders[j].symbol@));
    lemma_byte_sort_keeps(listed.map_values(|s: Seq<char>| text_bytes(s)), listed, symbols, o.symbol@);
    assert(parsed_symbols(crate::api::stored(after, symbols_key_bytes())) == symbols);
    assert(symbols.len() > 0);
    // the level
    assert(keys.contains(order_key(o)));
    let i = choose|i: int| 0 <= i < keys.len() && keys[i] == order_key(o);
    assert(parsed_levels(crate::api::stored(after, keys[i])) == sides[i]);
    lemma_level_total_nonneg(init[i], o.price_key);
    lemma_orders_total_has(orders, j);
    assert(level_total(sides[i], o.price_key) >= o.position);
    let served = levels_preferring(crate::api::stored(after, order_key(o)), raw_levels);
    if sides[i].len() == 0 {
        assert(level_total(sides[i], o.price_key) == 0);
        lemma_level_total_nonneg(served, o.price_key);
    }
}

proof fn lemma_first_level_within_total(levels: Seq<(i64, u64)>, pk: i64)
    ensures
        first_level_index(levels, pk) < levels.len() ==> levels[first_level_index(levels, pk)].1
            <= level_total(levels, pk),
{
    let i = first_level_index(levels, pk);
    lemma_first_level_exists(levels, pk);
    if i < levels.len() {
        assert(levels =~= levels.take(i) + seq![levels[i]] + levels.skip(i + 1));
        lemma_total_concat(levels.take(i) + seq![levels[i]], levels.skip(i + 1), pk);
        lemma_total_concat(levels.take(i), seq![levels[i]], pk);
        lemma_total_single(levels[i], pk);
        lemma_level_total_nonneg(levels.take(i), pk);
        lemma_level_total_nonneg(levels.skip(i + 1), pk);
    }
}

/// An order's position fits its level unless adding it would overflow: it
/// fits whenever the positions at its price key plus its own stay within
/// `u64`, and always when no level has its price key yet.
pub proof fn law_level_fits_unless_overflow(levels: Seq<(i64, u64)>, pk: i64, position: u64)
    ensures
        level_total(levels, pk) + position <= u64::MAX ==> level_fits(levels, pk, position),
        (forall|j: int| 0 <= j < levels.len() ==> (#[trigger] levels[j]).0 != pk) ==> level_fits(
            levels,
            pk,
            position,
        ),
{
    lemma_first_level_within_total(levels, pk);
    lemma_first_level_exists(levels, pk);
    let i = first_level_index(levels, pk);
    if (forall|j: int| 0 <= j < levels.len() ==> (#[trigger] levels[j]).0 != pk) {
        if i < levels.len() {
            assert(levels[i].0 == pk);
        }
    }
}

proof fn lemma_orders_total_grows(orders: Seq<BlockOrder>, k: Seq<u8>, q: i64)
    requires
        orders.len() > 0,
    ensures
        orders_total(orders.drop_last(), k, q) <= orders_total(orders, k, q),
{
}

proof fn lemma_sides_some(keys: Seq<Seq<u8>>, init: Seq<Seq<(i64, u64)>>, orders: Seq<BlockOrder>)
    requires
        distinct_keys(keys),
        init.len() == keys.len(),
        forall|j: int| 0 <= j < orders.len() ==> keys.contains(order_key(#[trigger] orders[j])),
        forall|i: int, q: i64|
            0 <= i < keys.len() ==> #[trigger] level_total(init[i], q) + orders_total(orders, keys[i], q)
                <= u64::MAX,
    ensures
        sides_after(keys, init, orders) is Some,
    decreases orders.len(),
{
    if orders.len() > 0 {
        let rest = orders.drop_last();
        assert forall|j: int| 0 <= j < rest.len() implies keys.contains(order_key(#[trigger] rest[j])) by {
            assert(rest[j] == orders[j]);
        }
        assert forall|i: int, q: i64| 0 <= i < keys.len() implies #[trigger] level_total(init[i], q)
            + orders_total(rest, keys[i], q) <= u64::MAX by {
            assert(level_total(init[i], q) + orders_total(orders, keys[i], q) <= u64::MAX);
            lemma_orders_total_grows(orders, keys[i], q);
        }
        lemma_sides_some(keys, init, rest);
        let s = sides_after(keys, init, rest).unwrap();
        lemma_sides_counted(keys, init, rest, s);
        let o = orders.last();
        assert(o == orders[orders.len() - 1]);
        assert(keys.contains(order_key(o)));
        let idx = key_index(keys, order_key(o));
        assert(0 <= idx < keys.len() && keys[idx] == order_key(o));
        assert(level_total(init[idx], o.price_key) + orders_total(orders, keys[idx], o.price_key)
            <= u64::MAX);
        assert(level_total(s[idx], o.price_key) == level_total(init[idx], o.price_key) + orders_total(
            rest,
            keys[idx],
            o.price_key,
        ));
        law_level_fits_unless_overflow(s[idx], o.price_key, o.position);
    }
}

/// A block's book is committed unless a position would overflow: where,
/// for every touched side and price key, the positions stored there plus
/// those the block brings stay within `u64`, placing the block's orders
/// succeeds (and `committed_book` gives `Some`), however many prices and
/// sides the block has.
pub proof fn law_block_commits_unless_overflow(orders: Seq<BlockOrder>, init: Seq<Seq<(i64, u64)>>)
    requires
        init.len() == block_keys(orders).len(),
        forall|i: int, q: i64|
            0 <= i < init.len() ==> #[trigger] level_total(init[i], q) + orders_total(
                orders,
                block_keys(orders)[i],
                q,
            ) <= u64::MAX,
    ensures
        sides_after(block_keys(orders), init, orders) is Some,
{
    lemma_block_keys(orders);
    lemma_sides_some(block_keys(orders), init, orders);
}

/// The symbol list a block leaves holds exactly the symbols listed before
/// and those of the block's orders.
pub proof fn law_symbols_with_exact(list: Seq<Seq<char>>, orders: Seq<BlockOrder>)
    ensures
        forall|x: Seq<char>|
            #[trigger] symbols_with(list, orders).contains(x) <==> (list.contains(x) || exists|j: int|
                0 <= j < orders.len() && (#[trigger] orders[j]).symbol@ == x),
    decreases orders.len(),
{
    if orders.len() > 0 {
        let rest = orders.drop_last();
        law_symbols_with_exact(list, rest);
        let r = symbols_with(list, rest);
        let last = orders.last();
        assert(last == orders[orders.len() - 1]);
        assert forall|x: Seq<char>| #[trigger] symbols_with(list, orders).contains(x) <==> (list.contains(x)
            || exists|j: int| 0 <= j < orders.len() && (#[trigger] orders[j]).symbol@ == x) by {
            if exists|j: int| 0 <= j < orders.len() && (#[trigger] orders[j]).symbol@ == x {
                let j = choose|j: int| 0 <= j < orders.len() && (#[trigger] orders[j]).symbol@ == x;
                if j < rest.len() {
                    assert(rest[j] == orders[j]);
                }
            }
            if exists|j: int| 0 <= j < rest.len() && (#[trigger] rest[j]).symbol@ == x {
                let j = choose|j: int| 0 <= j < rest.len() && (#[trigger] rest[j]).symbol@ == x;
                assert(rest[j] == orders[j]);
            }
            if !r.contains(last.symbol@) {
                let r2 = r.push(last.symbol@);
                if r2.contains(x) {
                    let w = choose|w: int| 0 <= w < r2.len() && r2[w] == x;
                    if w < r.len() {
                        assert(r[w] == x);
                    }
                }
                if r.contains(x) {
                    let w = choose|w: int| 0 <= w < r.len() && r[w] == x;
                    assert(r2[w] == x);
                }
                if x == last.symbol@ {
                    assert(r2[r.len() as int] == x);
                }
            }
        }
    }
}

/// A committed book names exactly the symbols stored before and those of
/// the block's orders: no stored symbol is lost, and no other is added.
pub proof fn law_committed_symbols(
    orders: Seq<BlockOrder>,
    stored_levels: Seq<Option<Seq<u8>>>,
    stored_symbols: Option<Seq<u8>>,
    b: CommittedBook,
)
    requires
        is_committed_book(orders, stored_levels, stored_symbols, b),
    ensures
        forall|x: Seq<char>|
            #[trigger] string_views(b.symbols@).contains(x) <==> (parsed_symbols(stored_symbols).contains(x)
                || exists|j: int| 0 <= j < orders.len() && (#[trigger] orders[j]).symbol@ == x),
{
    let listed = symbols_with(parsed_symbols(stored_symbols), orders);
    let keys = listed.map_values(|s: Seq<char>| text_bytes(s));
    let symbols = string_views(b.symbols@);
    law_symbols_with_exact(parsed_symbols(stored_symbols), orders);
    let p = choose|p: Seq<int>| byte_sorted_stably(keys, listed, symbols, p);
    assert forall|x: Seq<char>| #[trigger] symbols.contains(x) <==> listed.contains(x) by {
        if listed.contains(x) {
            lemma_byte_sort_keeps(keys, listed, symbols, x);
        }
        if symbols.contains(x) {
            let k = choose|k: int| 0 <= k < symbols.len() && symbols[k] == x;
            assert(listed[p[k]] == x);
        }
    }
}

} // verus!
