//! What the HTTP interface computes: the status answer, the order book
//! kept directly in the store when a single replica runs alone, and how
//! the book is read back, preferring the committed application state.
use vstd::prelude::*;
use crate::bytes::{copy_bytes, lemma_lex_irreflexive, lemma_lex_total, lex_lt};
use vstd::utf8::encode_utf8_decode_utf8;
use crate::codec::{
    base64_encode, base64_text, json_levels, json_levels_parsed, json_strings, json_strings_parsed,
    levels_json, parse_levels, parse_string_list, string_list_json, string_views,
};
use crate::kv::{KVStore, WriteBatch, BatchOp, apply_ops, law_last_write_wins};
use crate::orders::{
    buy_suffix, book_prefix, is_buy, is_buy_text, sell_suffix, side_key,
    side_key_of, text_bytes,
};
use crate::sort::{
    is_byte_stable_sort, is_stable_sort, sorted_stably, key_bytes, lemma_byte_sort_map,
    byte_sorted_stably, lemma_byte_sort_keeps, lemma_stable_sort_keeps, stable_sort_by_bytes,
    stable_sort_by_keys,
};

verus! {

/// The answer to a status request: this node's verifying key (base64) and
/// the base64 of the first datum of the highest committed block, if any.
pub struct StatusResponse {
    pub me: String,
    pub latest_block_b64: Option<String>,
}

/// Builds the status answer from this node's key text and the first datum
/// of the highest committed block.
pub fn status_response(me: String, latest_datum: Option<Vec<u8>>) -> (r: StatusResponse)
    requires
        latest_datum matches Some(d) ==> d.len() / 3 * 4 + 4 <= usize::MAX,
    ensures
        r.me == me,
        match latest_datum {
            Some(d) => r.latest_block_b64 matches Some(t) && t@ == base64_text(d@),
            None => r.latest_block_b64 is None,
        },
{
    let latest_block_b64 = match latest_datum {
        Some(d) => Some(base64_encode(d.as_slice())),
        None => None,
    };
    StatusResponse { me, latest_block_b64 }
}

/// The bytes of "book::symbols", the key under which the list of symbols
/// with a book is stored.
pub open spec fn symbols_key_bytes() -> Seq<u8> {
    seq![98u8, 111u8, 111u8, 107u8, 58u8, 58u8, 115u8, 121u8, 109u8, 98u8, 111u8, 108u8, 115u8]
}

/// The key under which the list of symbols with a book is stored.
pub fn symbols_key() -> (key: Vec<u8>)
    ensures
        key@ == symbols_key_bytes(),
{
    let key: Vec<u8> = vec![98, 111, 111, 107, 58, 58, 115, 121, 109, 98, 111, 108, 115];
    assert(key@ =~= symbols_key_bytes());
    key
}

/// What a store holds under a key.
pub open spec fn stored(m: Map<Seq<u8>, Seq<u8>>, key: Seq<u8>) -> Option<Seq<u8>> {
    if m.contains_key(key) {
        Some(m[key])
    } else {
        None
    }
}

/// The views of optional bytes.
pub open spec fn opt_bytes(o: Option<Vec<u8>>) -> Option<Seq<u8>> {
    match o {
        Some(b) => Some(b@),
        None => None,
    }
}

/// The symbol list that stored bytes hold: the JSON list, or an empty
/// list where there are no bytes or they are not such JSON.
pub open spec fn parsed_symbols(bytes: Option<Seq<u8>>) -> Seq<Seq<char>> {
    match bytes {
        Some(b) => match json_strings_parsed(b) {
            Some(l) => l,
            None => Seq::empty(),
        },
        None => Seq::empty(),
    }
}

/// The price levels that stored bytes hold: the JSON list of (price key,
/// position) pairs, or an empty list where there are no bytes or they are
/// not such JSON.
pub open spec fn parsed_levels(bytes: Option<Seq<u8>>) -> Seq<(i64, u64)> {
    match bytes {
        Some(b) => match json_levels_parsed(b) {
            Some(l) => l,
            None => Seq::empty(),
        },
        None => Seq::empty(),
    }
}

/// The symbol list after an order for `symbol`: unchanged if the symbol is
/// there, else the symbol added and the list sorted (by the bytes of the
/// texts).
pub open spec fn symbols_updated(old: Seq<Seq<char>>, symbol: Seq<char>, new: Seq<Seq<char>>) -> bool {
    if old.contains(symbol) {
        new == old
    } else {
        is_byte_stable_sort(
            old.push(symbol).map_values(|s: Seq<char>| text_bytes(s)),
            old.push(symbol),
            new,
        )
    }
}

pub(crate) fn symbol_listed(symbols: &Vec<String>, symbol: &String) -> (r: bool)
    ensures
        r == string_views(symbols@).contains(symbol@),
{
    let mut i: usize = 0;
    while i < symbols.len()
        invariant
            i <= symbols.len(),
            forall|j: int| 0 <= j < i ==> symbols@[j]@ != symbol@,
        decreases symbols.len() - i,
    {
        if symbols[i] == *symbol {
            assert(string_views(symbols@)[i as int] == symbol@);
            return true;
        }
        i = i + 1;
    }
    proof {
        if string_views(symbols@).contains(symbol@) {
            let j = choose|j: int| 0 <= j < symbols@.len() && string_views(symbols@)[j] == symbol@;
            assert(symbols@[j]@ == symbol@);
        }
    }
    false
}

/// The symbols are in order, each once: strictly rising by the bytes of
/// their texts.
pub open spec fn symbols_in_order(list: Seq<Seq<char>>) -> bool {
    forall|i: int, j: int|
        #![trigger list[i], list[j]]
        0 <= i < j < list.len() ==> lex_lt(text_bytes(list[i]), text_bytes(list[j]))
}

/// A lone replica's symbol list stays in order: adding an order's symbol
/// to a list in order gives a list in order that holds the symbols there
/// before and the order's symbol, and no other.
pub proof fn law_fast_path_symbols(old: Seq<Seq<char>>, symbol: Seq<char>, new: Seq<Seq<char>>)
    requires
        symbols_in_order(old),
        symbols_updated(old, symbol, new),
    ensures
        symbols_in_order(new),
        forall|x: Seq<char>| #[trigger] new.contains(x) <==> (old.contains(x) || x == symbol),
{
    if !old.contains(symbol) {
        let items = old.push(symbol);
        let keys = items.map_values(|s: Seq<char>| text_bytes(s));
        let p = choose|p: Seq<int>| byte_sorted_stably(keys, items, new, p);
        assert forall|x: Seq<char>| #[trigger] new.contains(x) <==> (old.contains(x) || x == symbol) by {
            if old.contains(x) || x == symbol {
                if x == symbol {
                    assert(items[old.len() as int] == x);
                } else {
                    let j = choose|j: int| 0 <= j < old.len() && old[j] == x;
                    assert(items[j] == x);
                }
                lemma_byte_sort_keeps(keys, items, new, x);
            }
            if new.contains(x) {
                let k = choose|k: int| 0 <= k < new.len() && new[k] == x;
                assert(items[p[k]] == x);
                if p[k] < old.len() {
                    assert(old[p[k]] == x);
                }
            }
        }
        assert forall|i: int, j: int| #![trigger new[i], new[j]] 0 <= i < j < new.len() implies lex_lt(
            text_bytes(new[i]),
            text_bytes(new[j]),
        ) by {
            assert(p[i] != p[j]);
            assert(new[i] == items[p[i]] && new[j] == items[p[j]]);
            assert(!lex_lt(keys[p[j]], keys[p[i]]));
            assert(items[p[i]] != items[p[j]]) by {
                if p[i] < old.len() && p[j] < old.len() {
                    if p[i] < p[j] {
                        assert(lex_lt(text_bytes(old[p[i]]), text_bytes(old[p[j]])));
                    } else {
                        assert(lex_lt(text_bytes(old[p[j]]), text_bytes(old[p[i]])));
                    }
                    lemma_lex_irreflexive(text_bytes(old[p[i]]));
                } else if p[i] < old.len() {
                    assert(items[p[i]] == old[p[i]]);
                } else {
                    assert(items[p[j]] == old[p[j]]);
                }
            }
            encode_utf8_decode_utf8(new[i]);
            encode_utf8_decode_utf8(new[j]);
            lemma_lex_total(text_bytes(new[i]), text_bytes(new[j]));
        }
    }
}

/// Sorts a list of symbols stably by the bytes of their texts.
pub(crate) fn sort_symbols(list: Vec<String>) -> (r: Vec<String>)
    ensures
        is_byte_stable_sort(
            string_views(list@).map_values(|s: Seq<char>| text_bytes(s)),
            string_views(list@),
            string_views(r@),
        ),
{
    let mut keys: Vec<Vec<u8>> = Vec::new();
    let mut i: usize = 0;
    while i < list.len()
        invariant
            i <= list.len(),
            keys.len() == i,
            forall|j: int| 0 <= j < i ==> (#[trigger] keys@[j])@ == text_bytes(list@[j]@),
        decreases list.len() - i,
    {
        keys.push(copy_bytes(list[i].as_str().as_bytes()));
        i = i + 1;
    }
    let ghost items = list@;
    assert(key_bytes(keys@) =~= string_views(items).map_values(|s: Seq<char>| text_bytes(s)));
    let sorted = stable_sort_by_bytes(keys, list);
    proof {
        lemma_byte_sort_map(key_bytes(keys@), items, sorted@, |s: String| s@);
        assert(items.map_values(|s: String| s@) =~= string_views(items));
        assert(sorted@.map_values(|s: String| s@) =~= string_views(sorted@));
    }
    sorted
}

/// Adds `symbol` to the list of symbols with a book, as `symbols_updated`
/// says.
pub fn add_symbol(symbols: Vec<String>, symbol: &String) -> (r: Vec<String>)
    ensures
        symbols_updated(string_views(symbols@), symbol@, string_views(r@)),
{
    if symbol_listed(&symbols, symbol) {
        return symbols;
    }
    let ghost old_views = string_views(symbols@);
    let mut list = symbols;
    list.push(symbol.clone());
    assert(string_views(list@) =~= old_views.push(symbol@));
    sort_symbols(list)
}

/// Position `i` holds the first level with price key `pk` (or is the end
/// of the list when no level has it).
pub open spec fn is_first_level(levels: Seq<(i64, u64)>, pk: i64, i: int) -> bool {
    &&& 0 <= i <= levels.len()
    &&& forall|j: int| 0 <= j < i ==> (#[trigger] levels[j]).0 != pk
    &&& i < levels.len() ==> levels[i].0 == pk
}

/// The position of the first level with price key `pk`, or the length of
/// the list when there is none.
pub open spec fn first_level_index(levels: Seq<(i64, u64)>, pk: i64) -> int {
    choose|i: int| is_first_level(levels, pk, i)
}

proof fn lemma_first_level_unique(levels: Seq<(i64, u64)>, pk: i64, i: int)
    requires
        is_first_level(levels, pk, i),
    ensures
        first_level_index(levels, pk) == i,
{
    let k = first_level_index(levels, pk);
    assert(is_first_level(levels, pk, k));
    if k < i {
        assert(levels[k].0 != pk);
    } else if k > i {
        assert(levels[i].0 != pk);
    }
}

/// Adding `position` to the level with price key `pk` stays within `u64`.
pub open spec fn level_fits(levels: Seq<(i64, u64)>, pk: i64, position: u64) -> bool {
    let i = first_level_index(levels, pk);
    i < levels.len() ==> levels[i].1 + position <= u64::MAX
}

/// The levels after an order at price key `pk` for `position`: added to the
/// first level with that key, or a new level at the end.
pub open spec fn aggregated(levels: Seq<(i64, u64)>, pk: i64, position: u64) -> Seq<(i64, u64)> {
    let i = first_level_index(levels, pk);
    if i < levels.len() {
        levels.update(i, (pk, (levels[i].1 + position) as u64))
    } else {
        levels.push((pk, position))
    }
}

/// The sort keys of levels on one side: the highest price first on the
/// buy side, the lowest first on the other.
pub open spec fn level_ranks(levels: Seq<(i64, u64)>, buy: bool) -> Seq<i128> {
    levels.map_values(|l: (i64, u64)| if buy { (-l.0) as i128 } else { l.0 as i128 })
}

pub(crate) fn find_level(levels: &Vec<(i64, u64)>, pk: i64) -> (i: usize)
    ensures
        is_first_level(levels@, pk, i as int),
        first_level_index(levels@, pk) == i,
{
    let mut i: usize = 0;
    loop
        invariant
            i <= levels.len(),
            forall|j: int| 0 <= j < i ==> (#[trigger] levels@[j]).0 != pk,
        ensures
            is_first_level(levels@, pk, i as int),
        decreases levels.len() - i,
    {
        if i >= levels.len() || levels[i].0 == pk {
            break;
        }
        i = i + 1;
    }
    proof {
        lemma_first_level_unique(levels@, pk, i as int);
    }
    i
}

/// Whether an order at price key `pk` for `position` fits, as
/// `level_fits` says.
pub fn level_fits_order(levels: &Vec<(i64, u64)>, pk: i64, position: u64) -> (r: bool)
    ensures
        r == level_fits(levels@, pk, position),
{
    let i = find_level(levels, pk);
    i >= levels.len() || levels[i].1 <= u64::MAX - position
}

/// Records an order at price key `pk` for `position` in one side's levels
/// and sorts them by price, best first (stably).
pub fn record_level(levels: Vec<(i64, u64)>, pk: i64, position: u64, buy: bool) -> (r: Vec<(
    i64,
    u64,
)>)
    requires
        level_fits(levels@, pk, position),
    ensures
        is_stable_sort(
            level_ranks(aggregated(levels@, pk, position), buy),
            aggregated(levels@, pk, position),
            r@,
        ),
{
    let mut levels = levels;
    let i = find_level(&levels, pk);
    if i < levels.len() {
        let total = levels[i].1 + position;
        levels.set(i, (pk, total));
    } else {
        levels.push((pk, position));
    }
    let ghost items = levels@;
    let mut keys: Vec<i128> = Vec::new();
    let mut j: usize = 0;
    while j < levels.len()
        invariant
            j <= levels.len(),
            levels@ == items,
            keys.len() == j,
            forall|t: int|
                0 <= t < j ==> keys@[t] == #[trigger] level_ranks(items, buy)[t],
        decreases levels.len() - j,
    {
        let p = levels[j].0 as i128;
        if buy {
            keys.push(-p);
        } else {
            keys.push(p);
        }
        j = j + 1;
    }
    assert(keys@ =~= level_ranks(items, buy));
    stable_sort_by_keys(keys, levels)
}

/// No two levels share a price key.
pub open spec fn distinct_prices(levels: Seq<(i64, u64)>) -> bool {
    forall|i: int, j: int|
        #![trigger levels[i], levels[j]]
        0 <= i < j < levels.len() ==> levels[i].0 != levels[j].0
}

/// The book keeps one level per price: recording an order in levels with
/// distinct price keys, and sorting them, leaves the price keys distinct.
pub proof fn law_one_level_per_price(
    levels: Seq<(i64, u64)>,
    pk: i64,
    position: u64,
    buy: bool,
    out: Seq<(i64, u64)>,
)
    requires
        distinct_prices(levels),
        is_stable_sort(level_ranks(aggregated(levels, pk, position), buy), aggregated(levels, pk, position), out),
    ensures
        distinct_prices(out),
{
    let a = aggregated(levels, pk, position);
    let i = first_level_index(levels, pk);
    assert(is_first_level(levels, pk, i)) by {
        lemma_first_level_exists(levels, pk);
    }
    assert(distinct_prices(a)) by {
        if i < levels.len() {
            assert forall|x: int, y: int|
                #![trigger a[x], a[y]]
                0 <= x < y < a.len() implies a[x].0 != a[y].0 by {
                assert(levels[x].0 != levels[y].0);
                if x == i {
                    assert(a[x].0 == levels[i].0);
                } else if y == i {
                    assert(a[y].0 == levels[i].0);
                }
            }
        } else {
            assert forall|x: int, y: int|
                #![trigger a[x], a[y]]
                0 <= x < y < a.len() implies a[x].0 != a[y].0 by {
                if y == levels.len() {
                    assert(levels[x].0 != pk);
                } else {
                    assert(levels[x].0 != levels[y].0);
                }
            }
        }
    }
    let p = choose|p: Seq<int>| sorted_stably(level_ranks(a, buy), a, out, p);
    assert forall|x: int, y: int| #![trigger out[x], out[y]] 0 <= x < y < out.len() implies out[x].0
        != out[y].0 by {
        assert(p[x] != p[y]);
        if p[x] < p[y] {
            assert(a[p[x]].0 != a[p[y]].0);
        } else {
            assert(a[p[y]].0 != a[p[x]].0);
        }
    }
}

/// The levels are in book order, one level per price: strictly falling
/// price keys on the buy side, strictly rising on the other.
pub open spec fn levels_in_order(levels: Seq<(i64, u64)>, buy: bool) -> bool {
    forall|i: int, j: int|
        #![trigger levels[i], levels[j]]
        0 <= i < j < levels.len() ==> if buy {
            levels[i].0 > levels[j].0
        } else {
            levels[i].0 < levels[j].0
        }
}

/// The position held at price key `pk` (0 where no level has it).
pub open spec fn position_at(levels: Seq<(i64, u64)>, pk: i64) -> int {
    let i = first_level_index(levels, pk);
    if i < levels.len() {
        levels[i].1 as int
    } else {
        0
    }
}

/// A lone replica's book stays in order: recording an order in levels in
/// book order gives levels in book order, whose level at the order's
/// price key holds the position there before plus the order's, and whose
/// other levels are those there before.
pub proof fn law_fast_path_levels(
    levels: Seq<(i64, u64)>,
    pk: i64,
    position: u64,
    buy: bool,
    out: Seq<(i64, u64)>,
)
    requires
        levels_in_order(levels, buy),
        level_fits(levels, pk, position),
        is_stable_sort(level_ranks(aggregated(levels, pk, position), buy), aggregated(levels, pk, position), out),
    ensures
        levels_in_order(out, buy),
        forall|q: i64, v: u64| q != pk ==> (#[trigger] out.contains((q, v)) <==> levels.contains((q, v))),
        forall|v: u64| #[trigger] out.contains((pk, v)) <==> v == position_at(levels, pk) + position,
{
    let a = aggregated(levels, pk, position);
    let i = first_level_index(levels, pk);
    lemma_first_level_exists(levels, pk);
    assert(distinct_prices(levels)) by {
        assert forall|x: int, y: int| #![trigger levels[x], levels[y]] 0 <= x < y < levels.len() implies levels[x].0 != levels[y].0 by {
        }
    }
    law_one_level_per_price(levels, pk, position, buy, out);
    let p = choose|p: Seq<int>| sorted_stably(level_ranks(a, buy), a, out, p);
    // what the aggregated levels hold
    assert forall|x: (i64, u64)| #[trigger] a.contains(x) <==> (if x.0 == pk {
        x.1 == position_at(levels, pk) + position
    } else {
        levels.contains(x)
    }) by {
        if i < levels.len() {
            if a.contains(x) {
                let j = choose|j: int| 0 <= j < a.len() && a[j] == x;
                if j != i {
                    assert(a[j] == levels[j]);
                    if x.0 == pk {
                        if j < i {
                            assert(levels[j].0 != pk);
                        } else {
                            assert(levels[i].0 != levels[j].0);
                        }
                    }
                }
            }
            if x.0 == pk && x.1 == position_at(levels, pk) + position {
                assert(a[i] == x);
            }
            if x.0 != pk && levels.contains(x) {
                let j = choose|j: int| 0 <= j < levels.len() && levels[j] == x;
                assert(j != i);
                assert(a[j] == x);
            }
        } else {
            if a.contains(x) {
                let j = choose|j: int| 0 <= j < a.len() && a[j] == x;
                if j < levels.len() {
                    assert(a[j] == levels[j]);
                    assert(levels[j].0 != pk);
                }
            }
            if x.0 == pk && x.1 == position {
                assert(a[levels.len() as int] == x);
            }
            if x.0 != pk && levels.contains(x) {
                let j = choose|j: int| 0 <= j < levels.len() && levels[j] == x;
                assert(a[j] == x);
            }
        }
    }
    // the sorted levels hold what the aggregated ones hold
    assert forall|x: (i64, u64)| #[trigger] out.contains(x) <==> a.contains(x) by {
        if a.contains(x) {
            lemma_stable_sort_keeps(level_ranks(a, buy), a, out, x);
        }
        if out.contains(x) {
            let k = choose|k: int| 0 <= k < out.len() && out[k] == x;
            assert(a[p[k]] == x);
        }
    }
    assert forall|q: i64, v: u64| q != pk implies (#[trigger] out.contains((q, v)) <==> levels.contains((q, v))) by {
        assert(out.contains((q, v)) <==> a.contains((q, v)));
    }
    assert forall|v: u64| #[trigger] out.contains((pk, v)) <==> v == position_at(levels, pk) + position by {
        assert(out.contains((pk, v)) <==> a.contains((pk, v)));
    }
    assert forall|k: int, l: int| #![trigger out[k], out[l]] 0 <= k < l < out.len() implies (if buy {
        out[k].0 > out[l].0
    } else {
        out[k].0 < out[l].0
    }) by {
        assert(p[k] != p[l]);
        assert(!(level_ranks(a, buy)[p[l]] < level_ranks(a, buy)[p[k]]));
        assert(out[k] == a[p[k]] && out[l] == a[p[l]]);
        assert(out[k].0 != out[l].0);
    }
}

pub(crate) proof fn lemma_first_level_exists(levels: Seq<(i64, u64)>, pk: i64)
    ensures
        is_first_level(levels, pk, first_level_index(levels, pk)),
    decreases levels.len(),
{
    if levels.len() == 0 {
        assert(is_first_level(levels, pk, 0));
    } else {
        let rest = levels.drop_last();
        lemma_first_level_exists(rest, pk);
        let r = first_level_index(rest, pk);
        assert forall|j: int| 0 <= j < r implies (#[trigger] levels[j]).0 != pk by {
            assert(rest[j] == levels[j]);
            assert(rest[j].0 != pk);
        }
        if r < rest.len() {
            assert(levels[r] == rest[r]);
            assert(is_first_level(levels, pk, r));
        } else if levels[r].0 == pk {
            assert(is_first_level(levels, pk, r));
        } else {
            assert(is_first_level(levels, pk, levels.len() as int));
        }
    }
}

/// The store writes that record an order when a replica runs alone, with
/// the symbol list and the levels they store.
pub struct FastPathUpdate {
    pub batch: WriteBatch,
    pub symbols: Vec<String>,
    pub levels: Vec<(i64, u64)>,
}

/// The two writes of a lone replica's order: the symbol list, then the
/// levels of the order's side.
pub open spec fn fast_path_ops(
    side_key: Seq<u8>,
    symbols: Seq<Seq<char>>,
    levels: Seq<(i64, u64)>,
) -> Seq<BatchOp> {
    seq![
        (symbols_key_bytes(), Some(json_strings(symbols))),
        (side_key, Some(json_levels(levels))),
    ]
}

fn stored_symbol_list(kv: &KVStore, key: &Vec<u8>) -> (r: Vec<String>)
    ensures
        string_views(r@) == parsed_symbols(stored(kv.contents(), key@)),
{
    let bytes = kv.get(key.as_slice());
    decode_symbols(&bytes)
}

fn stored_level_list(kv: &KVStore, key: &Vec<u8>) -> (r: Vec<(i64, u64)>)
    ensures
        r@ == parsed_levels(stored(kv.contents(), key@)),
{
    let bytes = kv.get(key.as_slice());
    decode_levels(&bytes)
}

/// `u` records an order for `symbol` on `side` at price key `price_key`
/// for `position` in a store holding `m`: the symbol joins the symbol
/// list, the position joins its price level (the levels sorted best
/// first), and the batch writes both as JSON.
pub open spec fn is_fast_path_update(
    m: Map<Seq<u8>, Seq<u8>>,
    symbol: Seq<char>,
    side: Seq<char>,
    price_key: i64,
    position: u64,
    u: FastPathUpdate,
) -> bool {
    let key = side_key_of(symbol, side);
    let levels0 = parsed_levels(stored(m, key));
    &&& level_fits(levels0, price_key, position)
    &&& symbols_updated(
        parsed_symbols(stored(m, symbols_key_bytes())),
        symbol,
        string_views(u.symbols@),
    )
    &&& is_stable_sort(
        level_ranks(aggregated(levels0, price_key, position), is_buy_text(text_bytes(side))),
        aggregated(levels0, price_key, position),
        u.levels@,
    )
    &&& u.batch@ == fast_path_ops(key, string_views(u.symbols@), u.levels@)
    &&& json_strings_parsed(json_strings(string_views(u.symbols@))) == Some(string_views(u.symbols@))
    &&& json_levels_parsed(json_levels(u.levels@)) == Some(u.levels@)
}

/// The writes that record an order directly in the store when a replica
/// runs alone: the symbol joins the list of symbols, and the position is
/// added to the order's price level on its side, the levels sorted best
/// first. `None` where adding the position to its level overflows.
pub fn fast_path_update(
    kv: &KVStore,
    symbol: &String,
    side: &String,
    price_key: i64,
    position: u64,
) -> (r: Option<FastPathUpdate>)
    ensures
        match r {
            None => !level_fits(
                parsed_levels(stored(kv.contents(), side_key_of(symbol@, side@))),
                price_key,
                position,
            ),
            Some(u) => is_fast_path_update(kv.contents(), symbol@, side@, price_key, position, u),
        },
{
    let skey = symbols_key();
    let current = stored_symbol_list(kv, &skey);
    let symbols = add_symbol(current, symbol);
    let key = side_key(symbol.as_str(), side.as_str());
    let levels_now = stored_level_list(kv, &key);
    if !level_fits_order(&levels_now, price_key, position) {
        return None;
    }
    let levels = record_level(levels_now, price_key, position, is_buy(side.as_str()));
    let mut batch = WriteBatch::new();
    let symbols_bytes = string_list_json(&symbols);
    batch.set(skey.as_slice(), symbols_bytes.as_slice());
    let levels_bytes = levels_json(&levels);
    batch.set(key.as_slice(), levels_bytes.as_slice());
    assert(batch@ =~= fast_path_ops(key@, string_views(symbols@), levels@));
    Some(FastPathUpdate { batch, symbols, levels })
}

/// A side key never is the key of the symbol list: it ends in "y" or "l",
/// that key in "s".
pub(crate) proof fn lemma_side_key_not_symbols_key(symbol: Seq<char>, side: Seq<char>)
    ensures
        side_key_of(symbol, side) != symbols_key_bytes(),
{
    let k = side_key_of(symbol, side);
    let last = k.len() - 1;
    if is_buy_text(text_bytes(side)) {
        assert(k == book_prefix() + text_bytes(symbol) + buy_suffix());
        assert(k[last] == 121u8);
    } else {
        assert(k == book_prefix() + text_bytes(symbol) + sell_suffix());
        assert(k[last] == 108u8);
    }
    assert(symbols_key_bytes()[12] == 115u8);
}

/// After a lone replica writes an order, the book reads back what was
/// written: the symbol list under its key and the levels under the
/// order's side key.
pub proof fn law_fast_path_reads_back(
    m: Map<Seq<u8>, Seq<u8>>,
    symbol: Seq<char>,
    side: Seq<char>,
    symbols: Seq<Seq<char>>,
    levels: Seq<(i64, u64)>,
)
    requires
        json_strings_parsed(json_strings(symbols)) == Some(symbols),
        json_levels_parsed(json_levels(levels)) == Some(levels),
    ensures
        ({
            let key = side_key_of(symbol, side);
            let after = apply_ops(m, fast_path_ops(key, symbols, levels));
            &&& parsed_symbols(stored(after, symbols_key_bytes())) == symbols
            &&& parsed_levels(stored(after, key)) == levels
        }),
{
    let key = side_key_of(symbol, side);
    let ops = fast_path_ops(key, symbols, levels);
    lemma_side_key_not_symbols_key(symbol, side);
    law_last_write_wins(m, ops, 1);
    law_last_write_wins(m, ops, 0);
}

/// A stored list that is preferred when it is non-empty, else the other.
pub open spec fn symbols_preferring(committed: Option<Seq<u8>>, raw: Option<Seq<u8>>) -> Seq<Seq<char>> {
    if parsed_symbols(committed).len() > 0 {
        parsed_symbols(committed)
    } else {
        parsed_symbols(raw)
    }
}

/// Levels preferring the committed ones when they are non-empty.
pub open spec fn levels_preferring(committed: Option<Seq<u8>>, raw: Option<Seq<u8>>) -> Seq<(i64, u64)> {
    if parsed_levels(committed).len() > 0 {
        parsed_levels(committed)
    } else {
        parsed_levels(raw)
    }
}

pub(crate) fn decode_symbols(bytes: &Option<Vec<u8>>) -> (r: Vec<String>)
    ensures
        string_views(r@) == parsed_symbols(opt_bytes(*bytes)),
{
    match bytes {
        Some(b) => match parse_string_list(b.as_slice()) {
            Some(list) => list,
            None => {
                let r: Vec<String> = Vec::new();
                assert(string_views(r@) =~= Seq::<Seq<char>>::empty());
                r
            },
        },
        None => {
            let r: Vec<String> = Vec::new();
            assert(string_views(r@) =~= Seq::<Seq<char>>::empty());
            r
        },
    }
}

pub(crate) fn decode_levels(bytes: &Option<Vec<u8>>) -> (r: Vec<(i64, u64)>)
    ensures
        r@ == parsed_levels(opt_bytes(*bytes)),
{
    match bytes {
        Some(b) => match parse_levels(b.as_slice()) {
            Some(list) => list,
            None => Vec::new(),
        },
        None => Vec::new(),
    }
}

/// The symbols of the book as served: those of the committed application
/// state, or, when it lists none, those of the store itself.
pub fn book_symbols(committed: &Option<Vec<u8>>, raw: &Option<Vec<u8>>) -> (r: Vec<String>)
    ensures
        string_views(r@) == symbols_preferring(opt_bytes(*committed), opt_bytes(*raw)),
{
    let list = decode_symbols(committed);
    if list.len() > 0 {
        list
    } else {
        decode_symbols(raw)
    }
}

/// The levels of one side of a symbol's book as served: those of the
/// committed application state, or, when it has none, those of the store.
pub fn book_levels(committed: &Option<Vec<u8>>, raw: &Option<Vec<u8>>) -> (r: Vec<(i64, u64)>)
    ensures
        r@ == levels_preferring(opt_bytes(*committed), opt_bytes(*raw)),
{
    let list = decode_levels(committed);
    if list.len() > 0 {
        list
    } else {
        decode_levels(raw)
    }
}

/// A lone replica's order, written to its store: where the stored symbol
/// list and the stored levels of the order's side were in order, after
/// the one batch the symbol list is in order and holds the symbols before
/// and the order's, and the side's levels are in order, hold at the
/// order's price key the position before plus the order's, and are
/// otherwise those before.
pub proof fn law_lone_replica_order(
    m: Map<Seq<u8>, Seq<u8>>,
    symbol: Seq<char>,
    side: Seq<char>,
    price_key: i64,
    position: u64,
    u: FastPathUpdate,
)
    requires
        is_fast_path_update(m, symbol, side, price_key, position, u),
        symbols_in_order(parsed_symbols(stored(m, symbols_key_bytes()))),
        levels_in_order(
            parsed_levels(stored(m, side_key_of(symbol, side))),
            is_buy_text(text_bytes(side)),
        ),
    ensures
        ({
            let key = side_key_of(symbol, side);
            let old_symbols = parsed_symbols(stored(m, symbols_key_bytes()));
            let old_levels = parsed_levels(stored(m, key));
            let after = apply_ops(m, u.batch@);
            let new_symbols = parsed_symbols(stored(after, symbols_key_bytes()));
            let new_levels = parsed_levels(stored(after, key));
            &&& symbols_in_order(new_symbols)
            &&& forall|x: Seq<char>| #[trigger] new_symbols.contains(x) <==> (old_symbols.contains(x) || x == symbol)
            &&& levels_in_order(new_levels, is_buy_text(text_bytes(side)))
            &&& forall|q: i64, v: u64| q != price_key ==> (#[trigger] new_levels.contains((q, v)) <==> old_levels.contains((q, v)))
            &&& forall|v: u64| #[trigger] new_levels.contains((price_key, v)) <==> v == position_at(old_levels, price_key) + position
        }),
{
    let key = side_key_of(symbol, side);
    law_fast_path_reads_back(m, symbol, side, string_views(u.symbols@), u.levels@);
    law_fast_path_symbols(parsed_symbols(stored(m, symbols_key_bytes())), symbol, string_views(u.symbols@));
    law_fast_path_levels(
        parsed_levels(stored(m, key)),
        price_key,
        position,
        is_buy_text(text_bytes(side)),
        u.levels@,
    );
}

/// One symbol's book as served: its buy and sell levels.
pub struct SymbolBook {
    pub symbol: String,
    pub buy: Vec<(i64, u64)>,
    pub sell: Vec<(i64, u64)>,
}

/// The book of `symbol` as served, from what the committed application
/// state and the store hold under its buy key and its sell key: each side
/// the committed levels, or the store's where none are committed.
pub fn symbol_book(
    symbol: &String,
    committed_buy: &Option<Vec<u8>>,
    raw_buy: &Option<Vec<u8>>,
    committed_sell: &Option<Vec<u8>>,
    raw_sell: &Option<Vec<u8>>,
) -> (r: SymbolBook)
    ensures
        r.symbol@ == symbol@,
        r.buy@ == levels_preferring(opt_bytes(*committed_buy), opt_bytes(*raw_buy)),
        r.sell@ == levels_preferring(opt_bytes(*committed_sell), opt_bytes(*raw_sell)),
{
    SymbolBook {
        symbol: symbol.clone(),
        buy: book_levels(committed_buy, raw_buy),
        sell: book_levels(committed_sell, raw_sell),
    }
}

} // verus!
