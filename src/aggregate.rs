use vstd::prelude::*;
use crate::model::{FinItem, category_key, category_label, none_label};
use crate::number::abs;
use crate::text::{ascending, texts, distinct_sorted, lemma_ascending_distinct};

verus! {

/// Who paid for an entry.
pub open spec fn owner_key() -> spec_fn(FinItem) -> Seq<char> {
    |e: FinItem| e.owner@
}

/// The category an entry is counted under.
pub open spec fn category_name() -> spec_fn(FinItem) -> Seq<char> {
    |e: FinItem| category_key(e@.category)
}

/// An entry's price, in billionths.
pub open spec fn price_value() -> spec_fn(FinItem) -> int {
    |e: FinItem| e.price as int
}

/// An entry's weighted share `price * ratio`, in units of `10^-18`.
pub open spec fn weight_value() -> spec_fn(FinItem) -> int {
    |e: FinItem| e.price * e.ratio
}

/// The sum of `val` over all entries of `s`.
pub open spec fn total_of(s: Seq<FinItem>, val: spec_fn(FinItem) -> int) -> int
    decreases s.len(),
{
    if s.len() == 0 {
        0
    } else {
        total_of(s.drop_last(), val) + val(s.last())
    }
}

/// The sum of `val` over the entries of `s` whose `key` is `k`.
pub open spec fn keyed_sum(
    s: Seq<FinItem>,
    k: Seq<char>,
    key: spec_fn(FinItem) -> Seq<char>,
    val: spec_fn(FinItem) -> int,
) -> int
    decreases s.len(),
{
    if s.len() == 0 {
        0
    } else {
        keyed_sum(s.drop_last(), k, key, val) + if key(s.last()) == k {
            val(s.last())
        } else {
            0
        }
    }
}

/// The sum of the magnitudes of all weighted shares: what bounds every partial
/// sum of weighted shares.
pub open spec fn weight_magnitude(s: Seq<FinItem>) -> int
    decreases s.len(),
{
    if s.len() == 0 {
        0
    } else {
        weight_magnitude(s.drop_last()) + abs(s.last().price * s.last().ratio)
    }
}

/// Some entry of `s` has key `x`.
pub open spec fn has_key(s: Seq<FinItem>, key: spec_fn(FinItem) -> Seq<char>, x: Seq<char>) -> bool {
    exists|i: int| 0 <= i < s.len() && key(s[i]) == x
}

/// `keys` lists, ascending, exactly the keys that occur in `s`.
pub open spec fn key_listing(keys: Seq<Seq<char>>, s: Seq<FinItem>, key: spec_fn(FinItem) -> Seq<char>) -> bool {
    &&& ascending(keys)
    &&& forall|x: Seq<char>| keys.contains(x) <==> has_key(s, key, x)
}

/// The sum, over the listed keys, of the entries' values under each key.
pub open spec fn keys_sum(
    s: Seq<FinItem>,
    keys: Seq<Seq<char>>,
    key: spec_fn(FinItem) -> Seq<char>,
    val: spec_fn(FinItem) -> int,
) -> int
    decreases keys.len(),
{
    if keys.len() == 0 {
        0
    } else {
        keys_sum(s, keys.drop_last(), key, val) + keyed_sum(s, keys.last(), key, val)
    }
}

/// `v` counted once for each listed key equal to `x`.
pub open spec fn hits(keys: Seq<Seq<char>>, x: Seq<char>, v: int) -> int
    decreases keys.len(),
{
    if keys.len() == 0 {
        0
    } else {
        hits(keys.drop_last(), x, v) + if keys.last() == x { v } else { 0 }
    }
}

proof fn lemma_keys_sum_step(
    s: Seq<FinItem>,
    keys: Seq<Seq<char>>,
    key: spec_fn(FinItem) -> Seq<char>,
    val: spec_fn(FinItem) -> int,
)
    requires
        s.len() > 0,
    ensures
        keys_sum(s, keys, key, val) == keys_sum(s.drop_last(), keys, key, val) + hits(
            keys,
            key(s.last()),
            val(s.last()),
        ),
    decreases keys.len(),
{
    if keys.len() > 0 {
        lemma_keys_sum_step(s, keys.drop_last(), key, val);
    }
}

proof fn lemma_hits_absent(keys: Seq<Seq<char>>, x: Seq<char>, v: int)
    requires
        !keys.contains(x),
    ensures
        hits(keys, x, v) == 0,
    decreases keys.len(),
{
    if keys.len() > 0 {
        assert(!keys.drop_last().contains(x)) by {
            if keys.drop_last().contains(x) {
                let t = choose|t: int| 0 <= t < keys.drop_last().len() && keys.drop_last()[t] == x;
                assert(keys[t] == x);
            }
        }
        assert(keys[keys.len() - 1] != x);
        lemma_hits_absent(keys.drop_last(), x, v);
    }
}

proof fn lemma_hits_once(keys: Seq<Seq<char>>, x: Seq<char>, v: int)
    requires
        ascending(keys),
        keys.contains(x),
    ensures
        hits(keys, x, v) == v,
    decreases keys.len(),
{
    let init = keys.drop_last();
    assert(ascending(init)) by {
        assert forall|i: int, j: int| 0 <= i < j < init.len() implies crate::text::text_lt(init[i], init[j]) by {
            assert(init[i] == keys[i] && init[j] == keys[j]);
        }
    }
    if keys.last() == x {
        assert(!init.contains(x)) by {
            if init.contains(x) {
                let t = choose|t: int| 0 <= t < init.len() && init[t] == x;
                lemma_ascending_distinct(keys, t, keys.len() - 1);
            }
        }
        lemma_hits_absent(init, x, v);
    } else {
        let t = choose|t: int| 0 <= t < keys.len() && keys[t] == x;
        assert(init[t] == x);
        lemma_hits_once(init, x, v);
    }
}

/// Summing an entry value over the groups of an ascending listing of every key
/// present gives the same as summing it over all entries.
pub proof fn lemma_group_sums_add_up(
    s: Seq<FinItem>,
    keys: Seq<Seq<char>>,
    key: spec_fn(FinItem) -> Seq<char>,
    val: spec_fn(FinItem) -> int,
)
    requires
        ascending(keys),
        forall|i: int| 0 <= i < s.len() ==> keys.contains(#[trigger] key(s[i])),
    ensures
        keys_sum(s, keys, key, val) == total_of(s, val),
    decreases s.len(),
{
    if s.len() == 0 {
        lemma_keys_sum_zero(s, keys, key, val);
    } else {
        let init = s.drop_last();
        assert forall|i: int| 0 <= i < init.len() implies keys.contains(#[trigger] key(init[i])) by {
            assert(init[i] == s[i]);
        }
        lemma_group_sums_add_up(init, keys, key, val);
        lemma_keys_sum_step(s, keys, key, val);
        assert(keys.contains(key(s[s.len() - 1])));
        lemma_hits_once(keys, key(s.last()), val(s.last()));
    }
}

proof fn lemma_keys_sum_zero(
    s: Seq<FinItem>,
    keys: Seq<Seq<char>>,
    key: spec_fn(FinItem) -> Seq<char>,
    val: spec_fn(FinItem) -> int,
)
    requires
        s.len() == 0,
    ensures
        keys_sum(s, keys, key, val) == 0,
    decreases keys.len(),
{
    if keys.len() > 0 {
        lemma_keys_sum_zero(s, keys.drop_last(), key, val);
    }
}

proof fn lemma_listing_covers(s: Seq<FinItem>, keys: Seq<Seq<char>>, key: spec_fn(FinItem) -> Seq<char>)
    requires
        key_listing(keys, s, key),
    ensures
        forall|i: int| 0 <= i < s.len() ==> keys.contains(#[trigger] key(s[i])),
{
    assert forall|i: int| 0 <= i < s.len() implies keys.contains(#[trigger] key(s[i])) by {
        assert(has_key(s, key, key(s[i])));
    }
}

/// What [`by_category`] returns for `s`: every category present once,
/// ascending, each with the sum of the prices of its entries.
pub open spec fn category_totals_of(r: Seq<CategoryTotal>, s: Seq<FinItem>) -> bool {
    &&& key_listing(category_names(r), s, category_name())
    &&& forall|i: int|
        0 <= i < r.len() ==> #[trigger] r[i].amount == keyed_sum(s, r[i].category@, category_name(), price_value())
}

/// What [`by_payer`] returns for `s`, as far as the paid sums go: every payer
/// present once, ascending, each with the sum of the prices they paid.
pub open spec fn paid_totals_of(r: Seq<PayerTotal>, s: Seq<FinItem>) -> bool {
    &&& key_listing(payer_names(r), s, owner_key())
    &&& forall|i: int|
        0 <= i < r.len() ==> #[trigger] r[i].paid == keyed_sum(s, r[i].payer@, owner_key(), price_value())
}

/// The sum of the amounts of category totals.
pub open spec fn amounts_sum(r: Seq<CategoryTotal>) -> int
    decreases r.len(),
{
    if r.len() == 0 {
        0
    } else {
        amounts_sum(r.drop_last()) + r.last().amount
    }
}

/// The sum of the paid amounts of payer totals.
pub open spec fn paid_sum(r: Seq<PayerTotal>) -> int
    decreases r.len(),
{
    if r.len() == 0 {
        0
    } else {
        paid_sum(r.drop_last()) + r.last().paid
    }
}

proof fn lemma_amounts_sum(r: Seq<CategoryTotal>, s: Seq<FinItem>)
    requires
        forall|i: int|
            0 <= i < r.len() ==> #[trigger] r[i].amount == keyed_sum(s, r[i].category@, category_name(), price_value()),
    ensures
        amounts_sum(r) == keys_sum(s, category_names(r), category_name(), price_value()),
    decreases r.len(),
{
    if r.len() > 0 {
        let init = r.drop_last();
        assert forall|i: int| 0 <= i < init.len() implies #[trigger] init[i].amount == keyed_sum(
            s,
            init[i].category@,
            category_name(),
            price_value(),
        ) by {
            assert(init[i] == r[i]);
        }
        lemma_amounts_sum(init, s);
        assert(category_names(r).drop_last() =~= category_names(init));
        assert(r[r.len() - 1].amount == keyed_sum(s, r.last().category@, category_name(), price_value()));
    }
}

proof fn lemma_paid_sum(r: Seq<PayerTotal>, s: Seq<FinItem>)
    requires
        forall|i: int|
            0 <= i < r.len() ==> #[trigger] r[i].paid == keyed_sum(s, r[i].payer@, owner_key(), price_value()),
    ensures
        paid_sum(r) == keys_sum(s, payer_names(r), owner_key(), price_value()),
    decreases r.len(),
{
    if r.len() > 0 {
        let init = r.drop_last();
        assert forall|i: int| 0 <= i < init.len() implies #[trigger] init[i].paid == keyed_sum(
            s,
            init[i].payer@,
            owner_key(),
            price_value(),
        ) by {
            assert(init[i] == r[i]);
        }
        lemma_paid_sum(init, s);
        assert(payer_names(r).drop_last() =~= payer_names(init));
        assert(r[r.len() - 1].paid == keyed_sum(s, r.last().payer@, owner_key(), price_value()));
    }
}

/// Sum consistency: over the same entries, the category totals add up to the
/// total spend, and so do the amounts the payers paid.
pub proof fn lemma_sum_consistency(s: Seq<FinItem>, categories: Seq<CategoryTotal>, payers: Seq<PayerTotal>)
    requires
        category_totals_of(categories, s),
        paid_totals_of(payers, s),
    ensures
        amounts_sum(categories) == total_of(s, price_value()),
        paid_sum(payers) == total_of(s, price_value()),
{
    lemma_listing_covers(s, category_names(categories), category_name());
    lemma_listing_covers(s, payer_names(payers), owner_key());
    lemma_group_sums_add_up(s, category_names(categories), category_name(), price_value());
    lemma_group_sums_add_up(s, payer_names(payers), owner_key(), price_value());
    lemma_amounts_sum(categories, s);
    lemma_paid_sum(payers, s);
}

proof fn lemma_product_bound(p: i64, q: i64)
    ensures
        abs(p * q) <= 0x4000_0000_0000_0000_0000_0000_0000_0000,
{
    let (a, b) = (abs(p as int), abs(q as int));
    assert(a * b <= 0x8000_0000_0000_0000 * 0x8000_0000_0000_0000) by (nonlinear_arith)
        requires
            0 <= a <= 0x8000_0000_0000_0000,
            0 <= b <= 0x8000_0000_0000_0000,
    ;
    assert(abs(p * q) == a * b) by (nonlinear_arith)
        requires
            a == abs(p as int),
            b == abs(q as int),
    ;
}

proof fn lemma_price_total_bounds(s: Seq<FinItem>)
    ensures
        -(s.len() * 0x8000_0000_0000_0000) <= total_of(s, price_value()) <= s.len()
            * 0x7fff_ffff_ffff_ffff,
    decreases s.len(),
{
    if s.len() > 0 {
        lemma_price_total_bounds(s.drop_last());
    }
}

proof fn lemma_price_keyed_bounds(s: Seq<FinItem>, k: Seq<char>, key: spec_fn(FinItem) -> Seq<char>)
    ensures
        -(s.len() * 0x8000_0000_0000_0000) <= keyed_sum(s, k, key, price_value()) <= s.len()
            * 0x7fff_ffff_ffff_ffff,
    decreases s.len(),
{
    if s.len() > 0 {
        lemma_price_keyed_bounds(s.drop_last(), k, key);
    }
}

proof fn lemma_weight_keyed_bound(s: Seq<FinItem>, k: Seq<char>, key: spec_fn(FinItem) -> Seq<char>)
    ensures
        abs(keyed_sum(s, k, key, weight_value())) <= weight_magnitude(s),
    decreases s.len(),
{
    if s.len() > 0 {
        lemma_weight_keyed_bound(s.drop_last(), k, key);
    }
}

proof fn lemma_magnitude_prefix(s: Seq<FinItem>, i: int)
    requires
        0 <= i <= s.len(),
    ensures
        0 <= weight_magnitude(s.subrange(0, i)) <= weight_magnitude(s),
    decreases s.len(),
{
    if i < s.len() {
        assert(s.drop_last().subrange(0, i) =~= s.subrange(0, i));
        lemma_magnitude_prefix(s.drop_last(), i);
    } else {
        assert(s.subrange(0, i) =~= s);
        lemma_magnitude_nonneg(s);
    }
}

proof fn lemma_magnitude_nonneg(s: Seq<FinItem>)
    ensures
        weight_magnitude(s) >= 0,
    decreases s.len(),
{
    if s.len() > 0 {
        lemma_magnitude_nonneg(s.drop_last());
    }
}

/// The weighted share `price * ratio` of one entry, in units of `10^-18`.
fn weight_of(e: &FinItem) -> (r: i128)
    ensures
        r == e.price * e.ratio,
        abs(r as int) <= 0x4000_0000_0000_0000_0000_0000_0000_0000,
{
    proof {
        lemma_product_bound(e.price, e.ratio);
    }
    (e.price as i128) * (e.ratio as i128)
}

/// Whether the weighted shares of `items` are small enough for [`by_payer`]:
/// their magnitudes must add up to at most `i128::MAX`.
pub fn weights_fit(items: &Vec<FinItem>) -> (r: bool)
    ensures
        r == (weight_magnitude(items@) <= i128::MAX),
{
    let mut acc: i128 = 0;
    let mut i: usize = 0;
    while i < items.len()
        invariant
            i <= items.len(),
            acc == weight_magnitude(items@.subrange(0, i as int)),
            0 <= acc <= i128::MAX,
        decreases items.len() - i,
    {
        assert(items@.subrange(0, i + 1).drop_last() =~= items@.subrange(0, i as int));
        let w = weight_of(&items[i]);
        let a: i128 = if w < 0 { -w } else { w };
        if acc > i128::MAX - a {
            proof {
                lemma_magnitude_prefix(items@, i + 1);
            }
            return false;
        }
        acc = acc + a;
        i = i + 1;
    }
    assert(items@.subrange(0, items.len() as int) =~= items@);
    true
}

/// The total spend of `items`: the sum of their prices, in billionths.
pub fn total_spend(items: &Vec<FinItem>) -> (r: i128)
    ensures
        r == total_of(items@, price_value()),
{
    let mut t: i128 = 0;
    let mut i: usize = 0;
    while i < items.len()
        invariant
            i <= items.len(),
            t == total_of(items@.subrange(0, i as int), price_value()),
        decreases items.len() - i,
    {
        let ghost next = items@.subrange(0, i + 1);
        assert(next.drop_last() =~= items@.subrange(0, i as int));
        proof {
            lemma_price_total_bounds(next);
        }
        t = t + items[i].price as i128;
        i = i + 1;
    }
    assert(items@.subrange(0, items.len() as int) =~= items@);
    t
}

/// What one payer paid in a period, and the weighted share of it.
pub struct PayerTotal {
    pub payer: String,
    /// Sum of prices, in billionths.
    pub paid: i128,
    /// Sum of `price * ratio`, in units of `10^-18`.
    pub weighted: i128,
}

/// What was spent on one category in a period.
pub struct CategoryTotal {
    pub category: String,
    /// Sum of prices, in billionths.
    pub amount: i128,
}

pub open spec fn payer_names(r: Seq<PayerTotal>) -> Seq<Seq<char>> {
    r.map_values(|t: PayerTotal| t.payer@)
}

pub open spec fn category_names(r: Seq<CategoryTotal>) -> Seq<Seq<char>> {
    r.map_values(|t: CategoryTotal| t.category@)
}

/// Which field of an entry its totals are grouped by.
#[derive(Clone, Copy, Debug, PartialEq, Eq, Structural)]
pub enum GroupBy {
    Payer,
    Category,
}

pub open spec fn group_key(by: GroupBy) -> spec_fn(FinItem) -> Seq<char> {
    match by {
        GroupBy::Payer => owner_key(),
        GroupBy::Category => category_name(),
    }
}

fn key_text(e: &FinItem, by: GroupBy) -> (r: String)
    ensures
        r@ == group_key(by)(*e),
{
    match by {
        GroupBy::Payer => e.owner.clone(),
        GroupBy::Category => category_label(e),
    }
}

/// The keys of `items` under `by`, each once, ascending.
fn distinct_keys(items: &Vec<FinItem>, by: GroupBy) -> (r: Vec<String>)
    ensures
        key_listing(texts(r@), items@, group_key(by)),
{
    let mut all: Vec<String> = Vec::new();
    let mut i: usize = 0;
    while i < items.len()
        invariant
            i <= items.len(),
            all.len() == i,
            forall|j: int| 0 <= j < i ==> #[trigger] all@[j]@ == group_key(by)(items@[j]),
        decreases items.len() - i,
    {
        all.push(key_text(&items[i], by));
        i = i + 1;
    }
    let ghost ta = texts(all@);
    assert forall|x: Seq<char>| ta.contains(x) <==> has_key(items@, group_key(by), x) by {
        if ta.contains(x) {
            let t = choose|t: int| 0 <= t < ta.len() && ta[t] == x;
            assert(all@[t]@ == x);
        }
        if has_key(items@, group_key(by), x) {
            let t = choose|t: int| 0 <= t < items@.len() && group_key(by)(items@[t]) == x;
            assert(ta[t] == all@[t]@);
        }
    }
    distinct_sorted(all)
}

/// The sum of prices (or of weighted shares) of the entries whose key under
/// `by` is `key`.
fn group_sum(items: &Vec<FinItem>, key: &String, by: GroupBy, weighted: bool) -> (r: i128)
    requires
        weighted ==> weight_magnitude(items@) <= i128::MAX,
    ensures
        r == keyed_sum(items@, key@, group_key(by), if weighted { weight_value() } else { price_value() }),
{
    let ghost val = if weighted { weight_value() } else { price_value() };
    let mut sum: i128 = 0;
    let mut i: usize = 0;
    while i < items.len()
        invariant
            i <= items.len(),
            weighted ==> weight_magnitude(items@) <= i128::MAX,
            val == if weighted { weight_value() } else { price_value() },
            sum == keyed_sum(items@.subrange(0, i as int), key@, group_key(by), val),
        decreases items.len() - i,
    {
        let ghost next = items@.subrange(0, i + 1);
        assert(next.drop_last() =~= items@.subrange(0, i as int));
        let k = key_text(&items[i], by);
        if k == *key {
            proof {
                lemma_price_keyed_bounds(next, key@, group_key(by));
                lemma_weight_keyed_bound(next, key@, group_key(by));
                lemma_magnitude_prefix(items@, i + 1);
            }
            if weighted {
                sum = sum + weight_of(&items[i]);
            } else {
                sum = sum + items[i].price as i128;
            }
        }
        i = i + 1;
    }
    assert(items@.subrange(0, items.len() as int) =~= items@);
    sum
}

/// Per payer, ascending by name: the sum of prices and the sum of weighted
/// shares of the entries that payer paid.
pub fn by_payer(items: &Vec<FinItem>) -> (r: Vec<PayerTotal>)
    requires
        weight_magnitude(items@) <= i128::MAX,
    ensures
        paid_totals_of(r@, items@),
        forall|i: int|
            0 <= i < r.len() ==> #[trigger] r@[i].weighted == keyed_sum(
                items@,
                r@[i].payer@,
                owner_key(),
                weight_value(),
            ),
        differences_fit(r@),
{
    let keys = distinct_keys(items, GroupBy::Payer);
    let mut r: Vec<PayerTotal> = Vec::new();
    let mut i: usize = 0;
    while i < keys.len()
        invariant
            i <= keys.len(),
            weight_magnitude(items@) <= i128::MAX,
            r.len() == i,
            payer_names(r@) == texts(keys@).subrange(0, i as int),
            forall|j: int|
                0 <= j < r.len() ==> #[trigger] r@[j].paid == keyed_sum(items@, r@[j].payer@, owner_key(), price_value()),
            forall|j: int|
                0 <= j < r.len() ==> #[trigger] r@[j].weighted == keyed_sum(items@, r@[j].payer@, owner_key(), weight_value()),
        decreases keys.len() - i,
    {
        let paid = group_sum(items, &keys[i], GroupBy::Payer, false);
        let weighted = group_sum(items, &keys[i], GroupBy::Payer, true);
        let ghost before = r@;
        r.push(PayerTotal { payer: keys[i].clone(), paid, weighted });
        assert forall|j: int| 0 <= j <= i implies payer_names(r@)[j] == texts(keys@)[j] by {
            if j < i {
                assert(r@[j] == before[j]);
                assert(payer_names(before)[j] == texts(keys@).subrange(0, i as int)[j]);
            }
        }
        assert(payer_names(r@) =~= texts(keys@).subrange(0, i + 1));
        i = i + 1;
    }
    assert(payer_names(r@) =~= texts(keys@));
    assert forall|a: int, b: int| 0 <= a < r.len() && 0 <= b < r.len() implies i128::MIN
        <= #[trigger] r@[b].weighted - #[trigger] r@[a].weighted <= i128::MAX by {
        if a != b {
            lemma_ascending_distinct(payer_names(r@), a, b);
            assert(payer_names(r@)[a] == r@[a].payer@);
            assert(payer_names(r@)[b] == r@[b].payer@);
            lemma_weight_pair_bound(items@, r@[a].payer@, r@[b].payer@);
        }
    }
    r
}

/// Per category, ascending by name, with `"None"` for an absent or empty
/// category: the sum of the prices of the entries under it.
pub fn by_category(items: &Vec<FinItem>) -> (r: Vec<CategoryTotal>)
    ensures
        category_totals_of(r@, items@),
{
    let keys = distinct_keys(items, GroupBy::Category);
    let mut r: Vec<CategoryTotal> = Vec::new();
    let mut i: usize = 0;
    while i < keys.len()
        invariant
            i <= keys.len(),
            r.len() == i,
            category_names(r@) == texts(keys@).subrange(0, i as int),
            forall|j: int|
                0 <= j < r.len() ==> #[trigger] r@[j].amount == keyed_sum(
                    items@,
                    r@[j].category@,
                    category_name(),
                    price_value(),
                ),
        decreases keys.len() - i,
    {
        let amount = group_sum(items, &keys[i], GroupBy::Category, false);
        let ghost before = r@;
        r.push(CategoryTotal { category: keys[i].clone(), amount });
        assert forall|j: int| 0 <= j <= i implies category_names(r@)[j] == texts(keys@)[j] by {
            if j < i {
                assert(r@[j] == before[j]);
                assert(category_names(before)[j] == texts(keys@).subrange(0, i as int)[j]);
            }
        }
        assert(category_names(r@) =~= texts(keys@).subrange(0, i + 1));
        i = i + 1;
    }
    assert(category_names(r@) =~= texts(keys@));
    r
}

proof fn lemma_weight_pair_bound(s: Seq<FinItem>, k1: Seq<char>, k2: Seq<char>)
    requires
        k1 != k2,
    ensures
        abs(keyed_sum(s, k1, owner_key(), weight_value())) + abs(
            keyed_sum(s, k2, owner_key(), weight_value()),
        ) <= weight_magnitude(s),
    decreases s.len(),
{
    if s.len() > 0 {
        lemma_weight_pair_bound(s.drop_last(), k1, k2);
    }
}

/// The weighted share of the first total listed for payer `k`, if any.
pub open spec fn weighted_of(t: Seq<PayerTotal>, k: Seq<char>) -> Option<int>
    decreases t.len(),
{
    if t.len() == 0 {
        None
    } else if t[0].payer@ == k {
        Some(t[0].weighted as int)
    } else {
        weighted_of(t.drop_first(), k)
    }
}

/// Any two weighted shares of `t` can be subtracted without overflow.
pub open spec fn differences_fit(t: Seq<PayerTotal>) -> bool {
    forall|i: int, j: int|
        0 <= i < t.len() && 0 <= j < t.len() ==> i128::MIN <= #[trigger] t[j].weighted
            - #[trigger] t[i].weighted <= i128::MAX
}

/// A payer named in a comparison has no total.
#[derive(Clone, Copy, Debug, PartialEq, Eq, Structural)]
pub struct MissingPayer;

proof fn lemma_weighted_of_found(t: Seq<PayerTotal>, k: Seq<char>)
    requires
        weighted_of(t, k) is Some,
    ensures
        exists|i: int| 0 <= i < t.len() && t[i].weighted == weighted_of(t, k)->0,
    decreases t.len(),
{
    if t[0].payer@ != k {
        lemma_weighted_of_found(t.drop_first(), k);
        let i = choose|i: int| 0 <= i < t.drop_first().len() && t.drop_first()[i].weighted == weighted_of(t, k)->0;
        assert(t[i + 1] == t.drop_first()[i]);
    }
}

fn find_weighted(t: &Vec<PayerTotal>, k: &String) -> (r: Option<i128>)
    ensures
        match r {
            Some(w) => weighted_of(t@, k@) == Some(w as int),
            None => weighted_of(t@, k@) is None,
        },
{
    let mut i: usize = 0;
    assert(t@.subrange(0, t.len() as int) =~= t@);
    while i < t.len()
        invariant
            i <= t.len(),
            weighted_of(t@, k@) == weighted_of(t@.subrange(i as int, t.len() as int), k@),
        decreases t.len() - i,
    {
        if t[i].payer == *k {
            return Some(t[i].weighted);
        }
        assert(t@.subrange(i as int, t.len() as int).drop_first() =~= t@.subrange(i + 1, t.len() as int));
        i = i + 1;
    }
    None
}

/// How much `b`'s weighted share exceeds `a`'s: `weighted(b) - weighted(a)`,
/// or [`MissingPayer`] when either has no total.
pub fn owed_between(totals: &Vec<PayerTotal>, a: &String, b: &String) -> (r: Result<i128, MissingPayer>)
    requires
        differences_fit(totals@),
    ensures
        r is Ok <==> (weighted_of(totals@, a@) is Some && weighted_of(totals@, b@) is Some),
        r is Ok ==> r->Ok_0 == weighted_of(totals@, b@)->0 - weighted_of(totals@, a@)->0,
{
    let wa = match find_weighted(totals, a) {
        Some(w) => w,
        None => return Err(MissingPayer),
    };
    let wb = match find_weighted(totals, b) {
        Some(w) => w,
        None => return Err(MissingPayer),
    };
    proof {
        lemma_weighted_of_found(totals@, a@);
        lemma_weighted_of_found(totals@, b@);
        let i = choose|i: int| 0 <= i < totals@.len() && totals@[i].weighted == wa;
        let j = choose|j: int| 0 <= j < totals@.len() && totals@[j].weighted == wb;
        assert(i128::MIN <= totals@[j].weighted - totals@[i].weighted <= i128::MAX);
    }
    Ok(wb - wa)
}

/// The mean of `count` prices that add up to `total`, rounded down.
pub fn average(total: i128, count: usize) -> (r: i128)
    requires
        count > 0,
    ensures
        r == (total as int) / (count as int),
{
    let c = count as i128;
    if total >= 0 {
        total / c
    } else {
        let a = -(total + 1);
        let q = a / c;
        proof {
            let rem = (a as int) % (c as int);
            assert(a == q * c + rem && 0 <= rem < c) by (nonlinear_arith)
                requires
                    a >= 0,
                    c > 0,
                    q == (a as int) / (c as int),
                    rem == (a as int) % (c as int),
            ;
            assert(total == (-q - 1) * c + (c - rem - 1)) by (nonlinear_arith)
                requires
                    total == -a - 1,
                    a == q * c + rem,
            ;
            vstd::arithmetic::div_mod::lemma_fundamental_div_mod_converse_div(total as int, c as int, -q - 1, c - rem - 1);
        }
        -q - 1
    }
}

/// The distinct elements of `s`, in the order they first occur.
pub open spec fn first_seen(s: Seq<Seq<char>>) -> Seq<Seq<char>>
    decreases s.len(),
{
    if s.len() == 0 {
        Seq::empty()
    } else {
        let init = first_seen(s.drop_last());
        if init.contains(s.last()) {
            init
        } else {
            init.push(s.last())
        }
    }
}

pub open spec fn owner_names(s: Seq<FinItem>) -> Seq<Seq<char>> {
    s.map_values(|e: FinItem| e.owner@)
}

fn contains_text(v: &Vec<String>, k: &String) -> (r: bool)
    ensures
        r == texts(v@).contains(k@),
{
    let mut i: usize = 0;
    while i < v.len()
        invariant
            i <= v.len(),
            forall|j: int| 0 <= j < i ==> texts(v@)[j] != k@,
        decreases v.len() - i,
    {
        if v[i] == *k {
            assert(texts(v@)[i as int] == k@);
            return true;
        }
        i = i + 1;
    }
    false
}

/// The payers of `items`, each once, in the order they first appear.
pub fn payers_in_order(items: &Vec<FinItem>) -> (r: Vec<String>)
    ensures
        texts(r@) == first_seen(owner_names(items@)),
{
    let mut r: Vec<String> = Vec::new();
    let mut i: usize = 0;
    while i < items.len()
        invariant
            i <= items.len(),
            texts(r@) == first_seen(owner_names(items@.subrange(0, i as int))),
        decreases items.len() - i,
    {
        let ghost next = owner_names(items@.subrange(0, i + 1));
        assert(next.drop_last() =~= owner_names(items@.subrange(0, i as int)));
        assert(next.last() == items@[i as int].owner@);
        if !contains_text(&r, &items[i].owner) {
            let ghost before = texts(r@);
            r.push(items[i].owner.clone());
            assert(texts(r@) =~= before.push(items@[i as int].owner@));
        }
        i = i + 1;
    }
    assert(items@.subrange(0, items.len() as int) =~= items@);
    r
}

/// The pair of payers to compare: the chosen pair, unless either side is the
/// `"None"` placeholder while two or more payers are known, in which case the
/// first two payers.
pub fn comparison_pair(payers: &Vec<String>, main: &String, compare: &String) -> (r: (String, String))
    ensures
        payers.len() >= 2 && (main@ == none_label() || compare@ == none_label()) ==> r.0@
            == payers@[0]@ && r.1@ == payers@[1]@,
        !(payers.len() >= 2 && (main@ == none_label() || compare@ == none_label())) ==> r.0@
            == main@ && r.1@ == compare@,
{
    let none = String::from_str("None");
    proof {
        reveal_strlit("None");
    }
    assert(none@ =~= none_label());
    if payers.len() >= 2 && (*main == none || *compare == none) {
        (payers[0].clone(), payers[1].clone())
    } else {
        (main.clone(), compare.clone())
    }
}

} // verus!
