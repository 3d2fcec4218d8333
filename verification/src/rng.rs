//! SplitMix64 and reservoir sampling: a sample of a stream of unknown length.
use vstd::prelude::*;

verus! {

/// The step by which the state moves on.
pub const GAMMA: u64 = 0x9E37_79B9_7F4A_7C15;

/// The number that SplitMix64 draws in state `state`.
pub open spec fn mix(state: u64) -> u64 {
    let a = (state ^ (state >> 30)).wrapping_mul(0xBF58_476D_1CE4_E5B9);
    let b = (a ^ (a >> 27)).wrapping_mul(0x94D0_49BB_1331_11EB);
    b ^ (b >> 31)
}

/// The state after a draw in state `state`.
pub open spec fn advanced(state: u64) -> u64 {
    state.wrapping_add(GAMMA)
}

/// A draw scaled down to the range from zero to `n - 1`.
pub open spec fn scaled(draw: u64, n: nat) -> nat {
    (draw as nat * n) / 0x1_0000_0000_0000_0000
}

/// The SplitMix64 generator.
#[derive(Debug, Clone, Copy)]
pub struct SplitMix64 {
    state: u64,
}

impl View for SplitMix64 {
    type V = u64;

    closed spec fn view(&self) -> u64 {
        self.state
    }
}

impl SplitMix64 {
    /// A generator that starts from `seed`.
    pub fn new(seed: u64) -> (rng: SplitMix64)
        ensures
            rng@ == seed,
    {
        SplitMix64 { state: seed }
    }

    /// The next number.
    pub fn next_u64(&mut self) -> (draw: u64)
        ensures
            final(self)@ == advanced(old(self)@),
            draw == mix(advanced(old(self)@)),
    {
        self.state = self.state.wrapping_add(GAMMA);
        let z: u64 = self.state;
        let a: u64 = (z ^ (z >> 30)).wrapping_mul(0xBF58_476D_1CE4_E5B9);
        let b: u64 = (a ^ (a >> 27)).wrapping_mul(0x94D0_49BB_1331_11EB);
        b ^ (b >> 31)
    }

    /// The next number below `n`.
    pub fn below(&mut self, n: u64) -> (draw: u64)
        requires
            n > 0,
        ensures
            final(self)@ == advanced(old(self)@),
            draw == scaled(mix(advanced(old(self)@)), n as nat),
            draw < n,
    {
        let x: u64 = self.next_u64();
        assert(0 <= x * n <= 0xFFFF_FFFF_FFFF_FFFF * n) by (nonlinear_arith)
            requires
                0 <= x <= 0xFFFF_FFFF_FFFF_FFFF,
                n > 0,
        ;
        ((x as u128 * n as u128) / 0x1_0000_0000_0000_0000) as u64
    }
}

// ---------------------------------------------------------------------------------------------
// Reservoir sampling
// ---------------------------------------------------------------------------------------------

/// A sample in the making.
#[verifier::ext_equal]
pub struct Sample<T> {
    pub capacity: nat,
    pub state: u64,
    pub seen: nat,
    pub items: Seq<(nat, T)>,
}

/// A sample of nothing.
pub open spec fn fresh<T>(capacity: nat, seed: u64) -> Sample<T> {
    Sample { capacity, state: seed, seen: 0, items: Seq::empty() }
}

/// `s` after `item` was offered: kept while there is room, and afterwards put in the place of a
/// kept one where the draw falls on one.
pub open spec fn offered<T>(s: Sample<T>, item: (nat, T)) -> Sample<T> {
    if s.items.len() < s.capacity {
        Sample { seen: s.seen + 1, items: s.items.push(item), ..s }
    } else {
        let state = advanced(s.state);
        let slot = scaled(mix(state), s.seen + 1);
        Sample {
            state,
            seen: s.seen + 1,
            items: if slot < s.items.len() {
                s.items.update(slot as int, item)
            } else {
                s.items
            },
            ..s
        }
    }
}

/// The sample of all of `offers`, in the order in which they came.
pub open spec fn sample_of<T>(capacity: nat, seed: u64, offers: Seq<(nat, T)>) -> Sample<T>
    decreases offers.len(),
{
    if offers.len() == 0 {
        fresh(capacity, seed)
    } else {
        offered(sample_of(capacity, seed, offers.drop_last()), offers.last())
    }
}

/// `items` with `item` put before the first one whose index is not lower.
pub open spec fn insert_by_index<T>(items: Seq<(nat, T)>, item: (nat, T)) -> Seq<(nat, T)>
    decreases items.len(),
{
    if items.len() == 0 {
        seq![item]
    } else if item.0 <= items[0].0 {
        seq![item] + items
    } else {
        seq![items[0]] + insert_by_index(items.drop_first(), item)
    }
}

/// `items` in the order of their indices.
pub open spec fn by_index<T>(items: Seq<(nat, T)>) -> Seq<(nat, T)>
    decreases items.len(),
{
    if items.len() == 0 {
        Seq::empty()
    } else {
        insert_by_index(by_index(items.drop_first()), items[0])
    }
}

/// Whether the indices do not go down.
pub open spec fn in_index_order<T>(items: Seq<(nat, T)>) -> bool {
    forall|i: int, j: int| 0 <= i < j < items.len() ==> #[trigger] items[i].0 <= #[trigger] items[j].0
}

/// Whether the indices go up.
pub open spec fn indices_go_up<T>(items: Seq<(nat, T)>) -> bool {
    forall|i: int, j: int| 0 <= i < j < items.len() ==> #[trigger] items[i].0 < #[trigger] items[j].0
}

/// The items that a vector of indices with items holds.
pub open spec fn items_model<T>(items: Seq<(u64, T)>) -> Seq<(nat, T)> {
    Seq::new(items.len(), |i: int| (items[i].0 as nat, items[i].1))
}

/// A sample of bounded size from a stream of unknown length.
#[derive(Debug)]
pub struct Reservoir<T> {
    capacity: usize,
    rng: SplitMix64,
    seen: u64,
    items: Vec<(u64, T)>,
}

impl<T> View for Reservoir<T> {
    type V = Sample<T>;

    closed spec fn view(&self) -> Sample<T> {
        Sample {
            capacity: self.capacity as nat,
            state: self.rng@,
            seen: self.seen as nat,
            items: items_model(self.items@),
        }
    }
}

impl<T> Reservoir<T> {
    /// An empty sample with room for `capacity` items.
    pub fn new(capacity: usize, seed: u64) -> (r: Reservoir<T>)
        ensures
            r@ == fresh::<T>(capacity as nat, seed),
    {
        let r = Reservoir { capacity, rng: SplitMix64::new(seed), seen: 0, items: Vec::new() };
        assert(r@.items =~= Seq::<(nat, T)>::empty());
        r
    }

    /// Offers an item together with its index in the stream.
    pub fn offer(&mut self, index: u64, item: T)
        requires
            old(self)@.seen < u64::MAX,
        ensures
            final(self)@ == offered(old(self)@, (index as nat, item)),
    {
        self.seen = self.seen + 1;
        if self.items.len() < self.capacity {
            self.items.push((index, item));
            assert(self@.items =~= old(self)@.items.push((index as nat, item)));
        } else {
            let slot: u64 = self.rng.below(self.seen);
            if slot < self.items.len() as u64 {
                self.items.set(slot as usize, (index, item));
                assert(self@.items =~= old(self)@.items.update(
                    slot as int,
                    (index as nat, item),
                ));
            }
        }
    }

    /// The sampled items in the order of their indices.
    pub fn into_sorted(self) -> (sorted: Vec<(u64, T)>)
        ensures
            items_model(sorted@) == by_index(self@.items),
    {
        let mut items: Vec<(u64, T)> = self.items;
        let mut sorted: Vec<(u64, T)> = Vec::new();
        let ghost all = items_model(items@);
        assert(all.skip(all.len() as int) =~= Seq::<(nat, T)>::empty());
        assert(items_model(sorted@) =~= by_index(all.skip(all.len() as int)));
        assert(all.take(all.len() as int) =~= all);
        while items.len() > 0
            invariant
                items@.len() <= all.len(),
                items_model(items@) == all.take(items@.len() as int),
                items_model(sorted@) == by_index(all.skip(items@.len() as int)),
            decreases items@.len(),
        {
            let ghost n = items@.len() as int;
            match items.pop() {
                Some((index, item)) => {
                    proof {
                        assert(all.take(n)[n - 1] == (index as nat, item));
                        assert(items_model(items@) =~= all.take(n - 1));
                        assert(all.skip(n - 1).drop_first() =~= all.skip(n));
                    }
                    insert_item(&mut sorted, index, item);
                },
                None => {},
            }
        }
        assert(all.skip(0) =~= all);
        sorted
    }
}

/// Puts an item into items that are in index order.
fn insert_item<T>(items: &mut Vec<(u64, T)>, index: u64, item: T)
    ensures
        items_model(final(items)@) == insert_by_index(
            items_model(old(items)@),
            (index as nat, item),
        ),
{
    let ghost model = items_model(items@);
    let mut i: usize = 0;
    while i < items.len() && items[i].0 < index
        invariant
            i <= items@.len(),
            model == items_model(items@),
            forall|k: int| 0 <= k < i ==> #[trigger] model[k].0 < index,
        decreases items@.len() - i,
    {
        i = i + 1;
    }
    proof {
        lemma_insert_at(model, (index as nat, item), i as int);
    }
    items.insert(i, (index, item));
    assert(items_model(items@) =~= model.insert(i as int, (index as nat, item)));
}

proof fn lemma_insert_at<T>(items: Seq<(nat, T)>, item: (nat, T), i: int)
    requires
        0 <= i <= items.len(),
        forall|k: int| 0 <= k < i ==> #[trigger] items[k].0 < item.0,
        i < items.len() ==> item.0 <= items[i].0,
    ensures
        insert_by_index(items, item) == items.insert(i, item),
    decreases items.len(),
{
    if items.len() == 0 || i == 0 {
        assert(insert_by_index(items, item) =~= items.insert(i, item));
    } else {
        let rest = items.drop_first();
        assert(items[0].0 < item.0);
        assert forall|k: int| 0 <= k < i - 1 implies #[trigger] rest[k].0 < item.0 by {
            assert(rest[k] == items[k + 1]);
        }
        lemma_insert_at(rest, item, i - 1);
        assert(insert_by_index(items, item) =~= items.insert(i, item));
    }
}

// ---------------------------------------------------------------------------------------------
// Laws
// ---------------------------------------------------------------------------------------------

proof fn lemma_insert_by_index<T>(items: Seq<(nat, T)>, item: (nat, T))
    requires
        in_index_order(items),
    ensures
        in_index_order(insert_by_index(items, item)),
        insert_by_index(items, item).to_multiset() == items.to_multiset().insert(item),
        insert_by_index(items, item).len() == items.len() + 1,
    decreases items.len(),
{
    broadcast use vstd::seq_lib::group_to_multiset_ensures;

    let new = insert_by_index(items, item);
    if items.len() == 0 {
        assert(new =~= items.push(item));
    } else if item.0 <= items[0].0 {
        assert(new =~= items.insert(0, item));
        assert forall|i: int, j: int| 0 <= i < j < new.len() implies #[trigger] new[i].0
            <= #[trigger] new[j].0 by {
            assert(new[j] == items[j - 1]);
            if i > 0 {
                assert(new[i] == items[i - 1]);
            } else if j > 1 {
                assert(items[0].0 <= items[j - 1].0);
            }
        }
    } else {
        let rest = items.drop_first();
        assert forall|i: int, j: int| 0 <= i < j < rest.len() implies #[trigger] rest[i].0
            <= #[trigger] rest[j].0 by {
            assert(rest[i] == items[i + 1] && rest[j] == items[j + 1]);
        }
        lemma_insert_by_index(rest, item);
        let tail = insert_by_index(rest, item);
        assert(new =~= tail.insert(0, items[0]));
        assert(items =~= rest.insert(0, items[0]));
        assert(new.to_multiset() =~= items.to_multiset().insert(item));
        assert forall|i: int, j: int| 0 <= i < j < new.len() implies #[trigger] new[i].0
            <= #[trigger] new[j].0 by {
            assert(new[j] == tail[j - 1]);
            if i > 0 {
                assert(new[i] == tail[i - 1]);
            } else {
                assert(tail.to_multiset().contains(tail[j - 1]));
                if tail[j - 1] != item {
                    assert(rest.to_multiset().contains(tail[j - 1]));
                    assert(rest.contains(tail[j - 1]));
                    let k = choose|k: int| 0 <= k < rest.len() && rest[k] == tail[j - 1];
                    assert(items[k + 1] == tail[j - 1]);
                    assert(items[0].0 <= items[k + 1].0);
                }
            }
        }
    }
}

/// Sorting by index keeps every item, adds none, and leaves no index behind a higher one.
pub proof fn law_sorting_keeps_the_items<T>(items: Seq<(nat, T)>)
    ensures
        in_index_order(by_index(items)),
        by_index(items).to_multiset() == items.to_multiset(),
        by_index(items).len() == items.len(),
    decreases items.len(),
{
    broadcast use vstd::seq_lib::group_to_multiset_ensures;

    if items.len() > 0 {
        law_sorting_keeps_the_items(items.drop_first());
        lemma_insert_by_index(by_index(items.drop_first()), items[0]);
        assert(items =~= items.drop_first().insert(0, items[0]));
    } else {
        assert(by_index(items) =~= items);
    }
}

/// A sample holds as many items as were offered, up to its capacity.
pub proof fn law_sample_size<T>(capacity: nat, seed: u64, offers: Seq<(nat, T)>)
    ensures
        sample_of(capacity, seed, offers).seen == offers.len(),
        sample_of(capacity, seed, offers).capacity == capacity,
        sample_of(capacity, seed, offers).items.len() == if offers.len() < capacity {
            offers.len()
        } else {
            capacity
        },
    decreases offers.len(),
{
    if offers.len() > 0 {
        law_sample_size(capacity, seed, offers.drop_last());
    }
}

/// Every item of a sample was offered.
pub proof fn law_sample_is_drawn_from_the_offers<T>(
    capacity: nat,
    seed: u64,
    offers: Seq<(nat, T)>,
)
    ensures
        forall|i: int|
            0 <= i < sample_of(capacity, seed, offers).items.len() ==> offers.contains(
                #[trigger] sample_of(capacity, seed, offers).items[i],
            ),
    decreases offers.len(),
{
    if offers.len() > 0 {
        let before = offers.drop_last();
        law_sample_is_drawn_from_the_offers(capacity, seed, before);
        let old_items = sample_of(capacity, seed, before).items;
        let new_items = sample_of(capacity, seed, offers).items;
        assert(offers[offers.len() - 1] == offers.last());
        assert forall|i: int| 0 <= i < new_items.len() implies offers.contains(
            #[trigger] new_items[i],
        ) by {
            if new_items[i] != offers.last() {
                assert(new_items[i] == old_items[i]);
                let k = choose|k: int| 0 <= k < before.len() && before[k] == old_items[i];
                assert(offers[k] == old_items[i]);
            }
        }
    }
}

/// Where the indices of the offers go up, no index is sampled twice.
pub proof fn law_sample_has_no_repeats<T>(capacity: nat, seed: u64, offers: Seq<(nat, T)>)
    requires
        indices_go_up(offers),
    ensures
        forall|i: int, j: int|
            0 <= i < j < sample_of(capacity, seed, offers).items.len() ==> (#[trigger] sample_of(
                capacity,
                seed,
                offers,
            ).items[i]).0 != (#[trigger] sample_of(capacity, seed, offers).items[j]).0,
    decreases offers.len(),
{
    if offers.len() > 0 {
        let before = offers.drop_last();
        law_sample_has_no_repeats(capacity, seed, before);
        law_sample_is_drawn_from_the_offers(capacity, seed, before);
        let old_items = sample_of(capacity, seed, before).items;
        let new_items = sample_of(capacity, seed, offers).items;
        let last = offers.last();
        assert forall|i: int| 0 <= i < old_items.len() implies (#[trigger] old_items[i]).0 != last.0 by {
            let k = choose|k: int| 0 <= k < before.len() && before[k] == old_items[i];
            assert(offers[k] == old_items[i]);
            assert(offers[k].0 < offers[offers.len() - 1].0);
        }
        assert forall|i: int, j: int| 0 <= i < j < new_items.len() implies (
        #[trigger] new_items[i]).0 != (#[trigger] new_items[j]).0 by {
            if new_items[i] == last {
                if new_items[j] == last {
                    assert(i < old_items.len());
                    if j < old_items.len() {
                        assert(new_items[j] == old_items[j] || new_items[i] == old_items[i]);
                    } else {
                        assert(new_items[i] == old_items[i]);
                    }
                } else {
                    assert(new_items[j] == old_items[j]);
                }
            } else {
                assert(new_items[i] == old_items[i]);
            }
        }
    }
}

/// A stream that fits into the sample is kept whole, and comes out in the order in which it
/// went in.
pub proof fn law_short_stream_is_kept_whole<T>(capacity: nat, seed: u64, offers: Seq<(nat, T)>)
    requires
        offers.len() <= capacity,
        indices_go_up(offers),
    ensures
        sample_of(capacity, seed, offers).items == offers,
        by_index(sample_of(capacity, seed, offers).items) == offers,
{
    lemma_short_stream(capacity, seed, offers);
    lemma_sorted_already(offers);
}

proof fn lemma_short_stream<T>(capacity: nat, seed: u64, offers: Seq<(nat, T)>)
    requires
        offers.len() <= capacity,
    ensures
        sample_of(capacity, seed, offers).items == offers,
    decreases offers.len(),
{
    law_sample_size(capacity, seed, offers);
    if offers.len() > 0 {
        lemma_short_stream(capacity, seed, offers.drop_last());
        assert(offers =~= offers.drop_last().push(offers.last()));
    } else {
        assert(sample_of(capacity, seed, offers).items =~= offers);
    }
}

proof fn lemma_sorted_already<T>(items: Seq<(nat, T)>)
    requires
        indices_go_up(items),
    ensures
        by_index(items) == items,
    decreases items.len(),
{
    if items.len() > 0 {
        let rest = items.drop_first();
        assert forall|i: int, j: int| 0 <= i < j < rest.len() implies #[trigger] rest[i].0
            < #[trigger] rest[j].0 by {
            assert(rest[i] == items[i + 1] && rest[j] == items[j + 1]);
        }
        lemma_sorted_already(rest);
        if rest.len() > 0 {
            assert(items[0].0 < items[1].0);
            assert(rest[0] == items[1]);
        }
        assert(by_index(items) =~= items);
    } else {
        assert(by_index(items) =~= items);
    }
}

// ---------------------------------------------------------------------------------------------
// Fairness
// ---------------------------------------------------------------------------------------------

/// A scaled draw falls on `slot` exactly where the draw is in that one of `n` equal parts of its
/// range.
pub proof fn law_draws_fall_evenly(draw: u64, n: nat, slot: nat)
    requires
        0 < n,
        slot < n,
    ensures
        scaled(draw, n) == slot <==> slot * 0x1_0000_0000_0000_0000 <= draw as nat * n < (slot + 1)
            * 0x1_0000_0000_0000_0000,
{
}

/// The first draw that falls on `slot`, of `n`.
pub open spec fn first_draw(slot: nat, n: nat) -> nat {
    ((slot * 0x1_0000_0000_0000_0000 + n - 1) / n as int) as nat
}

/// The draws that fall on a slot are a run of consecutive numbers, and the runs of all slots are
/// equally long, but for one number where `n` does not divide the number of draws.
pub proof fn law_every_slot_has_its_share(draw: u64, n: nat, slot: nat)
    requires
        0 < n,
        slot < n,
    ensures
        scaled(draw, n) == slot <==> first_draw(slot, n) <= draw < first_draw(slot + 1, n),
        0x1_0000_0000_0000_0000nat / n <= first_draw(slot + 1, n) - first_draw(slot, n)
            <= 0x1_0000_0000_0000_0000nat / n + 1,
        first_draw(0, n) == 0,
        first_draw(n, n) == 0x1_0000_0000_0000_0000,
{
    let m: int = 0x1_0000_0000_0000_0000;
    let d = n as int;
    law_draws_fall_evenly(draw, n, slot);
    lemma_first_draw(slot, n, draw as int);
    lemma_first_draw(slot + 1, n, draw as int);
    let low = first_draw(slot, n) as int;
    let high = first_draw(slot + 1, n) as int;
    let q = m / d;
    lemma_first_draw(slot, n, low);
    lemma_first_draw(slot, n, low - 1);
    lemma_first_draw(slot + 1, n, high);
    lemma_first_draw(slot + 1, n, high - 1);
    vstd::arithmetic::div_mod::lemma_fundamental_div_mod(m, d);
    vstd::arithmetic::div_mod::lemma_mod_pos_bound(m, d);
    assert(q <= high - low <= q + 1) by (nonlinear_arith)
        requires
            d > 0,
            slot * m <= low * d,
            (low - 1) * d < slot * m,
            (slot + 1) * m <= high * d,
            (high - 1) * d < (slot + 1) * m,
            m == d * q + m % d,
            0 <= m % d < d,
    ;
    assert((0 * m + d - 1) / d == 0) by (nonlinear_arith)
        requires
            d > 0,
    ;
    assert((d * m + d - 1) / d == m) by (nonlinear_arith)
        requires
            d > 0,
    ;
}

/// A draw reaches `slot` exactly where it is no less than the first one that does.
proof fn lemma_first_draw(slot: nat, n: nat, draw: int)
    requires
        n > 0,
    ensures
        first_draw(slot, n) <= draw <==> slot * 0x1_0000_0000_0000_0000 <= draw * n,
{
    let d = n as int;
    let a = slot * 0x1_0000_0000_0000_0000;
    let x = a + d - 1;
    let q = x / d;
    vstd::arithmetic::div_mod::lemma_fundamental_div_mod(x, d);
    vstd::arithmetic::div_mod::lemma_mod_pos_bound(x, d);
    assert(q >= 0) by (nonlinear_arith)
        requires
            q == x / d,
            x >= 0,
            d > 0,
    ;
    assert(q <= draw <==> a <= draw * d) by (nonlinear_arith)
        requires
            x == d * q + x % d,
            0 <= x % d < d,
            x == a + d - 1,
            d > 0,
    ;
}

/// Undoes [`mix`].
pub open spec fn unmix(draw: u64) -> u64 {
    let b = (draw ^ (draw >> 31) ^ (draw >> 62)).wrapping_mul(0x3196_42B2_D24D_8EC3);
    let a = (b ^ (b >> 27) ^ (b >> 54)).wrapping_mul(0x96DE_1B17_3F11_9089);
    a ^ (a >> 30) ^ (a >> 60)
}

/// Undoes [`advanced`].
pub open spec fn retreated(state: u64) -> u64 {
    state.wrapping_sub(GAMMA)
}

/// Multiplying by a number and then by its inverse changes nothing.
proof fn lemma_inverse(x: u64, c: u64, inverse: u64)
    requires
        (c * inverse) % 0x1_0000_0000_0000_0000 == 1,
    ensures
        x.wrapping_mul(c).wrapping_mul(inverse) == x,
{
    let m: int = 0x1_0000_0000_0000_0000;
    let y = (x * c) % m;
    vstd::arithmetic::div_mod::lemma_mod_pos_bound(x * c, m);
    vstd::arithmetic::div_mod::lemma_mul_mod_noop_left(x * c, inverse as int, m);
    vstd::arithmetic::div_mod::lemma_mul_mod_noop_right(x as int, c * inverse, m);
    vstd::arithmetic::mul::lemma_mul_is_associative(x as int, c as int, inverse as int);
    assert((y * inverse) % m == (x * (c * inverse)) % m);
    vstd::arithmetic::div_mod::lemma_small_mod(x as nat, m as nat);
    assert(x.wrapping_mul(c) == y);
}

/// Every number is drawn in exactly one state, and so first of all from exactly one seed: over
/// all seeds no draw is likelier than another.
pub proof fn law_every_draw_has_one_seed(seed: u64, draw: u64)
    ensures
        mix(advanced(seed)) == draw <==> seed == retreated(unmix(draw)),
{
    lemma_unmix(advanced(seed));
    lemma_mix(draw);
}

proof fn lemma_unmix(state: u64)
    ensures
        unmix(mix(state)) == state,
{
    let x = state ^ (state >> 30);
    let a = x.wrapping_mul(0xBF58_476D_1CE4_E5B9);
    let y = a ^ (a >> 27);
    let b = y.wrapping_mul(0x94D0_49BB_1331_11EB);
    let z = b ^ (b >> 31);
    assert(z ^ (z >> 31) ^ (z >> 62) == b) by (bit_vector)
        requires
            z == b ^ (b >> 31),
    ;
    assert(y ^ (y >> 27) ^ (y >> 54) == a) by (bit_vector)
        requires
            y == a ^ (a >> 27),
    ;
    assert(x ^ (x >> 30) ^ (x >> 60) == state) by (bit_vector)
        requires
            x == state ^ (state >> 30),
    ;
    lemma_inverse(y, 0x94D0_49BB_1331_11EB, 0x3196_42B2_D24D_8EC3);
    lemma_inverse(x, 0xBF58_476D_1CE4_E5B9, 0x96DE_1B17_3F11_9089);
}

proof fn lemma_mix(draw: u64)
    ensures
        mix(unmix(draw)) == draw,
{
    let z = draw ^ (draw >> 31) ^ (draw >> 62);
    let b = z.wrapping_mul(0x3196_42B2_D24D_8EC3);
    let y = b ^ (b >> 27) ^ (b >> 54);
    let a = y.wrapping_mul(0x96DE_1B17_3F11_9089);
    let x = a ^ (a >> 30) ^ (a >> 60);
    assert(x ^ (x >> 30) == a) by (bit_vector)
        requires
            x == a ^ (a >> 30) ^ (a >> 60),
    ;
    assert(y ^ (y >> 27) == b) by (bit_vector)
        requires
            y == b ^ (b >> 27) ^ (b >> 54),
    ;
    assert(z ^ (z >> 31) == draw) by (bit_vector)
        requires
            z == draw ^ (draw >> 31) ^ (draw >> 62),
    ;
    lemma_inverse(y, 0x96DE_1B17_3F11_9089, 0xBF58_476D_1CE4_E5B9);
    lemma_inverse(z, 0x3196_42B2_D24D_8EC3, 0x94D0_49BB_1331_11EB);
}

/// An item that is offered to a full sample is kept for that share of the draws which the
/// capacity has in the number of items offered so far, itself included; and where it is kept,
/// it takes each place for an equal share of them.
pub proof fn law_offers_are_kept_evenly<T>(s: Sample<T>, item: (nat, T))
    requires
        s.items.len() == s.capacity,
        s.capacity <= s.seen,
    ensures
        ({
            let draw = mix(advanced(s.state));
            let n = s.seen + 1;
            let after = offered(s, item).items;
            &&& draw >= first_draw(s.capacity, n) ==> after == s.items
            &&& forall|place: nat|
                place < s.capacity && first_draw(place, n) <= draw < #[trigger] first_draw(
                    place + 1,
                    n,
                ) ==> after == s.items.update(place as int, item)
        }),
{
    let draw = mix(advanced(s.state));
    let n = s.seen + 1;
    lemma_first_draw(s.capacity, n, draw as int);
    let k = s.capacity as int;
    if draw >= first_draw(s.capacity, n) {
        assert(scaled(draw, n) >= k);
    }
    assert forall|place: nat|
        place < s.capacity && first_draw(place, n) <= draw < #[trigger] first_draw(
            place + 1,
            n,
        ) implies offered(s, item).items == s.items.update(place as int, item) by {
        law_every_slot_has_its_share(draw, n, place);
    }
}

// ---------------------------------------------------------------------------------------------
// The sequence of draws
// ---------------------------------------------------------------------------------------------

/// The state of a generator after `k` draws: so many steps of one odd number on from its seed,
/// round the 64-bit numbers.
pub open spec fn state_after(seed: u64, k: nat) -> nat {
    (seed as nat + k * 0x9E37_79B9_7F4A_7C15) % 0x1_0000_0000_0000_0000
}

/// One draw moves the state on by one step.
pub proof fn law_a_draw_is_one_step(seed: u64, state: u64, k: nat)
    requires
        state as nat == state_after(seed, k),
    ensures
        advanced(state) as nat == state_after(seed, k + 1),
        state_after(seed, 0) == seed as nat,
{
    let m: int = 0x1_0000_0000_0000_0000;
    let g: int = 0x9E37_79B9_7F4A_7C15;
    let total = seed as int + k * g;
    assert(seed as int + (k + 1) * g == total + g) by (nonlinear_arith)
        requires
            total == seed as int + k * g,
    ;
    vstd::arithmetic::div_mod::lemma_add_mod_noop(total, g, m);
    assert(g % m == g);
    vstd::arithmetic::div_mod::lemma_small_mod(seed as nat, m as nat);
}

/// A sample knows its capacity and how many items it was offered, and its generator has made one
/// draw for each offer beyond the capacity, and no other.
pub proof fn law_every_offer_to_a_full_sample_takes_one_draw<T>(
    capacity: nat,
    seed: u64,
    offers: Seq<(nat, T)>,
)
    ensures
        ({
            let s = sample_of(capacity, seed, offers);
            let draws: nat = if offers.len() <= capacity {
                0
            } else {
                (offers.len() - capacity) as nat
            };
            &&& s.capacity == capacity
            &&& s.seen == offers.len()
            &&& s.state as nat == state_after(seed, draws)
        }),
    decreases offers.len(),
{
    law_a_draw_is_one_step(seed, seed, 0);
    if offers.len() > 0 {
        let before = offers.drop_last();
        law_every_offer_to_a_full_sample_takes_one_draw(capacity, seed, before);
        law_sample_size(capacity, seed, before);
        let s = sample_of(capacity, seed, before);
        let draws: nat = if before.len() <= capacity {
            0
        } else {
            (before.len() - capacity) as nat
        };
        law_a_draw_is_one_step(seed, s.state, draws);
    }
}

/// The first items fill the sample in their order. From then on the next item takes the place
/// that the next draw of the seed's sequence picks among as many places as items were offered,
/// itself included, and is passed over where the sample has no such place.
pub proof fn law_every_item_goes_where_its_draw_says<T>(
    capacity: nat,
    seed: u64,
    offers: Seq<(nat, T)>,
    item: (nat, T),
    state: u64,
    place: nat,
)
    requires
        offers.len() >= capacity ==> state as nat == state_after(
            seed,
            (offers.len() + 1 - capacity) as nat,
        ),
        place * 0x1_0000_0000_0000_0000 <= mix(state) as nat * (offers.len() + 1) < (place + 1)
            * 0x1_0000_0000_0000_0000,
    ensures
        ({
            let before = sample_of(capacity, seed, offers).items;
            let after = sample_of(capacity, seed, offers.push(item)).items;
            &&& offers.len() < capacity ==> after == before.push(item)
            &&& offers.len() >= capacity && place < capacity ==> after == before.update(
                place as int,
                item,
            )
            &&& offers.len() >= capacity && place >= capacity ==> after == before
        }),
{
    let more = offers.push(item);
    assert(more.drop_last() =~= offers);
    assert(more.last() == item);
    let s = sample_of(capacity, seed, offers);
    law_every_offer_to_a_full_sample_takes_one_draw(capacity, seed, offers);
    law_sample_size(capacity, seed, offers);
    if offers.len() >= capacity {
        let draws = (offers.len() - capacity) as nat;
        law_a_draw_is_one_step(seed, s.state, draws);
        assert(advanced(s.state) == state);
        let product = mix(state) as nat * (offers.len() + 1);
        assert(product / 0x1_0000_0000_0000_0000 == place);
    }
}

// ---------------------------------------------------------------------------------------------
// Order
// ---------------------------------------------------------------------------------------------

/// The items with the index `k`, in order.
pub open spec fn indexed<T>(items: Seq<(nat, T)>, k: nat) -> Seq<(nat, T)>
    decreases items.len(),
{
    if items.len() == 0 {
        Seq::empty()
    } else if items[0].0 == k {
        seq![items[0]] + indexed(items.drop_first(), k)
    } else {
        indexed(items.drop_first(), k)
    }
}

/// Sorting leaves items with the same index in their order.
pub proof fn law_sorting_is_stable<T>(items: Seq<(nat, T)>, k: nat)
    ensures
        indexed(by_index(items), k) == indexed(items, k),
    decreases items.len(),
{
    if items.len() > 0 {
        law_sorting_is_stable(items.drop_first(), k);
        law_sorting_keeps_the_items(items.drop_first());
        lemma_insert_is_stable(by_index(items.drop_first()), items[0], k);
    }
}

proof fn lemma_insert_is_stable<T>(items: Seq<(nat, T)>, item: (nat, T), k: nat)
    requires
        in_index_order(items),
    ensures
        indexed(insert_by_index(items, item), k) == (if item.0 == k {
            seq![item] + indexed(items, k)
        } else {
            indexed(items, k)
        }),
    decreases items.len(),
{
    let new = insert_by_index(items, item);
    if items.len() == 0 || item.0 <= items[0].0 {
        assert(new.drop_first() =~= items);
        assert(new[0] == item);
        if items.len() == 0 {
            assert(items =~= Seq::empty());
        }
    } else {
        let rest = items.drop_first();
        assert forall|i: int, j: int| 0 <= i < j < rest.len() implies #[trigger] rest[i].0
            <= #[trigger] rest[j].0 by {
            assert(rest[i] == items[i + 1] && rest[j] == items[j + 1]);
        }
        lemma_insert_is_stable(rest, item, k);
        assert(new.drop_first() =~= insert_by_index(rest, item));
        assert(new[0] == items[0]);
    }
}

} // verus!
