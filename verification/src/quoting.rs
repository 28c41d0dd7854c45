//! From the orders that rest to the orders that are wanted: which are kept, modified or
//! cancelled, and which are added.
use vstd::prelude::*;

use crate::config::Config;
use crate::double::{of_int, quotient, Double};
use crate::exchange::{
    cancel_views, labelled, request_views, ModifyRequest, OrderRequest, RequestView,
};
use crate::fills::{remove_oid, without};
use crate::risk::Quote;
use crate::trading::has_oid;
use crate::types::{MmModel, MmState, OrderLevel, TrackedOrder};

verus! {

broadcast use vstd::std_specs::hash::group_hash_axioms;

// ---- what is wanted and what there is ---------------------------------------------------------

/// A wanted order.
#[derive(Clone, Copy, Debug, PartialEq, Eq, Structural)]
pub struct Desired {
    pub is_buy: bool,
    pub price: Double,
    pub size: Double,
}

/// The wanted orders of one side.
pub open spec fn side_orders(levels: Seq<OrderLevel>, is_buy: bool) -> Seq<Desired> {
    levels.map_values(|l: OrderLevel| Desired { is_buy, price: l.price, size: l.size })
}

/// The wanted orders on the sides that are requoted, bids first.
pub open spec fn desired_of(q: Quote, manage_bids: bool, manage_asks: bool) -> Seq<Desired> {
    (if manage_bids {
        side_orders(q.bids, true)
    } else {
        Seq::empty()
    }) + (if manage_asks {
        side_orders(q.asks, false)
    } else {
        Seq::empty()
    })
}

/// The orders that rest on the sides that are requoted, bids first.
pub open spec fn existing_of(s: MmModel, manage_bids: bool, manage_asks: bool) -> Seq<u64> {
    (if manage_bids {
        s.buy_oids
    } else {
        Seq::empty()
    }) + (if manage_asks {
        s.sell_oids
    } else {
        Seq::empty()
    })
}

fn push_side(v: &mut Vec<Desired>, levels: &Vec<OrderLevel>, is_buy: bool)
    ensures
        final(v)@ == old(v)@ + side_orders(levels@, is_buy),
{
    let mut i: usize = 0;
    assert(side_orders(levels@.take(0), is_buy) == Seq::<Desired>::empty());
    while i < levels.len()
        invariant
            i <= levels@.len(),
            v@ == old(v)@ + side_orders(levels@.take(i as int), is_buy),
        decreases levels@.len() - i,
    {
        let d = Desired { is_buy, price: levels[i].price, size: levels[i].size };
        v.push(d);
        assert(side_orders(levels@.take(i + 1), is_buy) == side_orders(
            levels@.take(i as int),
            is_buy,
        ).push(d));
        i = i + 1;
    }
    assert(levels@.take(levels@.len() as int) == levels@);
}

/// The wanted orders on the sides that are requoted, bids first.
pub fn desired_orders(
    bids: &Vec<OrderLevel>,
    asks: &Vec<OrderLevel>,
    manage_bids: bool,
    manage_asks: bool,
) -> (r: Vec<Desired>)
    ensures
        r@ == desired_of((Quote { bids: bids@, asks: asks@ }), manage_bids, manage_asks),
{
    let mut v: Vec<Desired> = Vec::new();
    if manage_bids {
        push_side(&mut v, bids, true);
    }
    assert(v@ =~= if manage_bids { side_orders(bids@, true) } else { Seq::empty() });
    if manage_asks {
        push_side(&mut v, asks, false);
    }
    assert(v@ =~= desired_of((Quote { bids: bids@, asks: asks@ }), manage_bids, manage_asks));
    v
}

fn push_oids(v: &mut Vec<u64>, oids: &Vec<u64>)
    ensures
        final(v)@ == old(v)@ + oids@,
{
    let mut i: usize = 0;
    while i < oids.len()
        invariant
            i <= oids@.len(),
            v@ == old(v)@ + oids@.take(i as int),
        decreases oids@.len() - i,
    {
        v.push(oids[i]);
        assert(oids@.take(i + 1) == oids@.take(i as int).push(oids@[i as int]));
        i = i + 1;
    }
    assert(oids@.take(oids@.len() as int) == oids@);
}

/// The orders that rest on the sides that are requoted, bids first.
pub fn existing_orders(state: &MmState, manage_bids: bool, manage_asks: bool) -> (r: Vec<u64>)
    ensures
        r@ == existing_of(state@, manage_bids, manage_asks),
{
    let mut v: Vec<u64> = Vec::new();
    if manage_bids {
        push_oids(&mut v, &state.buy_oids);
    }
    if manage_asks {
        push_oids(&mut v, &state.sell_oids);
    }
    assert(v@ =~= existing_of(state@, manage_bids, manage_asks));
    v
}

// ---- matching -----------------------------------------------------------------------------------

/// An order that is kept, the price and size that are wanted of it, and how many ticks it is
/// away.
#[derive(Clone, Copy, Debug, PartialEq, Eq, Structural)]
pub struct Kept {
    pub oid: u64,
    pub price: Double,
    pub size: Double,
    pub drift_ticks: u32,
}

/// What was decided so far: which wanted orders have one that rests, and what becomes of the
/// orders that rest.
#[verifier::ext_equal]
pub struct Matching {
    pub matched: Seq<bool>,
    pub kept: Seq<Kept>,
    pub modifies: Seq<ModifyRequest>,
    pub cancels: Seq<u64>,
}

/// The distance of an order from a wanted price, in ticks.
pub open spec fn distance(o: TrackedOrder, price: Double, tick: Double) -> Double {
    o.price.minus(price).magnitude().over(tick)
}

/// The closest of the first `n` wanted orders that has the order's side and none that rests
/// yet, with its distance; the first of equally close ones.
pub open spec fn closest(
    desired: Seq<Desired>,
    matched: Seq<bool>,
    o: TrackedOrder,
    tick: Double,
    n: int,
) -> Option<(int, Double)>
    decreases n,
{
    if n <= 0 {
        None
    } else {
        let best = closest(desired, matched, o, tick, n - 1);
        let d = desired[n - 1];
        let dist = distance(o, d.price, tick);
        if matched[n - 1] || d.is_buy != o.is_buy {
            best
        } else {
            match best {
                None => Some((n - 1, dist)),
                Some((_, b)) => if dist.less(b) {
                    Some((n - 1, dist))
                } else {
                    best
                },
            }
        }
    }
}

/// How much two sizes differ, as a share of the larger.
pub open spec fn size_change(a: Double, b: Double, min_size: Double) -> Double {
    a.minus(b).magnitude().over(a.magnitude().larger(b.magnitude()).larger(min_size))
}

/// An order is close enough to a wanted one to be kept: by one tick, and by five percent of
/// its size.
pub open spec fn close_enough(o: TrackedOrder, d: Desired, dist: Double, min_size: Double) -> bool {
    dist.at_most(of_int(1)) && size_change(o.size, d.size, min_size).at_most(quotient(5, 100))
}

/// What is decided of one more order that rests: an unknown one, or one without a wanted order
/// left, is cancelled.
pub open spec fn after_order(
    m: Matching,
    desired: Seq<Desired>,
    details: Map<u64, TrackedOrder>,
    oid: u64,
    tick: Double,
    min_size: Double,
) -> Matching {
    if !details.contains_key(oid) {
        Matching { cancels: m.cancels.push(oid), ..m }
    } else {
        let o = details[oid];
        match closest(desired, m.matched, o, tick, desired.len() as int) {
            None => Matching { cancels: m.cancels.push(oid), ..m },
            Some((i, dist)) => {
                let d = desired[i];
                let taken = Matching { matched: m.matched.update(i, true), ..m };
                if close_enough(o, d, dist, min_size) {
                    Matching {
                        kept: m.kept.push(
                            Kept {
                                oid,
                                price: d.price,
                                size: d.size,
                                drift_ticks: dist.nearest_whole().saturated(
                                    0,
                                    u32::MAX as int,
                                ) as u32,
                            },
                        ),
                        ..taken
                    }
                } else {
                    Matching {
                        modifies: m.modifies.push(
                            ModifyRequest {
                                oid,
                                new_price: d.price,
                                new_size: d.size,
                                is_buy: o.is_buy,
                                reduce_only: false,
                            },
                        ),
                        ..taken
                    }
                }
            },
        }
    }
}

/// What is decided of the first `n` orders that rest.
pub open spec fn matching(
    existing: Seq<u64>,
    n: int,
    desired: Seq<Desired>,
    details: Map<u64, TrackedOrder>,
    tick: Double,
    min_size: Double,
) -> Matching
    decreases n,
{
    if n <= 0 {
        Matching {
            matched: Seq::new(desired.len(), |i: int| false),
            kept: Seq::empty(),
            modifies: Seq::empty(),
            cancels: Seq::empty(),
        }
    } else {
        after_order(
            matching(existing, n - 1, desired, details, tick, min_size),
            desired,
            details,
            existing[n - 1],
            tick,
            min_size,
        )
    }
}

/// A new order that is not to take liquidity.
pub open spec fn new_order(coin: Seq<char>, d: Desired) -> RequestView {
    RequestView {
        coin,
        is_buy: d.is_buy,
        sz: d.size,
        limit_px: d.price,
        reduce_only: false,
        tif: "Alo"@,
    }
}

/// New orders for those of the first `n` wanted ones that none rests for.
pub open spec fn additions(coin: Seq<char>, desired: Seq<Desired>, matched: Seq<bool>, n: int) -> Seq<
    RequestView,
>
    decreases n,
{
    if n <= 0 {
        Seq::empty()
    } else {
        let before = additions(coin, desired, matched, n - 1);
        if matched[n - 1] {
            before
        } else {
            before.push(new_order(coin, desired[n - 1]))
        }
    }
}

/// What is to be done about the orders.
#[verifier::ext_equal]
pub struct DiffView {
    pub kept: Seq<Kept>,
    pub modifies: Seq<ModifyRequest>,
    pub cancels: Seq<(Seq<char>, u64)>,
    pub adds: Seq<RequestView>,
}

/// What is to be done about the orders, so that those wanted come to rest.
pub open spec fn diff_of(
    existing: Seq<u64>,
    desired: Seq<Desired>,
    details: Map<u64, TrackedOrder>,
    coin: Seq<char>,
    tick: Double,
    min_size: Double,
) -> DiffView {
    let m = matching(existing, existing.len() as int, desired, details, tick, min_size);
    DiffView {
        kept: m.kept,
        modifies: m.modifies,
        cancels: labelled(coin, m.cancels),
        adds: additions(coin, desired, m.matched, desired.len() as int),
    }
}

/// What is to be done about the orders.
#[derive(Debug)]
pub struct Diff {
    pub kept: Vec<Kept>,
    pub modifies: Vec<ModifyRequest>,
    pub cancels: Vec<(String, u64)>,
    pub adds: Vec<OrderRequest>,
}

impl View for Diff {
    type V = DiffView;

    open spec fn view(&self) -> DiffView {
        DiffView {
            kept: self.kept@,
            modifies: self.modifies@,
            cancels: cancel_views(self.cancels@),
            adds: request_views(self.adds@),
        }
    }
}

/// What `closest` finds is a wanted order of the same side that none rests for.
pub proof fn lemma_closest(
    desired: Seq<Desired>,
    matched: Seq<bool>,
    o: TrackedOrder,
    tick: Double,
    n: int,
)
    requires
        0 <= n <= desired.len(),
        matched.len() == desired.len(),
    ensures
        closest(desired, matched, o, tick, n) matches Some((i, dist)) ==> 0 <= i < n
            && !matched[i] && desired[i].is_buy == o.is_buy && dist == distance(
            o,
            desired[i].price,
            tick,
        ),
        closest(desired, matched, o, tick, n) is None ==> forall|i: int|
            0 <= i < n ==> (#[trigger] matched[i] || desired[i].is_buy != o.is_buy),
    decreases n,
{
    if n > 0 {
        lemma_closest(desired, matched, o, tick, n - 1);
    }
}

fn find_closest(desired: &Vec<Desired>, matched: &Vec<bool>, o: &TrackedOrder, tick: Double) -> (r:
    Option<(usize, Double)>)
    requires
        matched@.len() == desired@.len(),
    ensures
        match r {
            Some((i, dist)) => i < desired@.len() && closest(
                desired@,
                matched@,
                *o,
                tick,
                desired@.len() as int,
            ) == Some((i as int, dist)),
            None => closest(desired@, matched@, *o, tick, desired@.len() as int) is None,
        },
{
    let mut best: Option<(usize, Double)> = None;
    let mut i: usize = 0;
    while i < desired.len()
        invariant
            matched@.len() == desired@.len(),
            i <= desired@.len(),
            match best {
                Some((k, dist)) => k < i && closest(desired@, matched@, *o, tick, i as int)
                    == Some((k as int, dist)),
                None => closest(desired@, matched@, *o, tick, i as int) is None,
            },
        decreases desired@.len() - i,
    {
        let d = desired[i];
        if !matched[i] && d.is_buy == o.is_buy {
            let dist = o.price.sub(d.price).abs().div(tick);
            match best {
                None => {
                    best = Some((i, dist));
                },
                Some((_, b)) => {
                    if dist.lt(b) {
                        best = Some((i, dist));
                    }
                },
            }
        }
        i = i + 1;
    }
    best
}

fn is_close_enough(o: &TrackedOrder, d: &Desired, dist: Double, min_size: Double) -> (r: bool)
    ensures
        r == close_enough(*o, *d, dist, min_size),
{
    let denom = o.size.abs().max(d.size.abs()).max(min_size);
    let change = o.size.sub(d.size).abs().div(denom);
    dist.le(Double::from_u64(1)) && change.le(Double::ratio(5, 100))
}

/// The decisions so far.
struct Decisions {
    matched: Vec<bool>,
    kept: Vec<Kept>,
    modifies: Vec<ModifyRequest>,
    cancels: Vec<u64>,
}

impl Decisions {
    spec fn matching(self) -> Matching {
        Matching {
            matched: self.matched@,
            kept: self.kept@,
            modifies: self.modifies@,
            cancels: self.cancels@,
        }
    }

    fn decide(
        &mut self,
        oid: u64,
        order: Option<TrackedOrder>,
        desired: &Vec<Desired>,
        Ghost(details): Ghost<Map<u64, TrackedOrder>>,
        tick: Double,
        min_size: Double,
    )
        requires
            old(self).matched@.len() == desired@.len(),
            order is Some <==> details.contains_key(oid),
            order matches Some(o) ==> o == details[oid],
        ensures
            final(self).matched@.len() == desired@.len(),
            final(self).matching() == after_order(
                old(self).matching(),
                desired@,
                details,
                oid,
                tick,
                min_size,
            ),
    {
        match order {
            None => {
                self.cancels.push(oid);
            },
            Some(o) => {
                match find_closest(desired, &self.matched, &o, tick) {
                    None => {
                        self.cancels.push(oid);
                    },
                    Some((i, dist)) => {
                        let d = desired[i];
                        self.matched.set(i, true);
                        if is_close_enough(&o, &d, dist, min_size) {
                            self.kept.push(
                                Kept {
                                    oid,
                                    price: d.price,
                                    size: d.size,
                                    drift_ticks: dist.round().to_u32(),
                                },
                            );
                        } else {
                            self.modifies.push(
                                ModifyRequest {
                                    oid,
                                    new_price: d.price,
                                    new_size: d.size,
                                    is_buy: o.is_buy,
                                    reduce_only: false,
                                },
                            );
                        }
                    },
                }
            },
        }
    }
}

fn fresh_marks(n: usize) -> (r: Vec<bool>)
    ensures
        r@ == Seq::new(n as nat, |i: int| false),
{
    let mut r: Vec<bool> = Vec::new();
    let mut i: usize = 0;
    while i < n
        invariant
            i <= n,
            r@ == Seq::new(i as nat, |k: int| false),
        decreases n - i,
    {
        r.push(false);
        assert(r@ =~= Seq::new((i + 1) as nat, |k: int| false));
        i = i + 1;
    }
    r
}

fn add_orders(config: &Config, desired: &Vec<Desired>, matched: &Vec<bool>) -> (r: Vec<OrderRequest>)
    requires
        matched@.len() == desired@.len(),
    ensures
        request_views(r@) == additions(
            config.token.symbol@,
            desired@,
            matched@,
            desired@.len() as int,
        ),
{
    let mut r: Vec<OrderRequest> = Vec::new();
    let mut i: usize = 0;
    assert(request_views(r@) == Seq::<RequestView>::empty());
    while i < desired.len()
        invariant
            matched@.len() == desired@.len(),
            i <= desired@.len(),
            request_views(r@) == additions(config.token.symbol@, desired@, matched@, i as int),
        decreases desired@.len() - i,
    {
        if !matched[i] {
            let d = desired[i];
            let ghost before = r@;
            let o = OrderRequest {
                coin: config.token.symbol.clone(),
                is_buy: d.is_buy,
                sz: d.size,
                limit_px: d.price,
                reduce_only: false,
                tif: "Alo".to_owned(),
            };
            let ghost v = o@;
            r.push(o);
            assert(request_views(r@) == request_views(before).push(v));
        }
        i = i + 1;
    }
    r
}

/// What is to be done about the orders that rest, so that those wanted come to rest.
pub fn diff_orders(
    config: &Config,
    state: &MmState,
    existing: &Vec<u64>,
    desired: &Vec<Desired>,
) -> (r: Diff)
    ensures
        r@ == diff_of(
            existing@,
            desired@,
            state@.order_details,
            config.token.symbol@,
            config.token.tick_size,
            config.token.min_size,
        ),
{
    let tick = config.token.tick_size;
    let min_size = config.token.min_size;
    let ghost details = state@.order_details;
    let mut m = Decisions {
        matched: fresh_marks(desired.len()),
        kept: Vec::new(),
        modifies: Vec::new(),
        cancels: Vec::new(),
    };
    let mut i: usize = 0;
    assert(m.matching() == matching(existing@, 0, desired@, details, tick, min_size));
    while i < existing.len()
        invariant
            details == state@.order_details,
            i <= existing@.len(),
            m.matched@.len() == desired@.len(),
            m.matching() == matching(existing@, i as int, desired@, details, tick, min_size),
        decreases existing@.len() - i,
    {
        let oid = existing[i];
        let order = match state.order_details.get(&oid) {
            Some(o) => Some(*o),
            None => None,
        };
        m.decide(oid, order, desired, Ghost(details), tick, min_size);
        i = i + 1;
    }
    let adds = add_orders(config, desired, &m.matched);
    let mut cancels: Vec<(String, u64)> = Vec::new();
    crate::exchange::push_cancels(&mut cancels, config.token.symbol.as_str(), &m.cancels);
    assert(cancel_views(cancels@) =~= labelled(config.token.symbol@, m.cancels@));
    Diff { kept: m.kept, modifies: m.modifies, cancels, adds }
}

// ---- what was done ------------------------------------------------------------------------------------

/// The tracked orders with the first `n` of the kept ones told what is wanted of them.
pub open spec fn kept_updated(m: Map<u64, TrackedOrder>, kept: Seq<Kept>, n: int) -> Map<
    u64,
    TrackedOrder,
>
    decreases n,
{
    if n <= 0 {
        m
    } else {
        let before = kept_updated(m, kept, n - 1);
        let k = kept[n - 1];
        if before.contains_key(k.oid) {
            before.insert(
                k.oid,
                TrackedOrder {
                    target_price: k.price,
                    size: k.size,
                    drift_ticks: k.drift_ticks,
                    ..before[k.oid]
                },
            )
        } else {
            before
        }
    }
}

/// The tracked orders with the first `n` modifications made.
pub open spec fn modified(m: Map<u64, TrackedOrder>, modifies: Seq<ModifyRequest>, n: int) -> Map<
    u64,
    TrackedOrder,
>
    decreases n,
{
    if n <= 0 {
        m
    } else {
        let before = modified(m, modifies, n - 1);
        let r = modifies[n - 1];
        if before.contains_key(r.oid) {
            before.insert(
                r.oid,
                TrackedOrder {
                    price: r.new_price,
                    size: r.new_size,
                    target_price: r.new_price,
                    drift_ticks: 0,
                    ..before[r.oid]
                },
            )
        } else {
            before
        }
    }
}

/// A list of ids with the first `n` of some others, each once.
pub open spec fn joined(s: Seq<u64>, more: Seq<u64>, n: int) -> Seq<u64>
    decreases n,
{
    if n <= 0 {
        s
    } else {
        let before = joined(s, more, n - 1);
        if before.contains(more[n - 1]) {
            before
        } else {
            before.push(more[n - 1])
        }
    }
}

/// Appends the ids that are not in a list yet.
pub fn join_oids(v: &mut Vec<u64>, more: &Vec<u64>)
    ensures
        final(v)@ == joined(old(v)@, more@, more@.len() as int),
{
    let mut i: usize = 0;
    while i < more.len()
        invariant
            i <= more@.len(),
            v@ == joined(old(v)@, more@, i as int),
        decreases more@.len() - i,
    {
        if !has_oid(v, more[i]) {
            v.push(more[i]);
        }
        i = i + 1;
    }
}

impl MmModel {
    /// The state without an order.
    pub open spec fn without_order(self, oid: u64) -> MmModel {
        MmModel {
            buy_oids: without(self.buy_oids, oid),
            sell_oids: without(self.sell_oids, oid),
            order_details: self.order_details.remove(oid),
            ..self
        }
    }

    /// The state without the first `n` of some cancelled orders.
    pub open spec fn without_cancelled(self, cancels: Seq<(Seq<char>, u64)>, n: int) -> MmModel
        decreases n,
    {
        if n <= 0 {
            self
        } else {
            self.without_cancelled(cancels, n - 1).without_order(cancels[n - 1].1)
        }
    }

    /// The state with the kept orders told what is wanted of them.
    pub open spec fn with_kept(self, kept: Seq<Kept>) -> MmModel {
        MmModel {
            order_details: kept_updated(self.order_details, kept, kept.len() as int),
            ..self
        }
    }

    /// The state with some modifications made.
    pub open spec fn with_modified(self, modifies: Seq<ModifyRequest>) -> MmModel {
        MmModel {
            order_details: modified(self.order_details, modifies, modifies.len() as int),
            ..self
        }
    }
}

impl MmState {
    /// Forgets some cancelled orders.
    pub fn forget_cancelled(&mut self, cancels: &Vec<(String, u64)>)
        ensures
            final(self)@ == old(self)@.without_cancelled(
                cancel_views(cancels@),
                cancels@.len() as int,
            ),
    {
        let ghost cv = cancel_views(cancels@);
        let mut i: usize = 0;
        while i < cancels.len()
            invariant
                cv == cancel_views(cancels@),
                i <= cancels@.len(),
                self@ == old(self)@.without_cancelled(cv, i as int),
            decreases cancels@.len() - i,
        {
            let oid = cancels[i].1;
            assert(cv[i as int].1 == oid);
            let ghost before = self@;
            remove_oid(&mut self.buy_oids, oid);
            remove_oid(&mut self.sell_oids, oid);
            let _ = self.order_details.remove(&oid);
            assert(self@.order_details =~= before.order_details.remove(oid));
            assert(self@ =~= before.without_order(oid));
            i = i + 1;
        }
    }

    /// Tells the kept orders what is wanted of them.
    pub fn update_kept(&mut self, kept: &Vec<Kept>)
        ensures
            final(self)@ == old(self)@.with_kept(kept@),
    {
        let ghost before = self@;
        let mut i: usize = 0;
        while i < kept.len()
            invariant
                i <= kept@.len(),
                before == old(self)@,
                self@ == (MmModel {
                    order_details: kept_updated(before.order_details, kept@, i as int),
                    ..before
                }),
            decreases kept@.len() - i,
        {
            let k = kept[i];
            let found = match self.order_details.get(&k.oid) {
                Some(o) => Some(*o),
                None => None,
            };
            if let Some(o) = found {
                self.order_details.insert(
                    k.oid,
                    TrackedOrder {
                        target_price: k.price,
                        size: k.size,
                        drift_ticks: k.drift_ticks,
                        ..o
                    },
                );
            }
            i = i + 1;
        }
    }

    /// Takes note of some modifications.
    pub fn update_modified(&mut self, modifies: &Vec<ModifyRequest>)
        ensures
            final(self)@ == old(self)@.with_modified(modifies@),
    {
        let ghost before = self@;
        let mut i: usize = 0;
        while i < modifies.len()
            invariant
                i <= modifies@.len(),
                before == old(self)@,
                self@ == (MmModel {
                    order_details: modified(before.order_details, modifies@, i as int),
                    ..before
                }),
            decreases modifies@.len() - i,
        {
            let r = modifies[i];
            let found = match self.order_details.get(&r.oid) {
                Some(o) => Some(*o),
                None => None,
            };
            if let Some(o) = found {
                self.order_details.insert(
                    r.oid,
                    TrackedOrder {
                        price: r.new_price,
                        size: r.new_size,
                        target_price: r.new_price,
                        drift_ticks: 0,
                        ..o
                    },
                );
            }
            i = i + 1;
        }
    }
}

} // verus!
