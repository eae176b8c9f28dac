//! The united link store: one slot table, an intrusive free-id list
//! threaded through the dead slots, and two endpoint indices that keep,
//! for every endpoint id, the ascending list of live links using it.

use std::collections::HashMap;
use vstd::prelude::*;

use crate::constants::LinkRange;
use crate::constants::LinksConstants;
use crate::constants::full_spec;

verus! {

broadcast use vstd::std_specs::hash::group_hash_axioms;

/// A stored link: the slot id and the two endpoint ids.
#[derive(Clone, Copy, PartialEq, Eq, Structural, Debug)]
pub struct Link {
    pub id: u32,
    pub from_id: u32,
    pub to_id: u32,
}

impl Link {
    /// A link record with the given components.
    pub fn new(id: u32, from_id: u32, to_id: u32) -> (l: Link)
        ensures
            l == (Link { id, from_id, to_id }),
    {
        Link { id, from_id, to_id }
    }
}

/// One cell of the slot table: either a live link's payload, or a dead
/// cell threaded into the free-id list (`next` is the next free id,
/// with `0` marking the end of the list).
#[derive(Clone, Copy, PartialEq, Eq, Structural, Debug)]
pub enum Slot {
    Free { next: u32 },
    Live { source: u32, target: u32 },
}

/// Why an operation was refused. Every failure leaves the store unchanged.
#[derive(Clone, Copy, PartialEq, Eq, Structural, Debug)]
pub enum StoreError {
    OutOfMemory,
    NotFound,
    InvalidReference,
}

/// A caller-supplied callback invoked once per matching link during
/// `each`. It answers with a control code: the configuration's
/// `continue_code` to go on, anything else to stop the enumeration.
pub trait Visitor {
    fn visit(&mut self, link: Link) -> u32;
}

/// Whether `l` matches the query triple `q`, each component of which is
/// either a concrete id or the wildcard `c.any`.
pub open spec fn q_matches(c: LinksConstants, l: Link, q: Link) -> bool {
    &&& (q.id == c.any || l.id == q.id)
    &&& (q.from_id == c.any || l.from_id == q.from_id)
    &&& (q.to_id == c.any || l.to_id == q.to_id)
}

/// The all-wildcard query.
pub open spec fn all_any(c: LinksConstants) -> Link {
    Link { id: c.any, from_id: c.any, to_id: c.any }
}

/// How a visitor's answer is classified: `continue_code` lets the
/// enumeration go on, and so does `skip_code`, which is reserved and
/// treated as continue; every other value halts it.
pub open spec fn code_goes(c: LinksConstants, code: u32) -> bool {
    code == c.continue_code || code == c.skip_code
}

/// Slot `i` of `s` holds a live link.
pub open spec fn live_in(s: Seq<Slot>, i: u32) -> bool {
    1 <= i < s.len() && s[i as int] is Live
}

/// The link stored in slot `i` of `s`.
pub open spec fn link_of(s: Seq<Slot>, i: u32) -> Link
    recommends
        live_in(s, i),
{
    Link { id: i, from_id: s[i as int]->source, to_id: s[i as int]->target }
}

/// The endpoint of slot `i` that an index reads: `source` when `by_src`,
/// else `target`.
pub open spec fn endpoint(s: Seq<Slot>, i: u32, by_src: bool) -> u32
    recommends
        live_in(s, i),
{
    if by_src {
        s[i as int]->source
    } else {
        s[i as int]->target
    }
}

/// The matches of `q` among slots `1 .. n` of `s`, in ascending id order.
pub open spec fn match_prefix(s: Seq<Slot>, c: LinksConstants, q: Link, n: int) -> Seq<Link>
    decreases n,
{
    if n <= 1 {
        Seq::empty()
    } else {
        let head = match_prefix(s, c, q, n - 1);
        if live_in(s, (n - 1) as u32) && q_matches(c, link_of(s, (n - 1) as u32), q) {
            head.push(link_of(s, (n - 1) as u32))
        } else {
            head
        }
    }
}

/// How many of slots `1 .. n` of `s` are live.
pub open spec fn live_prefix(s: Seq<Slot>, n: int) -> nat
    decreases n,
{
    if n <= 1 {
        0
    } else {
        live_prefix(s, n - 1) + if live_in(s, (n - 1) as u32) {
            1nat
        } else {
            0nat
        }
    }
}

/// The ids in `1 .. n` of live links whose chosen endpoint equals `e`,
/// ascending: the contents a consistent index keeps for key `e`.
pub open spec fn ep_ids(s: Seq<Slot>, e: u32, by_src: bool, n: int) -> Seq<u32>
    decreases n,
{
    if n <= 1 {
        Seq::empty()
    } else {
        let head = ep_ids(s, e, by_src, n - 1);
        if live_in(s, (n - 1) as u32) && endpoint(s, (n - 1) as u32, by_src) == e {
            head.push((n - 1) as u32)
        } else {
            head
        }
    }
}

/// The links among `ids` (read in `s`) that are live and match `q`,
/// in the order of `ids`.
pub open spec fn filter_ids(s: Seq<Slot>, c: LinksConstants, q: Link, ids: Seq<u32>) -> Seq<Link>
    decreases ids.len(),
{
    if ids.len() == 0 {
        Seq::empty()
    } else {
        let head = filter_ids(s, c, q, ids.drop_last());
        let i = ids.last();
        if live_in(s, i) && q_matches(c, link_of(s, i), q) {
            head.push(link_of(s, i))
        } else {
            head
        }
    }
}

/// Strictly ascending.
pub open spec fn sorted_strict(s: Seq<u32>) -> bool {
    forall|j: int, k: int| 0 <= j < k < s.len() ==> s[j] < s[k]
}

/// An endpoint index `m` is consistent with table `s`: every bucket
/// element is a live link keyed by its endpoint, buckets ascend
/// strictly, and every live link is in its endpoint's bucket.
spec fn index_ok(s: Seq<Slot>, m: Map<u32, Vec<u32>>, by_src: bool) -> bool {
    &&& forall|e: u32, k: int|
        #![trigger m[e]@[k]]
        m.dom().contains(e) && 0 <= k < m[e]@.len() ==> live_in(s, m[e]@[k]) && endpoint(
            s,
            m[e]@[k],
            by_src,
        ) == e
    &&& forall|e: u32| #[trigger] m.dom().contains(e) ==> sorted_strict(m[e]@)
    &&& forall|i: u32|
        live_in(s, i) ==> m.dom().contains(#[trigger] endpoint(s, i, by_src)) && m[endpoint(
            s,
            i,
            by_src,
        )]@.contains(i)
}

/// As `index_ok`, except that link `id` appears in no bucket and need
/// not be indexed: the state between unlinking and relinking one link.
spec fn index_ok_except(s: Seq<Slot>, m: Map<u32, Vec<u32>>, by_src: bool, id: u32) -> bool {
    &&& forall|e: u32, k: int|
        #![trigger m[e]@[k]]
        m.dom().contains(e) && 0 <= k < m[e]@.len() ==> live_in(s, m[e]@[k]) && endpoint(
            s,
            m[e]@[k],
            by_src,
        ) == e && m[e]@[k] != id
    &&& forall|e: u32| #[trigger] m.dom().contains(e) ==> sorted_strict(m[e]@)
    &&& forall|i: u32|
        live_in(s, i) && i != id ==> m.dom().contains(#[trigger] endpoint(s, i, by_src))
            && m[endpoint(s, i, by_src)]@.contains(i)
}

/// The free list `f` with head `head` threads exactly the dead slots of
/// `s`, each holding the id of the one after it.
spec fn free_ok(s: Seq<Slot>, f: Seq<u32>, head: u32) -> bool {
    &&& forall|k: int| 0 <= k < f.len() ==> 1 <= #[trigger] f[k] < s.len() && s[f[k] as int] is Free
    &&& forall|k: int|
        0 <= k < f.len() ==> (#[trigger] s[f[k] as int])->next == (if k + 1 < f.len() {
            f[k + 1]
        } else {
            0u32
        })
    &&& forall|j: int, k: int| 0 <= j < k < f.len() ==> f[j] != f[k]
    &&& head == (if f.len() == 0 {
        0u32
    } else {
        f[0]
    })
    &&& forall|i: u32| 1 <= i < s.len() && (#[trigger] s[i as int]) is Free ==> f.contains(i)
}

/// A consistent index never mentions a dead id, so dropping the
/// indexing duty for one is free.
proof fn lemma_index_except_trivial(s: Seq<Slot>, m: Map<u32, Vec<u32>>, by_src: bool, id: u32)
    requires
        index_ok(s, m, by_src),
        !live_in(s, id),
    ensures
        index_ok_except(s, m, by_src, id),
{
    assert forall|e: u32, k: int|
        m.dom().contains(e) && 0 <= k < m[e]@.len() implies live_in(s, #[trigger] m[e]@[k])
        && endpoint(s, m[e]@[k], by_src) == e && m[e]@[k] != id by {
        assert(live_in(s, m[e]@[k]));
    }
}

/// Removing one link's entry from its endpoint's bucket leaves an index
/// that is consistent but for that link.
proof fn lemma_index_remove(
    s: Seq<Slot>,
    pre: Map<u32, Vec<u32>>,
    post: Map<u32, Vec<u32>>,
    id: u32,
    by_src: bool,
)
    requires
        index_ok(s, pre, by_src),
        live_in(s, id),
        post.dom() == pre.dom(),
        sorted_strict(post[endpoint(s, id, by_src)]@),
        forall|x: u32|
            post[endpoint(s, id, by_src)]@.contains(x) <==> pre[endpoint(
                s,
                id,
                by_src,
            )]@.contains(x) && x != id,
        forall|e2: u32|
            e2 != endpoint(s, id, by_src) && pre.dom().contains(e2) ==> post[e2] == pre[e2],
    ensures
        index_ok_except(s, post, by_src, id),
{
    let e0 = endpoint(s, id, by_src);
    assert forall|e: u32, k: int|
        post.dom().contains(e) && 0 <= k < post[e]@.len() implies live_in(s, #[trigger] post[e]@[k])
        && endpoint(s, post[e]@[k], by_src) == e && post[e]@[k] != id by {
        let x = post[e]@[k];
        assert(post[e]@.contains(x));
        if e == e0 {
            assert(pre[e]@.contains(x) && x != id);
            let w = choose|w: int| 0 <= w < pre[e]@.len() && pre[e]@[w] == x;
            assert(live_in(s, pre[e]@[w]) && endpoint(s, pre[e]@[w], by_src) == e);
        } else {
            assert(post[e] == pre[e]);
            assert(live_in(s, pre[e]@[k]) && endpoint(s, pre[e]@[k], by_src) == e);
        }
    }
    assert forall|i: u32|
        live_in(s, i) && i != id implies post.dom().contains(
        #[trigger] endpoint(s, i, by_src),
    ) && post[endpoint(s, i, by_src)]@.contains(i) by {
        let e = endpoint(s, i, by_src);
        assert(pre.dom().contains(e) && pre[e]@.contains(i));
        if e == e0 {
            assert(post[e]@.contains(i));
        } else {
            assert(post[e] == pre[e]);
        }
    }
}

/// Relinking a link under its (possibly new) endpoint restores full
/// consistency, for any table `s1` that agrees with `s0` away from it.
proof fn lemma_index_add(
    s0: Seq<Slot>,
    s1: Seq<Slot>,
    pre: Map<u32, Vec<u32>>,
    post: Map<u32, Vec<u32>>,
    id: u32,
    by_src: bool,
)
    requires
        index_ok_except(s0, pre, by_src, id),
        live_in(s1, id),
        forall|x: u32| x != id ==> (live_in(s1, x) <==> live_in(s0, x)),
        forall|x: u32| x != id && live_in(s0, x) ==> s1[x as int] == s0[x as int],
        post.dom() == pre.dom().insert(endpoint(s1, id, by_src)),
        sorted_strict(post[endpoint(s1, id, by_src)]@),
        forall|x: u32|
            post[endpoint(s1, id, by_src)]@.contains(x) <==> (pre.dom().contains(
                endpoint(s1, id, by_src),
            ) && pre[endpoint(s1, id, by_src)]@.contains(x)) || x == id,
        forall|e2: u32|
            e2 != endpoint(s1, id, by_src) && pre.dom().contains(e2) ==> post[e2] == pre[e2],
    ensures
        index_ok(s1, post, by_src),
{
    let e1 = endpoint(s1, id, by_src);
    assert forall|e: u32, k: int|
        post.dom().contains(e) && 0 <= k < post[e]@.len() implies live_in(
        s1,
        #[trigger] post[e]@[k],
    ) && endpoint(s1, post[e]@[k], by_src) == e by {
        let x = post[e]@[k];
        assert(post[e]@.contains(x));
        if e == e1 {
            if x == id {
            } else {
                assert(pre.dom().contains(e) && pre[e]@.contains(x));
                let w = choose|w: int| 0 <= w < pre[e]@.len() && pre[e]@[w] == x;
                assert(live_in(s0, x) && endpoint(s0, x, by_src) == e && x != id);
            }
        } else {
            assert(pre.dom().contains(e));
            assert(post[e] == pre[e]);
            assert(live_in(s0, pre[e]@[k]) && endpoint(s0, pre[e]@[k], by_src) == e && pre[e]@[k]
                != id);
        }
    }
    assert forall|e: u32| post.dom().contains(e) implies sorted_strict(post[e]@) by {
        if e != e1 {
            assert(pre.dom().contains(e));
            assert(post[e] == pre[e]);
        }
    }
    assert forall|i: u32|
        live_in(s1, i) implies post.dom().contains(#[trigger] endpoint(s1, i, by_src))
        && post[endpoint(s1, i, by_src)]@.contains(i) by {
        let e = endpoint(s1, i, by_src);
        if i == id {
            assert(post[e1]@.contains(id));
        } else {
            assert(live_in(s0, i));
            let e_old = endpoint(s0, i, by_src);
            assert(e_old == e);
            assert(pre.dom().contains(e) && pre[e]@.contains(i));
            if e == e1 {
                assert(post[e]@.contains(i));
            } else {
                assert(post[e] == pre[e]);
            }
        }
    }
}

/// Once a link is unlinked from an index, killing its slot keeps the
/// index consistent.
proof fn lemma_index_kill(
    s0: Seq<Slot>,
    s1: Seq<Slot>,
    m: Map<u32, Vec<u32>>,
    id: u32,
    by_src: bool,
)
    requires
        index_ok_except(s0, m, by_src, id),
        !live_in(s1, id),
        forall|x: u32| x != id ==> (live_in(s1, x) <==> live_in(s0, x)),
        forall|x: u32| x != id && live_in(s0, x) ==> s1[x as int] == s0[x as int],
    ensures
        index_ok(s1, m, by_src),
{
    assert forall|e: u32, k: int|
        m.dom().contains(e) && 0 <= k < m[e]@.len() implies live_in(s1, #[trigger] m[e]@[k])
        && endpoint(s1, m[e]@[k], by_src) == e by {
        assert(live_in(s0, m[e]@[k]) && endpoint(s0, m[e]@[k], by_src) == e && m[e]@[k] != id);
    }
    assert forall|i: u32|
        live_in(s1, i) implies m.dom().contains(#[trigger] endpoint(s1, i, by_src)) && m[endpoint(
        s1,
        i,
        by_src,
    )]@.contains(i) by {
        assert(i != id && live_in(s0, i));
        assert(endpoint(s0, i, by_src) == endpoint(s1, i, by_src));
    }
}

/// The free list ignores a change of one live slot's payload.
proof fn lemma_free_ok_frame(s0: Seq<Slot>, s1: Seq<Slot>, f: Seq<u32>, head: u32, id: u32)
    requires
        free_ok(s0, f, head),
        live_in(s0, id),
        s1.len() == s0.len(),
        s1[id as int] is Live,
        forall|j: int| 0 <= j < s0.len() && j != id ==> s1[j] == s0[j],
    ensures
        free_ok(s1, f, head),
{
    assert forall|k: int| 0 <= k < f.len() implies 1 <= #[trigger] f[k] < s1.len()
        && s1[f[k] as int] is Free by {
        assert(s0[f[k] as int] is Free);
        assert(f[k] != id);
    }
    assert forall|k: int|
        0 <= k < f.len() implies (#[trigger] s1[f[k] as int])->next == (if k + 1 < f.len() {
        f[k + 1]
    } else {
        0u32
    }) by {
        assert(s0[f[k] as int] is Free);
        assert(f[k] != id);
    }
    assert forall|i: u32|
        1 <= i < s1.len() && (#[trigger] s1[i as int]) is Free implies f.contains(i) by {
        assert(i != id);
        assert(s0[i as int] is Free);
    }
}

/// Prefix counts only read the prefix.
proof fn lemma_live_prefix_frame(s1: Seq<Slot>, s2: Seq<Slot>, n: int)
    requires
        n <= s1.len(),
        n <= s2.len(),
        forall|k: int| 0 <= k < n ==> s1[k] == s2[k],
    ensures
        live_prefix(s1, n) == live_prefix(s2, n),
    decreases n,
{
    if n > 1 {
        lemma_live_prefix_frame(s1, s2, n - 1);
    }
}

/// How the live count reacts to overwriting slot `i`.
proof fn lemma_live_prefix_update(s: Seq<Slot>, i: u32, v: Slot, n: int)
    requires
        1 <= i < s.len(),
        n <= s.len(),
        n <= u32::MAX as int + 1,
    ensures
        i < n ==> live_prefix(s.update(i as int, v), n) + (if live_in(s, i) {
            1int
        } else {
            0int
        }) == live_prefix(s, n) + (if v is Live {
            1int
        } else {
            0int
        }),
        i >= n ==> live_prefix(s.update(i as int, v), n) == live_prefix(s, n),
    decreases n,
{
    if n > 1 {
        lemma_live_prefix_update(s, i, v, n - 1);
    }
}

/// The united link store.
pub struct UnitedLinks {
    constants: LinksConstants,
    slots: Vec<Slot>,
    free_head: u32,
    total: u32,
    by_source: HashMap<u32, Vec<u32>>,
    by_target: HashMap<u32, Vec<u32>>,
    free_order: Ghost<Seq<u32>>,
}

impl View for UnitedLinks {
    type V = Map<u32, Link>;

    /// The table as a map from live id to stored link.
    closed spec fn view(&self) -> Map<u32, Link> {
        Map::new(|i: u32| live_in(self.slots@, i), |i: u32| link_of(self.slots@, i))
    }
}

impl UnitedLinks {
    /// The configuration this store was created with.
    pub closed spec fn config(&self) -> LinksConstants {
        self.constants
    }

    /// Number of slots, the reserved slot `0` included; equivalently,
    /// one past the highest id ever allocated.
    pub closed spec fn slot_count(&self) -> int {
        self.slots@.len() as int
    }

    /// Id `i` currently holds a live link.
    pub closed spec fn is_live(&self, i: u32) -> bool {
        live_in(self.slots@, i)
    }

    /// The link stored under live id `i`.
    pub closed spec fn link_at(&self, i: u32) -> Link {
        link_of(self.slots@, i)
    }

    /// The freed ids awaiting reuse, most recently freed first.
    pub closed spec fn free_ids(&self) -> Seq<u32> {
        self.free_order@
    }

    /// Number of live links.
    pub closed spec fn live_count(&self) -> nat {
        live_prefix(self.slots@, self.slots@.len() as int)
    }

    /// The matches of query `q`, in ascending id order: the sequence
    /// `each` visits and whose length `count` returns.
    pub closed spec fn match_seq(&self, q: Link) -> Seq<Link> {
        match_prefix(self.slots@, self.constants, q, self.slots@.len() as int)
    }

    /// The ids a consistent index holds for endpoint `e`.
    pub closed spec fn bucket_ids(&self, e: u32, by_src: bool) -> Seq<u32> {
        ep_ids(self.slots@, e, by_src, self.slots@.len() as int)
    }

    /// The query actually used: `q` when given, else the all-wildcard.
    pub open spec fn effective_query(&self, query: Option<Link>) -> Link {
        match query {
            Some(q) => q,
            None => all_any(self.config()),
        }
    }

    /// The store's internal consistency: the slot table is non-empty and
    /// bounded by the internal range, the live counter is exact, each
    /// index holds exactly the live links keyed by their endpoint in
    /// strictly ascending id order, and the free list threads exactly
    /// the dead slots.
    pub closed spec fn wf(&self) -> bool {
        &&& self.slots@.len() >= 1
        &&& self.slots@.len() <= self.constants.internal_range.1 as int + 1
        &&& self.total as nat == live_prefix(self.slots@, self.slots@.len() as int)
        &&& index_ok(self.slots@, self.by_source@, true)
        &&& index_ok(self.slots@, self.by_target@, false)
        &&& free_ok(self.slots@, self.free_order@, self.free_head)
    }

    /// A fresh, empty store, under the given configuration or the
    /// default one. Creation itself never fails.
    pub fn new(constants: Option<LinksConstants>) -> (r: Result<UnitedLinks, StoreError>)
        ensures
            match r {
                Ok(s) => {
                    &&& s.wf()
                    &&& s.config() == (match constants {
                        Some(c) => c,
                        None => full_spec(2, LinkRange(1, u32::MAX), None),
                    })
                    &&& s@ == Map::<u32, Link>::empty()
                    &&& s.live_count() == 0
                    &&& s.free_ids() == Seq::<u32>::empty()
                    &&& s.slot_count() == 1
                },
                Err(_) => false,
            },
    {
        let c = match constants {
            Some(c) => c,
            None => LinksConstants::new(),
        };
        let mut slots: Vec<Slot> = Vec::new();
        slots.push(Slot::Free { next: 0 });
        let s = UnitedLinks {
            constants: c,
            slots,
            free_head: 0,
            total: 0,
            by_source: HashMap::new(),
            by_target: HashMap::new(),
            free_order: Ghost(Seq::empty()),
        };
        proof {
            assert(s@ =~= Map::<u32, Link>::empty());
            assert(s.free_ids() =~= Seq::<u32>::empty());
        }
        Ok(s)
    }

    /// Whether id `i` currently holds a live link.
    fn live_q(&self, i: u32) -> (b: bool)
        ensures
            b == self.is_live(i),
    {
        i >= 1 && (i as usize) < self.slots.len() && matches!(self.slots[i as usize], Slot::Live { .. })
    }

    /// Creates a fresh link as a self-loop and returns its id: the most
    /// recently freed id when one awaits reuse, else the next unused
    /// one. Fails only when the internal range is exhausted.
    pub fn create(&mut self) -> (r: Result<u32, StoreError>)
        requires
            old(self).wf(),
        ensures
            final(self).wf(),
            final(self).config() == old(self).config(),
            match r {
                Ok(id) => {
                    &&& !old(self)@.contains_key(id)
                    &&& final(self)@ == old(self)@.insert(id, (Link { id: id, from_id: id, to_id: id }))
                    &&& final(self).live_count() == old(self).live_count() + 1
                    &&& 1 <= id && id as int <= old(self).config().internal_range.1 as int
                    &&& (if old(self).free_ids().len() > 0 {
                        id == old(self).free_ids()[0] && final(self).free_ids() == old(
                            self,
                        ).free_ids().drop_first() && final(self).slot_count() == old(
                            self,
                        ).slot_count()
                    } else {
                        id as int == old(self).slot_count() && final(self).free_ids()
                            == old(self).free_ids() && final(self).slot_count() == old(
                            self,
                        ).slot_count() + 1
                    })
                },
                Err(e) => {
                    &&& e == StoreError::OutOfMemory
                    &&& *final(self) == *old(self)
                    &&& old(self).free_ids().len() == 0
                    &&& old(self).slot_count() > old(self).config().internal_range.1 as int
                },
            },
    {
        let ghost s0 = self.slots@;
        let id: u32;
        if self.free_head == 0 {
            proof {
                if self.free_order@.len() > 0 {
                    assert(self.free_order@[0] >= 1);
                }
                lemma_live_prefix_bound(s0, s0.len() as int);
            }
            if self.slots.len() > self.constants.internal_range.1 as usize {
                return Err(StoreError::OutOfMemory);
            }
            id = self.slots.len() as u32;
            proof {
                lemma_index_except_trivial(s0, self.by_source@, true, id);
                lemma_index_except_trivial(s0, self.by_target@, false, id);
            }
            self.slots.push(Slot::Live { source: id, target: id });
            proof {
                lemma_live_prefix_frame(s0, self.slots@, s0.len() as int);
            }
            self.total = self.total + 1;
        } else {
            id = self.free_head;
            proof {
                assert(self.free_order@.len() > 0);
                assert(self.free_order@[0] == id);
                lemma_index_except_trivial(s0, self.by_source@, true, id);
                lemma_index_except_trivial(s0, self.by_target@, false, id);
                lemma_live_prefix_bound_dead(s0, id, s0.len() as int);
                lemma_live_prefix_update(s0, id, Slot::Live { source: id, target: id }, s0.len() as int);
            }
            let slot = self.slots[id as usize];
            let next: u32 = match slot {
                Slot::Free { next } => next,
                Slot::Live { .. } => {
                    proof {
                        assert(false);
                    }
                    0
                },
            };
            self.free_head = next;
            self.slots[id as usize] = Slot::Live { source: id, target: id };
            self.total = self.total + 1;
            proof {
                let f0 = self.free_order@;
                self.free_order@ = f0.drop_first();
                let f1 = self.free_order@;
                let s1 = self.slots@;
                assert forall|k: int| 0 <= k < f1.len() implies 1 <= #[trigger] f1[k] < s1.len()
                    && s1[f1[k] as int] is Free by {
                    assert(f1[k] == f0[k + 1]);
                    assert(f0[k + 1] != f0[0]);
                }
                assert forall|k: int|
                    0 <= k < f1.len() implies (#[trigger] s1[f1[k] as int])->next == (if k + 1
                    < f1.len() {
                    f1[k + 1]
                } else {
                    0u32
                }) by {
                    assert(f1[k] == f0[k + 1]);
                    assert(f0[k + 1] != f0[0]);
                    assert(s1[f0[k + 1] as int] == s0[f0[k + 1] as int]);
                }
                assert forall|i: u32|
                    1 <= i < s1.len() && (#[trigger] s1[i as int]) is Free implies f1.contains(
                    i,
                ) by {
                    assert(i != id);
                    assert(s0[i as int] is Free);
                    assert(f0.contains(i));
                    let w = choose|w: int| 0 <= w < f0.len() && f0[w] == i;
                    assert(w != 0);
                    assert(f1[w - 1] == i);
                }
                assert(free_ok(s1, f1, self.free_head));
            }
        }
        proof {
            if self.by_source@.dom().contains(id) && self.by_source@[id]@.contains(id) {
                let w = choose|w: int|
                    0 <= w < self.by_source@[id]@.len() && self.by_source@[id]@[w] == id;
                assert(false);
            }
            if self.by_target@.dom().contains(id) && self.by_target@[id]@.contains(id) {
                let w = choose|w: int|
                    0 <= w < self.by_target@[id]@.len() && self.by_target@[id]@[w] == id;
                assert(false);
            }
        }
        index_add(&mut self.by_source, id, id);
        index_add(&mut self.by_target, id, id);
        proof {
            let s1 = self.slots@;
            assert(live_in(s1, id));
            assert forall|x: u32| x != id implies (live_in(s1, x) <==> live_in(s0, x)) by {}
            lemma_index_add(s0, s1, old(self).by_source@, self.by_source@, id, true);
            lemma_index_add(s0, s1, old(self).by_target@, self.by_target@, id, false);
            assert(self@ =~= old(self)@.insert(id, Link { id: id, from_id: id, to_id: id }));
        }
        Ok(id)
    }

    /// Deletes the link under `id`: both index entries go and the slot
    /// becomes a dead cell at the head of the free list, first in line
    /// for reuse.
    pub fn delete(&mut self, id: u32) -> (r: Result<u32, StoreError>)
        requires
            old(self).wf(),
        ensures
            final(self).wf(),
            final(self).config() == old(self).config(),
            match r {
                Ok(rid) => {
                    &&& rid == id
                    &&& old(self)@.contains_key(id)
                    &&& final(self)@ == old(self)@.remove(id)
                    &&& final(self).live_count() + 1 == old(self).live_count()
                    &&& final(self).free_ids() == seq![id] + old(self).free_ids()
                    &&& final(self).slot_count() == old(self).slot_count()
                },
                Err(e) => {
                    &&& e == StoreError::NotFound
                    &&& !old(self)@.contains_key(id)
                    &&& *final(self) == *old(self)
                },
            },
    {
        if !self.live_q(id) {
            proof {
                assert(!old(self)@.contains_key(id));
            }
            return Err(StoreError::NotFound);
        }
        let ghost s0 = self.slots@;
        let slot = self.slots[id as usize];
        let (src, tgt) = match slot {
            Slot::Live { source, target } => (source, target),
            Slot::Free { .. } => {
                proof {
                    assert(false);
                }
                (0, 0)
            },
        };
        proof {
            assert(endpoint(s0, id, true) == src);
            assert(endpoint(s0, id, false) == tgt);
        }
        index_remove(&mut self.by_source, src, id);
        index_remove(&mut self.by_target, tgt, id);
        proof {
            lemma_index_remove(s0, old(self).by_source@, self.by_source@, id, true);
            lemma_index_remove(s0, old(self).by_target@, self.by_target@, id, false);
            lemma_live_prefix_update(s0, id, Slot::Free { next: self.free_head }, s0.len() as int);
        }
        let old_head = self.free_head;
        self.slots[id as usize] = Slot::Free { next: old_head };
        self.free_head = id;
        self.total = self.total - 1;
        proof {
            let f0 = self.free_order@;
            self.free_order@ = seq![id] + f0;
            let f1 = self.free_order@;
            let s1 = self.slots@;
            if f0.contains(id) {
                let w = choose|w: int| 0 <= w < f0.len() && f0[w] == id;
                assert(s0[f0[w] as int] is Free);
                assert(false);
            }
            assert forall|k: int| 0 <= k < f1.len() implies 1 <= #[trigger] f1[k] < s1.len()
                && s1[f1[k] as int] is Free by {
                if k > 0 {
                    assert(f1[k] == f0[k - 1]);
                    assert(f0[k - 1] != id);
                }
            }
            assert forall|k: int|
                0 <= k < f1.len() implies (#[trigger] s1[f1[k] as int])->next == (if k + 1
                < f1.len() {
                f1[k + 1]
            } else {
                0u32
            }) by {
                if k > 0 {
                    assert(f1[k] == f0[k - 1]);
                    assert(f0[k - 1] != id);
                    assert(s1[f0[k - 1] as int] == s0[f0[k - 1] as int]);
                }
            }
            assert forall|j: int, k: int| 0 <= j < k < f1.len() implies f1[j] != f1[k] by {
                if j > 0 {
                    assert(f1[j] == f0[j - 1] && f1[k] == f0[k - 1]);
                } else {
                    assert(f1[k] == f0[k - 1]);
                    assert(f0[k - 1] != id);
                }
            }
            assert forall|i: u32|
                1 <= i < s1.len() && (#[trigger] s1[i as int]) is Free implies f1.contains(i) by {
                if i == id {
                    assert(f1[0] == id);
                } else {
                    assert(s0[i as int] is Free);
                    assert(f0.contains(i));
                    let w = choose|w: int| 0 <= w < f0.len() && f0[w] == i;
                    assert(f1[w + 1] == i);
                }
            }
            assert(free_ok(s1, f1, self.free_head));
            assert forall|x: u32| x != id implies (live_in(s1, x) <==> live_in(s0, x)) by {}
            lemma_index_kill(s0, s1, self.by_source@, id, true);
            lemma_index_kill(s0, s1, self.by_target@, id, false);
            assert(self@ =~= old(self)@.remove(id));
        }
        Ok(id)
    }

    /// A legal endpoint value for `update`: the `null` id, the `itself`
    /// sentinel, a live internal-range id, or an id of the external
    /// range when one is configured.
    pub open spec fn ep_valid(&self, ep: u32) -> bool {
        ||| ep == self.config().null
        ||| ep == self.config().itself
        ||| (self.config().internal_range.0 <= ep <= self.config().internal_range.1
            && self@.contains_key(ep))
        ||| (match self.config().external_range {
            Some(r) => r.0 <= ep <= r.1,
            None => false,
        })
    }

    /// Whether `ep` may stand as an endpoint under this configuration.
    fn ep_check(&self, ep: u32) -> (b: bool)
        ensures
            b == self.ep_valid(ep),
    {
        proof {
            assert(self@.contains_key(ep) == self.is_live(ep));
        }
        if ep == self.constants.null || ep == self.constants.itself {
            true
        } else if self.constants.internal_range.0 <= ep && ep <= self.constants.internal_range.1
            && self.live_q(ep) {
            true
        } else {
            match self.constants.external_range {
                Some(r) => r.0 <= ep && ep <= r.1,
                None => false,
            }
        }
    }

    /// Rewrites the old payload of live link `id` to the two endpoints,
    /// the `itself` sentinel standing for `id` itself, and moves the
    /// index entries accordingly.
    pub fn update(&mut self, id: u32, from_id: u32, to_id: u32) -> (r: Result<u32, StoreError>)
        requires
            old(self).wf(),
        ensures
            final(self).wf(),
            final(self).config() == old(self).config(),
            match r {
                Ok(rid) => {
                    &&& rid == id
                    &&& old(self)@.contains_key(id)
                    &&& old(self).ep_valid(from_id)
                    &&& old(self).ep_valid(to_id)
                    &&& final(self)@ == old(self)@.insert(
                        id,
                        (Link {
                            id: id,
                            from_id: resolve_ep(old(self).config(), id, from_id),
                            to_id: resolve_ep(old(self).config(), id, to_id),
                        }),
                    )
                    &&& final(self).live_count() == old(self).live_count()
                    &&& final(self).free_ids() == old(self).free_ids()
                    &&& final(self).slot_count() == old(self).slot_count()
                },
                Err(StoreError::NotFound) => {
                    &&& !old(self)@.contains_key(id)
                    &&& *final(self) == *old(self)
                },
                Err(StoreError::InvalidReference) => {
                    &&& old(self)@.contains_key(id)
                    &&& !(old(self).ep_valid(from_id) && old(self).ep_valid(to_id))
                    &&& *final(self) == *old(self)
                },
                Err(StoreError::OutOfMemory) => false,
            },
    {
        if !self.live_q(id) {
            proof {
                assert(!old(self)@.contains_key(id));
            }
            return Err(StoreError::NotFound);
        }
        if !self.ep_check(from_id) || !self.ep_check(to_id) {
            return Err(StoreError::InvalidReference);
        }
        let ghost s0 = self.slots@;
        let s_new = if from_id == self.constants.itself {
            id
        } else {
            from_id
        };
        let t_new = if to_id == self.constants.itself {
            id
        } else {
            to_id
        };
        let slot = self.slots[id as usize];
        let (s_old, t_old) = match slot {
            Slot::Live { source, target } => (source, target),
            Slot::Free { .. } => {
                proof {
                    assert(false);
                }
                (0, 0)
            },
        };
        proof {
            assert(endpoint(s0, id, true) == s_old);
            assert(endpoint(s0, id, false) == t_old);
        }
        index_remove(&mut self.by_source, s_old, id);
        index_remove(&mut self.by_target, t_old, id);
        proof {
            lemma_index_remove(s0, old(self).by_source@, self.by_source@, id, true);
            lemma_index_remove(s0, old(self).by_target@, self.by_target@, id, false);
            lemma_live_prefix_update(s0, id, Slot::Live { source: s_new, target: t_new }, s0.len() as int);
        }
        self.slots[id as usize] = Slot::Live { source: s_new, target: t_new };
        proof {
            if self.by_source@.dom().contains(s_new) && self.by_source@[s_new]@.contains(id) {
                let w = choose|w: int|
                    0 <= w < self.by_source@[s_new]@.len() && self.by_source@[s_new]@[w] == id;
                assert(false);
            }
            if self.by_target@.dom().contains(t_new) && self.by_target@[t_new]@.contains(id) {
                let w = choose|w: int|
                    0 <= w < self.by_target@[t_new]@.len() && self.by_target@[t_new]@[w] == id;
                assert(false);
            }
        }
        let ghost mid_src = self.by_source@;
        let ghost mid_tgt = self.by_target@;
        index_add(&mut self.by_source, s_new, id);
        index_add(&mut self.by_target, t_new, id);
        proof {
            let s1 = self.slots@;
            assert(live_in(s1, id));
            assert(endpoint(s1, id, true) == s_new);
            assert(endpoint(s1, id, false) == t_new);
            assert forall|x: u32| x != id implies (live_in(s1, x) <==> live_in(s0, x)) by {}
            lemma_index_add(s0, s1, mid_src, self.by_source@, id, true);
            lemma_index_add(s0, s1, mid_tgt, self.by_target@, id, false);
            lemma_free_ok_frame(s0, s1, self.free_order@, self.free_head, id);
            assert(self@ =~= old(self)@.insert(
                id,
                Link {
                    id: id,
                    from_id: resolve_ep(old(self).config(), id, from_id),
                    to_id: resolve_ep(old(self).config(), id, to_id),
                },
            ));
        }
        Ok(id)
    }

    /// The links of one endpoint's bucket that match `q`, ascending by
    /// id: exactly the query's match sequence when `q` pins this
    /// endpoint and leaves the id position wild.
    fn walk_bucket(&self, by_src: bool, e: u32, q: Link) -> (r: Vec<Link>)
        requires
            self.wf(),
            q.id == self.config().any,
            e != self.config().any,
            if by_src {
                q.from_id == e
            } else {
                q.to_id == e
            },
        ensures
            r@ == self.match_seq(q),
    {
        let mut out: Vec<Link> = Vec::new();
        proof {
            lemma_filter_ep(self.slots@, self.constants, q, e, by_src, self.slots@.len() as int);
            if by_src {
                lemma_bucket_canonical(self.slots@, self.by_source@, true, e);
            } else {
                lemma_bucket_canonical(self.slots@, self.by_target@, false, e);
            }
        }
        let bucket_opt = if by_src {
            self.by_source.get(&e)
        } else {
            self.by_target.get(&e)
        };
        match bucket_opt {
            None => {
                proof {
                    assert(ep_ids(self.slots@, e, by_src, self.slots@.len() as int)
                        =~= Seq::<u32>::empty());
                    assert(out@ =~= self.match_seq(q));
                }
            },
            Some(bucket) => {
                proof {
                    assert(bucket@ == ep_ids(self.slots@, e, by_src, self.slots@.len() as int));
                }
                let mut k: usize = 0;
                while k < bucket.len()
                    invariant
                        self.wf(),
                        k <= bucket@.len(),
                        q.id == self.config().any,
                        bucket@ == ep_ids(self.slots@, e, by_src, self.slots@.len() as int),
                        out@ == filter_ids(
                            self.slots@,
                            self.constants,
                            q,
                            bucket@.subrange(0, k as int),
                        ),
                    decreases bucket@.len() - k,
                {
                    let ghost pre = bucket@.subrange(0, k as int);
                    let ghost now = bucket@.subrange(0, k as int + 1);
                    proof {
                        lemma_ep_ids_props(self.slots@, e, by_src, self.slots@.len() as int);
                        assert(live_in(self.slots@, bucket@[k as int]));
                    }
                    let id = bucket[k];
                    let slot = self.slots[id as usize];
                    match slot {
                        Slot::Live { source, target } => {
                            if (q.from_id == self.constants.any || source == q.from_id) && (
                            q.to_id == self.constants.any || target == q.to_id) {
                                out.push(Link { id: id, from_id: source, to_id: target });
                            }
                        },
                        Slot::Free { .. } => {
                            proof {
                                assert(false);
                            }
                        },
                    }
                    proof {
                        assert(now.drop_last() =~= pre);
                        assert(now.last() == bucket@[k as int]);
                        assert(out@ == filter_ids(self.slots@, self.constants, q, now));
                    }
                    k = k + 1;
                }
                proof {
                    assert(bucket@.subrange(0, bucket@.len() as int) =~= bucket@);
                }
            },
        }
        out
    }

    /// All links matching the query, ascending by id. A concrete id is
    /// answered by direct slot lookup, a single concrete endpoint by a
    /// walk of its index bucket, two concrete endpoints by a walk of
    /// the smaller of the two buckets (the source bucket on a tie),
    /// and the all-wildcard query by a scan of the table.
    pub fn search(&self, query: Option<Link>) -> (r: Vec<Link>)
        requires
            self.wf(),
        ensures
            r@ == self.match_seq(self.effective_query(query)),
    {
        let c_any = self.constants.any;
        let q = match query {
            Some(q) => q,
            None => Link { id: c_any, from_id: c_any, to_id: c_any },
        };
        if q.id != c_any {
            let mut out: Vec<Link> = Vec::new();
            proof {
                lemma_match_concrete(self.slots@, self.constants, q, self.slots@.len() as int);
            }
            if self.live_q(q.id) {
                let slot = self.slots[q.id as usize];
                match slot {
                    Slot::Live { source, target } => {
                        if (q.from_id == c_any || source == q.from_id) && (q.to_id == c_any
                            || target == q.to_id) {
                            out.push(Link { id: q.id, from_id: source, to_id: target });
                        }
                    },
                    Slot::Free { .. } => {
                        proof {
                            assert(false);
                        }
                    },
                }
            }
            proof {
                assert(out@ =~= self.match_seq(q));
            }
            out
        } else if q.from_id != c_any && q.to_id != c_any {
            let ls = match self.by_source.get(&q.from_id) {
                Some(b) => b.len(),
                None => 0,
            };
            let lt = match self.by_target.get(&q.to_id) {
                Some(b) => b.len(),
                None => 0,
            };
            if ls <= lt {
                self.walk_bucket(true, q.from_id, q)
            } else {
                self.walk_bucket(false, q.to_id, q)
            }
        } else if q.from_id != c_any {
            self.walk_bucket(true, q.from_id, q)
        } else if q.to_id != c_any {
            self.walk_bucket(false, q.to_id, q)
        } else {
            let mut out: Vec<Link> = Vec::new();
            let mut i: usize = 1;
            while i < self.slots.len()
                invariant
                    self.wf(),
                    1 <= i <= self.slots@.len(),
                    q.id == self.config().any,
                    q.from_id == self.config().any,
                    q.to_id == self.config().any,
                    out@ == match_prefix(self.slots@, self.constants, q, i as int),
                decreases self.slots@.len() - i,
            {
                let slot = self.slots[i];
                match slot {
                    Slot::Live { source, target } => {
                        out.push(Link { id: i as u32, from_id: source, to_id: target });
                    },
                    Slot::Free { .. } => {},
                }
                proof {
                    assert(out@ == match_prefix(self.slots@, self.constants, q, i as int + 1));
                }
                i = i + 1;
            }
            out
        }
    }

    /// How many links match the query. The all-wildcard query is
    /// answered by the live counter, a single concrete endpoint by its
    /// bucket's size, anything else by collecting the matches.
    pub fn count(&mut self, query: Option<Link>) -> (r: u32)
        requires
            old(self).wf(),
        ensures
            *final(self) == *old(self),
            r as nat == old(self).match_seq(old(self).effective_query(query)).len(),
    {
        let c_any = self.constants.any;
        let q = match query {
            Some(q) => q,
            None => Link { id: c_any, from_id: c_any, to_id: c_any },
        };
        if q.id == c_any && q.from_id == c_any && q.to_id == c_any {
            proof {
                lemma_match_all_len(self.slots@, self.constants, self.slots@.len() as int);
                assert(q == all_any(self.config()));
            }
            self.total
        } else if q.id == c_any && q.from_id != c_any && q.to_id == c_any {
            let n = match self.by_source.get(&q.from_id) {
                Some(b) => b.len(),
                None => 0,
            };
            proof {
                self.lemma_bucket_count(true, q.from_id, q);
            }
            n as u32
        } else if q.id == c_any && q.from_id == c_any && q.to_id != c_any {
            let n = match self.by_target.get(&q.to_id) {
                Some(b) => b.len(),
                None => 0,
            };
            proof {
                self.lemma_bucket_count(false, q.to_id, q);
            }
            n as u32
        } else {
            let v = self.search(Some(q));
            proof {
                lemma_match_len_bound(self.slots@, self.constants, q, self.slots@.len() as int);
                lemma_live_prefix_bound(self.slots@, self.slots@.len() as int);
            }
            v.len() as u32
        }
    }

    /// A single-endpoint query matches as many links as its bucket
    /// holds, and no more links than are live.
    proof fn lemma_bucket_count(&self, by_src: bool, e: u32, q: Link)
        requires
            self.wf(),
            q.id == self.config().any,
            e != self.config().any,
            if by_src {
                q.from_id == e && q.to_id == self.config().any
            } else {
                q.to_id == e && q.from_id == self.config().any
            },
        ensures
            self.match_seq(q).len() == self.bucket_ids(e, by_src).len(),
            by_src ==> (self.by_source@.dom().contains(e) ==> self.by_source@[e]@ == self.bucket_ids(e, by_src))
                && (!self.by_source@.dom().contains(e) ==> self.bucket_ids(e, by_src).len() == 0),
            !by_src ==> (self.by_target@.dom().contains(e) ==> self.by_target@[e]@ == self.bucket_ids(e, by_src))
                && (!self.by_target@.dom().contains(e) ==> self.bucket_ids(e, by_src).len() == 0),
            self.match_seq(q).len() <= u32::MAX,
    {
        let s = self.slots@;
        let nn = s.len() as int;
        let ids = ep_ids(s, e, by_src, nn);
        if by_src {
            lemma_bucket_canonical(s, self.by_source@, true, e);
        } else {
            lemma_bucket_canonical(s, self.by_target@, false, e);
        }
        lemma_filter_ep(s, self.constants, q, e, by_src, nn);
        lemma_ep_ids_props(s, e, by_src, nn);
        assert forall|k: int| 0 <= k < ids.len() implies live_in(s, #[trigger] ids[k]) && q_matches(
            self.constants,
            link_of(s, ids[k]),
            q,
        ) by {
            assert(endpoint(s, ids[k], by_src) == e);
        }
        lemma_filter_full(s, self.constants, q, ids);
        lemma_match_len_bound(s, self.constants, q, nn);
        lemma_live_prefix_bound(s, nn);
    }

    /// Enumerates the matches of the query in ascending id order,
    /// handing each to the visitor; stops as soon as the visitor
    /// answers a halting code (anything `code_goes` refuses). Returns
    /// `break_code` when the visitor stopped the enumeration, else
    /// `continue_code`, together with a ghost transcript of the visits:
    /// each link handed to the visitor, paired with the code the
    /// visitor answered. The contract pins the whole protocol: the
    /// visited links are a prefix of the match sequence, every answer
    /// before the last lets the enumeration go on, and the result says
    /// whether that prefix was the whole sequence.
    pub fn each<V: Visitor>(&mut self, visitor: &mut V, query: Option<Link>) -> (r: (
        u32,
        Ghost<Seq<(Link, u32)>>,
    ))
        requires
            old(self).wf(),
        ensures
            *final(self) == *old(self),
            ({
                let m = old(self).match_seq(old(self).effective_query(query));
                let t = r.1@;
                let c = old(self).config();
                &&& t.len() <= m.len()
                &&& forall|k: int| 0 <= k < t.len() ==> (#[trigger] t[k]).0 == m[k]
                &&& forall|k: int| 0 <= k < t.len() - 1 ==> code_goes(c, (#[trigger] t[k]).1)
                &&& (t.len() > 0 && !code_goes(c, t.last().1)) ==> r.0 == c.break_code
                &&& !(t.len() > 0 && !code_goes(c, t.last().1)) ==> r.0 == c.continue_code
                    && t.len() == m.len()
            }),
    {
        let matches = self.search(query);
        let ghost mut t: Seq<(Link, u32)> = Seq::empty();
        let mut k: usize = 0;
        while k < matches.len()
            invariant
                k <= matches@.len(),
                matches@ == old(self).match_seq(old(self).effective_query(query)),
                t.len() == k,
                forall|j: int| 0 <= j < k ==> (#[trigger] t[j]).0 == matches@[j],
                forall|j: int| 0 <= j < k ==> code_goes(old(self).config(), (#[trigger] t[j]).1),
            decreases matches@.len() - k,
        {
            let link = matches[k];
            let code = visitor.visit(link);
            proof {
                t = t.push((link, code));
            }
            if code != self.constants.continue_code && code != self.constants.skip_code {
                return (self.constants.break_code, Ghost(t));
            }
            k = k + 1;
        }
        (self.constants.continue_code, Ghost(t))
    }

    /// The configuration this store was created with.
    pub fn constants(&mut self) -> (c: LinksConstants)
        ensures
            c == old(self).config(),
            *final(self) == *old(self),
    {
        self.constants
    }
}

/// `ep` as `update` stores it for link `id`: the `itself` sentinel is
/// rewritten to the link's own id, everything else stands as given.
pub open spec fn resolve_ep(c: LinksConstants, id: u32, ep: u32) -> u32 {
    if ep == c.itself {
        id
    } else {
        ep
    }
}

/// A query pinned to a concrete id matches at most the link stored
/// there.
proof fn lemma_match_concrete(s: Seq<Slot>, c: LinksConstants, q: Link, n: int)
    requires
        q.id != c.any,
        n <= u32::MAX as int + 1,
    ensures
        match_prefix(s, c, q, n) == (if 1 <= q.id < n && live_in(s, q.id) && q_matches(
            c,
            link_of(s, q.id),
            q,
        ) {
            seq![link_of(s, q.id)]
        } else {
            Seq::<Link>::empty()
        }),
    decreases n,
{
    if n > 1 {
        lemma_match_concrete(s, c, q, n - 1);
        if live_in(s, (n - 1) as u32) && q_matches(c, link_of(s, (n - 1) as u32), q) {
            assert(link_of(s, (n - 1) as u32).id == (n - 1) as u32);
            assert(q.id == (n - 1) as u32);
            assert(match_prefix(s, c, q, n) =~= seq![link_of(s, q.id)]);
        }
    }
}

/// The all-wildcard query matches every live link.
proof fn lemma_match_all_len(s: Seq<Slot>, c: LinksConstants, n: int)
    ensures
        match_prefix(s, c, all_any(c), n).len() == live_prefix(s, n),
    decreases n,
{
    if n > 1 {
        lemma_match_all_len(s, c, n - 1);
    }
}

/// No query matches more links than are live.
proof fn lemma_match_len_bound(s: Seq<Slot>, c: LinksConstants, q: Link, n: int)
    ensures
        match_prefix(s, c, q, n).len() <= live_prefix(s, n),
    decreases n,
{
    if n > 1 {
        lemma_match_len_bound(s, c, q, n - 1);
    }
}

/// What an endpoint's id list holds: exactly the live ids below `n`
/// carrying the endpoint, strictly ascending.
proof fn lemma_ep_ids_props(s: Seq<Slot>, e: u32, b: bool, n: int)
    requires
        n <= u32::MAX as int + 1,
    ensures
        sorted_strict(ep_ids(s, e, b, n)),
        forall|k: int|
            0 <= k < ep_ids(s, e, b, n).len() ==> 1 <= #[trigger] ep_ids(s, e, b, n)[k] < n
                && live_in(s, ep_ids(s, e, b, n)[k]) && endpoint(s, ep_ids(s, e, b, n)[k], b) == e,
        forall|x: u32|
            #[trigger] ep_ids(s, e, b, n).contains(x) <==> (1 <= x < n && live_in(s, x)
                && endpoint(s, x, b) == e),
    decreases n,
{
    if n > 1 {
        lemma_ep_ids_props(s, e, b, n - 1);
        let prev = ep_ids(s, e, b, n - 1);
        let cur = ep_ids(s, e, b, n);
        if live_in(s, (n - 1) as u32) && endpoint(s, (n - 1) as u32, b) == e {
            assert(cur == prev.push((n - 1) as u32));
            assert forall|x: u32|
                #[trigger] cur.contains(x) <==> (1 <= x < n && live_in(s, x) && endpoint(s, x, b)
                    == e) by {
                if cur.contains(x) {
                    let w = choose|w: int| 0 <= w < cur.len() && cur[w] == x;
                    if w < prev.len() {
                        assert(prev[w] == x);
                        assert(prev.contains(x));
                    } else {
                        assert(x == (n - 1) as u32);
                    }
                }
                if 1 <= x < n && live_in(s, x) && endpoint(s, x, b) == e {
                    if x < n - 1 {
                        assert(prev.contains(x));
                        let w = choose|w: int| 0 <= w < prev.len() && prev[w] == x;
                        assert(cur[w] == x);
                    } else {
                        assert(cur[cur.len() - 1] == x);
                    }
                }
            }
        } else {
            assert(cur == prev);
            assert forall|x: u32|
                #[trigger] cur.contains(x) <==> (1 <= x < n && live_in(s, x) && endpoint(s, x, b)
                    == e) by {
                if 1 <= x < n && live_in(s, x) && endpoint(s, x, b) == e {
                    assert(x != (n - 1) as u32);
                }
            }
        }
    } else {
        assert forall|x: u32| #[trigger] ep_ids(s, e, b, n).contains(x) implies false by {
            let w = choose|w: int| 0 <= w < ep_ids(s, e, b, n).len() && ep_ids(s, e, b, n)[w] == x;
        }
    }
}

/// Two strictly ascending lists with the same members are the same list.
proof fn lemma_sorted_unique(a: Seq<u32>, b: Seq<u32>)
    requires
        sorted_strict(a),
        sorted_strict(b),
        forall|x: u32| a.contains(x) <==> b.contains(x),
    ensures
        a == b,
    decreases a.len(),
{
    if a.len() == 0 {
        if b.len() > 0 {
            assert(b.contains(b[0]));
            assert(a.contains(b[0]));
            assert(false);
        }
        assert(a =~= b);
    } else if b.len() == 0 {
        assert(a.contains(a[0]));
        assert(b.contains(a[0]));
        assert(false);
    } else {
        let x = a.last();
        let y = b.last();
        assert(a.contains(x)) by {
            assert(a[a.len() - 1] == x);
        }
        assert(b.contains(y)) by {
            assert(b[b.len() - 1] == y);
        }
        assert(b.contains(x));
        assert(a.contains(y));
        let jx = choose|j: int| 0 <= j < b.len() && b[j] == x;
        let jy = choose|j: int| 0 <= j < a.len() && a[j] == y;
        assert(x <= y) by {
            if jx < b.len() - 1 {
                assert(b[jx] < b[b.len() - 1]);
            }
        }
        assert(y <= x) by {
            if jy < a.len() - 1 {
                assert(a[jy] < a[a.len() - 1]);
            }
        }
        let a2 = a.drop_last();
        let b2 = b.drop_last();
        assert forall|z: u32| a2.contains(z) <==> b2.contains(z) by {
            if a2.contains(z) {
                let w = choose|w: int| 0 <= w < a2.len() && a2[w] == z;
                assert(a[w] == z);
                assert(a.contains(z));
                assert(z < x) by {
                    assert(a[w] < a[a.len() - 1]);
                }
                assert(b.contains(z));
                let v = choose|v: int| 0 <= v < b.len() && b[v] == z;
                assert(v != b.len() - 1);
                assert(b2[v] == z);
                assert(b2.contains(z));
            }
            if b2.contains(z) {
                let w = choose|w: int| 0 <= w < b2.len() && b2[w] == z;
                assert(b[w] == z);
                assert(b.contains(z));
                assert(z < y) by {
                    assert(b[w] < b[b.len() - 1]);
                }
                assert(a.contains(z));
                let v = choose|v: int| 0 <= v < a.len() && a[v] == z;
                assert(v != a.len() - 1);
                assert(a2[v] == z);
                assert(a2.contains(z));
            }
        }
        lemma_sorted_unique(a2, b2);
        assert(a =~= a2.push(x));
        assert(b =~= b2.push(y));
        assert(a =~= b);
    }
}

/// A consistent index's bucket for `e` is exactly `ep_ids`; an absent
/// key means `e` occurs on no live link.
proof fn lemma_bucket_canonical(s: Seq<Slot>, m: Map<u32, Vec<u32>>, b: bool, e: u32)
    requires
        index_ok(s, m, b),
        s.len() <= u32::MAX as int + 1,
    ensures
        m.dom().contains(e) ==> m[e]@ == ep_ids(s, e, b, s.len() as int),
        !m.dom().contains(e) ==> ep_ids(s, e, b, s.len() as int) == Seq::<u32>::empty(),
{
    let n = s.len() as int;
    lemma_ep_ids_props(s, e, b, n);
    if m.dom().contains(e) {
        assert forall|x: u32| m[e]@.contains(x) <==> ep_ids(s, e, b, n).contains(x) by {
            if m[e]@.contains(x) {
                let w = choose|w: int| 0 <= w < m[e]@.len() && m[e]@[w] == x;
                assert(live_in(s, m[e]@[w]) && endpoint(s, m[e]@[w], b) == e);
            }
            if ep_ids(s, e, b, n).contains(x) {
                assert(live_in(s, x) && endpoint(s, x, b) == e);
            }
        }
        lemma_sorted_unique(m[e]@, ep_ids(s, e, b, n));
    } else {
        assert forall|x: u32| !(#[trigger] ep_ids(s, e, b, n).contains(x)) by {
            if ep_ids(s, e, b, n).contains(x) {
                assert(live_in(s, x) && endpoint(s, x, b) == e);
                assert(m.dom().contains(endpoint(s, x, b)));
                assert(false);
            }
        }
        assert(sorted_strict(Seq::<u32>::empty()));
        assert forall|x: u32| Seq::<u32>::empty().contains(x) <==> ep_ids(s, e, b, n).contains(
            x,
        ) by {
            if Seq::<u32>::empty().contains(x) {
                let w = choose|w: int| 0 <= w < Seq::<u32>::empty().len() && Seq::<u32>::empty()[w]
                    == x;
            }
        }
        lemma_sorted_unique(Seq::<u32>::empty(), ep_ids(s, e, b, n));
    }
}

/// Walking one endpoint's bucket and filtering yields exactly the
/// query's match sequence, when the query pins that endpoint.
proof fn lemma_filter_ep(s: Seq<Slot>, c: LinksConstants, q: Link, e: u32, b: bool, n: int)
    requires
        q.id == c.any,
        e != c.any,
        if b {
            q.from_id == e
        } else {
            q.to_id == e
        },
        n <= u32::MAX as int + 1,
    ensures
        filter_ids(s, c, q, ep_ids(s, e, b, n)) == match_prefix(s, c, q, n),
    decreases n,
{
    if n > 1 {
        lemma_filter_ep(s, c, q, e, b, n - 1);
        let prev = ep_ids(s, e, b, n - 1);
        let cur = ep_ids(s, e, b, n);
        if live_in(s, (n - 1) as u32) && endpoint(s, (n - 1) as u32, b) == e {
            assert(cur == prev.push((n - 1) as u32));
            assert(cur.drop_last() =~= prev);
            assert(cur.last() == (n - 1) as u32);
        } else {
            assert(cur == prev);
            if live_in(s, (n - 1) as u32) {
                assert(!q_matches(c, link_of(s, (n - 1) as u32), q));
            }
        }
    }
}

/// Filtering ids that all match leaves their number unchanged.
proof fn lemma_filter_full(s: Seq<Slot>, c: LinksConstants, q: Link, ids: Seq<u32>)
    requires
        forall|k: int|
            0 <= k < ids.len() ==> live_in(s, #[trigger] ids[k]) && q_matches(
                c,
                link_of(s, ids[k]),
                q,
            ),
    ensures
        filter_ids(s, c, q, ids).len() == ids.len(),
    decreases ids.len(),
{
    if ids.len() > 0 {
        lemma_filter_full(s, c, q, ids.drop_last());
        assert(ids[ids.len() - 1] == ids.last());
    }
}

/// A live link that matches the query stands in the match sequence.
proof fn lemma_match_prefix_contains(s: Seq<Slot>, c: LinksConstants, q: Link, i: u32, n: int)
    requires
        1 <= i < n,
        live_in(s, i),
        q_matches(c, link_of(s, i), q),
        n <= u32::MAX as int + 1,
    ensures
        match_prefix(s, c, q, n).contains(link_of(s, i)),
    decreases n,
{
    let cur = match_prefix(s, c, q, n);
    let prev = match_prefix(s, c, q, n - 1);
    if i == n - 1 {
        assert(cur[cur.len() - 1] == link_of(s, i));
    } else {
        lemma_match_prefix_contains(s, c, q, i, n - 1);
        let w = choose|w: int| 0 <= w < prev.len() && prev[w] == link_of(s, i);
        assert(cur[w] == link_of(s, i));
    }
}

/// The all-wildcard count is exactly the number of live links. Since
/// `create` raises the live count by one, `delete` lowers it by one
/// and `update` keeps it, the count always equals the number of links
/// created minus the number deleted.
pub proof fn lemma_count_all_is_live_count(s: &UnitedLinks)
    requires
        s.wf(),
    ensures
        s.match_seq(all_any(s.config())).len() == s.live_count(),
{
    lemma_match_all_len(s.slots@, s.constants, s.slots@.len() as int);
}

/// A query pinned to a live id and wild elsewhere matches exactly one
/// link: the one stored under that id.
pub proof fn lemma_concrete_id_unique(s: &UnitedLinks, i: u32, q: Link)
    requires
        s.wf(),
        s@.contains_key(i),
        q.id == i,
        i != s.config().any,
        q.from_id == s.config().any,
        q.to_id == s.config().any,
    ensures
        s.match_seq(q) == seq![s@[i]],
{
    lemma_match_concrete(s.slots@, s.constants, q, s.slots@.len() as int);
    assert(live_in(s.slots@, i));
    assert(s@[i] == link_of(s.slots@, i));
}

/// A single-endpoint count equals the size of that endpoint's index
/// bucket: the ascending list of live ids carrying the endpoint.
pub proof fn lemma_count_matches_bucket(s: &UnitedLinks, e: u32, by_src: bool, q: Link)
    requires
        s.wf(),
        e != s.config().any,
        q.id == s.config().any,
        if by_src {
            q.from_id == e && q.to_id == s.config().any
        } else {
            q.to_id == e && q.from_id == s.config().any
        },
    ensures
        s.match_seq(q).len() == s.bucket_ids(e, by_src).len(),
{
    s.lemma_bucket_count(by_src, e, q);
}

/// Freed ids are reused most recently freed first: a `create` right
/// after a `delete` of `d` returns `d` again. The premises are what
/// `delete` and `create` respectively ensure of the free list.
pub proof fn lemma_freed_id_reused(
    freed_before: Seq<u32>,
    freed_after: Seq<u32>,
    d: u32,
    created: u32,
)
    requires
        freed_after == seq![d] + freed_before,
        freed_after.len() > 0 ==> created == freed_after[0],
    ensures
        created == d,
{
    assert(freed_after[0] == d);
}

/// Once a link stores source `a`, the query for source `a` (wild
/// elsewhere) matches that link.
pub proof fn lemma_updated_link_found(s: &UnitedLinks, i: u32, q: Link)
    requires
        s.wf(),
        s@.contains_key(i),
        q.id == s.config().any,
        q.from_id == s@[i].from_id,
        q.to_id == s.config().any,
    ensures
        s.match_seq(q).contains(s@[i]),
{
    assert(live_in(s.slots@, i));
    assert(s@[i] == link_of(s.slots@, i));
    lemma_match_prefix_contains(s.slots@, s.constants, q, i, s.slots@.len() as int);
}

/// What a query matches, link by link: exactly the stored live links
/// whose fields satisfy the query.
pub proof fn lemma_match_seq_membership(s: &UnitedLinks, q: Link)
    requires
        s.wf(),
    ensures
        forall|l: Link|
            #[trigger] s.match_seq(q).contains(l) <==> (s@.contains_key(l.id) && l == s@[l.id]
                && q_matches(s.config(), l, q)),
{
    let tab = s.slots@;
    let n = tab.len() as int;
    let mp = s.match_seq(q);
    lemma_match_prefix_elems(tab, s.constants, q, n);
    assert forall|l: Link|
        #[trigger] mp.contains(l) <==> (s@.contains_key(l.id) && l == s@[l.id] && q_matches(
            s.config(),
            l,
            q,
        )) by {
        if mp.contains(l) {
            let w = choose|w: int| 0 <= w < mp.len() && mp[w] == l;
            assert(live_in(tab, mp[w].id) && mp[w] == link_of(tab, mp[w].id) && q_matches(
                s.constants,
                mp[w],
                q,
            ));
            assert(s@.contains_key(l.id) && s@[l.id] == link_of(tab, l.id));
        }
        if s@.contains_key(l.id) && l == s@[l.id] && q_matches(s.config(), l, q) {
            assert(live_in(tab, l.id));
            assert(l == link_of(tab, l.id));
            lemma_match_prefix_contains(tab, s.constants, q, l.id, n);
        }
    }
}

/// Identity: the table maps every live id to a link carrying that very
/// id, so what iteration hands out names its own slot.
pub proof fn lemma_view_identity(s: &UnitedLinks)
    ensures
        forall|i: u32| s@.contains_key(i) ==> (#[trigger] s@[i]).id == i,
{
    assert forall|i: u32| s@.contains_key(i) implies (#[trigger] s@[i]).id == i by {
        assert(s@[i] == link_of(s.slots@, i));
    }
}

/// Iteration order is a total order: the match sequence of any query
/// ascends strictly by link id.
pub proof fn lemma_match_seq_ascending(s: &UnitedLinks, q: Link)
    requires
        s.wf(),
    ensures
        forall|j: int, k: int|
            0 <= j < k < s.match_seq(q).len() ==> s.match_seq(q)[j].id < s.match_seq(q)[k].id,
{
    lemma_match_prefix_props(s.slots@, s.constants, q, s.slots@.len() as int);
}

/// Two runs of the same query on an unchanged store see the same
/// sequence: what a query matches is a function of store and query
/// alone.
pub proof fn lemma_iteration_deterministic(s: &UnitedLinks, q: Link, r1: Seq<Link>, r2: Seq<Link>)
    requires
        r1 == s.match_seq(q),
        r2 == s.match_seq(q),
    ensures
        r1 == r2,
{
}

/// Every element of a match sequence is the stored link of its own id,
/// live and matching the query.
proof fn lemma_match_prefix_elems(s: Seq<Slot>, c: LinksConstants, q: Link, n: int)
    requires
        n <= u32::MAX as int + 1,
    ensures
        forall|k: int|
            0 <= k < match_prefix(s, c, q, n).len() ==> {
                let l = #[trigger] match_prefix(s, c, q, n)[k];
                live_in(s, l.id) && l == link_of(s, l.id) && q_matches(c, l, q)
            },
    decreases n,
{
    if n > 1 {
        lemma_match_prefix_elems(s, c, q, n - 1);
        let prev = match_prefix(s, c, q, n - 1);
        let cur = match_prefix(s, c, q, n);
        if live_in(s, (n - 1) as u32) && q_matches(c, link_of(s, (n - 1) as u32), q) {
            assert(cur == prev.push(link_of(s, (n - 1) as u32)));
            assert forall|k: int|
                0 <= k < cur.len() implies {
                let l = #[trigger] cur[k];
                live_in(s, l.id) && l == link_of(s, l.id) && q_matches(c, l, q)
            } by {
                if k < prev.len() {
                    assert(cur[k] == prev[k]);
                } else {
                    assert(cur[k] == link_of(s, (n - 1) as u32));
                    assert(cur[k].id == (n - 1) as u32);
                }
            }
        } else {
            assert(cur == prev);
            assert forall|k: int|
                0 <= k < cur.len() implies {
                let l = #[trigger] cur[k];
                live_in(s, l.id) && l == link_of(s, l.id) && q_matches(c, l, q)
            } by {
                assert(cur[k] == prev[k]);
            }
        }
    }
}

/// Match sequences ascend strictly by id.
proof fn lemma_match_prefix_props(s: Seq<Slot>, c: LinksConstants, q: Link, n: int)
    requires
        n <= u32::MAX as int + 1,
    ensures
        forall|k: int|
            0 <= k < match_prefix(s, c, q, n).len() ==> 1 <= (#[trigger] match_prefix(
                s,
                c,
                q,
                n,
            )[k]).id < n,
        forall|j: int, k: int|
            0 <= j < k < match_prefix(s, c, q, n).len() ==> match_prefix(s, c, q, n)[j].id
                < match_prefix(s, c, q, n)[k].id,
    decreases n,
{
    if n > 1 {
        lemma_match_prefix_props(s, c, q, n - 1);
        let prev = match_prefix(s, c, q, n - 1);
        let cur = match_prefix(s, c, q, n);
        if live_in(s, (n - 1) as u32) && q_matches(c, link_of(s, (n - 1) as u32), q) {
            assert(cur == prev.push(link_of(s, (n - 1) as u32)));
            assert forall|k: int| #![trigger cur[k]] 0 <= k < cur.len() implies 1 <= (cur[k]).id
                < n by {
                if k < prev.len() {
                    assert(cur[k] == prev[k]);
                } else {
                    assert(cur[k] == link_of(s, (n - 1) as u32));
                }
            }
            assert forall|j: int, k: int| #![trigger cur[j], cur[k]] 0 <= j < k
                < cur.len() implies cur[j].id < cur[k].id by {
                assert(cur[j] == prev[j]);
                if k < prev.len() {
                    assert(cur[k] == prev[k]);
                } else {
                    assert(cur[k].id == n - 1);
                    assert(prev[j].id < n - 1);
                }
            }
        } else {
            assert(cur == prev);
            assert forall|k: int| #![trigger cur[k]] 0 <= k < cur.len() implies 1 <= (cur[k]).id
                < n by {
                assert(cur[k] == prev[k]);
            }
            assert forall|j: int, k: int| #![trigger cur[j], cur[k]] 0 <= j < k
                < cur.len() implies cur[j].id < cur[k].id by {
                assert(cur[j] == prev[j] && cur[k] == prev[k]);
            }
        }
    }
}

/// At most `n - 1` of slots `1 .. n` are live.
proof fn lemma_live_prefix_bound(s: Seq<Slot>, n: int)
    ensures
        live_prefix(s, n) <= (if n <= 1 {
            0int
        } else {
            n - 1
        }),
    decreases n,
{
    if n > 1 {
        lemma_live_prefix_bound(s, n - 1);
    }
}

/// With a dead slot below `n`, at most `n - 2` of slots `1 .. n` are live.
proof fn lemma_live_prefix_bound_dead(s: Seq<Slot>, i: u32, n: int)
    requires
        1 <= i < n,
        !(s[i as int] is Live),
        n <= u32::MAX as int + 1,
    ensures
        live_prefix(s, n) <= n - 2,
    decreases n,
{
    if n - 1 == i {
        lemma_live_prefix_bound(s, n - 1);
    } else {
        lemma_live_prefix_bound_dead(s, i, n - 1);
    }
}

/// Inserts `id` into the ascending id list `v`, keeping it ascending.
fn bucket_insert(v: &mut Vec<u32>, id: u32)
    requires
        sorted_strict(old(v)@),
        !old(v)@.contains(id),
    ensures
        sorted_strict(final(v)@),
        final(v)@.len() == old(v)@.len() + 1,
        forall|x: u32| final(v)@.contains(x) <==> old(v)@.contains(x) || x == id,
{
    let mut i: usize = 0;
    while i < v.len() && v[i] < id
        invariant
            i <= v@.len(),
            v@ == old(v)@,
            forall|k: int| 0 <= k < i ==> v@[k] < id,
        decreases v@.len() - i,
    {
        i = i + 1;
    }
    proof {
        if i < v@.len() && v@[i as int] == id {
            assert(v@.contains(id));
            assert(false);
        }
        v@.insert_ensures(i as int, id);
    }
    v.insert(i, id);
    proof {
        let nv = v@;
        let ov = old(v)@;
        assert forall|j: int, k: int| 0 <= j < k < nv.len() implies nv[j] < nv[k] by {
            if k < i {
                assert(nv[j] == ov[j] && nv[k] == ov[k]);
            } else if j > i {
                assert(nv[j] == ov[j - 1] && nv[k] == ov[k - 1]);
            } else if j < i && k == i {
                assert(nv[j] == ov[j] && nv[k] == id);
            } else if j == i {
                assert(nv[j] == id && nv[k] == ov[k - 1] && k - 1 >= i);
            } else {
                assert(j < i && k > i);
                assert(nv[j] == ov[j] && nv[k] == ov[k - 1] && k - 1 >= i);
            }
        }
        assert forall|x: u32| nv.contains(x) <==> ov.contains(x) || x == id by {
            if nv.contains(x) {
                let w = choose|w: int| 0 <= w < nv.len() && nv[w] == x;
                if w < i {
                    assert(ov[w] == x);
                } else if w == i {
                    assert(x == id);
                } else {
                    assert(ov[w - 1] == x);
                }
            }
            if ov.contains(x) {
                let w = choose|w: int| 0 <= w < ov.len() && ov[w] == x;
                if w < i {
                    assert(nv[w] == x);
                } else {
                    assert(nv[w + 1] == x);
                }
            }
            if x == id {
                assert(nv[i as int] == x);
            }
        }
    }
}

/// Removes `id` from the ascending id list `v`; ascending order and the
/// other members are kept.
fn bucket_remove(v: &mut Vec<u32>, id: u32)
    requires
        sorted_strict(old(v)@),
        old(v)@.contains(id),
    ensures
        sorted_strict(final(v)@),
        final(v)@.len() == old(v)@.len() - 1,
        forall|x: u32| final(v)@.contains(x) <==> old(v)@.contains(x) && x != id,
{
    let mut i: usize = 0;
    while i < v.len() && v[i] != id
        invariant
            i <= v@.len(),
            v@ == old(v)@,
            v@.contains(id),
            forall|k: int| 0 <= k < i ==> v@[k] != id,
        decreases v@.len() - i,
    {
        i = i + 1;
    }
    proof {
        let w = choose|w: int| 0 <= w < v@.len() && v@[w] == id;
        assert(w >= i);
        assert(i < v@.len());
    }
    v.remove(i);
    proof {
        let nv = v@;
        let ov = old(v)@;
        assert(nv == ov.remove(i as int));
        assert forall|j: int, k: int| 0 <= j < k < nv.len() implies nv[j] < nv[k] by {
            if k < i {
            } else if j >= i {
                assert(nv[j] == ov[j + 1] && nv[k] == ov[k + 1]);
            } else {
                assert(nv[j] == ov[j] && nv[k] == ov[k + 1]);
            }
        }
        assert forall|x: u32| nv.contains(x) <==> ov.contains(x) && x != id by {
            if nv.contains(x) {
                let w = choose|w: int| 0 <= w < nv.len() && nv[w] == x;
                if w < i {
                    assert(ov[w] == x);
                    assert(w != i && ov[i as int] == id);
                    if x == id {
                        assert(ov[w] == ov[i as int]);
                        assert(false);
                    }
                } else {
                    assert(ov[w + 1] == x);
                    if x == id {
                        assert(ov[w + 1] == ov[i as int]);
                        assert(false);
                    }
                }
            }
            if ov.contains(x) && x != id {
                let w = choose|w: int| 0 <= w < ov.len() && ov[w] == x;
                assert(w != i);
                if w < i {
                    assert(nv[w] == x);
                } else {
                    assert(nv[w - 1] == x);
                }
            }
        }
    }
}

/// Adds `id` under key `e` in an endpoint index, creating the bucket if
/// the key is new. Buckets of other keys are untouched.
fn index_add(m: &mut HashMap<u32, Vec<u32>>, e: u32, id: u32)
    requires
        old(m)@.dom().contains(e) ==> sorted_strict(old(m)@[e]@) && !old(m)@[e]@.contains(id),
    ensures
        final(m)@.dom() == old(m)@.dom().insert(e),
        sorted_strict(final(m)@[e]@),
        forall|x: u32|
            final(m)@[e]@.contains(x) <==> (old(m)@.dom().contains(e) && old(m)@[e]@.contains(x))
                || x == id,
        final(m)@[e]@.len() == (if old(m)@.dom().contains(e) {
            old(m)@[e]@.len()
        } else {
            0
        }) + 1,
        forall|e2: u32| e2 != e && old(m)@.dom().contains(e2) ==> final(m)@[e2] == old(m)@[e2],
{
    let mut bucket = match m.remove(&e) {
        Some(b) => b,
        None => Vec::new(),
    };
    bucket_insert(&mut bucket, id);
    m.insert(e, bucket);
    proof {
        assert(m@.dom() =~= old(m)@.dom().insert(e));
    }
}

/// Removes `id` from the bucket of key `e`; the key stays present even
/// when its bucket empties, and buckets of other keys are untouched.
fn index_remove(m: &mut HashMap<u32, Vec<u32>>, e: u32, id: u32)
    requires
        old(m)@.dom().contains(e),
        sorted_strict(old(m)@[e]@),
        old(m)@[e]@.contains(id),
    ensures
        final(m)@.dom() == old(m)@.dom(),
        sorted_strict(final(m)@[e]@),
        forall|x: u32|
            final(m)@[e]@.contains(x) <==> old(m)@[e]@.contains(x) && x != id,
        final(m)@[e]@.len() == old(m)@[e]@.len() - 1,
        forall|e2: u32| e2 != e && old(m)@.dom().contains(e2) ==> final(m)@[e2] == old(m)@[e2],
{
    let mut bucket = match m.remove(&e) {
        Some(b) => b,
        None => {
            proof {
                assert(false);
            }
            Vec::new()
        },
    };
    bucket_remove(&mut bucket, id);
    m.insert(e, bucket);
    proof {
        assert(m@.dom() =~= old(m)@.dom());
    }
}

} // verus!
