use vstd::prelude::*;
use vstd::arithmetic::power2::{lemma_pow2_unfold, pow2};
use vstd::arithmetic::power::lemma_pow0;
use vstd::arithmetic::div_mod::{lemma_fundamental_div_mod, lemma_mod_multiples_basic};
use vstd::bits::lemma_usize_shl_is_mul;

use crate::addr::{PAddr, Region};
use crate::block::{
    lemma_aligned_down, lemma_aligned_eq, lemma_aligned_step, lemma_buddy, lemma_multiple,
    lemma_units_positive,
};

verus! {

/// Minimum block size of allocation in bytes.
pub const MINIMUM_BLOCK: usize = 4096;

/// Maximum order of a buddy block.
pub const MAXIMUM_ORDER: usize = 10;

/// Maximum block size of allocation in bytes.
pub const MAXIMUM_BLOCK: usize = 4194304;

/// Index value that stands for "no block".
pub const SENTINEL: u16 = 0xffff;

/// Bytes taken by one `LinkedNode` (two `u16`) and its alignment.
pub const LINKED_NODE_SIZE: usize = 4;
pub const LINKED_NODE_ALIGN: usize = 2;

/// Bytes taken by one `Metadata`.
pub const METADATA_SIZE: usize = 1;

/// Number of minimum blocks in a block of the given order: `2^order`.
pub open spec fn units(order: nat) -> nat
    decreases order,
{
    if order == 0 {
        1
    } else {
        2 * units((order - 1) as nat)
    }
}

pub proof fn lemma_units_pow2(order: nat)
    ensures
        units(order) == pow2(order),
    decreases order,
{
    if order == 0 {
        lemma_pow0(2);
    } else {
        lemma_units_pow2((order - 1) as nat);
        lemma_pow2_unfold(order);
    }
}

pub proof fn lemma_units_bounds(order: nat)
    requires
        order <= MAXIMUM_ORDER,
    ensures
        1 <= units(order) <= 1024,
        order < MAXIMUM_ORDER ==> units(order) <= 512,
    decreases MAXIMUM_ORDER - order,
{
    if order < MAXIMUM_ORDER {
        lemma_units_bounds(order + 1);
    } else {
        reveal_with_fuel(units, 11);
    }
}

/// `1 << order` for the orders that the allocator uses.
fn units_of(order: usize) -> (r: usize)
    requires
        order <= MAXIMUM_ORDER,
    ensures
        r == units(order as nat),
        1 <= r <= 1024,
{
    proof {
        lemma_units_pow2(order as nat);
        lemma_units_bounds(order as nat);
        lemma_usize_shl_is_mul(1, order);
    }
    1usize << order
}

/// Metadata of a buddy block, one byte per minimum block.
///
/// Bit layout, from the top: `is_allocated` (1 bit), `is_free_list` (1 bit),
/// `pool` (6 bits, the order of the block).
#[derive(Clone, Copy, Debug, PartialEq, Eq, Structural)]
pub struct Metadata(pub u8);

impl Metadata {
    pub open spec fn allocated(self) -> bool {
        self.0 >= 128
    }

    pub open spec fn listed(self) -> bool {
        (self.0 / 64) % 2 == 1
    }

    pub open spec fn order(self) -> nat {
        (self.0 % 64) as nat
    }

    /// The byte that holds the three fields.
    pub open spec fn encode(allocated: bool, listed: bool, order: nat) -> u8 {
        ((if allocated { 128int } else { 0int }) + (if listed { 64int } else { 0int }) + order) as u8
    }

    pub fn is_allocated(&self) -> (r: bool)
        ensures
            r == self.allocated(),
    {
        let v = self.0;
        assert(((v >> 7u8) == 1u8) == (v >= 128u8)) by (bit_vector);
        (v >> 7u8) == 1u8
    }

    pub fn is_free_list(&self) -> (r: bool)
        ensures
            r == self.listed(),
    {
        let v = self.0;
        assert(((v >> 6u8 & 1u8) == 1u8) == ((v / 64u8) % 2u8 == 1u8)) by (bit_vector);
        (v >> 6u8 & 1u8) == 1u8
    }

    /// Index of the pool (the order of the block).
    pub fn pool(&self) -> (r: u8)
        ensures
            r == self.order(),
    {
        let v = self.0;
        assert(v & 0x3fu8 == v % 64u8) by (bit_vector);
        v & 0x3f
    }

    pub fn with_is_allocated(self, is_allocated: bool) -> (r: Self)
        ensures
            r.allocated() == is_allocated,
            r.listed() == self.listed(),
            r.order() == self.order(),
    {
        let v = self.0;
        let a: u8 = if is_allocated { 1 } else { 0 };
        assert(a <= 1u8 ==> {
            let w = v & 0x7fu8 | a << 7u8;
            &&& (w >= 128u8) == (a == 1u8)
            &&& (w / 64u8) % 2u8 == (v / 64u8) % 2u8
            &&& w % 64u8 == v % 64u8
        }) by (bit_vector);
        Self::from_value(v & 0x7f | a << 7u8)
    }

    pub fn with_is_free_list(self, is_free_list: bool) -> (r: Self)
        ensures
            r.allocated() == self.allocated(),
            r.listed() == is_free_list,
            r.order() == self.order(),
    {
        let v = self.0;
        let f: u8 = if is_free_list { 1 } else { 0 };
        assert(f <= 1u8 ==> {
            let w = v & 0xbfu8 | f << 6u8;
            &&& (w >= 128u8) == (v >= 128u8)
            &&& ((w / 64u8) % 2u8 == 1u8) == (f == 1u8)
            &&& w % 64u8 == v % 64u8
        }) by (bit_vector);
        Self::from_value(v & 0xbf | f << 6u8)
    }

    pub fn with_pool(self, pool: u8) -> (r: Self)
        requires
            pool < 64,
        ensures
            r.allocated() == self.allocated(),
            r.listed() == self.listed(),
            r.order() == pool,
    {
        let v = self.0;
        assert(pool < 64u8 ==> {
            let w = v & 0xc0u8 | pool;
            &&& (w >= 128u8) == (v >= 128u8)
            &&& (w / 64u8) % 2u8 == (v / 64u8) % 2u8
            &&& w % 64u8 == pool
        }) by (bit_vector);
        Self::from_value(v & 0xc0 | pool)
    }

    pub fn new(is_allocated: bool, is_free_list: bool, pool: u8) -> (r: Self)
        requires
            pool < 64,
        ensures
            r.allocated() == is_allocated,
            r.listed() == is_free_list,
            r.order() == pool,
            r.0 == Self::encode(is_allocated, is_free_list, pool as nat),
    {
        let a: u8 = if is_allocated { 1 } else { 0 };
        let f: u8 = if is_free_list { 1 } else { 0 };
        assert(a <= 1u8 && f <= 1u8 && pool < 64u8 ==> {
            let w = a << 7u8 | f << 6u8 | pool;
            &&& w == a * 128u8 + f * 64u8 + pool
        }) by (bit_vector);
        Self(a << 7u8 | f << 6u8 | pool)
    }

    pub fn from_value(value: u8) -> (r: Self)
        ensures
            r.0 == value,
    {
        Self(value)
    }
}

/// A pair of block indices. In the free-list table it holds the first and the
/// last block of a list; in the link table, the previous and the next block.
#[derive(Clone, Copy, Debug, PartialEq, Eq, Structural)]
pub struct LinkedNode {
    pub head: u16,
    pub tail: u16,
}

/// Rounds `x` up to a multiple of `align`.
fn align_up(x: usize, align: usize) -> (r: usize)
    requires
        align > 0,
        x + align <= usize::MAX,
    ensures
        r % align == 0,
        x <= r < x + align,
{
    let rem = x % align;
    if rem == 0 {
        x
    } else {
        proof {
            lemma_fundamental_div_mod(x as int, align as int);
            lemma_mod_multiples_basic(x as int / align as int + 1, align as int);
            assert((x as int / align as int + 1) * align == x + (align - rem)) by (nonlinear_arith)
                requires
                    x == align * (x as int / align as int) + rem,
            ;
        }
        x + (align - rem)
    }
}

pub open spec fn required_heap_spec(region: nat) -> int {
    let subranges = region / 4096;
    let free_lists_end = LINKED_NODE_SIZE * (MAXIMUM_ORDER + 1);
    let metadata_end = free_lists_end + METADATA_SIZE * subranges;
    let links_start = if metadata_end % 2 == 0 { metadata_end } else { metadata_end + 1 };
    links_start + LINKED_NODE_SIZE * subranges
}

/// Whether a block head is in use: allocated or on a free list.
pub open spec fn live(m: Metadata) -> bool {
    m.allocated() || m.listed()
}

/// The buddy of block `b` at order `k`: `b XOR 2^k` for a `2^k`-aligned `b`.
pub open spec fn buddy(b: int, k: nat) -> int {
    if (b / units(k) as int) % 2 == 0 {
        b + units(k)
    } else {
        b - units(k)
    }
}

/// The link that precedes position `j` of list `s`.
pub open spec fn prev_of(s: Seq<int>, j: int) -> u16 {
    if j == 0 {
        SENTINEL
    } else {
        s[j - 1] as u16
    }
}

/// The link that follows position `j` of list `s`.
pub open spec fn next_of(s: Seq<int>, j: int) -> u16 {
    if j == s.len() - 1 {
        SENTINEL
    } else {
        s[j + 1] as u16
    }
}

/// Minimum blocks held by the free lists of orders below `n`.
pub open spec fn free_units(lists: Seq<Seq<int>>, n: nat) -> int
    decreases n,
{
    if n == 0 {
        0
    } else {
        free_units(lists, (n - 1) as nat) + units((n - 1) as nat) * lists[n - 1].len()
    }
}

/// Minimum blocks held by allocated blocks whose head is below `n`.
pub open spec fn alloc_units(meta: Seq<Metadata>, n: nat) -> int
    decreases n,
{
    if n == 0 {
        0
    } else {
        alloc_units(meta, (n - 1) as nat) + (if meta[n - 1].allocated() {
            units(meta[n - 1].order()) as int
        } else {
            0
        })
    }
}

/// The free lists `lists` are threaded through `links`, with first and last
/// blocks in `fls`, and no block appears twice.
spec fn links_ok(lists: Seq<Seq<int>>, fls: Seq<LinkedNode>, links: Seq<LinkedNode>, n: int) -> bool {
    &&& forall|k: int|
        0 <= k <= MAXIMUM_ORDER ==> {
            let s = #[trigger] lists[k];
            let ends = fls[k];
            &&& s.len() == 0 ==> ends.head == SENTINEL && ends.tail == SENTINEL
            &&& s.len() > 0 ==> ends.head == s[0] && ends.tail == s[s.len() - 1]
        }
    &&& forall|k: int, j: int|
        0 <= k <= MAXIMUM_ORDER && 0 <= j < lists[k].len() ==> 0 <= #[trigger] lists[k][j] < n
    &&& forall|k: int, j: int|
        0 <= k <= MAXIMUM_ORDER && 0 <= j < lists[k].len() ==> #[trigger] links[lists[k][j]]
            == LinkedNode { head: prev_of(lists[k], j), tail: next_of(lists[k], j) }
    &&& forall|k1: int, j1: int, k2: int, j2: int|
        0 <= k1 <= MAXIMUM_ORDER && 0 <= j1 < lists[k1].len() && 0 <= k2 <= MAXIMUM_ORDER && 0
            <= j2 < lists[k2].len() && #[trigger] lists[k1][j1] == #[trigger] lists[k2][j2] ==> k1
            == k2 && j1 == j2
}

/// What unlinking position `j` of list `k` does to the list ends and the links.
spec fn unlink_step(
    lists: Seq<Seq<int>>,
    fls: Seq<LinkedNode>,
    links: Seq<LinkedNode>,
    fls2: Seq<LinkedNode>,
    links2: Seq<LinkedNode>,
    n: int,
    k: int,
    j: int,
) -> bool {
    let s = lists[k];
    let p = prev_of(s, j);
    let q = next_of(s, j);
    &&& links_ok(lists, fls, links, n)
    &&& lists.len() == MAXIMUM_ORDER + 1
    &&& fls.len() == MAXIMUM_ORDER + 1
    &&& n <= 0xffff
    &&& 0 <= k <= MAXIMUM_ORDER
    &&& 0 <= j < lists[k].len()
    &&& fls2.len() == fls.len()
    &&& links.len() == n
    &&& links2.len() == links.len()
    &&& fls2 == fls.update(
        k,
        LinkedNode {
            head: if p == SENTINEL {
                q
            } else {
                fls[k].head
            },
            tail: if q == SENTINEL {
                p
            } else {
                fls[k].tail
            },
        },
    )
    &&& forall|x: int|
        0 <= x < links.len() && x != s[j] && (p == SENTINEL || x != p) && (q == SENTINEL || x != q)
            ==> #[trigger] links2[x] == links[x]
    &&& p != SENTINEL ==> links2[p as int] == LinkedNode { head: links[p as int].head, tail: q }
    &&& q != SENTINEL ==> links2[q as int] == LinkedNode { head: p, tail: links[q as int].tail }
}

#[verifier::rlimit(30)]
proof fn lemma_unlink(
    lists: Seq<Seq<int>>,
    fls: Seq<LinkedNode>,
    links: Seq<LinkedNode>,
    fls2: Seq<LinkedNode>,
    links2: Seq<LinkedNode>,
    n: int,
    k: int,
    j: int,
)
    requires
        unlink_step(lists, fls, links, fls2, links2, n, k, j),
    ensures
        links_ok(lists.update(k, lists[k].remove(j)), fls2, links2, n),
{
    let s = lists[k];
    let ns = s.remove(j);
    let lists2 = lists.update(k, ns);
    lemma_unlink_links(lists, fls, links, fls2, links2, n, k, j);
    lemma_unlink_distinct(lists, fls, links, fls2, links2, n, k, j);
    assert forall|k2: int| 0 <= k2 <= MAXIMUM_ORDER implies {
        let t = #[trigger] lists2[k2];
        let m = fls2[k2];
        &&& t.len() == 0 ==> m.head == SENTINEL && m.tail == SENTINEL
        &&& t.len() > 0 ==> m.head == t[0] && m.tail == t[t.len() - 1]
    } by {
        if k2 == k {
            if s.len() > 1 {
                assert(lists[k][0] == s[0]);
                assert(lists[k][s.len() - 1] == s[s.len() - 1]);
            }
        }
    }
}

#[verifier::rlimit(30)]
proof fn lemma_unlink_links(
    lists: Seq<Seq<int>>,
    fls: Seq<LinkedNode>,
    links: Seq<LinkedNode>,
    fls2: Seq<LinkedNode>,
    links2: Seq<LinkedNode>,
    n: int,
    k: int,
    j: int,
)
    requires
        unlink_step(lists, fls, links, fls2, links2, n, k, j),
    ensures
        ({
            let lists2 = lists.update(k, lists[k].remove(j));
            forall|k2: int, i: int|
                0 <= k2 <= MAXIMUM_ORDER && 0 <= i < lists2[k2].len() ==> {
                    let b = #[trigger] lists2[k2][i];
                    &&& 0 <= b < n
                    &&& links2[b] == LinkedNode {
                        head: prev_of(lists2[k2], i),
                        tail: next_of(lists2[k2], i),
                    }
                }
        }),
{
    let s = lists[k];
    let ns = s.remove(j);
    let lists2 = lists.update(k, ns);
    assert(lists[k][j] == s[j]);
    if j > 0 {
        assert(lists[k][j - 1] == s[j - 1]);
    }
    if j < s.len() - 1 {
        assert(lists[k][j + 1] == s[j + 1]);
    }
    assert forall|k2: int, i: int|
        0 <= k2 <= MAXIMUM_ORDER && 0 <= i < lists2[k2].len() implies {
        let b = #[trigger] lists2[k2][i];
        &&& 0 <= b < n
        &&& links2[b] == LinkedNode { head: prev_of(lists2[k2], i), tail: next_of(lists2[k2], i) }
    } by {
        if k2 == k {
            let oi = if i < j {
                i
            } else {
                i + 1
            };
            assert(ns[i] == s[oi]);
            assert(lists[k2][oi] == s[oi]);
            let x = s[oi];
            assert(0 <= x < n);
            assert(links[lists[k][oi]] == LinkedNode { head: prev_of(s, oi), tail: next_of(s, oi) });
            assert(x != s[j]);
            if j > 0 {
                assert(lists[k][j - 1] == s[j - 1]);
                assert(0 <= s[j - 1] < n);
                assert(prev_of(s, j) as int == s[j - 1]);
                assert(oi != j - 1 ==> x != s[j - 1]);
            }
            if j < s.len() - 1 {
                assert(lists[k][j + 1] == s[j + 1]);
                assert(0 <= s[j + 1] < n);
                assert(next_of(s, j) as int == s[j + 1]);
                assert(oi != j + 1 ==> x != s[j + 1]);
            }
            if i > 0 {
                let pi = if i - 1 < j {
                    i - 1
                } else {
                    i
                };
                assert(ns[i - 1] == s[pi]);
                assert(lists[k2][pi] == s[pi]);
            }
            if i < ns.len() - 1 {
                let qi = if i + 1 < j {
                    i + 1
                } else {
                    i + 2
                };
                assert(ns[i + 1] == s[qi]);
                assert(lists[k2][qi] == s[qi]);
            }
            if oi > 0 {
                assert(lists[k2][oi - 1] == s[oi - 1]);
            }
            if oi < s.len() - 1 {
                assert(lists[k2][oi + 1] == s[oi + 1]);
            }
        } else {
            assert(lists[k2][i] == lists2[k2][i]);
            let x = lists[k2][i];
            assert(links[lists[k2][i]] == LinkedNode {
                head: prev_of(lists[k2], i),
                tail: next_of(lists[k2], i),
            });
            assert(lists[k][j] == s[j]);
            assert(x != s[j]);
            if j > 0 {
                assert(lists[k][j - 1] == s[j - 1]);
                assert(0 <= s[j - 1] < n);
                assert(prev_of(s, j) as int == s[j - 1]);
                assert(x != s[j - 1]);
            }
            if j < s.len() - 1 {
                assert(lists[k][j + 1] == s[j + 1]);
                assert(0 <= s[j + 1] < n);
                assert(next_of(s, j) as int == s[j + 1]);
                assert(x != s[j + 1]);
            }
            assert(links2[x] == links[x]);
        }
    }
}

#[verifier::rlimit(30)]
proof fn lemma_unlink_distinct(
    lists: Seq<Seq<int>>,
    fls: Seq<LinkedNode>,
    links: Seq<LinkedNode>,
    fls2: Seq<LinkedNode>,
    links2: Seq<LinkedNode>,
    n: int,
    k: int,
    j: int,
)
    requires
        unlink_step(lists, fls, links, fls2, links2, n, k, j),
    ensures
        ({
            let lists2 = lists.update(k, lists[k].remove(j));
            forall|k1: int, j1: int, k2: int, j2: int|
                0 <= k1 <= MAXIMUM_ORDER && 0 <= j1 < lists2[k1].len() && 0 <= k2 <= MAXIMUM_ORDER
                    && 0 <= j2 < lists2[k2].len() && #[trigger] lists2[k1][j1] == #[trigger] lists2[k2][j2]
                    ==> k1 == k2 && j1 == j2
        }),
{
    let s = lists[k];
    let ns = s.remove(j);
    let lists2 = lists.update(k, ns);
    assert forall|k1: int, j1: int, k2: int, j2: int|
        0 <= k1 <= MAXIMUM_ORDER && 0 <= j1 < lists2[k1].len() && 0 <= k2 <= MAXIMUM_ORDER && 0
            <= j2 < lists2[k2].len() && #[trigger] lists2[k1][j1] == #[trigger] lists2[k2][j2] implies k1
        == k2 && j1 == j2 by {
        let o1 = if k1 == k && j1 >= j {
            j1 + 1
        } else {
            j1
        };
        let o2 = if k2 == k && j2 >= j {
            j2 + 1
        } else {
            j2
        };
        assert(lists2[k1][j1] == lists[k1][o1]);
        assert(lists2[k2][j2] == lists[k2][o2]);
    }
}

/// Power-of-two block allocator over a region of physical memory.
///
/// The region is cut into minimum blocks ("subranges") of 4 KiB. A block of
/// order `k` spans `2^k` subranges and starts at a subrange index that is a
/// multiple of `2^k`. Free blocks sit on one doubly linked list per order,
/// threaded through the `links` table by index.
pub struct BuddyAllocator {
    region: Region,
    free_lists: Vec<LinkedNode>,
    metadata: Vec<Metadata>,
    links: Vec<LinkedNode>,
    orders: usize,
    subranges: usize,
    /// The blocks on each free list, first to last.
    lists: Ghost<Seq<Seq<int>>>,
    /// For each subrange, the head of the live block that covers it, or -1.
    owner: Ghost<Seq<int>>,
}

impl BuddyAllocator {
    /// The free lists, one per order, each its blocks first to last.
    pub closed spec fn free_lists_spec(&self) -> Seq<Seq<int>> {
        self.lists@
    }

    /// The blocks on the free list of order `k`, first to last.
    pub open spec fn free_list(&self, k: int) -> Seq<int> {
        self.free_lists_spec()[k]
    }

    /// The metadata bytes, one per subrange.
    pub closed spec fn metas(&self) -> Seq<Metadata> {
        self.metadata@
    }

    /// The metadata byte of subrange `i`.
    pub open spec fn meta(&self, i: int) -> Metadata {
        self.metas()[i]
    }

    /// Number of minimum blocks in the managed region.
    pub closed spec fn subranges_spec(&self) -> nat {
        self.subranges as nat
    }

    pub closed spec fn region_spec(&self) -> Region {
        self.region
    }

    /// Number of subranges enrolled at construction: those covered by whole
    /// maximum-order blocks.
    pub open spec fn enrolled(&self) -> nat {
        (self.subranges_spec() / 1024) * 1024
    }

    spec fn shape_ok(&self) -> bool {
        &&& self.orders == MAXIMUM_ORDER
        &&& self.free_lists@.len() == MAXIMUM_ORDER + 1
        &&& self.metadata@.len() == self.subranges
        &&& self.links@.len() == self.subranges
        &&& self.subranges <= 0xffff
        &&& self.region.wf()
        &&& self.subranges == self.region.size / MINIMUM_BLOCK
        &&& self.lists@.len() == MAXIMUM_ORDER + 1
        &&& self.owner@.len() == self.subranges
    }

    spec fn lists_ok(&self) -> bool {
        links_ok(self.lists@, self.free_lists@, self.links@, self.subranges as int)
    }

    spec fn meta_ok(&self) -> bool {
        &&& forall|k: int, j: int|
            0 <= k <= MAXIMUM_ORDER && 0 <= j < self.lists@[k].len() ==> {
                let b = #[trigger] self.lists@[k][j];
                let m = self.metadata@[b];
                &&& m.listed() && !m.allocated() && m.order() == k
            }
        &&& forall|b: int|
            0 <= b < self.subranges && (#[trigger] self.metadata@[b]).listed() ==> {
                let k = self.metadata@[b].order();
                &&& k <= MAXIMUM_ORDER
                &&& self.lists@[k as int].contains(b)
            }
        &&& forall|b: int|
            0 <= b < self.subranges && live(#[trigger] self.metadata@[b]) ==> {
                let k = self.metadata@[b].order();
                &&& k <= MAXIMUM_ORDER
                &&& !(self.metadata@[b].allocated() && self.metadata@[b].listed())
                &&& b % (units(k) as int) == 0
                &&& b + units(k) <= self.enrolled()
            }
    }

    spec fn tiling_ok(&self) -> bool {
        &&& forall|b: int, i: int|
            0 <= b < self.subranges && live(#[trigger] self.metadata@[b]) && b <= i < b + units(
                self.metadata@[b].order(),
            ) ==> #[trigger] self.owner@[i] == b
        &&& forall|i: int|
            0 <= i < self.subranges && #[trigger] self.owner@[i] != -1 ==> {
                let c = self.owner@[i];
                &&& 0 <= c <= i
                &&& i < c + units(self.metadata@[c].order())
                &&& live(self.metadata@[c])
            }
        &&& forall|i: int| 0 <= i < self.enrolled() ==> #[trigger] self.owner@[i] != -1
    }

    spec fn coalesced(&self) -> bool {
        forall|b: int|
            0 <= b < self.subranges && (#[trigger] self.metadata@[b]).listed()
                && self.metadata@[b].order() < MAXIMUM_ORDER ==> {
                let k = self.metadata@[b].order();
                let c = buddy(b, k);
                !(self.metadata@[c].listed() && self.metadata@[c].order() == k)
            }
    }

    spec fn units_ok(&self) -> bool {
        free_units(self.lists@, (MAXIMUM_ORDER + 1) as nat) + alloc_units(
            self.metadata@,
            self.subranges as nat,
        ) == self.enrolled()
    }

    /// The allocator's invariant: the shape of its tables, which callers
    /// see, and the consistency of free lists, links and metadata.
    pub open spec fn wf(&self) -> bool {
        &&& self.free_lists_spec().len() == MAXIMUM_ORDER + 1
        &&& self.metas().len() == self.subranges_spec()
        &&& self.subranges_spec() <= 0xffff
        &&& self.region_spec().wf()
        &&& self.subranges_spec() == (self.region_spec().size / MINIMUM_BLOCK) as nat
        &&& self.inv()
    }

    /// Free lists, links, metadata and ghost tiling agree.
    pub closed spec fn inv(&self) -> bool {
        &&& self.shape_ok()
        &&& self.lists_ok()
        &&& self.meta_ok()
        &&& self.tiling_ok()
        &&& self.coalesced()
        &&& self.units_ok()
    }
}

/// The link of the `j`-th of `blocks` maximum-order blocks right after construction.
spec fn top_link(j: int, blocks: int) -> LinkedNode {
    LinkedNode {
        head: if j == 0 {
            SENTINEL
        } else {
            ((j - 1) * 1024) as u16
        },
        tail: if j == blocks - 1 {
            SENTINEL
        } else {
            ((j + 1) * 1024) as u16
        },
    }
}

impl BuddyAllocator {
    /// Builds an allocator over `region`. Every whole maximum-order block of
    /// the region goes on the free list of the maximum order, lowest address
    /// first; subranges past the last whole maximum-order block stay unmanaged.
    #[verifier::rlimit(30)]
    pub fn new(region: Region) -> (r: Self)
        requires
            region.wf(),
            region.size / MINIMUM_BLOCK <= 0xffff,
        ensures
            r.wf(),
            r.region_spec() == region,
            r.subranges_spec() == region.size / MINIMUM_BLOCK,
            r.free_list(MAXIMUM_ORDER as int) == Seq::new(
                r.enrolled() / 1024,
                |j: int| j * 1024,
            ),
            forall|k: int| 0 <= k < MAXIMUM_ORDER ==> #[trigger] r.free_list(k).len() == 0,
            forall|i: int|
                0 <= i < r.subranges_spec() ==> #[trigger] r.meta(i) == (if i % 1024 == 0 && i
                    < r.enrolled() {
                    Metadata(Metadata::encode(false, true, MAXIMUM_ORDER as nat))
                } else {
                    Metadata(0)
                }),
    {
        let subranges = region.size / MINIMUM_BLOCK;
        let none = LinkedNode { head: SENTINEL, tail: SENTINEL };
        let mut free_lists: Vec<LinkedNode> = vec![none; MAXIMUM_ORDER + 1];
        let mut metadata: Vec<Metadata> = vec![Metadata(0); subranges];
        let mut links: Vec<LinkedNode> = vec![none; subranges];
        let step = MAXIMUM_BLOCK / MINIMUM_BLOCK;
        let blocks = subranges / step;
        let mut m: usize = 0;
        while m < blocks
            invariant
                step == 1024,
                blocks == subranges / 1024,
                0 <= m <= blocks,
                subranges <= 0xffff,
                metadata@.len() == subranges,
                links@.len() == subranges,
                forall|i: int|
                    0 <= i < subranges ==> #[trigger] metadata@[i] == (if i % 1024 == 0 && i < m
                        * 1024 {
                        Metadata(Metadata::encode(false, true, MAXIMUM_ORDER as nat))
                    } else {
                        Metadata(0)
                    }),
                forall|j: int| 0 <= j < m ==> #[trigger] links@[j * 1024] == top_link(j, blocks as int),
            decreases blocks - m,
        {
            let i = m * step;
            let head = if m == 0 {
                SENTINEL
            } else {
                (i - step) as u16
            };
            let tail = if m + 1 == blocks {
                SENTINEL
            } else {
                (i + step) as u16
            };
            links.set(i, LinkedNode { head, tail });
            metadata.set(i, Metadata::new(false, true, MAXIMUM_ORDER as u8));
            proof {
                assert forall|j: int| 0 <= j < m + 1 implies #[trigger] links@[j * 1024] == top_link(
                    j,
                    blocks as int,
                ) by {
                    if j < m {
                        assert(j * 1024 != m * 1024);
                    }
                }
            }
            m += 1;
        }
        if blocks > 0 {
            free_lists.set(MAXIMUM_ORDER, LinkedNode { head: 0, tail: ((blocks - 1) * step) as u16 });
        }
        let ghost enrolled = blocks * 1024;
        let ghost lists = Seq::new(
            (MAXIMUM_ORDER + 1) as nat,
            |k: int|
                if k == MAXIMUM_ORDER {
                    Seq::new(blocks as nat, |j: int| j * 1024)
                } else {
                    Seq::<int>::empty()
                },
        );
        let ghost owner = Seq::new(
            subranges as nat,
            |x: int|
                if x < enrolled {
                    (x / 1024) * 1024
                } else {
                    -1
                },
        );
        let r = BuddyAllocator {
            region,
            free_lists,
            metadata,
            links,
            orders: MAXIMUM_ORDER,
            subranges,
            lists: Ghost(lists),
            owner: Ghost(owner),
        };
        proof {
            Self::lemma_fresh_wf(&r, blocks as int);
        }
        r
    }

    /// The state that `new` builds, in closed form.
    spec fn fresh(r: &Self, blocks: int) -> bool {
        let none = LinkedNode { head: SENTINEL, tail: SENTINEL };
        let top = LinkedNode { head: 0, tail: ((blocks - 1) * 1024) as u16 };
        &&& r.orders == MAXIMUM_ORDER
        &&& r.free_lists@.len() == MAXIMUM_ORDER + 1
        &&& r.metadata@.len() == r.subranges
        &&& r.links@.len() == r.subranges
        &&& r.subranges <= 0xffff
        &&& r.region.wf()
        &&& r.subranges == r.region.size / MINIMUM_BLOCK
        &&& blocks == r.subranges / 1024
        &&& forall|i: int|
            0 <= i < r.subranges ==> #[trigger] r.metadata@[i] == (if i % 1024 == 0 && i < blocks
                * 1024 {
                Metadata(Metadata::encode(false, true, MAXIMUM_ORDER as nat))
            } else {
                Metadata(0)
            })
        &&& forall|j: int| 0 <= j < blocks ==> #[trigger] r.links@[j * 1024] == top_link(j, blocks)
        &&& forall|k: int| 0 <= k < MAXIMUM_ORDER ==> #[trigger] r.free_lists@[k] == none
        &&& r.free_lists@[MAXIMUM_ORDER as int] == (if blocks == 0 {
            none
        } else {
            top
        })
        &&& r.lists@ == Seq::new(
            (MAXIMUM_ORDER + 1) as nat,
            |k: int|
                if k == MAXIMUM_ORDER {
                    Seq::new(blocks as nat, |j: int| j * 1024)
                } else {
                    Seq::<int>::empty()
                },
        )
        &&& r.owner@ == Seq::new(
            r.subranges as nat,
            |x: int|
                if x < blocks * 1024 {
                    (x / 1024) * 1024
                } else {
                    -1
                },
        )
    }

    proof fn lemma_fresh_wf(r: &Self, blocks: int)
        requires
            Self::fresh(r, blocks),
        ensures
            r.wf(),
    {
        Self::lemma_fresh_lists(r, blocks);
        Self::lemma_fresh_meta(r, blocks);
        Self::lemma_fresh_tiling(r, blocks);
        Self::lemma_fresh_units(r, blocks);
    }

    #[verifier::rlimit(30)]
    proof fn lemma_fresh_lists(r: &Self, blocks: int)
        requires
            Self::fresh(r, blocks),
        ensures
            r.shape_ok(),
            r.lists_ok(),
    {
        assert forall|k: int, j: int|
            0 <= k <= MAXIMUM_ORDER && 0 <= j < r.lists@[k].len() implies {
            let b = #[trigger] r.lists@[k][j];
            &&& 0 <= b < r.subranges
            &&& r.links@[b] == LinkedNode {
                head: prev_of(r.lists@[k], j),
                tail: next_of(r.lists@[k], j),
            }
        } by {
            assert(k == MAXIMUM_ORDER);
            assert(r.lists@[k][j] == j * 1024);
            assert(r.links@[j * 1024] == top_link(j, blocks));
        }
    }

    #[verifier::rlimit(30)]
    proof fn lemma_fresh_meta(r: &Self, blocks: int)
        requires
            Self::fresh(r, blocks),
        ensures
            r.meta_ok(),
            r.coalesced(),
    {
        reveal_with_fuel(units, 11);
        assert forall|b: int|
            0 <= b < r.subranges && (#[trigger] r.metadata@[b]).listed() implies {
            let k = r.metadata@[b].order();
            &&& k <= MAXIMUM_ORDER
            &&& r.lists@[k as int].contains(b)
        } by {
            assert(r.lists@[MAXIMUM_ORDER as int][b / 1024] == b);
        }
    }

    #[verifier::rlimit(30)]
    proof fn lemma_fresh_tiling(r: &Self, blocks: int)
        requires
            Self::fresh(r, blocks),
        ensures
            r.tiling_ok(),
    {
        reveal_with_fuel(units, 11);
    }

    #[verifier::rlimit(30)]
    proof fn lemma_fresh_units(r: &Self, blocks: int)
        requires
            Self::fresh(r, blocks),
        ensures
            r.units_ok(),
    {
        reveal_with_fuel(units, 11);
        Self::lemma_alloc_units_zero(r.metadata@, r.subranges as nat);
        Self::lemma_free_units_empty(r.lists@, MAXIMUM_ORDER as nat);
        assert(r.lists@[MAXIMUM_ORDER as int].len() == blocks);
        assert(free_units(r.lists@, (MAXIMUM_ORDER + 1) as nat) == 1024 * blocks);
    }

    proof fn lemma_free_units_empty(lists: Seq<Seq<int>>, n: nat)
        requires
            n <= lists.len(),
            forall|k: int| 0 <= k < n ==> (#[trigger] lists[k]).len() == 0,
        ensures
            free_units(lists, n) == 0,
        decreases n,
    {
        if n > 0 {
            Self::lemma_free_units_empty(lists, (n - 1) as nat);
        }
    }

    proof fn lemma_alloc_units_zero(meta: Seq<Metadata>, n: nat)
        requires
            n <= meta.len(),
            forall|i: int| 0 <= i < n ==> !(#[trigger] meta[i]).allocated(),
        ensures
            alloc_units(meta, n) == 0,
        decreases n,
    {
        if n > 0 {
            Self::lemma_alloc_units_zero(meta, (n - 1) as nat);
        }
    }
}


impl BuddyAllocator {
    /// Puts `block` at the head of the free list of order `k`.
    #[verifier::rlimit(30)]
    fn add_to_free_list(&mut self, block: usize, k: usize)
        requires
            old(self).shape_ok(),
            old(self).lists_ok(),
            block < old(self).subranges,
            k <= MAXIMUM_ORDER,
            forall|k2: int, j: int|
                0 <= k2 <= MAXIMUM_ORDER && 0 <= j < old(self).lists@[k2].len() ==> #[trigger] old(
                    self,
                ).lists@[k2][j] != block,
        ensures
            final(self).shape_ok(),
            final(self).lists_ok(),
            final(self).lists@ == old(self).lists@.update(k as int, seq![block as int] + old(self).lists@[k as int]),
            final(self).metadata == old(self).metadata,
            final(self).owner == old(self).owner,
            final(self).region == old(self).region,
            final(self).subranges == old(self).subranges,
    {
        let ghost s = self.lists@[k as int];
        let mut list = self.free_lists[k];
        let head = list.head;
        list.head = block as u16;
        if head == SENTINEL {
            list.tail = block as u16;
        } else {
            let mut next = self.links[head as usize];
            next.head = block as u16;
            self.links.set(head as usize, next);
        }
        self.free_lists.set(k, list);
        self.links.set(block, LinkedNode { head: SENTINEL, tail: head });
        self.lists = Ghost(self.lists@.update(k as int, seq![block as int] + s));
        proof {
            let ns = seq![block as int] + s;
            assert(s.len() > 0 ==> head == s[0]);
            assert forall|k2: int, j: int|
                0 <= k2 <= MAXIMUM_ORDER && 0 <= j < self.lists@[k2].len() implies {
                let b = #[trigger] self.lists@[k2][j];
                &&& 0 <= b < self.subranges
                &&& self.links@[b] == LinkedNode {
                    head: prev_of(self.lists@[k2], j),
                    tail: next_of(self.lists@[k2], j),
                }
            } by {
                if k2 == k {
                    if j > 0 {
                        assert(ns[j] == s[j - 1]);
                        assert(old(self).lists@[k2][j - 1] == s[j - 1]);
                        if j > 1 {
                            assert(old(self).lists@[k as int][0] == s[0]);
                        }
                    }
                } else {
                    assert(old(self).lists@[k2][j] == self.lists@[k2][j]);
                    if s.len() > 0 {
                        assert(old(self).lists@[k as int][0] == s[0]);
                    }
                }
            }
            assert forall|k1: int, j1: int, k2: int, j2: int|
                0 <= k1 <= MAXIMUM_ORDER && 0 <= j1 < self.lists@[k1].len() && 0 <= k2
                    <= MAXIMUM_ORDER && 0 <= j2 < self.lists@[k2].len() && #[trigger] self.lists@[k1][j1]
                    == #[trigger] self.lists@[k2][j2] implies k1 == k2 && j1 == j2 by {
                if k1 == k && j1 > 0 {
                    assert(self.lists@[k1][j1] == old(self).lists@[k1][j1 - 1]);
                }
                if k2 == k && j2 > 0 {
                    assert(self.lists@[k2][j2] == old(self).lists@[k2][j2 - 1]);
                }
                if k1 != k {
                    assert(self.lists@[k1][j1] == old(self).lists@[k1][j1]);
                }
                if k2 != k {
                    assert(self.lists@[k2][j2] == old(self).lists@[k2][j2]);
                }
            }
        }
    }

    /// Takes `block`, found at position `j` of the free list of order `k`, off
    /// that list.
    #[verifier::rlimit(30)]
    fn remove_from_free_list(&mut self, block: usize, k: usize, Ghost(j): Ghost<int>)
        requires
            old(self).shape_ok(),
            old(self).lists_ok(),
            k <= MAXIMUM_ORDER,
            0 <= j < old(self).lists@[k as int].len(),
            old(self).lists@[k as int][j] == block,
        ensures
            final(self).shape_ok(),
            final(self).lists_ok(),
            final(self).lists@ == old(self).lists@.update(k as int, old(self).lists@[k as int].remove(j)),
            final(self).links@[block as int] == (LinkedNode { head: SENTINEL, tail: SENTINEL }),
            final(self).metadata == old(self).metadata,
            final(self).owner == old(self).owner,
            final(self).region == old(self).region,
            final(self).subranges == old(self).subranges,
    {
        let ghost s = self.lists@[k as int];
        let ghost ns = s.remove(j);
        let link = self.links[block];
        let mut list = self.free_lists[k];
        if link.head == SENTINEL {
            list.head = link.tail;
        } else {
            let mut prev = self.links[link.head as usize];
            prev.tail = link.tail;
            self.links.set(link.head as usize, prev);
        }
        if link.tail == SENTINEL {
            list.tail = link.head;
        } else {
            let mut next = self.links[link.tail as usize];
            next.head = link.head;
            self.links.set(link.tail as usize, next);
        }
        self.free_lists.set(k, list);
        self.links.set(block, LinkedNode { head: SENTINEL, tail: SENTINEL });
        self.lists = Ghost(self.lists@.update(k as int, ns));
        proof {
            lemma_unlink(
                old(self).lists@,
                old(self).free_lists@,
                old(self).links@,
                self.free_lists@,
                self.links@,
                self.subranges as int,
                k as int,
                j,
            );
        }
    }
}


/// Minimum blocks that one metadata byte accounts for as allocated.
pub open spec fn alloc_value(m: Metadata) -> int {
    if m.allocated() {
        units(m.order()) as int
    } else {
        0
    }
}

proof fn lemma_free_units_update(lists: Seq<Seq<int>>, k: int, t: Seq<int>, n: nat)
    requires
        0 <= k < lists.len(),
        n <= lists.len(),
    ensures
        free_units(lists.update(k, t), n) == free_units(lists, n) + (if k < n {
            units(k as nat) * (t.len() - lists[k].len())
        } else {
            0
        }),
        k < n && t.len() == lists[k].len() + 1 ==> free_units(lists.update(k, t), n) == free_units(
            lists,
            n,
        ) + units(k as nat),
        k < n && t.len() + 1 == lists[k].len() ==> free_units(lists.update(k, t), n) == free_units(
            lists,
            n,
        ) - units(k as nat),
    decreases n,
{
    let u = units(k as nat) as int;
    assert(u * 1 == u && u * (-1) == -u) by (nonlinear_arith);
    if n > 0 {
        lemma_free_units_update(lists, k, t, (n - 1) as nat);
        let u = units(k as nat) as int;
        if k == n - 1 {
            assert(u * t.len() == u * lists[k].len() + u * (t.len() - lists[k].len())) by (nonlinear_arith);
        }
    }
}

proof fn lemma_alloc_units_update(meta: Seq<Metadata>, i: int, m: Metadata, n: nat)
    requires
        0 <= i < meta.len(),
        n <= meta.len(),
    ensures
        alloc_units(meta.update(i, m), n) == alloc_units(meta, n) + (if i < n {
            alloc_value(m) - alloc_value(meta[i])
        } else {
            0
        }),
    decreases n,
{
    if n > 0 {
        lemma_alloc_units_update(meta, i, m, (n - 1) as nat);
    }
}

impl BuddyAllocator {
    /// The buddy of a live block below the maximum order lies inside the
    /// enrolled subranges; see `lemma_buddy`.
    proof fn lemma_live_buddy(&self, x: int)
        requires
            self.shape_ok(),
            self.meta_ok(),
            0 <= x < self.subranges,
            live(self.metadata@[x]),
            self.metadata@[x].order() < MAXIMUM_ORDER,
        ensures
            ({
                let k = self.metadata@[x].order();
                let u = units(k) as int;
                let c = buddy(x, k);
                let lo = if x < c {
                    x
                } else {
                    c
                };
                &&& 0 <= c < self.subranges
                &&& c != x
                &&& c % u == 0
                &&& c + u <= self.enrolled()
                &&& buddy(c, k) == x
                &&& lo % (units(k + 1) as int) == 0
                &&& lo + units(k + 1) <= self.enrolled()
                &&& (lo == x || lo == c)
                &&& (if x < c {
                    c == x + u
                } else {
                    x == c + u
                })
            }),
    {
        let k = self.metadata@[x].order();
        assert(self.enrolled() % 1024 == 0);
        assert(self.enrolled() <= self.subranges);
        lemma_buddy(x, k, self.enrolled() as int);
        lemma_units_positive(k);
    }

    /// Takes the first block off the free list of order `k` and marks it
    /// allocated at that order.
    #[verifier::rlimit(30)]
    fn take_block(&mut self, k: usize) -> (b: usize)
        requires
            old(self).wf(),
            k <= MAXIMUM_ORDER,
            old(self).lists@[k as int].len() > 0,
        ensures
            final(self).wf(),
            b == old(self).lists@[k as int][0],
            final(self).lists@ == old(self).lists@.update(k as int, old(self).lists@[k as int].remove(0)),
            final(self).metadata@ == old(self).metadata@.update(
                b as int,
                Metadata(Metadata::encode(true, false, k as nat)),
            ),
            final(self).region == old(self).region,
            final(self).subranges == old(self).subranges,
    {
        let b = self.free_lists[k].head as usize;
        proof {
            assert(self.lists@[k as int][0] == b);
        }
        self.remove_from_free_list(b, k, Ghost(0));
        let m = Metadata::new(true, false, k as u8);
        self.metadata.set(b, m);
        proof {
            let o = old(self);
            lemma_free_units_update(o.lists@, k as int, o.lists@[k as int].remove(0), (MAXIMUM_ORDER + 1) as nat);
            lemma_alloc_units_update(o.metadata@, b as int, m, o.subranges as nat);
            assert(o.metadata@[b as int].listed() && o.metadata@[b as int].order() == k);
            assert(self.units_ok());
            assert forall|k2: int, j: int|
                0 <= k2 <= MAXIMUM_ORDER && 0 <= j < self.lists@[k2].len() implies {
                let x = #[trigger] self.lists@[k2][j];
                let mx = self.metadata@[x];
                &&& mx.listed() && !mx.allocated() && mx.order() == k2
            } by {
                let oj = if k2 == k { j + 1 } else { j };
                assert(self.lists@[k2][j] == o.lists@[k2][oj]);
                assert(o.lists@[k as int][0] == b);
            }
            assert forall|x: int|
                0 <= x < self.subranges && (#[trigger] self.metadata@[x]).listed() implies {
                let k2 = self.metadata@[x].order();
                &&& k2 <= MAXIMUM_ORDER
                &&& self.lists@[k2 as int].contains(x)
            } by {
                let k2 = o.metadata@[x].order();
                assert(x != b);
                assert(o.lists@[k2 as int].contains(x));
                let j = choose|j: int| 0 <= j < o.lists@[k2 as int].len() && o.lists@[k2 as int][j] == x;
                if k2 == k {
                    assert(o.lists@[k as int][0] == b);
                    assert(j > 0);
                    assert(self.lists@[k2 as int][j - 1] == x);
                } else {
                    assert(self.lists@[k2 as int][j] == x);
                }
            }
            assert(self.meta_ok());
            assert(self.tiling_ok());
            assert forall|x: int|
                0 <= x < self.subranges && (#[trigger] self.metadata@[x]).listed()
                    && self.metadata@[x].order() < MAXIMUM_ORDER implies {
                let kx = self.metadata@[x].order();
                let c = buddy(x, kx);
                !(self.metadata@[c].listed() && self.metadata@[c].order() == kx)
            } by {
                assert(x != b);
                assert(o.metadata@[x] == self.metadata@[x]);
                let c = buddy(x, self.metadata@[x].order());
                o.lemma_live_buddy(x);
                if c != b {
                    assert(self.metadata@[c] == o.metadata@[c]);
                }
            }
        }
        b
    }
}


impl BuddyAllocator {
    /// Splits the allocated block `b` of order `k`: `b` keeps the lower half,
    /// at order `k - 1`, and the upper half goes at the head of the free list
    /// of order `k - 1`.
    #[verifier::rlimit(30)]
    fn split_block(&mut self, b: usize, k: usize)
        requires
            old(self).wf(),
            0 < k <= MAXIMUM_ORDER,
            b < old(self).subranges,
            old(self).metadata@[b as int].allocated(),
            old(self).metadata@[b as int].order() == k,
        ensures
            final(self).wf(),
            ({
                let c = b + units((k - 1) as nat);
                &&& final(self).lists@ == old(self).lists@.update(
                    k - 1,
                    seq![c] + old(self).lists@[k - 1],
                )
                &&& final(self).metadata@ == old(self).metadata@.update(
                    b as int,
                    Metadata(Metadata::encode(true, false, (k - 1) as nat)),
                ).update(c, Metadata(Metadata::encode(false, true, (k - 1) as nat)))
            }),
            final(self).region == old(self).region,
            final(self).subranges == old(self).subranges,
    {
        let ghost o = *self;
        let half = units_of(k - 1);
        let c = b + half;
        proof {
            lemma_units_positive((k - 1) as nat);
            assert(o.owner@[c as int] == b);
            if live(o.metadata@[c as int]) {
                lemma_units_positive(o.metadata@[c as int].order());
                assert(o.owner@[c as int] == c);
            }
            assert forall|k2: int, j: int|
                0 <= k2 <= MAXIMUM_ORDER && 0 <= j < o.lists@[k2].len() implies #[trigger] o.lists@[k2][j]
                != c by {
                assert(o.metadata@[o.lists@[k2][j]].listed());
            }
        }
        let mb = Metadata::new(true, false, (k - 1) as u8);
        let mc = Metadata::new(false, true, (k - 1) as u8);
        self.metadata.set(b, mb);
        self.metadata.set(c, mc);
        self.add_to_free_list(c, k - 1);
        self.owner = Ghost(
            Seq::new(
                o.subranges as nat,
                |i: int|
                    if c <= i < c + half {
                        c as int
                    } else {
                        o.owner@[i]
                    },
            ),
        );
        proof {
            Self::lemma_split_wf(o, *self, b as int, k as nat);
        }
    }

    spec fn split_post(o: Self, s: Self, b: int, k: nat) -> bool {
        &&& o.wf()
        &&& 0 < k <= MAXIMUM_ORDER
        &&& 0 <= b < o.subranges
        &&& o.metadata@[b].allocated()
        &&& o.metadata@[b].order() == k
        &&& s.shape_ok()
        &&& s.lists_ok()
        &&& s.subranges == o.subranges
        &&& s.region == o.region
        &&& ({
            let h = units((k - 1) as nat) as int;
            let c = b + h;
            &&& s.lists@ == o.lists@.update(k - 1, seq![c] + o.lists@[k - 1])
            &&& s.metadata@ == o.metadata@.update(
                b,
                Metadata(Metadata::encode(true, false, (k - 1) as nat)),
            ).update(c, Metadata(Metadata::encode(false, true, (k - 1) as nat)))
            &&& s.owner@ == Seq::new(
                o.subranges as nat,
                |i: int|
                    if c <= i < c + h {
                        c
                    } else {
                        o.owner@[i]
                    },
            )
        })
    }

    proof fn lemma_split_wf(o: Self, s: Self, b: int, k: nat)
        requires
            Self::split_post(o, s, b, k),
        ensures
            s.wf(),
    {
        Self::lemma_split_units(o, s, b, k);
        Self::lemma_split_meta(o, s, b, k);
        Self::lemma_split_tiling(o, s, b, k);
        Self::lemma_split_coalesced(o, s, b, k);
    }

    #[verifier::rlimit(30)]
    proof fn lemma_split_facts(o: Self, s: Self, b: int, k: nat)
        requires
            Self::split_post(o, s, b, k),
        ensures
            ({
                let h = units((k - 1) as nat) as int;
                let c = b + h;
                &&& h >= 1
                &&& units(k) == 2 * h
                &&& b % h == 0
                &&& c % h == 0
                &&& o.owner@[c] == b
                &&& !live(o.metadata@[c])
                &&& c < o.subranges
                &&& buddy(c, (k - 1) as nat) == b
                &&& b + units(k) <= o.enrolled()
            }),
    {
        let h = units((k - 1) as nat) as int;
        let c = b + h;
        let kk = (k - 1) as nat;
        lemma_units_positive(kk);
        assert(units(k) == 2 * h);
        lemma_aligned_down(b, kk, k);
        assert(c % h == 0) by {
            lemma_multiple(b, h);
            let q = b / h;
            assert(c == h * (q + 1)) by (nonlinear_arith)
                requires
                    b == h * q,
                    c == b + h,
            ;
            vstd::arithmetic::div_mod::lemma_mod_multiples_basic(q + 1, h);
            assert(h * (q + 1) == (q + 1) * h) by (nonlinear_arith);
        }
        assert(o.owner@[c] == b);
        if live(o.metadata@[c]) {
            lemma_units_positive(o.metadata@[c].order());
            assert(o.owner@[c] == c);
        }
        assert(c < o.subranges);
        // The buddy of `c` at order `k - 1` is `b`.
        assert(buddy(c, kk) == b) by {
            lemma_buddy(c, kk, o.enrolled() as int);
            assert(o.enrolled() % 1024 == 0);
            let bb = buddy(c, kk);
            if bb != b {
                assert(bb == c + h);
                lemma_buddy(b, kk, o.enrolled() as int);
                assert(buddy(b, kk) == c || buddy(b, kk) == b - h);
                lemma_multiple(b, units(k) as int);
                lemma_multiple(b, h);
                let q = b / h;
                let q2 = b / (units(k) as int);
                assert(q == 2 * q2) by (nonlinear_arith)
                    requires
                        b == h * q,
                        b == (2 * h) * q2,
                        h > 0,
                ;
                lemma_multiple(c, h);
                vstd::arithmetic::div_mod::lemma_div_multiples_vanish(q + 1, h);
                assert(c == h * (q + 1)) by (nonlinear_arith)
                    requires
                        b == h * q,
                        c == b + h,
                ;
                assert(c / h == q + 1);
            }
        }
    }

    #[verifier::rlimit(30)]
    proof fn lemma_split_units(o: Self, s: Self, b: int, k: nat)
        requires
            Self::split_post(o, s, b, k),
        ensures
            s.units_ok(),
    {
        Self::lemma_split_facts(o, s, b, k);
        let h = units((k - 1) as nat) as int;
        let c = b + h;
        let kk = (k - 1) as nat;
        assert(s.units_ok()) by {
            lemma_free_units_update(o.lists@, k - 1, seq![c] + o.lists@[k - 1], (MAXIMUM_ORDER + 1) as nat);
            let m1 = o.metadata@.update(b, Metadata(Metadata::encode(true, false, kk)));
            lemma_alloc_units_update(o.metadata@, b, Metadata(Metadata::encode(true, false, kk)), o.subranges as nat);
            lemma_alloc_units_update(m1, c, Metadata(Metadata::encode(false, true, kk)), o.subranges as nat);
        }
    }

    #[verifier::rlimit(30)]
    proof fn lemma_split_meta(o: Self, s: Self, b: int, k: nat)
        requires
            Self::split_post(o, s, b, k),
        ensures
            s.meta_ok(),
    {
        Self::lemma_split_facts(o, s, b, k);
        let h = units((k - 1) as nat) as int;
        let c = b + h;
        let kk = (k - 1) as nat;
        assert forall|k2: int, j: int|
            0 <= k2 <= MAXIMUM_ORDER && 0 <= j < s.lists@[k2].len() implies {
            let x = #[trigger] s.lists@[k2][j];
            let mx = s.metadata@[x];
            &&& mx.listed() && !mx.allocated() && mx.order() == k2
        } by {
            if k2 == k - 1 && j == 0 {
            } else {
                let oj = if k2 == k - 1 { j - 1 } else { j };
                assert(s.lists@[k2][j] == o.lists@[k2][oj]);
                assert(o.metadata@[o.lists@[k2][oj]].listed());
            }
        }
        assert forall|x: int|
            0 <= x < s.subranges && (#[trigger] s.metadata@[x]).listed() implies {
            let k2 = s.metadata@[x].order();
            &&& k2 <= MAXIMUM_ORDER
            &&& s.lists@[k2 as int].contains(x)
        } by {
            if x == c {
                assert(s.lists@[k - 1][0] == c);
            } else {
                assert(x != b);
                let k2 = o.metadata@[x].order();
                assert(o.lists@[k2 as int].contains(x));
                let j = choose|j: int| 0 <= j < o.lists@[k2 as int].len() && o.lists@[k2 as int][j] == x;
                if k2 == k - 1 {
                    assert(s.lists@[k2 as int][j + 1] == x);
                } else {
                    assert(s.lists@[k2 as int][j] == x);
                }
            }
        }
        assert forall|x: int| 0 <= x < s.subranges && live(#[trigger] s.metadata@[x]) implies {
            let k2 = s.metadata@[x].order();
            &&& k2 <= MAXIMUM_ORDER
            &&& !(s.metadata@[x].allocated() && s.metadata@[x].listed())
            &&& x % (units(k2) as int) == 0
            &&& x + units(k2) <= s.enrolled()
        } by {
            if x != b && x != c {
                assert(s.metadata@[x] == o.metadata@[x]);
            }
        }
        assert(s.meta_ok());
    }

    #[verifier::rlimit(30)]
    proof fn lemma_split_tiling(o: Self, s: Self, b: int, k: nat)
        requires
            Self::split_post(o, s, b, k),
        ensures
            s.tiling_ok(),
    {
        Self::lemma_split_facts(o, s, b, k);
        let h = units((k - 1) as nat) as int;
        let c = b + h;
        let kk = (k - 1) as nat;
        assert forall|x: int, i: int|
            0 <= x < s.subranges && live(#[trigger] s.metadata@[x]) && x <= i < x + units(
                s.metadata@[x].order(),
            ) implies #[trigger] s.owner@[i] == x by {
            if x != b && x != c {
                assert(s.metadata@[x] == o.metadata@[x]);
                assert(o.owner@[i] == x);
                if c <= i < c + h {
                    assert(o.owner@[i] == b);
                }
            } else if x == b {
                assert(o.owner@[i] == b);
            }
        }
        assert forall|i: int| 0 <= i < s.subranges && #[trigger] s.owner@[i] != -1 implies {
            let cc = s.owner@[i];
            &&& 0 <= cc <= i
            &&& i < cc + units(s.metadata@[cc].order())
            &&& live(s.metadata@[cc])
        } by {
            if !(c <= i < c + h) {
                let oc = o.owner@[i];
                assert(s.owner@[i] == oc);
                if oc == b {
                } else {
                    assert(oc != c);
                    assert(s.metadata@[oc] == o.metadata@[oc]);
                }
            }
        }
        assert forall|i: int| 0 <= i < s.enrolled() implies #[trigger] s.owner@[i] != -1 by {
            assert(o.owner@[i] != -1);
        }
        assert(s.tiling_ok());
    }

    #[verifier::rlimit(30)]
    proof fn lemma_split_coalesced(o: Self, s: Self, b: int, k: nat)
        requires
            Self::split_post(o, s, b, k),
        ensures
            s.coalesced(),
    {
        Self::lemma_split_facts(o, s, b, k);
        let h = units((k - 1) as nat) as int;
        let c = b + h;
        let kk = (k - 1) as nat;
        assert forall|x: int|
            0 <= x < s.subranges && (#[trigger] s.metadata@[x]).listed() && s.metadata@[x].order()
                < MAXIMUM_ORDER implies {
            let kx = s.metadata@[x].order();
            let y = buddy(x, kx);
            !(s.metadata@[y].listed() && s.metadata@[y].order() == kx)
        } by {
            let kx = s.metadata@[x].order();
            let y = buddy(x, kx);
            if x == c {
                assert(y == b);
            } else {
                assert(x != b);
                assert(s.metadata@[x] == o.metadata@[x]);
                o.lemma_live_buddy(x);
                if y == c && kx == kk {
                    assert(buddy(c, kk) == x);
                } else if y != b && y != c {
                    assert(s.metadata@[y] == o.metadata@[y]);
                }
            }
        }
        assert(s.coalesced());    }
}


impl BuddyAllocator {
    /// Merges the allocated block `b` of order `k` with its free buddy of the
    /// same order: the buddy leaves its free list and the lower of the two
    /// becomes an allocated block of order `k + 1`, which is returned.
    #[verifier::rlimit(30)]
    fn merge_block(&mut self, b: usize, k: usize) -> (lo: usize)
        requires
            old(self).wf(),
            k < MAXIMUM_ORDER,
            b < old(self).subranges,
            old(self).metadata@[b as int].allocated(),
            old(self).metadata@[b as int].order() == k,
            old(self).metadata@[buddy(b as int, k as nat)].listed(),
            old(self).metadata@[buddy(b as int, k as nat)].order() == k,
        ensures
            final(self).wf(),
            Self::merge_post(*old(self), *final(self), b as int, k as nat),
            lo as int == (if b < buddy(b as int, k as nat) {
                b as int
            } else {
                buddy(b as int, k as nat)
            }),
    {
        let ghost o = *self;
        let half = units_of(k);
        proof {
            o.lemma_live_buddy(b as int);
            lemma_units_positive(k as nat);
        }
        let c = if (b / half) % 2 == 0 {
            b + half
        } else {
            b - half
        };
        assert(c == buddy(b as int, k as nat));
        let ghost j = o.lists@[k as int].index_of(c as int);
        proof {
            assert(o.lists@[k as int].contains(c as int));
        }
        self.remove_from_free_list(c, k, Ghost(j));
        let mc = self.metadata[c].with_is_free_list(false);
        self.metadata.set(c, mc);
        let lo = if c < b {
            let mb = self.metadata[b].with_is_allocated(false);
            self.metadata.set(b, mb);
            c
        } else {
            b
        };
        self.metadata.set(lo, Metadata::new(true, false, (k + 1) as u8));
        let ghost w = units((k + 1) as nat) as int;
        self.owner = Ghost(
            Seq::new(
                o.subranges as nat,
                |i: int|
                    if lo <= i < lo + w {
                        lo as int
                    } else {
                        o.owner@[i]
                    },
            ),
        );
        proof {
            Self::lemma_merge_wf(o, *self, b as int, k as nat);
        }
        lo
    }

    spec fn merge_post(o: Self, s: Self, b: int, k: nat) -> bool {
        let c = buddy(b, k);
        let lo = if b < c {
            b
        } else {
            c
        };
        let hi = if b < c {
            c
        } else {
            b
        };
        &&& s.lists@ == o.lists@.update(k as int, o.lists@[k as int].remove(o.lists@[k as int].index_of(c)))
        &&& s.metadata@.len() == o.metadata@.len()
        &&& s.metadata@[lo] == Metadata(Metadata::encode(true, false, k + 1))
        &&& !live(s.metadata@[hi])
        &&& s.metadata@[hi].order() == k
        &&& forall|i: int|
            0 <= i < s.metadata@.len() && i != lo && i != hi ==> #[trigger] s.metadata@[i]
                == o.metadata@[i]
        &&& s.region == o.region
        &&& s.subranges == o.subranges
    }

    spec fn merge_state(o: Self, s: Self, b: int, k: nat) -> bool {
        let c = buddy(b, k);
        let lo = if b < c {
            b
        } else {
            c
        };
        &&& o.wf()
        &&& k < MAXIMUM_ORDER
        &&& 0 <= b < o.subranges
        &&& o.metadata@[b].allocated()
        &&& o.metadata@[b].order() == k
        &&& o.metadata@[c].listed()
        &&& o.metadata@[c].order() == k
        &&& s.shape_ok()
        &&& s.lists_ok()
        &&& Self::merge_post(o, s, b, k)
        &&& s.owner@ == Seq::new(
            o.subranges as nat,
            |i: int|
                if lo <= i < lo + units(k + 1) {
                    lo
                } else {
                    o.owner@[i]
                },
        )
    }

    proof fn lemma_merge_wf(o: Self, s: Self, b: int, k: nat)
        requires
            o.wf(),
            k < MAXIMUM_ORDER,
            0 <= b < o.subranges,
            o.metadata@[b].allocated(),
            o.metadata@[b].order() == k,
            o.metadata@[buddy(b, k)].listed(),
            o.metadata@[buddy(b, k)].order() == k,
            s.shape_ok(),
            s.lists_ok(),
            s.owner@ == Seq::new(
                o.subranges as nat,
                |i: int|
                    if (if b < buddy(b, k) {
                        b
                    } else {
                        buddy(b, k)
                    }) <= i < (if b < buddy(b, k) {
                        b
                    } else {
                        buddy(b, k)
                    }) + units(k + 1) {
                        if b < buddy(b, k) {
                            b
                        } else {
                            buddy(b, k)
                        }
                    } else {
                        o.owner@[i]
                    },
            ),
            Self::merge_post(o, s, b, k),
        ensures
            s.wf(),
    {
        assert(Self::merge_state(o, s, b, k));
        Self::lemma_merge_units(o, s, b, k);
        Self::lemma_merge_meta(o, s, b, k);
        Self::lemma_merge_tiling(o, s, b, k);
        Self::lemma_merge_coalesced(o, s, b, k);
    }

    #[verifier::rlimit(30)]
    proof fn lemma_merge_units(o: Self, s: Self, b: int, k: nat)
        requires
            Self::merge_state(o, s, b, k),
        ensures
            s.units_ok(),
    {
        let c = buddy(b, k);
        o.lemma_live_buddy(b);
        let j = o.lists@[k as int].index_of(c);
        assert(o.lists@[k as int].contains(c));
        lemma_free_units_update(o.lists@, k as int, o.lists@[k as int].remove(j), (MAXIMUM_ORDER + 1) as nat);
        let lo = if b < c { b } else { c };
        let hi = if b < c { c } else { b };
        let m1 = o.metadata@.update(hi, s.metadata@[hi]);
        let m2 = m1.update(lo, s.metadata@[lo]);
        lemma_alloc_units_update(o.metadata@, hi, s.metadata@[hi], o.subranges as nat);
        lemma_alloc_units_update(m1, lo, s.metadata@[lo], o.subranges as nat);
        assert(m2 =~= s.metadata@);
        assert(units(k + 1) == 2 * units(k));
        assert(alloc_value(o.metadata@[c]) == 0);
        assert(alloc_value(o.metadata@[b]) == units(k));
        assert(alloc_value(s.metadata@[hi]) == 0);
        assert(alloc_value(s.metadata@[lo]) == units(k + 1));
        assert(free_units(s.lists@, (MAXIMUM_ORDER + 1) as nat) == free_units(o.lists@, (MAXIMUM_ORDER + 1) as nat) - units(k));
    }

    proof fn lemma_merge_meta(o: Self, s: Self, b: int, k: nat)
        requires
            Self::merge_state(o, s, b, k),
        ensures
            s.meta_ok(),
    {
        Self::lemma_merge_meta_lists(o, s, b, k);
        Self::lemma_merge_meta_listed(o, s, b, k);
        Self::lemma_merge_meta_live(o, s, b, k);
    }

    #[verifier::rlimit(30)]
    proof fn lemma_merge_meta_lists(o: Self, s: Self, b: int, k: nat)
        requires
            Self::merge_state(o, s, b, k),
        ensures
            forall|k2: int, j: int|
                0 <= k2 <= MAXIMUM_ORDER && 0 <= j < s.lists@[k2].len() ==> {
                    let x = #[trigger] s.lists@[k2][j];
                    let m = s.metadata@[x];
                    &&& m.listed() && !m.allocated() && m.order() == k2
                },
    {
        let c = buddy(b, k);
        o.lemma_live_buddy(b);
        let lo = if b < c { b } else { c };
        let hi = if b < c { c } else { b };
        let j = o.lists@[k as int].index_of(c);
        assert(o.lists@[k as int].contains(c));
        assert forall|k2: int, i: int|
            0 <= k2 <= MAXIMUM_ORDER && 0 <= i < s.lists@[k2].len() implies {
            let x = #[trigger] s.lists@[k2][i];
            let mx = s.metadata@[x];
            &&& mx.listed() && !mx.allocated() && mx.order() == k2
        } by {
            let oi = if k2 == k && i >= j { i + 1 } else { i };
            assert(s.lists@[k2][i] == o.lists@[k2][oi]);
            let x = o.lists@[k2][oi];
            assert(o.metadata@[x].listed());
            assert(x != b);
            assert(x != c);
            assert(s.metadata@[x] == o.metadata@[x]);
        }
    }

    #[verifier::rlimit(30)]
    proof fn lemma_merge_meta_listed(o: Self, s: Self, b: int, k: nat)
        requires
            Self::merge_state(o, s, b, k),
        ensures
            forall|x: int|
                0 <= x < s.subranges && (#[trigger] s.metadata@[x]).listed() ==> {
                    let k2 = s.metadata@[x].order();
                    &&& k2 <= MAXIMUM_ORDER
                    &&& s.lists@[k2 as int].contains(x)
                },
    {
        let c = buddy(b, k);
        o.lemma_live_buddy(b);
        let lo = if b < c { b } else { c };
        let hi = if b < c { c } else { b };
        let j = o.lists@[k as int].index_of(c);
        assert(o.lists@[k as int].contains(c));
        assert forall|x: int|
            0 <= x < s.subranges && (#[trigger] s.metadata@[x]).listed() implies {
            let k2 = s.metadata@[x].order();
            &&& k2 <= MAXIMUM_ORDER
            &&& s.lists@[k2 as int].contains(x)
        } by {
            assert(x != lo && x != hi);
            assert(s.metadata@[x] == o.metadata@[x]);
            let k2 = o.metadata@[x].order();
            assert(o.lists@[k2 as int].contains(x));
            let i = choose|i: int| 0 <= i < o.lists@[k2 as int].len() && o.lists@[k2 as int][i] == x;
            if k2 == k {
                assert(i != j);
                if i < j {
                    assert(s.lists@[k2 as int][i] == x);
                } else {
                    assert(s.lists@[k2 as int][i - 1] == x);
                }
            } else {
                assert(s.lists@[k2 as int][i] == x);
            }
        }
    }

    #[verifier::rlimit(30)]
    proof fn lemma_merge_meta_live(o: Self, s: Self, b: int, k: nat)
        requires
            Self::merge_state(o, s, b, k),
        ensures
            forall|x: int|
                0 <= x < s.subranges && live(#[trigger] s.metadata@[x]) ==> {
                    let k2 = s.metadata@[x].order();
                    &&& k2 <= MAXIMUM_ORDER
                    &&& !(s.metadata@[x].allocated() && s.metadata@[x].listed())
                    &&& x % (units(k2) as int) == 0
                    &&& x + units(k2) <= s.enrolled()
                },
    {
        let c = buddy(b, k);
        o.lemma_live_buddy(b);
        let lo = if b < c { b } else { c };
        let hi = if b < c { c } else { b };
        let j = o.lists@[k as int].index_of(c);
        assert(o.lists@[k as int].contains(c));
        assert forall|x: int| 0 <= x < s.subranges && live(#[trigger] s.metadata@[x]) implies {
            let k2 = s.metadata@[x].order();
            &&& k2 <= MAXIMUM_ORDER
            &&& !(s.metadata@[x].allocated() && s.metadata@[x].listed())
            &&& x % (units(k2) as int) == 0
            &&& x + units(k2) <= s.enrolled()
        } by {
            if x != lo && x != hi {
                assert(s.metadata@[x] == o.metadata@[x]);
            }
        }
    }

    #[verifier::rlimit(30)]
    proof fn lemma_merge_tiling(o: Self, s: Self, b: int, k: nat)
        requires
            Self::merge_state(o, s, b, k),
        ensures
            s.tiling_ok(),
    {
        let c = buddy(b, k);
        o.lemma_live_buddy(b);
        let lo = if b < c { b } else { c };
        let hi = if b < c { c } else { b };
        let u = units(k) as int;
        lemma_units_positive(k);
        assert(units(k + 1) == 2 * u);
        assert(hi == lo + u);
        assert forall|x: int, i: int|
            0 <= x < s.subranges && live(#[trigger] s.metadata@[x]) && x <= i < x + units(
                s.metadata@[x].order(),
            ) implies #[trigger] s.owner@[i] == x by {
            if x != lo {
                assert(x != hi);
                assert(s.metadata@[x] == o.metadata@[x]);
                assert(o.owner@[i] == x);
                if lo <= i < lo + 2 * u {
                    if i < hi {
                        assert(o.owner@[i] == lo);
                    } else {
                        assert(o.owner@[i] == hi);
                    }
                }
            }
        }
        assert forall|i: int| 0 <= i < s.subranges && #[trigger] s.owner@[i] != -1 implies {
            let cc = s.owner@[i];
            &&& 0 <= cc <= i
            &&& i < cc + units(s.metadata@[cc].order())
            &&& live(s.metadata@[cc])
        } by {
            if !(lo <= i < lo + 2 * u) {
                let oc = o.owner@[i];
                assert(s.owner@[i] == oc);
                if oc == lo || oc == hi {
                    assert(oc <= i < oc + u);
                    assert(false);
                }
                assert(s.metadata@[oc] == o.metadata@[oc]);
            }
        }
        assert forall|i: int| 0 <= i < s.enrolled() implies #[trigger] s.owner@[i] != -1 by {
            assert(o.owner@[i] != -1);
        }
    }

    #[verifier::rlimit(30)]
    proof fn lemma_merge_coalesced(o: Self, s: Self, b: int, k: nat)
        requires
            Self::merge_state(o, s, b, k),
        ensures
            s.coalesced(),
    {
        let c = buddy(b, k);
        o.lemma_live_buddy(b);
        let lo = if b < c { b } else { c };
        let hi = if b < c { c } else { b };
        assert forall|x: int|
            0 <= x < s.subranges && (#[trigger] s.metadata@[x]).listed() && s.metadata@[x].order()
                < MAXIMUM_ORDER implies {
            let kx = s.metadata@[x].order();
            let y = buddy(x, kx);
            !(s.metadata@[y].listed() && s.metadata@[y].order() == kx)
        } by {
            assert(x != lo && x != hi);
            assert(s.metadata@[x] == o.metadata@[x]);
            let kx = s.metadata@[x].order();
            let y = buddy(x, kx);
            o.lemma_live_buddy(x);
            if y != lo && y != hi {
                assert(s.metadata@[y] == o.metadata@[y]);
            }
        }
    }

    /// Puts the allocated block `b` on the free list of its order.
    #[verifier::rlimit(30)]
    fn release_block(&mut self, b: usize)
        requires
            old(self).wf(),
            b < old(self).subranges,
            old(self).metadata@[b as int].allocated(),
            ({
                let m = old(self).metadata@[b as int].order();
                let c = buddy(b as int, m);
                m == MAXIMUM_ORDER || !(old(self).metadata@[c].listed() && old(self).metadata@[c].order() == m)
            }),
        ensures
            final(self).wf(),
            ({
                let m = old(self).metadata@[b as int].order();
                &&& final(self).lists@ == old(self).lists@.update(m as int, seq![b as int] + old(self).lists@[m as int])
                &&& final(self).metadata@ == old(self).metadata@.update(
                    b as int,
                    Metadata(Metadata::encode(false, true, m)),
                )
            }),
            final(self).region == old(self).region,
            final(self).subranges == old(self).subranges,
    {
        let ghost o = *self;
        let m = self.metadata[b].pool();
        proof {
            assert forall|k2: int, j: int|
                0 <= k2 <= MAXIMUM_ORDER && 0 <= j < o.lists@[k2].len() implies #[trigger] o.lists@[k2][j]
                != b by {
                assert(o.metadata@[o.lists@[k2][j]].listed());
            }
        }
        let mb = Metadata::new(false, true, m);
        self.metadata.set(b, mb);
        self.add_to_free_list(b, m as usize);
        proof {
            let s = *self;
            let mm = m as nat;
            lemma_free_units_update(o.lists@, mm as int, seq![b as int] + o.lists@[mm as int], (MAXIMUM_ORDER + 1) as nat);
            lemma_alloc_units_update(o.metadata@, b as int, mb, o.subranges as nat);
            assert(alloc_value(mb) == 0);
            assert(alloc_value(o.metadata@[b as int]) == units(mm));
            assert(s.lists@[mm as int].len() == o.lists@[mm as int].len() + 1);
            assert(s.units_ok());
            assert forall|k2: int, j: int|
                0 <= k2 <= MAXIMUM_ORDER && 0 <= j < s.lists@[k2].len() implies {
                let x = #[trigger] s.lists@[k2][j];
                let mx = s.metadata@[x];
                &&& mx.listed() && !mx.allocated() && mx.order() == k2
            } by {
                if !(k2 == mm && j == 0) {
                    let oj = if k2 == mm { j - 1 } else { j };
                    assert(s.lists@[k2][j] == o.lists@[k2][oj]);
                    assert(o.metadata@[o.lists@[k2][oj]].listed());
                }
            }
            assert forall|x: int|
                0 <= x < s.subranges && (#[trigger] s.metadata@[x]).listed() implies {
                let k2 = s.metadata@[x].order();
                &&& k2 <= MAXIMUM_ORDER
                &&& s.lists@[k2 as int].contains(x)
            } by {
                if x == b {
                    assert(s.lists@[mm as int][0] == b);
                } else {
                    let k2 = o.metadata@[x].order();
                    assert(o.lists@[k2 as int].contains(x));
                    let j = choose|j: int| 0 <= j < o.lists@[k2 as int].len() && o.lists@[k2 as int][j] == x;
                    if k2 == mm {
                        assert(s.lists@[k2 as int][j + 1] == x);
                    } else {
                        assert(s.lists@[k2 as int][j] == x);
                    }
                }
            }
            assert forall|x: int| 0 <= x < s.subranges && live(#[trigger] s.metadata@[x]) implies {
                let k2 = s.metadata@[x].order();
                &&& k2 <= MAXIMUM_ORDER
                &&& !(s.metadata@[x].allocated() && s.metadata@[x].listed())
                &&& x % (units(k2) as int) == 0
                &&& x + units(k2) <= s.enrolled()
            } by {
                if x != b {
                    assert(s.metadata@[x] == o.metadata@[x]);
                }
            }
            assert(s.meta_ok());
            assert(s.tiling_ok());
            assert forall|x: int|
                0 <= x < s.subranges && (#[trigger] s.metadata@[x]).listed() && s.metadata@[x].order()
                    < MAXIMUM_ORDER implies {
                let kx = s.metadata@[x].order();
                let y = buddy(x, kx);
                !(s.metadata@[y].listed() && s.metadata@[y].order() == kx)
            } by {
                let kx = s.metadata@[x].order();
                let y = buddy(x, kx);
                o.lemma_live_buddy(x);
                if x == b {
                } else {
                    assert(s.metadata@[x] == o.metadata@[x]);
                    if y == b && kx == mm {
                        o.lemma_live_buddy(b as int);
                        assert(buddy(b as int, mm) == x);
                    } else if y != b {
                        assert(s.metadata@[y] == o.metadata@[y]);
                    }
                }
            }
            assert(s.coalesced());
        }
    }
}


/// The lowest order at or above `d` whose free list is not empty, or
/// `MAXIMUM_ORDER + 1` when there is none.
pub open spec fn first_pool(lists: Seq<Seq<int>>, d: nat) -> nat
    decreases MAXIMUM_ORDER + 1 - d,
{
    if d > MAXIMUM_ORDER {
        (MAXIMUM_ORDER + 1) as nat
    } else if lists[d as int].len() > 0 {
        d
    } else {
        first_pool(lists, d + 1)
    }
}

/// The smallest order, from `k` up to the maximum, whose blocks hold `size` bytes.
pub open spec fn order_from(size: nat, k: nat) -> nat
    decreases MAXIMUM_ORDER - k,
{
    if k >= MAXIMUM_ORDER || MINIMUM_BLOCK * units(k) >= size {
        k
    } else {
        order_from(size, k + 1)
    }
}

/// The order of the smallest block that holds `size` bytes: `size` rounded up
/// to a power of two and to at least the minimum block.
pub open spec fn order_for(size: nat) -> nat {
    order_from(size, 0)
}

/// Free lists after block `b`, first on the list of order `p`, is taken off it
/// and split down to order `q`: each upper half of order `k` in `q..p` goes at
/// the head of the list of order `k`.
pub open spec fn split_lists(lists: Seq<Seq<int>>, b: int, p: nat, q: nat) -> Seq<Seq<int>>
    decreases p - q,
{
    if q >= p {
        lists.update(p as int, lists[p as int].remove(0))
    } else {
        let l = split_lists(lists, b, p, q + 1);
        l.update(q as int, seq![b + units(q)] + l[q as int])
    }
}

/// Metadata after block `b` of order `p` is allocated and split down to order
/// `q`: `b` is allocated at order `q`, each upper half of order `k` in `q..p`
/// is free and listed at order `k`.
pub open spec fn split_metas(meta: Seq<Metadata>, b: int, p: nat, q: nat) -> Seq<Metadata>
    decreases p - q,
{
    if q >= p {
        meta.update(b, Metadata(Metadata::encode(true, false, p)))
    } else {
        split_metas(meta, b, p, q + 1).update(b, Metadata(Metadata::encode(true, false, q))).update(
            b + units(q),
            Metadata(Metadata::encode(false, true, q)),
        )
    }
}

/// Whether block `b` of order `k` has a free buddy of the same order, going
/// by the metadata `meta`.
pub open spec fn can_merge(meta: Seq<Metadata>, b: int, k: nat) -> bool {
    k < MAXIMUM_ORDER && meta[buddy(b, k)].listed() && meta[buddy(b, k)].order() == k
}

pub open spec fn lower(b: int, k: nat) -> int {
    if b < buddy(b, k) {
        b
    } else {
        buddy(b, k)
    }
}

/// The block and order that freeing block `b` of order `k` ends with, after
/// merging with each free buddy of equal order in turn.
pub open spec fn merge_end(meta: Seq<Metadata>, b: int, k: nat) -> (int, nat)
    decreases MAXIMUM_ORDER - k,
{
    if can_merge(meta, b, k) {
        merge_end(meta, lower(b, k), k + 1)
    } else {
        (b, k)
    }
}

/// Free lists after freeing block `b` of order `k`: each merged buddy leaves
/// its list and the final block goes at the head of the list of its order.
pub open spec fn merged_lists(lists: Seq<Seq<int>>, meta: Seq<Metadata>, b: int, k: nat) -> Seq<
    Seq<int>,
>
    decreases MAXIMUM_ORDER - k,
{
    if can_merge(meta, b, k) {
        let c = buddy(b, k);
        merged_lists(
            lists.update(k as int, lists[k as int].remove(lists[k as int].index_of(c))),
            meta,
            lower(b, k),
            k + 1,
        )
    } else {
        lists.update(k as int, seq![b] + lists[k as int])
    }
}

impl BuddyAllocator {
    /// Allocates a block of order `d`. The block comes from the first free
    /// list of order `d` or above that is not empty; on the way down to order
    /// `d` the upper halves go to the free lists. `None` when every such list
    /// is empty.
    #[verifier::rlimit(30)]
    fn allocate_block(&mut self, d: usize) -> (r: Option<usize>)
        requires
            old(self).wf(),
            d <= MAXIMUM_ORDER,
        ensures
            final(self).wf(),
            final(self).region == old(self).region,
            final(self).subranges == old(self).subranges,
            r is Some ==> r->0 < final(self).subranges,
            ({
                let p = first_pool(old(self).lists@, d as nat);
                &&& p > MAXIMUM_ORDER ==> r is None && final(self).lists@ == old(self).lists@
                    && final(self).metadata@ == old(self).metadata@
                &&& p <= MAXIMUM_ORDER ==> r is Some && r->0 == old(self).lists@[p as int][0]
                    && final(self).lists@ == split_lists(old(self).lists@, r->0 as int, p, d as nat)
                    && final(self).metadata@ == split_metas(old(self).metadata@, r->0 as int, p, d as nat)
                    && free_units(final(self).lists@, (MAXIMUM_ORDER + 1) as nat) == free_units(
                    old(self).lists@,
                    (MAXIMUM_ORDER + 1) as nat,
                ) - units(d as nat)
            }),
    {
        let mut pool = d;
        while pool <= self.orders && self.free_lists[pool].head == SENTINEL
            invariant
                self.wf(),
                d <= pool <= MAXIMUM_ORDER + 1,
                first_pool(self.lists@, pool as nat) == first_pool(self.lists@, d as nat),
            decreases MAXIMUM_ORDER + 1 - pool,
        {
            proof {
                assert(self.lists@[pool as int].len() == 0) by {
                    if self.lists@[pool as int].len() > 0 {
                        assert(0 <= self.lists@[pool as int][0] < self.subranges);
                    }
                }
            }
            pool += 1;
        }
        if pool > self.orders {
            return None;
        }
        proof {
            assert(self.lists@[pool as int].len() > 0);
        }
        let ghost o = *self;
        let ghost p = pool as nat;
        let b = self.take_block(pool);
        proof {
            lemma_free_units_update(o.lists@, p as int, o.lists@[p as int].remove(0), (MAXIMUM_ORDER + 1) as nat);
        }
        while pool > d
            invariant
                self.wf(),
                d <= pool <= p <= MAXIMUM_ORDER,
                free_units(self.lists@, (MAXIMUM_ORDER + 1) as nat) == free_units(o.lists@, (MAXIMUM_ORDER + 1) as nat)
                    - units(pool as nat),
                b < self.subranges,
                self.region == o.region,
                self.subranges == o.subranges,
                self.metadata@[b as int] == Metadata(Metadata::encode(true, false, pool as nat)),
                self.lists@ == split_lists(o.lists@, b as int, p, pool as nat),
                self.metadata@ == split_metas(o.metadata@, b as int, p, pool as nat),
            decreases pool,
        {
            let ghost s0 = self.lists@;
            self.split_block(b, pool);
            proof {
                let k = (pool - 1) as int;
                lemma_free_units_update(s0, k, seq![b + units(k as nat)] + s0[k], (MAXIMUM_ORDER + 1) as nat);
                assert(units(pool as nat) == 2 * units(k as nat));
            }
            pool -= 1;
        }
        Some(b)
    }

    /// Frees the allocated block `b`, merging it with free buddies of equal
    /// order as far as it goes.
    #[verifier::rlimit(30)]
    fn free_block(&mut self, b: usize)
        requires
            old(self).wf(),
            b < old(self).subranges,
            old(self).metadata@[b as int].allocated(),
        ensures
            final(self).wf(),
            final(self).region == old(self).region,
            final(self).subranges == old(self).subranges,
            ({
                let d = old(self).metadata@[b as int].order();
                let (t, m) = merge_end(old(self).metadata@, b as int, d);
                &&& final(self).lists@ == merged_lists(old(self).lists@, old(self).metadata@, b as int, d)
                &&& final(self).metadata@[t] == Metadata(Metadata::encode(false, true, m))
                &&& t <= b < t + units(m)
                &&& forall|i: int|
                    t < i < t + units(m) ==> !live(#[trigger] final(self).metadata@[i])
                &&& forall|i: int|
                    0 <= i < old(self).subranges && !(t <= i < t + units(m))
                        ==> #[trigger] final(self).metadata@[i] == old(self).metadata@[i]
                &&& free_units(final(self).lists@, (MAXIMUM_ORDER + 1) as nat) == free_units(
                    old(self).lists@,
                    (MAXIMUM_ORDER + 1) as nat,
                ) + units(d)
            }),
    {
        let ghost o = *self;
        let ghost d = o.metadata@[b as int].order();
        let mut block = b;
        let mut pool = self.metadata[b].pool() as usize;
        proof {
            o.lemma_live_facts(b as int);
        }
        loop
            invariant
                self.wf(),
                pool <= MAXIMUM_ORDER,
                block < self.subranges,
                self.region == o.region,
                self.subranges == o.subranges,
                self.metadata@[block as int].allocated(),
                self.metadata@[block as int].order() == pool,
                block <= b < block + units(pool as nat),
                free_units(self.lists@, (MAXIMUM_ORDER + 1) as nat) + units(pool as nat) == free_units(o.lists@, (MAXIMUM_ORDER + 1) as nat) + units(d),
                merge_end(o.metadata@, block as int, pool as nat) == merge_end(o.metadata@, b as int, d),
                merged_lists(self.lists@, o.metadata@, block as int, pool as nat) == merged_lists(
                    o.lists@,
                    o.metadata@,
                    b as int,
                    d,
                ),
                forall|i: int|
                    0 <= i < o.subranges && !(block <= i < block + units(pool as nat)) ==> #[trigger] self.metadata@[i]
                        == o.metadata@[i],
            ensures
                self.wf(),
                pool <= MAXIMUM_ORDER,
                block < self.subranges,
                self.region == o.region,
                self.subranges == o.subranges,
                self.metadata@[block as int].allocated(),
                self.metadata@[block as int].order() == pool,
                block <= b < block + units(pool as nat),
                free_units(self.lists@, (MAXIMUM_ORDER + 1) as nat) + units(pool as nat) == free_units(o.lists@, (MAXIMUM_ORDER + 1) as nat) + units(d),
                merge_end(o.metadata@, block as int, pool as nat) == merge_end(o.metadata@, b as int, d),
                merged_lists(self.lists@, o.metadata@, block as int, pool as nat) == merged_lists(
                    o.lists@,
                    o.metadata@,
                    b as int,
                    d,
                ),
                forall|i: int|
                    0 <= i < o.subranges && !(block <= i < block + units(pool as nat)) ==> #[trigger] self.metadata@[i]
                        == o.metadata@[i],
                !can_merge(self.metadata@, block as int, pool as nat),
                !can_merge(o.metadata@, block as int, pool as nat),
            decreases MAXIMUM_ORDER - pool,
        {
            if pool >= self.orders {
                break;
            }
            let half = units_of(pool);
            proof {
                self.lemma_live_buddy(block as int);
            }
            let c = if (block / half) % 2 == 0 {
                block + half
            } else {
                block - half
            };
            proof {
                assert(c == buddy(block as int, pool as nat));
                assert(self.metadata@[c as int] == o.metadata@[c as int]);
            }
            let mc = self.metadata[c];
            if !mc.is_free_list() || mc.pool() as usize != pool {
                break;
            }
            let ghost s0 = *self;
            proof {
                assert(s0.lists@[pool as int].contains(c as int));
            }
            let lo = self.merge_block(block, pool);
            proof {
                let j = s0.lists@[pool as int].index_of(c as int);
                lemma_free_units_update(s0.lists@, pool as int, s0.lists@[pool as int].remove(j), (MAXIMUM_ORDER + 1) as nat);
                assert(units((pool + 1) as nat) == 2 * units(pool as nat));
                Self::lemma_merge_progress(o, s0, *self, b as int, d, block as int, pool as nat);
            }
            block = lo;
            pool += 1;
        }
        let ghost s1 = self.lists@;
        self.release_block(block);
        proof {
            lemma_free_units_update(s1, pool as int, seq![block as int] + s1[pool as int], (MAXIMUM_ORDER + 1) as nat);
            self.lemma_interior_not_live(block as int);
        }
    }

    proof fn lemma_interior_not_live(&self, t: int)
        requires
            self.wf(),
            0 <= t < self.subranges,
            live(self.metadata@[t]),
        ensures
            forall|i: int|
                t < i < t + units(self.metadata@[t].order()) ==> !live(#[trigger] self.metadata@[i]),
    {
        lemma_units_positive(self.metadata@[t].order());
        assert forall|i: int| t < i < t + units(self.metadata@[t].order()) implies !live(
            #[trigger] self.metadata@[i],
        ) by {
            if live(self.metadata@[i]) {
                self.lemma_live_facts(t);
                lemma_units_positive(self.metadata@[i].order());
                assert(self.owner@[i] == i);
                assert(self.owner@[i] == t);
            }
        }
    }

    #[verifier::rlimit(30)]
    proof fn lemma_merge_progress(o: Self, s0: Self, s: Self, b: int, d: nat, block: int, pool: nat)
        requires
            s0.wf(),
            pool < MAXIMUM_ORDER,
            0 <= block < s0.subranges,
            s0.subranges == o.subranges,
            s0.metadata@[block].allocated(),
            s0.metadata@[block].order() == pool,
            block <= b < block + units(pool),
            merge_end(o.metadata@, block, pool) == merge_end(o.metadata@, b, d),
            merged_lists(s0.lists@, o.metadata@, block, pool) == merged_lists(o.lists@, o.metadata@, b, d),
            forall|i: int|
                0 <= i < o.subranges && !(block <= i < block + units(pool)) ==> #[trigger] s0.metadata@[i]
                    == o.metadata@[i],
            s0.metadata@[buddy(block, pool)].listed(),
            s0.metadata@[buddy(block, pool)].order() == pool,
            Self::merge_post(s0, s, block, pool),
        ensures
            ({
                let lo = lower(block, pool);
                &&& 0 <= lo < s.subranges
                &&& lo <= b < lo + units(pool + 1)
                &&& s.metadata@[lo].allocated()
                &&& s.metadata@[lo].order() == pool + 1
                &&& merge_end(o.metadata@, lo, pool + 1) == merge_end(o.metadata@, b, d)
                &&& merged_lists(s.lists@, o.metadata@, lo, pool + 1) == merged_lists(
                    o.lists@,
                    o.metadata@,
                    b,
                    d,
                )
                &&& forall|i: int|
                    0 <= i < o.subranges && !(lo <= i < lo + units(pool + 1)) ==> #[trigger] s.metadata@[i]
                        == o.metadata@[i]
            }),
    {
        let c = buddy(block, pool);
        s0.lemma_live_buddy(block);
        lemma_units_positive(pool);
        let u = units(pool) as int;
        assert(units(pool + 1) == 2 * u);
        assert(!(block <= c < block + u));
        assert(o.metadata@[c] == s0.metadata@[c]);
        assert(can_merge(o.metadata@, block, pool));
        let lo = lower(block, pool);
        assert forall|i: int|
            0 <= i < o.subranges && !(lo <= i < lo + units(pool + 1)) implies #[trigger] s.metadata@[i]
                == o.metadata@[i] by {
            assert(s.metadata@[i] == s0.metadata@[i]);
        }
    }

    /// Facts about a live block from the invariant.
    proof fn lemma_live_facts(&self, x: int)
        requires
            self.wf(),
            0 <= x < self.subranges,
            live(self.metadata@[x]),
        ensures
            self.metadata@[x].order() <= MAXIMUM_ORDER,
            x % (units(self.metadata@[x].order()) as int) == 0,
            x + units(self.metadata@[x].order()) <= self.enrolled(),
            self.enrolled() <= self.subranges,
            units(self.metadata@[x].order()) >= 1,
    {
        lemma_units_positive(self.metadata@[x].order());
    }
}


impl BuddyAllocator {
    /// Physical address of the first byte of block `b`.
    pub open spec fn block_addr(&self, b: int) -> int {
        self.region_spec().addr.0 + b * MINIMUM_BLOCK
    }

    /// Block index of the physical address `p`.
    pub open spec fn block_index(&self, p: PAddr) -> int {
        (p.0 - self.region_spec().addr.0) / MINIMUM_BLOCK as int
    }

    /// Whether `p` is the address of a live allocation of this allocator.
    pub open spec fn is_allocation(&self, p: PAddr) -> bool {
        &&& p.0 >= self.region_spec().addr.0
        &&& (p.0 - self.region_spec().addr.0) % MINIMUM_BLOCK as int == 0
        &&& self.block_index(p) < self.subranges_spec()
        &&& self.meta(self.block_index(p)).allocated()
    }

    /// What allocating a block of order `d` does: the block and the state after.
    pub open spec fn allocation_effect(old: &Self, new: &Self, d: nat, r: Option<PAddr>) -> bool {
        let p = first_pool(old.free_lists_spec(), d);
        &&& new.wf()
        &&& new.region_spec() == old.region_spec()
        &&& new.subranges_spec() == old.subranges_spec()
        &&& p > MAXIMUM_ORDER ==> r is None && new.free_lists_spec() == old.free_lists_spec()
            && new.metas() == old.metas()
        &&& p <= MAXIMUM_ORDER ==> {
            let b = old.free_list(p as int)[0];
            &&& r == Some(PAddr(old.block_addr(b) as usize))
            &&& new.free_lists_spec() == split_lists(old.free_lists_spec(), b, p, d)
            &&& new.metas() == split_metas(old.metas(), b, p, d)
            &&& free_units(new.free_lists_spec(), (MAXIMUM_ORDER + 1) as nat) == free_units(
                old.free_lists_spec(),
                (MAXIMUM_ORDER + 1) as nat,
            ) - units(d)
        }
    }

    fn block_address(&self, b: usize) -> (r: PAddr)
        requires
            self.wf(),
            b < self.subranges,
        ensures
            r.0 == self.block_addr(b as int),
    {
        proof {
            assert(b * MINIMUM_BLOCK < self.region.size) by (nonlinear_arith)
                requires
                    b < self.subranges,
                    self.subranges == self.region.size / 4096,
                    MINIMUM_BLOCK == 4096,
            ;
        }
        PAddr(self.region.addr.0 + b * MINIMUM_BLOCK)
    }

    /// Allocates a block of exactly `size` bytes, a power-of-two multiple of
    /// the minimum block no larger than the maximum block. The block comes
    /// from the lowest free list of a large enough order; it is split down to
    /// the requested order, the upper halves going to the free lists. `None`
    /// when no free block is large enough.
    pub fn allocate_unchecked(&mut self, size: usize) -> (r: Option<PAddr>)
        requires
            old(self).wf(),
            MINIMUM_BLOCK <= size <= MAXIMUM_BLOCK,
            size == MINIMUM_BLOCK * units(order_for(size as nat)),
        ensures
            Self::allocation_effect(old(self), final(self), order_for(size as nat), r),
    {
        let d = order_of(size);
        match self.allocate_block(d) {
            Some(b) => Some(self.block_address(b)),
            None => None,
        }
    }

    /// Allocates a block for `size` bytes: `size` is rounded up to a power of
    /// two and to at least the minimum block. `None` when no free block is
    /// large enough.
    pub fn allocate(&mut self, size: usize) -> (r: Option<PAddr>)
        requires
            old(self).wf(),
            size <= MAXIMUM_BLOCK,
        ensures
            Self::allocation_effect(old(self), final(self), order_for(size as nat), r),
    {
        let d = order_of(size);
        match self.allocate_block(d) {
            Some(b) => Some(self.block_address(b)),
            None => None,
        }
    }

    /// Frees the allocation at `ptr`. The block merges with its buddy while
    /// the buddy is free at the same order, and the merged block goes at the
    /// head of the free list of its order.
    pub fn free_unchecked(&mut self, ptr: PAddr)
        requires
            old(self).wf(),
            old(self).is_allocation(ptr),
        ensures
            final(self).wf(),
            final(self).region_spec() == old(self).region_spec(),
            final(self).subranges_spec() == old(self).subranges_spec(),
            ({
                let b = old(self).block_index(ptr);
                let d = old(self).meta(b).order();
                let (t, m) = merge_end(old(self).metas(), b, d);
                &&& final(self).free_lists_spec() == merged_lists(
                    old(self).free_lists_spec(),
                    old(self).metas(),
                    b,
                    d,
                )
                &&& final(self).meta(t) == Metadata(Metadata::encode(false, true, m))
                &&& t <= b < t + units(m)
                &&& forall|i: int| t < i < t + units(m) ==> !live(#[trigger] final(self).meta(i))
                &&& forall|i: int|
                    0 <= i < old(self).subranges_spec() && !(t <= i < t + units(m))
                        ==> #[trigger] final(self).meta(i) == old(self).meta(i)
                &&& free_units(final(self).free_lists_spec(), (MAXIMUM_ORDER + 1) as nat) == free_units(
                    old(self).free_lists_spec(),
                    (MAXIMUM_ORDER + 1) as nat,
                ) + units(d)
            }),
    {
        let offset = ptr.addr() - self.region.addr.addr();
        let b = offset / MINIMUM_BLOCK;
        self.free_block(b);
    }

    /// The blocks on the free list of order `k`, first to last, read by
    /// following the links.
    pub fn free_list_blocks(&self, k: usize) -> (r: Vec<usize>)
        requires
            self.wf(),
            k <= MAXIMUM_ORDER,
        ensures
            r@.len() == self.free_list(k as int).len(),
            forall|j: int| 0 <= j < r@.len() ==> r@[j] as int == #[trigger] self.free_list(k as int)[j],
    {
        let ghost s = self.lists@[k as int];
        let mut r: Vec<usize> = Vec::new();
        let mut cur = self.free_lists[k].head;
        while cur != SENTINEL
            invariant
                self.wf(),
                k <= MAXIMUM_ORDER,
                s == self.lists@[k as int],
                r@.len() <= s.len(),
                forall|j: int| 0 <= j < r@.len() ==> r@[j] as int == #[trigger] s[j],
                r@.len() < s.len() ==> cur as int == s[r@.len() as int],
                r@.len() == s.len() ==> cur == SENTINEL,
            decreases s.len() - r@.len(),
        {
            proof {
                assert(0 <= s[r@.len() as int] < self.subranges);
            }
            let ghost j = r@.len() as int;
            r.push(cur as usize);
            proof {
                assert(self.links@[s[j]] == LinkedNode { head: prev_of(s, j), tail: next_of(s, j) });
                if j + 1 < s.len() {
                    assert(0 <= s[j + 1] < self.subranges);
                }
            }
            cur = self.links[cur as usize].tail;
        }
        r
    }

    /// The metadata byte of subrange `i`.
    pub fn metadata_of(&self, i: usize) -> (r: Metadata)
        requires
            self.wf(),
            i < self.subranges_spec(),
        ensures
            r == self.meta(i as int),
    {
        self.metadata[i]
    }

    /// The managed region.
    pub fn region(&self) -> (r: Region)
        ensures
            r == self.region_spec(),
    {
        self.region
    }

    /// Number of minimum blocks in the managed region.
    pub fn subranges(&self) -> (r: usize)
        ensures
            r == self.subranges_spec(),
    {
        self.subranges
    }

    /// Exact size in bytes of the bookkeeping for a region of `region` bytes:
    /// the free-list table, then the metadata bytes, then the link table,
    /// each at its alignment.
    #[verifier::rlimit(30)]
    pub fn get_required_heap(region: usize) -> (r: usize)
        ensures
            r == required_heap_spec(region as nat),
    {
        let subranges = region / MINIMUM_BLOCK;
        proof {
            let m = usize::MAX as int;
            assert(m >= 0xffff_ffff);
            assert(subranges * 4096 <= region) by (nonlinear_arith)
                requires
                    subranges == region as int / 4096,
                    region >= 0,
            ;
            assert(subranges * 8 + 64 <= m) by (nonlinear_arith)
                requires
                    subranges * 4096 <= region,
                    region <= m,
                    m >= 0xffff_ffff,
                    subranges >= 0,
            ;
        }
        let mut heap: usize = 0;
        heap = align_up(heap, LINKED_NODE_ALIGN);
        heap = heap + LINKED_NODE_SIZE * (MAXIMUM_ORDER + 1);
        heap = align_up(heap, 1);
        heap = heap + METADATA_SIZE * subranges;
        heap = align_up(heap, LINKED_NODE_ALIGN);
        heap = heap + LINKED_NODE_SIZE * subranges;
        heap
    }
}

/// The order of the smallest block that holds `size` bytes.
fn order_of(size: usize) -> (d: usize)
    requires
        size <= MAXIMUM_BLOCK,
    ensures
        d == order_for(size as nat),
        d <= MAXIMUM_ORDER,
{
    let mut d: usize = 0;
    while d < MAXIMUM_ORDER
        invariant
            d <= MAXIMUM_ORDER,
            order_from(size as nat, d as nat) == order_for(size as nat),
        ensures
            d <= MAXIMUM_ORDER,
            order_from(size as nat, d as nat) == order_for(size as nat),
            order_from(size as nat, d as nat) == d,
        decreases MAXIMUM_ORDER - d,
    {
        if MINIMUM_BLOCK * units_of(d) >= size {
            break;
        }
        d += 1;
    }
    d
}


impl BuddyAllocator {
    /// Every block on the free list of order `k` is a free, listed block of
    /// order `k` whose index is a multiple of `2^k`. This holds after any
    /// sequence of allocations and frees, since each of them keeps `wf`.
    pub proof fn lemma_metadata_consistent(&self)
        requires
            self.wf(),
        ensures
            forall|k: int, j: int|
                0 <= k <= MAXIMUM_ORDER && 0 <= j < self.free_list(k).len() ==> {
                    let b = #[trigger] self.free_list(k)[j];
                    &&& 0 <= b < self.subranges_spec()
                    &&& !self.meta(b).allocated()
                    &&& self.meta(b).listed()
                    &&& self.meta(b).order() == k
                    &&& b % (units(k as nat) as int) == 0
                },
    {
        assert forall|k: int, j: int|
            0 <= k <= MAXIMUM_ORDER && 0 <= j < self.free_list(k).len() implies {
            let b = #[trigger] self.free_list(k)[j];
            &&& 0 <= b < self.subranges_spec()
            &&& !self.meta(b).allocated()
            &&& self.meta(b).listed()
            &&& self.meta(b).order() == k
            &&& b % (units(k as nat) as int) == 0
        } by {
            let b = self.lists@[k][j];
            assert(0 <= b < self.subranges);
            assert(self.metadata@[b].listed());
        }
    }

    /// The minimum blocks on the free lists, `2^k` for each block on the list
    /// of order `k`, plus those of the allocated blocks, add up to the
    /// subranges enrolled at construction.
    pub proof fn lemma_coverage(&self)
        requires
            self.wf(),
        ensures
            free_units(self.free_lists_spec(), (MAXIMUM_ORDER + 1) as nat) + alloc_units(
                self.metas(),
                self.subranges_spec(),
            ) == self.enrolled(),
    {
    }

    /// No subrange of the region belongs to two live allocations.
    pub proof fn lemma_no_double_allocation(&self, x: int, y: int)
        requires
            self.wf(),
            0 <= x < self.subranges_spec(),
            0 <= y < self.subranges_spec(),
            x != y,
            self.meta(x).allocated(),
            self.meta(y).allocated(),
        ensures
            x + units(self.meta(x).order()) <= y || y + units(self.meta(y).order()) <= x,
    {
        lemma_units_positive(self.metadata@[x].order());
        lemma_units_positive(self.metadata@[y].order());
        if x < y && y < x + units(self.metadata@[x].order()) {
            assert(self.owner@[y] == x);
            assert(self.owner@[y] == y);
        }
        if y < x && x < y + units(self.metadata@[y].order()) {
            assert(self.owner@[x] == y);
            assert(self.owner@[x] == x);
        }
    }

    /// With nothing allocated, every listed block has order at least `k`.
    proof fn lemma_free_orders_at_least(&self, k: nat)
        requires
            self.wf(),
            k <= MAXIMUM_ORDER,
            forall|i: int| 0 <= i < self.subranges ==> !(#[trigger] self.metadata@[i]).allocated(),
        ensures
            forall|x: int|
                0 <= x < self.subranges && (#[trigger] self.metadata@[x]).listed() ==> self.metadata@[x].order()
                    >= k,
        decreases k,
    {
        if k > 0 {
            let k0 = (k - 1) as nat;
            self.lemma_free_orders_at_least(k0);
            assert forall|x: int|
                0 <= x < self.subranges && (#[trigger] self.metadata@[x]).listed() implies self.metadata@[x].order()
                >= k by {
                if self.metadata@[x].order() == k0 {
                    self.lemma_no_unmerged_pair(x, k0);
                }
            }
        }
    }

    /// With nothing allocated and no listed block below order `k`, no listed
    /// block has order exactly `k < MAXIMUM_ORDER`.
    proof fn lemma_no_unmerged_pair(&self, x: int, k: nat)
        requires
            self.wf(),
            k < MAXIMUM_ORDER,
            forall|i: int| 0 <= i < self.subranges ==> !(#[trigger] self.metadata@[i]).allocated(),
            forall|i: int|
                0 <= i < self.subranges && (#[trigger] self.metadata@[i]).listed() ==> self.metadata@[i].order()
                    >= k,
            0 <= x < self.subranges,
            self.metadata@[x].listed(),
        ensures
            self.metadata@[x].order() != k,
    {
        if self.metadata@[x].order() == k {
            self.lemma_unmerged_pair_absurd(x, k);
        }
    }

    #[verifier::rlimit(30)]
    proof fn lemma_unmerged_pair_absurd(&self, x: int, k: nat)
        requires
            self.wf(),
            k < MAXIMUM_ORDER,
            forall|i: int| 0 <= i < self.subranges ==> !(#[trigger] self.metadata@[i]).allocated(),
            forall|i: int|
                0 <= i < self.subranges && (#[trigger] self.metadata@[i]).listed() ==> self.metadata@[i].order()
                    >= k,
            0 <= x < self.subranges,
            self.metadata@[x].listed(),
            self.metadata@[x].order() == k,
        ensures
            !self.metadata@[x].listed(),
    {
        self.lemma_live_buddy(x);
        self.lemma_live_facts(x);
        let u = units(k) as int;
        let y = buddy(x, k);
        let lo = lower(x, k);
        assert(units(k + 1) == 2 * u);
        assert(y < self.enrolled());
        let z = self.owner@[y];
        assert(z != -1);
        assert(live(self.metadata@[z]));
        let oz = self.metadata@[z].order();
        self.lemma_live_facts(z);
        assert(oz >= k);
        if oz == k {
            lemma_aligned_eq(z, y, u);
            assert(false);
        } else {
            lemma_aligned_down(z, k + 1, oz);
            lemma_units_positive(k + 1);
            if z > lo {
                lemma_aligned_step(lo, 2 * u, z);
                assert(false);
            }
            assert((z + units(oz)) % (2 * u) == 0) by {
                lemma_aligned_down(units(oz) as int, k + 1, oz);
                lemma_multiple(z, 2 * u);
                lemma_multiple(units(oz) as int, 2 * u);
                let p1 = z / (2 * u);
                let p2 = (units(oz) as int) / (2 * u);
                assert(z + units(oz) == (2 * u) * (p1 + p2)) by (nonlinear_arith)
                    requires
                        z == (2 * u) * p1,
                        units(oz) as int == (2 * u) * p2,
                ;
                vstd::arithmetic::div_mod::lemma_mod_multiples_basic(p1 + p2, 2 * u);
                assert((2 * u) * (p1 + p2) == (p1 + p2) * (2 * u)) by (nonlinear_arith);
            }
            lemma_aligned_step(lo, 2 * u, z + units(oz));
            assert(z <= x < z + units(oz));
            assert(self.owner@[x] == z);
            assert(self.owner@[x] == x);
        }
    }

    /// Once every allocation is freed, the free lists have the shape they had
    /// after construction: nothing below the maximum order, and on the list of
    /// the maximum order exactly the enrolled maximum-order blocks.
    #[verifier::rlimit(30)]
    pub proof fn lemma_coalescing_convergence(&self)
        requires
            self.wf(),
            forall|i: int| 0 <= i < self.subranges_spec() ==> !(#[trigger] self.meta(i)).allocated(),
        ensures
            forall|k: int| 0 <= k < MAXIMUM_ORDER ==> #[trigger] self.free_list(k).len() == 0,
            self.free_list(MAXIMUM_ORDER as int).to_set() == Set::new(
                |b: int| 0 <= b < self.enrolled() && b % 1024 == 0,
            ),
            self.free_list(MAXIMUM_ORDER as int).no_duplicates(),
            self.free_list(MAXIMUM_ORDER as int).len() == self.enrolled() / 1024,
    {
        assert forall|i: int| 0 <= i < self.subranges implies !(#[trigger] self.metadata@[i]).allocated() by {
            assert(!self.meta(i).allocated());
        }
        self.lemma_free_orders_at_least(MAXIMUM_ORDER as nat);
        reveal_with_fuel(units, 11);
        assert forall|k: int| 0 <= k < MAXIMUM_ORDER implies #[trigger] self.free_list(k).len() == 0 by {
            if self.lists@[k].len() > 0 {
                let b = self.lists@[k][0];
                assert(0 <= b < self.subranges);
                assert(self.metadata@[b].listed());
            }
        }
        let top = self.lists@[MAXIMUM_ORDER as int];
        assert forall|b: int| top.to_set().contains(b) <==> 0 <= b < self.enrolled() && b % 1024 == 0 by {
            if top.to_set().contains(b) {
                assert(top.contains(b));
                let j = choose|j: int| 0 <= j < top.len() && top[j] == b;
                assert(self.lists@[MAXIMUM_ORDER as int][j] == b);
                assert(0 <= b < self.subranges);
                assert(self.metadata@[b].listed());
                self.lemma_live_facts(b);
            }
            if 0 <= b < self.enrolled() && b % 1024 == 0 {
                let z = self.owner@[b];
                assert(z != -1);
                self.lemma_live_facts(z);
                assert(self.metadata@[z].listed());
                assert(self.metadata@[z].order() == MAXIMUM_ORDER);
                lemma_aligned_eq(z, b, 1024);
                assert(top.contains(b));
            }
        }
        assert(top.to_set() =~= Set::new(|b: int| 0 <= b < self.enrolled() && b % 1024 == 0));
        assert forall|i: int, j: int| 0 <= i < top.len() && 0 <= j < top.len() && i != j implies top[i]
            != top[j] by {
            assert(self.lists@[MAXIMUM_ORDER as int][i] == top[i]);
            assert(self.lists@[MAXIMUM_ORDER as int][j] == top[j]);
        }
        let n = self.enrolled() / 1024;
        let q = Seq::new(n, |j: int| j * 1024);
        assert forall|i: int, j: int| 0 <= i < q.len() && 0 <= j < q.len() && i != j implies q[i] != q[j] by {}
        assert forall|b: int| q.to_set().contains(b) <==> top.to_set().contains(b) by {
            if top.to_set().contains(b) {
                assert(q[b / 1024] == b);
            }
            if q.to_set().contains(b) {
                let j = choose|j: int| 0 <= j < q.len() && q[j] == b;
                assert(0 <= b < self.enrolled() && b % 1024 == 0);
            }
        }
        assert(q.to_set() =~= top.to_set());
        top.unique_seq_to_set();
        q.unique_seq_to_set();
    }
}

} // verus!
