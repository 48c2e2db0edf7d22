//! A free-list heap allocator.
//!
//! Free memory is kept as an address-ordered list of regions. A region is
//! described by its start address and length; the allocator never touches
//! the memory itself, it only decides which addresses are handed out. The
//! central invariant is that no two free regions are adjacent or overlap:
//! every deallocation coalesces with its neighbours, so fragmentation can
//! only come from allocations still outstanding.

use crate::spinlock::{DisableInterrupts, InterruptFlag, SpinLock};
use vstd::prelude::*;

verus! {

/// Bytes a free region must be able to hold: the size of an in-place
/// free-list node header (a length word and a link word).
pub const NODE_SIZE: usize = 16;

/// Required alignment of a free region's start address.
pub const NODE_ALIGN: usize = 8;

/// A free region of memory: `NODE_SIZE` bytes of header live at `addr`,
/// and the region spans `[addr, addr + size)`.
#[derive(Debug, Clone, Copy, PartialEq, Eq, Structural)]
pub struct ListNode {
    pub size: usize,
    pub addr: usize,
}

impl ListNode {
    pub fn new(addr: usize, size: usize) -> (n: ListNode)
        ensures
            n.addr == addr,
            n.size == size,
    {
        ListNode { size, addr }
    }

    pub open spec fn spec_end(self) -> int {
        self.addr + self.size
    }

    pub fn start_addr(&self) -> (r: usize)
        ensures
            r == self.addr,
    {
        self.addr
    }

    pub fn end_addr(&self) -> (r: usize)
        requires
            self.addr + self.size <= usize::MAX,
        ensures
            r == self.spec_end(),
    {
        self.addr + self.size
    }
}

/// A single free region is well-formed: aligned and non-null (a null
/// region could yield a null allocation), big enough to hold its header,
/// and inside the lower half of the address space (a machine limit that
/// keeps every address computation below `usize::MAX`).
pub open spec fn wf_node(n: ListNode) -> bool {
    &&& n.addr >= NODE_ALIGN
    &&& n.addr as int % NODE_ALIGN as int == 0
    &&& n.size as int % NODE_ALIGN as int == 0
    &&& n.size >= NODE_SIZE
    &&& n.addr + n.size <= usize::MAX / 2
}

/// The free list is well-formed: every region is well-formed, and regions
/// are strictly ordered by address with a gap between neighbours — no two
/// free regions overlap or are adjacent (the coalescing invariant).
pub open spec fn wf_list(s: Seq<ListNode>) -> bool {
    &&& forall|i: int| 0 <= i < s.len() ==> wf_node(#[trigger] s[i])
    &&& forall|i: int| 0 <= i && i + 1 < s.len() ==> (#[trigger] s[i]).addr + s[i].size < s[i + 1].addr
}

/// Address `a` lies inside region `n`.
pub open spec fn node_covers(n: ListNode, a: int) -> bool {
    n.addr <= a < n.addr + n.size
}

/// Address `a` is free: some region of the list covers it.
pub open spec fn free_at(s: Seq<ListNode>, a: int) -> bool {
    exists|i: int| 0 <= i < s.len() && node_covers(#[trigger] s[i], a)
}

/// Total bytes held by the free list.
pub open spec fn sum_sizes(s: Seq<ListNode>) -> int
    decreases s.len(),
{
    if s.len() == 0 {
        0
    } else {
        sum_sizes(s.drop_last()) + s.last().size
    }
}

/// In a well-formed list the regions are ordered pairwise, not only between
/// neighbours.
pub proof fn lemma_wf_sorted(s: Seq<ListNode>, i: int, j: int)
    requires
        wf_list(s),
        0 <= i < j < s.len(),
    ensures
        s[i].addr + s[i].size < s[j].addr,
    decreases j - i,
{
    if i + 1 < j {
        lemma_wf_sorted(s, i + 1, j);
    }
}

/// `x` rounded up to the next multiple of `align`.
pub open spec fn spec_round_up(x: int, align: int) -> int {
    ((x + align - 1) / align) * align
}

pub(crate) proof fn lemma_round_up_props(x: int, align: int)
    requires
        align >= 1,
        x >= 0,
    ensures
        x <= spec_round_up(x, align) < x + align,
        spec_round_up(x, align) % align == 0,
        x % align == 0 ==> spec_round_up(x, align) == x,
{
    let y = x + align - 1;
    let q = y / align;
    vstd::arithmetic::div_mod::lemma_fundamental_div_mod(y, align);
    vstd::arithmetic::div_mod::lemma_mod_bound(y, align);
    assert(q * align == y - y % align);
    vstd::arithmetic::div_mod::lemma_mod_multiples_basic(q, align);
    if x % align == 0 {
        vstd::arithmetic::div_mod::lemma_fundamental_div_mod(x, align);
        vstd::arithmetic::div_mod::lemma_mod_multiples_vanish(x / align, align - 1, align);
        vstd::arithmetic::div_mod::lemma_small_mod((align - 1) as nat, align as nat);
        assert(y % align == align - 1);
    }
}

/// For an unaligned `x`, rounding up lands exactly one remainder short
/// of a full extra alignment step.
pub(crate) proof fn lemma_round_up_from_rem(c: int, al: int)
    requires
        al >= 1,
        c >= 0,
        c % al != 0,
    ensures
        spec_round_up(c, al) == c + al - c % al,
{
    let q = c / al;
    let rem = c % al;
    vstd::arithmetic::div_mod::lemma_fundamental_div_mod(c, al);
    vstd::arithmetic::div_mod::lemma_mod_bound(c, al);
    let y = c + al - 1;
    assert(y == (q + 1) * al + (rem - 1)) by (nonlinear_arith)
        requires
            c == al * q + rem,
            y == c + al - 1,
    ;
    vstd::arithmetic::div_mod::lemma_fundamental_div_mod_converse_div(y, al, q + 1, rem - 1);
    assert((q + 1) * al == c + al - rem) by (nonlinear_arith)
        requires
            c == al * q + rem,
    ;
}

/// Any two powers of two divide one another, smaller into larger.
proof fn lemma_pow2_divides(small: int, big: int)
    requires
        vstd::arithmetic::power2::is_pow2(small),
        vstd::arithmetic::power2::is_pow2(big),
        small <= big,
    ensures
        big % small == 0,
{
    vstd::arithmetic::power2::is_pow2_equiv(small);
    vstd::arithmetic::power2::is_pow2_equiv(big);
    let i = choose|i: nat| vstd::arithmetic::power::pow(2, i) == small;
    let j = choose|j: nat| vstd::arithmetic::power::pow(2, j) == big;
    if j < i {
        vstd::arithmetic::power::lemma_pow_strictly_increases(2, j, i);
        assert(false);
    }
    vstd::arithmetic::power::lemma_pow_adds(2, i, (j - i) as nat);
    assert(big == small * vstd::arithmetic::power::pow(2, (j - i) as nat));
    vstd::arithmetic::power::lemma_pow_positive(2, i);
    vstd::arithmetic::div_mod::lemma_mod_multiples_basic(
        vstd::arithmetic::power::pow(2, (j - i) as nat),
        small,
    );
    assert(small * vstd::arithmetic::power::pow(2, (j - i) as nat) == vstd::arithmetic::power::pow(
        2,
        (j - i) as nat,
    ) * small);
}

/// `x` rounded up to the next multiple of `align`.
fn round_up(x: usize, align: usize) -> (r: usize)
    requires
        align >= 1,
        x + align <= usize::MAX,
    ensures
        r == spec_round_up(x as int, align as int),
        x <= r < x + align,
        r % align == 0,
        x % align == 0 ==> r == x,
{
    proof {
        lemma_round_up_props(x as int, align as int);
        vstd::arithmetic::div_mod::lemma_fundamental_div_mod(x + align - 1, align as int);
        vstd::arithmetic::div_mod::lemma_mod_bound(x + align - 1, align as int);
    }
    let y: usize = x + (align - 1);
    let q: usize = y / align;
    proof {
        assert(q == (x + align - 1) / (align as int));
        assert(q * align == spec_round_up(x as int, align as int));
    }
    q * align
}

proof fn lemma_mod_sub(a: int, b: int, m: int)
    requires
        m > 0,
        a % m == 0,
        b % m == 0,
    ensures
        (a - b) % m == 0,
{
    vstd::arithmetic::div_mod::lemma_fundamental_div_mod(a, m);
    vstd::arithmetic::div_mod::lemma_fundamental_div_mod(b, m);
    assert(a - b == m * (a / m - b / m)) by (nonlinear_arith)
        requires
            a == m * (a / m) + a % m,
            b == m * (b / m) + b % m,
            a % m == 0,
            b % m == 0,
    ;
    vstd::arithmetic::div_mod::lemma_mod_multiples_basic(a / m - b / m, m);
    assert(m * (a / m - b / m) == (a / m - b / m) * m);
}

proof fn lemma_mod_add(a: int, b: int, m: int)
    requires
        m > 0,
        a % m == 0,
        b % m == 0,
    ensures
        (a + b) % m == 0,
{
    vstd::arithmetic::div_mod::lemma_fundamental_div_mod(a, m);
    vstd::arithmetic::div_mod::lemma_fundamental_div_mod(b, m);
    assert(a + b == m * (a / m + b / m)) by (nonlinear_arith)
        requires
            a == m * (a / m) + a % m,
            b == m * (b / m) + b % m,
            a % m == 0,
            b % m == 0,
    ;
    vstd::arithmetic::div_mod::lemma_mod_multiples_basic(a / m + b / m, m);
    assert(m * (a / m + b / m) == (a / m + b / m) * m);
}

proof fn lemma_mod_transitive(x: int, d: int, m: int)
    requires
        d > 0,
        m > 0,
        x % d == 0,
        d % m == 0,
    ensures
        x % m == 0,
{
    vstd::arithmetic::div_mod::lemma_fundamental_div_mod(x, d);
    vstd::arithmetic::div_mod::lemma_fundamental_div_mod(d, m);
    assert(x == m * ((d / m) * (x / d))) by (nonlinear_arith)
        requires
            x == d * (x / d) + x % d,
            d == m * (d / m) + d % m,
            x % d == 0,
            d % m == 0,
    ;
    vstd::arithmetic::div_mod::lemma_mod_multiples_basic((d / m) * (x / d), m);
    assert(m * ((d / m) * (x / d)) == ((d / m) * (x / d)) * m);
}

proof fn lemma_sum_nonneg(s: Seq<ListNode>)
    ensures
        sum_sizes(s) >= 0,
    decreases s.len(),
{
    if s.len() > 0 {
        lemma_sum_nonneg(s.drop_last());
    }
}

/// In a well-formed list the summed sizes fit between the first region's
/// start and the last region's end.
proof fn lemma_sum_span(s: Seq<ListNode>)
    requires
        wf_list(s),
        s.len() > 0,
    ensures
        sum_sizes(s) <= s.last().addr + s.last().size - s[0].addr,
    decreases s.len(),
{
    if s.len() == 1 {
        assert(s.drop_last() =~= Seq::<ListNode>::empty());
        assert(sum_sizes(Seq::<ListNode>::empty()) == 0);
        assert(s.last() == s[0]);
        assert(sum_sizes(s) == s[0].size);
    } else {
        let d = s.drop_last();
        assert forall|k: int| 0 <= k < d.len() implies wf_node(#[trigger] d[k]) by {
            assert(d[k] == s[k]);
        }
        assert forall|k: int| 0 <= k && k + 1 < d.len() implies (#[trigger] d[k]).addr + d[k].size
            < d[k + 1].addr by {
            assert(d[k] == s[k]);
            assert(d[k + 1] == s[k + 1]);
        }
        assert(wf_list(d));
        lemma_sum_span(d);
        assert(d.last() == s[s.len() - 2]);
        assert(d[0] == s[0]);
        assert(s[s.len() - 2].addr + s[s.len() - 2].size < s.last().addr);
        assert(sum_sizes(s) == sum_sizes(d) + s.last().size);
    }
}

/// The free list can never hold more bytes than the heap range it lives
/// in: if every free address lies inside `[start, start + len)`, the
/// summed region sizes are at most `len`.
pub proof fn lemma_free_bytes_bounded(s: Seq<ListNode>, start: int, len: int)
    requires
        wf_list(s),
        len >= 0,
        forall|a: int| #[trigger] free_at(s, a) ==> (start <= a < start + len),
    ensures
        0 <= sum_sizes(s) <= len,
{
    lemma_sum_nonneg(s);
    if s.len() > 0 {
        lemma_sum_span(s);
        assert(node_covers(s[0], s[0].addr as int));
        assert(free_at(s, s[0].addr as int));
        let last = s.last();
        assert(node_covers(last, last.addr + last.size - 1)) by {
            assert(wf_node(last));
        }
        assert(free_at(s, last.addr + last.size - 1));
    }
}

/// When the free addresses are exactly the heap range `[start, start +
/// len)`, the coalescing invariant forces the whole list to be one single
/// region spanning the range: freeing everything restores one block.
pub proof fn lemma_full_coverage_single_region(s: Seq<ListNode>, start: int, len: int)
    requires
        wf_list(s),
        len > 0,
        forall|a: int| #[trigger] free_at(s, a) <==> (start <= a < start + len),
    ensures
        s.len() == 1,
        s[0].addr == start,
        s[0].size == len,
{
    assert(free_at(s, start));
    assert(s.len() >= 1);
    if s.len() >= 2 {
        // The address right after the first region would have to be free
        // (it lies between two freed addresses) yet no region covers it.
        let g = s[0].addr + s[0].size;
        assert(node_covers(s[0], s[0].addr as int));
        assert(free_at(s, s[0].addr as int));
        assert(node_covers(s[1], s[1].addr as int));
        assert(free_at(s, s[1].addr as int));
        assert(start <= s[0].addr);
        assert(s[1].addr < start + len);
        assert(s[0].addr + s[0].size < s[1].addr);
        assert(free_at(s, g));
        let j = choose|j: int| 0 <= j < s.len() && node_covers(s[j], g);
        if j > 0 {
            lemma_wf_sorted(s, 0, j);
        }
        assert(false);
    }
    assert(node_covers(s[0], s[0].addr as int));
    assert(free_at(s, s[0].addr as int));
    assert(start <= s[0].addr < start + len);
    assert(free_at(s, start) && free_at(s, start + len - 1));
    let i0 = choose|i: int| 0 <= i < s.len() && node_covers(s[i], start);
    assert(i0 == 0);
    let i1 = choose|i: int| 0 <= i < s.len() && node_covers(s[i], start + len - 1);
    assert(i1 == 0);
    assert(s[0].addr == start);
    if s[0].size < len {
        assert(!node_covers(s[0], start + len - 1));
        assert(false);
    }
    if s[0].size > len {
        assert(node_covers(s[0], start + len));
        assert(free_at(s, start + len));
        assert(false);
    }
}

/// Removing one region keeps the list well-formed and frees exactly the
/// remaining regions' addresses.
proof fn lemma_wf_remove(s: Seq<ListNode>, i: int)
    requires
        wf_list(s),
        0 <= i < s.len(),
    ensures
        wf_list(s.remove(i)),
        forall|a: int| #[trigger] free_at(s.remove(i), a) <==> (free_at(s, a) && !node_covers(
            s[i],
            a,
        )),
        sum_sizes(s.remove(i)) == sum_sizes(s) - s[i].size,
{
    let t = s.remove(i);
    let len = s.len() as int;
    assert forall|k: int| 0 <= k < i implies t[k] == s[k] by {}
    assert forall|k: int| i <= k < t.len() implies t[k] == s[k + 1] by {}

    assert(wf_list(t)) by {
        assert forall|k: int| 0 <= k < t.len() implies wf_node(#[trigger] t[k]) by {
            if k >= i {
                assert(t[k] == s[k + 1]);
            }
        }
        assert forall|k: int| 0 <= k && k + 1 < t.len() implies (#[trigger] t[k]).addr + t[k].size
            < t[k + 1].addr by {
            if k + 1 < i {
            } else if k + 1 == i {
                lemma_wf_sorted(s, k, k + 2);
            } else {
            }
        }
    }

    assert forall|a: int| #[trigger] free_at(t, a) <==> (free_at(s, a) && !node_covers(s[i], a)) by {
        if free_at(t, a) {
            let k = choose|k: int| 0 <= k < t.len() && node_covers(t[k], a);
            let j: int = if k < i {
                k
            } else {
                k + 1
            };
            assert(node_covers(s[j], a));
            assert(free_at(s, a));
            if node_covers(s[i], a) {
                if j < i {
                    lemma_wf_sorted(s, j, i);
                } else {
                    lemma_wf_sorted(s, i, j);
                }
                assert(false);
            }
        }
        if free_at(s, a) && !node_covers(s[i], a) {
            let j = choose|j: int| 0 <= j < s.len() && node_covers(s[j], a);
            if j < i {
                assert(node_covers(t[j], a));
                assert(free_at(t, a));
            } else {
                assert(node_covers(t[j - 1], a));
                assert(free_at(t, a));
            }
        }
    }

    assert(sum_sizes(t) == sum_sizes(s) - s[i].size) by {
        let front = s.subrange(0, i);
        let mid = s.subrange(i, i + 1);
        let back = s.subrange(i + 1, len);
        assert(s =~= (front + mid) + back);
        assert(t == front + back);
        lemma_sum_concat(front + mid, back);
        lemma_sum_concat(front, mid);
        lemma_sum_concat(front, back);
        assert(mid =~= seq![s[i]]);
        lemma_sum_singleton(s[i]);
    }
}

/// The alignment after layout normalization: at least the node header
/// size.
pub open spec fn spec_prepared_align(align: int) -> int {
    if align < NODE_SIZE {
        NODE_SIZE as int
    } else {
        align
    }
}

/// The size after layout normalization: padded to a multiple of the
/// normalized alignment.
pub open spec fn spec_prepared_size(size: int, align: int) -> int {
    spec_round_up(size, spec_prepared_align(align))
}

/// Where an allocation of the given alignment is carved out of a region:
/// at the region's start when that is already aligned, otherwise at the
/// next aligned address that leaves room for a node header in front.
pub open spec fn carve_addr(region: ListNode, align: int) -> int {
    if region.addr as int % align == 0 {
        region.addr as int
    } else {
        spec_round_up(region.addr + NODE_SIZE, align)
    }
}

/// Whether a region can serve an allocation of `size` bytes at alignment
/// `align`: the carved range must fit, and what is left at the tail must
/// either vanish or be big enough for a node header.
pub open spec fn region_fits(region: ListNode, size: int, align: int) -> bool {
    let end = carve_addr(region, align) + size;
    &&& end <= region.addr + region.size
    &&& (end == region.addr + region.size || region.addr + region.size - end >= NODE_SIZE)
}

/// Summed sizes distribute over concatenation.
proof fn lemma_sum_concat(x: Seq<ListNode>, y: Seq<ListNode>)
    ensures
        sum_sizes(x + y) == sum_sizes(x) + sum_sizes(y),
    decreases y.len(),
{
    if y.len() == 0 {
        assert(x + y =~= x);
    } else {
        assert((x + y).drop_last() =~= x + y.drop_last());
        assert((x + y).last() == y.last());
        lemma_sum_concat(x, y.drop_last());
    }
}

/// The shape shared by the four ways of returning a region to the list:
/// `t` is `s0` with the consumed neighbours (the one before position `idx`
/// when `has_left`, the one at `idx` when `has_right`) replaced by the
/// single fused node `n`, which spans exactly the consumed neighbours plus
/// `[addr, addr + size)`.
spec fn add_region_shape(
    s0: Seq<ListNode>,
    t: Seq<ListNode>,
    n: ListNode,
    idx: int,
    has_left: bool,
    has_right: bool,
    addr: int,
    size: int,
) -> bool {
    &&& wf_list(s0)
    &&& 0 <= idx <= s0.len()
    &&& addr >= NODE_ALIGN
    &&& addr % (NODE_ALIGN as int) == 0
    &&& size % (NODE_ALIGN as int) == 0
    &&& size >= NODE_SIZE
    &&& addr + size <= usize::MAX / 2
    &&& (idx > 0 ==> s0[idx - 1].addr + s0[idx - 1].size <= addr)
    &&& (idx < s0.len() ==> addr + size <= s0[idx].addr)
    &&& (has_left <==> (idx > 0 && s0[idx - 1].addr + s0[idx - 1].size == addr))
    &&& (has_right <==> (idx < s0.len() && addr + size == s0[idx].addr))
    &&& n.addr == if has_left {
        s0[idx - 1].addr as int
    } else {
        addr
    }
    &&& n.addr + n.size == if has_right {
        s0[idx].addr + s0[idx].size
    } else {
        addr + size
    }
    &&& t == s0.subrange(0, if has_left { idx - 1 } else { idx }) + seq![n] + s0.subrange(
        if has_right { idx + 1 } else { idx },
        s0.len() as int,
    )
}

/// The fused list keeps the well-formedness invariant: in particular the
/// gaps on both sides of the fused node stay strict, so no two free regions
/// are ever adjacent.
#[verifier::rlimit(100)]
#[verifier::spinoff_prover]
proof fn lemma_add_region_wf(
    s0: Seq<ListNode>,
    t: Seq<ListNode>,
    n: ListNode,
    idx: int,
    has_left: bool,
    has_right: bool,
    addr: int,
    size: int,
)
    requires
        add_region_shape(s0, t, n, idx, has_left, has_right, addr, size),
    ensures
        wf_list(t),
        t.len() >= 1,
        wf_node(n),
{
    let l: int = if has_left { idx - 1 } else { idx };
    let r: int = if has_right { idx + 1 } else { idx };
    let len0 = s0.len() as int;
    let lo = n.addr as int;
    let hi = n.addr + n.size;

    assert(t.len() == l + 1 + (len0 - r));
    assert(t[l] == n);

    assert(wf_node(n)) by {
        if has_left {
            assert(wf_node(s0[idx - 1]));
        }
        if has_right {
            assert(wf_node(s0[idx]));
        }
    }

    assert(l > 0 ==> s0[l - 1].addr + s0[l - 1].size < lo) by {
        if l > 0 && !has_left {
            assert(s0[idx - 1].addr + s0[idx - 1].size != addr);
        }
    }
    assert(r < len0 ==> hi < s0[r].addr) by {
        if r < len0 {
            if has_right {
                assert(s0[idx].addr + s0[idx].size < s0[idx + 1].addr);
            } else {
                assert(addr + size != s0[idx].addr);
            }
        }
    }

    lemma_add_region_nodes(s0, t, n, idx, has_left, has_right, addr, size);
    lemma_add_region_ordering(s0, t, n, idx, has_left, has_right, addr, size);
}

/// Every region of the fused list is individually well-formed.
#[verifier::rlimit(60)]
#[verifier::spinoff_prover]
proof fn lemma_add_region_nodes(
    s0: Seq<ListNode>,
    t: Seq<ListNode>,
    n: ListNode,
    idx: int,
    has_left: bool,
    has_right: bool,
    addr: int,
    size: int,
)
    requires
        add_region_shape(s0, t, n, idx, has_left, has_right, addr, size),
        wf_node(n),
    ensures
        forall|k: int| 0 <= k < t.len() ==> wf_node(#[trigger] t[k]),
{
    let l: int = if has_left { idx - 1 } else { idx };
    let r: int = if has_right { idx + 1 } else { idx };
    let len0 = s0.len() as int;
    assert(t.len() == l + 1 + (len0 - r));
    assert forall|k: int| 0 <= k < t.len() implies wf_node(#[trigger] t[k]) by {
        if k < l {
            assert(t[k] == s0[k]);
        } else if k > l {
            assert(t[k] == s0[k - l - 1 + r]);
        } else {
            assert(t[k] == n);
        }
    }
}

/// The fused list stays strictly ordered with gaps between neighbours.
#[verifier::rlimit(60)]
#[verifier::spinoff_prover]
proof fn lemma_add_region_ordering(
    s0: Seq<ListNode>,
    t: Seq<ListNode>,
    n: ListNode,
    idx: int,
    has_left: bool,
    has_right: bool,
    addr: int,
    size: int,
)
    requires
        add_region_shape(s0, t, n, idx, has_left, has_right, addr, size),
        (if has_left { idx - 1 } else { idx }) > 0 ==> s0[(if has_left { idx - 1 } else { idx })
            - 1].addr + s0[(if has_left { idx - 1 } else { idx }) - 1].size < n.addr,
        (if has_right { idx + 1 } else { idx }) < s0.len() ==> n.addr + n.size < s0[(if has_right {
            idx + 1
        } else {
            idx
        })].addr,
    ensures
        forall|k: int|
            0 <= k && k + 1 < t.len() ==> (#[trigger] t[k]).addr + t[k].size < t[k + 1].addr,
{
    let l: int = if has_left { idx - 1 } else { idx };
    let r: int = if has_right { idx + 1 } else { idx };
    let len0 = s0.len() as int;
    assert(t.len() == l + 1 + (len0 - r));
    assert(t[l] == n);
    assert forall|k: int| 0 <= k && k + 1 < t.len() implies (#[trigger] t[k]).addr + t[k].size < t[
        k + 1
    ].addr by {
        if k + 1 < l {
            assert(t[k] == s0[k] && t[k + 1] == s0[k + 1]);
        } else if k + 1 == l {
            assert(t[k] == s0[k]);
        } else if k == l {
            assert(t[k + 1] == s0[r]);
        } else {
            assert(t[k] == s0[k - l - 1 + r]);
            assert(t[k + 1] == s0[k - l + r]);
        }
    }
}

/// The fused list frees exactly the old free addresses plus the returned
/// range `[addr, addr + size)`.
#[verifier::rlimit(100)]
#[verifier::spinoff_prover]
proof fn lemma_add_region_cover(
    s0: Seq<ListNode>,
    t: Seq<ListNode>,
    n: ListNode,
    idx: int,
    has_left: bool,
    has_right: bool,
    addr: int,
    size: int,
)
    requires
        add_region_shape(s0, t, n, idx, has_left, has_right, addr, size),
    ensures
        forall|a: int| #[trigger] free_at(t, a) <==> (free_at(s0, a) || (addr <= a < addr + size)),
{
    let l: int = if has_left { idx - 1 } else { idx };
    let r: int = if has_right { idx + 1 } else { idx };
    let len0 = s0.len() as int;

    assert(t.len() == l + 1 + (len0 - r));
    assert(t[l] == n);

    assert forall|a: int| #[trigger] free_at(t, a) <==> (free_at(s0, a) || (addr <= a < addr
        + size)) by {
        if free_at(t, a) {
            let k = choose|k: int| 0 <= k < t.len() && node_covers(t[k], a);
            if k < l {
                assert(t[k] == s0[k]);
                assert(free_at(s0, a));
            } else if k == l {
                if a < addr {
                    assert(has_left && node_covers(s0[idx - 1], a));
                    assert(free_at(s0, a));
                } else if a >= addr + size {
                    assert(has_right && node_covers(s0[idx], a));
                    assert(free_at(s0, a));
                }
            } else {
                assert(t[k] == s0[k - l - 1 + r]);
                assert(node_covers(s0[k - l - 1 + r], a));
                assert(free_at(s0, a));
            }
        }
        if free_at(s0, a) {
            let j = choose|j: int| 0 <= j < s0.len() && node_covers(s0[j], a);
            if j < l {
                assert(t[j] == s0[j]);
                assert(node_covers(t[j], a));
                assert(free_at(t, a));
            } else if j < r {
                assert(node_covers(n, a));
                assert(node_covers(t[l], a));
                assert(free_at(t, a));
            } else {
                assert(t[j - r + l + 1] == s0[j]);
                assert(node_covers(t[j - r + l + 1], a));
                assert(free_at(t, a));
            }
        }
        if addr <= a < addr + size {
            assert(node_covers(t[l], a));
            assert(free_at(t, a));
        }
    }
}

proof fn lemma_sum_singleton(n: ListNode)
    ensures
        sum_sizes(seq![n]) == n.size,
{
    let s = seq![n];
    assert(s.len() == 1);
    assert(s.last() == n);
    assert(s.drop_last() =~= Seq::<ListNode>::empty());
    assert(sum_sizes(Seq::<ListNode>::empty()) == 0);
    assert(sum_sizes(s) == sum_sizes(s.drop_last()) + n.size);
}

/// Byte accounting for the fusion: the fused node weighs the consumed
/// neighbours plus `size`, so the list gains exactly `size` bytes.
proof fn lemma_add_region_sum(
    s0: Seq<ListNode>,
    t: Seq<ListNode>,
    n: ListNode,
    idx: int,
    has_left: bool,
    has_right: bool,
    addr: int,
    size: int,
)
    requires
        add_region_shape(s0, t, n, idx, has_left, has_right, addr, size),
    ensures
        sum_sizes(t) == sum_sizes(s0) + size,
{
    let l: int = if has_left { idx - 1 } else { idx };
    let r: int = if has_right { idx + 1 } else { idx };
    let len0 = s0.len() as int;
    let front = s0.subrange(0, l);
    let mid = s0.subrange(l, r);
    let back = s0.subrange(r, len0);
    assert(s0 =~= (front + mid) + back);
    lemma_sum_concat(front + mid, back);
    lemma_sum_concat(front, mid);
    assert(t == (front + seq![n]) + back);
    lemma_sum_concat(front + seq![n], back);
    lemma_sum_concat(front, seq![n]);
    lemma_sum_singleton(n);
    if has_left && has_right {
        assert(mid =~= seq![s0[idx - 1]].push(s0[idx]));
        assert(mid.drop_last() =~= seq![s0[idx - 1]]);
        lemma_sum_singleton(s0[idx - 1]);
        assert(sum_sizes(mid) == s0[idx - 1].size + s0[idx].size);
        assert(n.size == s0[idx - 1].size + size + s0[idx].size);
    } else if has_left {
        assert(mid =~= seq![s0[idx - 1]]);
        lemma_sum_singleton(s0[idx - 1]);
        assert(n.size == s0[idx - 1].size + size);
    } else if has_right {
        assert(mid =~= seq![s0[idx]]);
        lemma_sum_singleton(s0[idx]);
        assert(n.size == size + s0[idx].size);
    } else {
        assert(mid =~= Seq::<ListNode>::empty());
        assert(n.size == size);
    }
}

/// All consequences of returning a region, together.
proof fn lemma_add_region(
    s0: Seq<ListNode>,
    t: Seq<ListNode>,
    n: ListNode,
    idx: int,
    has_left: bool,
    has_right: bool,
    addr: int,
    size: int,
)
    requires
        add_region_shape(s0, t, n, idx, has_left, has_right, addr, size),
    ensures
        wf_list(t),
        t.len() >= 1,
        forall|a: int| #[trigger] free_at(t, a) <==> (free_at(s0, a) || (addr <= a < addr + size)),
        sum_sizes(t) == sum_sizes(s0) + size,
{
    lemma_add_region_wf(s0, t, n, idx, has_left, has_right, addr, size);
    lemma_add_region_cover(s0, t, n, idx, has_left, has_right, addr, size);
    lemma_add_region_sum(s0, t, n, idx, has_left, has_right, addr, size);
}

/// A free-list allocator: an address-ordered, coalesced list of free
/// regions, plus the total number of bytes it was initialized with.
pub struct FreeListAlloc {
    total: usize,
    regions: Vec<ListNode>,
}

impl FreeListAlloc {
    /// The free regions, in address order, for contracts.
    pub closed spec fn spec_regions(self) -> Seq<ListNode> {
        self.regions@
    }

    /// The size the heap was registered with.
    pub closed spec fn spec_total(self) -> usize {
        self.total
    }

    /// The allocator's invariant: see `wf_list`. In particular no two free
    /// regions are adjacent — the free list is always fully coalesced.
    pub open spec fn wf(self) -> bool {
        wf_list(self.spec_regions())
    }

    /// An allocator with no backing memory.
    pub fn empty() -> (a: FreeListAlloc)
        ensures
            a.wf(),
            a.spec_regions().len() == 0,
            a.spec_total() == 0,
    {
        FreeListAlloc { total: 0, regions: Vec::new() }
    }

    /// Record the size of the backing heap, for accounting only.
    pub fn set_total(&mut self, free: usize)
        ensures
            final(self).spec_total() == free,
            final(self).spec_regions() == old(self).spec_regions(),
    {
        self.total = free;
    }

    /// Register the heap region `[start, start + size)`. Must be done
    /// exactly once, before any allocation.
    #[verifier::rlimit(40)]
    pub fn init(&mut self, start: usize, size: usize)
        requires
            old(self).spec_regions().len() == 0,
            start >= NODE_ALIGN,
            start % NODE_ALIGN == 0,
            size % NODE_ALIGN == 0,
            size >= NODE_SIZE,
            start + size <= usize::MAX / 2,
        ensures
            final(self).wf(),
            final(self).spec_total() == size,
            final(self).spec_regions() =~= seq![ListNode { addr: start, size }],
    {
        proof {
            assert(!free_at(old(self).spec_regions(), 0)) by {
                assert(old(self).spec_regions().len() == 0);
            }
        }
        self.add_free_region(start, size);
        self.total = size;
        proof {
            assert forall|a: int| #[trigger] free_at(self.regions@, a) <==> (start <= a < start
                + size) by {}
            lemma_full_coverage_single_region(self.regions@, start as int, size as int);
            assert(self.regions@ =~= seq![ListNode { addr: start, size }]);
        }
    }

    /// Return the region `[addr, addr + size)` to the free list: insert it
    /// at its address-ordered position and coalesce with the immediately
    /// preceding and/or following region when exactly adjacent.
    pub fn add_free_region(&mut self, addr: usize, size: usize)
        requires
            old(self).wf(),
            addr >= NODE_ALIGN,
            addr % NODE_ALIGN == 0,
            size % NODE_ALIGN == 0,
            size >= NODE_SIZE,
            addr + size <= usize::MAX / 2,
            forall|a: int| addr <= a < addr + size ==> !free_at(old(self).spec_regions(), a),
        ensures
            final(self).wf(),
            final(self).spec_total() == old(self).spec_total(),
            final(self).spec_regions().len() >= 1,
            forall|a: int| #[trigger] free_at(final(self).spec_regions(), a) <==> (free_at(
                old(self).spec_regions(),
                a,
            ) || (addr <= a < addr + size)),
            sum_sizes(final(self).spec_regions()) == sum_sizes(old(self).spec_regions()) + size,
    {
        let ghost s0 = self.regions@;
        // Find the address-ordered insertion position.
        let mut idx: usize = 0;
        while idx < self.regions.len() && self.regions[idx].addr < addr
            invariant
                0 <= idx <= s0.len(),
                self.regions@ == s0,
                forall|j: int| 0 <= j < idx ==> (#[trigger] s0[j]).addr < addr,
            decreases s0.len() - idx,
        {
            idx = idx + 1;
        }
        proof {
            // The previous region, if any, ends at or before `addr`; the
            // following region, if any, starts at or after `addr + size`.
            if idx > 0 {
                if s0[idx - 1].addr + s0[idx - 1].size > addr {
                    assert(node_covers(s0[idx - 1], addr as int));
                    assert(free_at(s0, addr as int));
                    assert(false);
                }
            }
            if idx < s0.len() {
                assert(s0[idx as int].addr >= addr);
                if s0[idx as int].addr < addr + size {
                    assert(node_covers(s0[idx as int], s0[idx as int].addr as int));
                    assert(free_at(s0, s0[idx as int].addr as int));
                    assert(false);
                }
            }
        }
        let merge_left: bool = idx > 0 && self.regions[idx - 1].addr + self.regions[idx - 1].size
            == addr;
        let merge_right: bool = idx < self.regions.len() && addr + size == self.regions[idx].addr;
        if merge_left && merge_right {
            // The freed region exactly fills the gap: fuse all three.
            let prev = self.regions[idx - 1];
            let right = self.regions[idx];
            proof {
                assert(prev.addr + prev.size + size + right.size <= usize::MAX / 2);
            }
            let merged = ListNode { addr: prev.addr, size: prev.size + size + right.size };
            self.regions[idx - 1] = merged;
            let _ = self.regions.remove(idx);
            proof {
                let t = self.regions@;
                assert(t =~= s0.subrange(0, idx - 1) + seq![merged] + s0.subrange(
                    idx + 1,
                    s0.len() as int,
                ));
                lemma_add_region(s0, t, merged, idx as int, true, true, addr as int, size as int);
            }
        } else if merge_left {
            let prev = self.regions[idx - 1];
            let merged = ListNode { addr: prev.addr, size: prev.size + size };
            self.regions[idx - 1] = merged;
            proof {
                let t = self.regions@;
                assert(t =~= s0.subrange(0, idx - 1) + seq![merged] + s0.subrange(
                    idx as int,
                    s0.len() as int,
                ));
                lemma_add_region(s0, t, merged, idx as int, true, false, addr as int, size as int);
            }
        } else if merge_right {
            let right = self.regions[idx];
            let merged = ListNode { addr, size: size + right.size };
            self.regions[idx] = merged;
            proof {
                let t = self.regions@;
                assert(t =~= s0.subrange(0, idx as int) + seq![merged] + s0.subrange(
                    idx + 1,
                    s0.len() as int,
                ));
                lemma_add_region(s0, t, merged, idx as int, false, true, addr as int, size as int);
            }
        } else {
            let node = ListNode { addr, size };
            self.regions.insert(idx, node);
            proof {
                let t = self.regions@;
                assert(t =~= s0.subrange(0, idx as int) + seq![node] + s0.subrange(
                    idx as int,
                    s0.len() as int,
                ));
                lemma_add_region(s0, t, node, idx as int, false, false, addr as int, size as int);
            }
        }
    }

    /// Try to carve an allocation of `size` bytes at alignment `align` out
    /// of `region`: compute the carved address and the free remainders in
    /// front of and behind it, or reject the region.
    pub fn alloc_in_region(region: &ListNode, size: usize, align: usize) -> (res: Result<
        RegionAllocSplit,
        (),
    >)
        requires
            wf_node(*region),
            align >= NODE_ALIGN,
            align % NODE_ALIGN == 0,
            size % NODE_ALIGN == 0,
            align <= usize::MAX / 8,
            size <= usize::MAX / 8,
        ensures
            res is Ok <==> region_fits(*region, size as int, align as int),
            res matches Ok(sp) ==> {
                &&& sp.addr == carve_addr(*region, align as int)
                &&& sp.addr as int % align as int == 0
                &&& sp.addr as int % NODE_ALIGN as int == 0
                &&& region.addr <= sp.addr
                &&& sp.addr + size <= region.spec_end()
                &&& (match sp.start_node {
                    Some(sn) => sn.0 == region.addr && sn.0 + sn.1 == sp.addr && sn.1 >= NODE_SIZE
                        && sn.1 as int % NODE_ALIGN as int == 0,
                    None => sp.addr == region.addr,
                })
                &&& (match sp.end_node {
                    Some(en) => en.0 == sp.addr + size && en.0 + en.1 == region.spec_end()
                        && en.1 >= NODE_SIZE && en.1 as int % NODE_ALIGN as int == 0,
                    None => sp.addr + size == region.spec_end(),
                })
            },
    {
        let mut start_node: Option<(usize, usize)> = None;
        let region_start = region.start_addr();
        let region_end = region.end_addr();
        let mut start_addr = round_up(region_start, align);
        if start_addr != region_start {
            // Alignment padding is needed in front; it must leave room for
            // a node header of its own.
            start_addr = round_up(region_start + NODE_SIZE, align);
            let start_size = start_addr - region_start;
            if start_size < NODE_SIZE {
                return Err(());
            }
            proof {
                lemma_mod_transitive(start_addr as int, align as int, NODE_ALIGN as int);
                lemma_mod_sub(start_addr as int, region_start as int, NODE_ALIGN as int);
            }
            start_node = Some((region_start, start_size));
        }
        let mut end_node: Option<(usize, usize)> = None;
        let end_addr = start_addr + size;
        if end_addr < region_end {
            // The tail remainder must be big enough to stay on the free
            // list as a region of its own.
            let end_size = region_end - end_addr;
            if end_size < NODE_SIZE {
                return Err(());
            }
            proof {
                if region.addr as int % align as int != 0 {
                    lemma_mod_transitive(start_addr as int, align as int, NODE_ALIGN as int);
                }
                lemma_mod_add(region.addr as int, region.size as int, NODE_ALIGN as int);
                lemma_mod_add(start_addr as int, size as int, NODE_ALIGN as int);
                lemma_mod_sub(region_end as int, start_addr + size, NODE_ALIGN as int);
            }
            end_node = Some((end_addr, end_size));
        }
        if end_addr > region_end {
            return Err(());
        }
        proof {
            if region.addr as int % align as int != 0 {
                lemma_mod_transitive(start_addr as int, align as int, NODE_ALIGN as int);
            }
        }
        Ok(RegionAllocSplit { start_node, addr: start_addr, end_node })
    }

    /// First-fit allocation of `size` bytes at alignment `align`, both
    /// already normalized (`prepare_layout`): scan the free list in address
    /// order, carve the allocation out of the first region that fits, and
    /// return the free remainders to the list. `None` exactly when no
    /// region fits.
    #[verifier::rlimit(100)]
    #[verifier::spinoff_prover]
    pub fn raw_alloc(&mut self, size: usize, align: usize) -> (r: Option<usize>)
        requires
            old(self).wf(),
            align >= NODE_ALIGN,
            align % NODE_ALIGN == 0,
            size % NODE_ALIGN == 0,
            align <= usize::MAX / 8,
            size <= usize::MAX / 8,
        ensures
            final(self).wf(),
            final(self).spec_total() == old(self).spec_total(),
            (r is Some) <==> (exists|i: int|
                0 <= i < old(self).spec_regions().len() && region_fits(
                    #[trigger] old(self).spec_regions()[i],
                    size as int,
                    align as int,
                )),
            r matches Some(a) ==> (exists|i: int|
                {
                    &&& 0 <= i < old(self).spec_regions().len()
                    &&& region_fits(#[trigger] old(self).spec_regions()[i], size as int, align as int)
                    &&& (forall|j: int|
                        0 <= j < i ==> !region_fits(
                            #[trigger] old(self).spec_regions()[j],
                            size as int,
                            align as int,
                        ))
                    &&& a == carve_addr(old(self).spec_regions()[i], align as int)
                }),
            r matches Some(a) ==> a as int % align as int == 0,
            r matches Some(a) ==> a >= NODE_ALIGN,
            r matches Some(a) ==> (forall|x: int|
                #[trigger] free_at(final(self).spec_regions(), x) <==> (free_at(
                    old(self).spec_regions(),
                    x,
                ) && !(a <= x < a + size))),
            r matches Some(a) ==> sum_sizes(final(self).spec_regions()) == sum_sizes(
                old(self).spec_regions(),
            ) - size,
            r is None ==> final(self).spec_regions() == old(self).spec_regions()
                && final(self).spec_total() == old(self).spec_total(),
    {
        let ghost s0 = self.regions@;
        let ghost total0 = self.total;
        let mut i: usize = 0;
        while i < self.regions.len()
            invariant
                self.regions@ == s0,
                self.total == total0,
                s0 == old(self).spec_regions(),
                total0 == old(self).spec_total(),
                wf_list(s0),
                0 <= i <= s0.len(),
                align >= NODE_ALIGN,
                align % NODE_ALIGN == 0,
                size % NODE_ALIGN == 0,
                align <= usize::MAX / 8,
                size <= usize::MAX / 8,
                forall|j: int|
                    0 <= j < i ==> !region_fits(#[trigger] s0[j], size as int, align as int),
            decreases s0.len() - i,
        {
            let region = self.regions[i];
            match Self::alloc_in_region(&region, size, align) {
                Ok(split) => {
                    let ghost carve = split.addr as int;
                    let _ = self.regions.remove(i);
                    proof {
                        lemma_wf_remove(s0, i as int);
                    }
                    let ghost t1 = self.regions@;
                    if let Some(sn) = split.start_node {
                        proof {
                            assert forall|x: int| sn.0 <= x < sn.0 + sn.1 implies !free_at(
                                t1,
                                x,
                            ) by {
                                assert(node_covers(region, x));
                            }
                        }
                        self.add_free_region(sn.0, sn.1);
                    }
                    let ghost t2 = self.regions@;
                    proof {
                        // In both branches: the front remainder's addresses
                        // became free, and nothing else changed.
                        assert forall|x: int| #[trigger] free_at(t2, x) <==> (free_at(t1, x) || (
                        region.addr <= x < carve)) by {}
                    }
                    if let Some(en) = split.end_node {
                        proof {
                            assert forall|x: int| en.0 <= x < en.0 + en.1 implies !free_at(
                                t2,
                                x,
                            ) by {
                                assert(node_covers(region, x));
                                assert(!(region.addr <= x < carve));
                            }
                        }
                        self.add_free_region(en.0, en.1);
                    }
                    let ghost t3 = self.regions@;
                    proof {
                        assert forall|x: int| #[trigger] free_at(t3, x) <==> (free_at(t2, x) || (
                        carve + size <= x < region.spec_end())) by {}
                        assert forall|x: int| #[trigger] free_at(t3, x) <==> (free_at(s0, x) && !(
                        carve <= x < carve + size)) by {
                            if region.addr <= x < region.spec_end() {
                                assert(node_covers(region, x));
                                assert(node_covers(s0[i as int], x));
                                assert(free_at(s0, x));
                            }
                        }
                        assert(sum_sizes(t3) == sum_sizes(s0) - size);
                        assert(region_fits(s0[i as int], size as int, align as int));
                    }
                    return Some(split.addr);
                },
                Err(_) => {
                    i = i + 1;
                },
            }
        }
        None
    }

    /// Normalize a layout the way the allocator's bookkeeping needs it:
    /// the alignment is raised to at least the node header size, and the
    /// size is padded to a multiple of that alignment.
    pub fn prepare_layout(size: usize, align: usize) -> (r: (usize, usize))
        requires
            vstd::arithmetic::power2::is_pow2(align as int),
            size <= usize::MAX / 16,
            align <= usize::MAX / 16,
        ensures
            r.1 == spec_prepared_align(align as int),
            r.0 == spec_round_up(size as int, r.1 as int),
            r.1 >= NODE_SIZE,
            r.1 as int % NODE_ALIGN as int == 0,
            r.1 as int % align as int == 0,
            r.0 as int % NODE_ALIGN as int == 0,
            r.0 as int % r.1 as int == 0,
            size <= r.0 < size + r.1,
            r.0 <= usize::MAX / 8,
            r.1 <= usize::MAX / 8,
            vstd::arithmetic::power2::is_pow2(r.1 as int),
            size >= 1 ==> r.0 >= r.1,
            align >= 1,
    {
        proof {
            vstd::arithmetic::power2::lemma2_to64();
            assert(vstd::arithmetic::power2::is_pow2(16)) by {
                vstd::arithmetic::power2::is_pow2_equiv(16);
                assert(vstd::arithmetic::power::pow(2, 4) == 16) by {
                    vstd::arithmetic::power2::lemma_pow2(4);
                }
            }
            assert(vstd::arithmetic::power2::is_pow2(8)) by {
                vstd::arithmetic::power2::is_pow2_equiv(8);
                assert(vstd::arithmetic::power::pow(2, 3) == 8) by {
                    vstd::arithmetic::power2::lemma_pow2(3);
                }
            }
        }
        let palign: usize = if align < NODE_SIZE {
            NODE_SIZE
        } else {
            align
        };
        proof {
            assert(align >= 1) by {
                vstd::arithmetic::power2::is_pow2_equiv(align as int);
                let i = choose|i: nat|
                    vstd::arithmetic::power::pow(2, i) == align as int;
                vstd::arithmetic::power::lemma_pow_positive(2, i);
            }
            lemma_pow2_divides(NODE_ALIGN as int, palign as int);
            lemma_pow2_divides(align as int, palign as int);
        }
        let psize: usize = round_up(size, palign);
        proof {
            lemma_mod_transitive(psize as int, palign as int, NODE_ALIGN as int);
            if size >= 1 {
                assert(psize >= palign) by (nonlinear_arith)
                    requires
                        psize as int % palign as int == 0,
                        psize >= 1,
                        palign >= 1,
                ;
            }
        }
        (psize, palign)
    }

    /// Serve an allocation request of `size` bytes at alignment `align`
    /// (the global allocation hook): normalize the layout, then carve the
    /// first fitting free region. Every returned address is aligned, and
    /// exactly the padded size disappears from the free list; `None`
    /// exactly when no free region can serve the normalized request.
    pub fn allocate(&mut self, size: usize, align: usize) -> (r: Option<usize>)
        requires
            old(self).wf(),
            vstd::arithmetic::power2::is_pow2(align as int),
            size <= usize::MAX / 16,
            align <= usize::MAX / 16,
        ensures
            final(self).wf(),
            final(self).spec_total() == old(self).spec_total(),
            (r is Some) <==> (exists|i: int|
                0 <= i < old(self).spec_regions().len() && region_fits(
                    #[trigger] old(self).spec_regions()[i],
                    spec_prepared_size(size as int, align as int),
                    spec_prepared_align(align as int),
                )),
            r matches Some(a) ==> a as int % align as int == 0,
            r matches Some(a) ==> a >= NODE_ALIGN,
            r matches Some(a) ==> (forall|x: int|
                #[trigger] free_at(final(self).spec_regions(), x) <==> (free_at(
                    old(self).spec_regions(),
                    x,
                ) && !(a <= x < a + spec_prepared_size(size as int, align as int)))),
            r matches Some(a) ==> sum_sizes(final(self).spec_regions()) == sum_sizes(
                old(self).spec_regions(),
            ) - spec_prepared_size(size as int, align as int),
            r is None ==> final(self).spec_regions() == old(self).spec_regions(),
    {
        let (psize, palign) = Self::prepare_layout(size, align);
        let r = self.raw_alloc(psize, palign);
        proof {
            if let Some(a) = r {
                lemma_mod_transitive(a as int, palign as int, align as int);
            }
        }
        r
    }

    /// Return an allocation to the free list (the global deallocation
    /// hook). The layout is normalized exactly as `allocate` normalized
    /// it, so the same number of bytes comes back, and the freed region is
    /// coalesced with any neighbouring free region.
    pub fn deallocate(&mut self, ptr: usize, size: usize, align: usize)
        requires
            old(self).wf(),
            vstd::arithmetic::power2::is_pow2(align as int),
            size >= 1,
            size <= usize::MAX / 16,
            align <= usize::MAX / 16,
            ptr >= NODE_ALIGN,
            ptr as int % NODE_ALIGN as int == 0,
            ptr + spec_prepared_size(size as int, align as int) <= usize::MAX / 2,
            forall|x: int|
                ptr <= x < ptr + spec_prepared_size(size as int, align as int) ==> !free_at(
                    old(self).spec_regions(),
                    x,
                ),
        ensures
            final(self).wf(),
            final(self).spec_total() == old(self).spec_total(),
            forall|x: int| #[trigger] free_at(final(self).spec_regions(), x) <==> (free_at(
                old(self).spec_regions(),
                x,
            ) || (ptr <= x < ptr + spec_prepared_size(size as int, align as int))),
            sum_sizes(final(self).spec_regions()) == sum_sizes(old(self).spec_regions())
                + spec_prepared_size(size as int, align as int),
    {
        let (psize, _palign) = Self::prepare_layout(size, align);
        self.add_free_region(ptr, psize);
    }

    /// Walk the free list and report how much memory is free, in how many
    /// regions, against the registered total.
    pub fn stats(&self) -> (st: AllocStats)
        requires
            self.wf(),
        ensures
            st.free_regions == self.spec_regions().len(),
            st.free_memory == sum_sizes(self.spec_regions()),
            st.total == self.spec_total(),
            st.used == (if self.spec_total() >= sum_sizes(self.spec_regions()) {
                self.spec_total() - sum_sizes(self.spec_regions())
            } else {
                self.spec_total() - sum_sizes(self.spec_regions()) + usize::MAX + 1
            }),
    {
        let ghost s = self.regions@;
        let mut regions: usize = 0;
        let mut free_mem: usize = 0;
        let mut k: usize = 0;
        proof {
            assert(s.take(0) =~= Seq::<ListNode>::empty());
        }
        while k < self.regions.len()
            invariant
                self.regions@ == s,
                wf_list(s),
                0 <= k <= s.len(),
                regions == k,
                free_mem == sum_sizes(s.take(k as int)),
            decreases s.len() - k,
        {
            proof {
                assert(s.take(k + 1).drop_last() =~= s.take(k as int));
                assert(s.take(k + 1).last() == s[k as int]);
                assert(sum_sizes(s.take(k + 1)) == sum_sizes(s.take(k as int)) + s[k as int].size);
                assert(s =~= s.take(k + 1) + s.skip(k + 1));
                lemma_sum_concat(s.take(k + 1), s.skip(k + 1));
                lemma_sum_nonneg(s.skip(k + 1));
                if s.len() > 0 {
                    lemma_sum_span(s);
                    assert(wf_node(s[0]) && wf_node(s.last()));
                }
                assert(sum_sizes(s.take(k + 1)) <= usize::MAX / 2);
            }
            regions = regions + 1;
            free_mem = free_mem + self.regions[k].size;
            k = k + 1;
        }
        proof {
            assert(s.take(s.len() as int) =~= s);
        }
        AllocStats {
            free_regions: regions,
            free_memory: free_mem,
            total: self.total,
            used: self.total.wrapping_sub(free_mem),
        }
    }
}

/// A snapshot of the allocator's bookkeeping.
#[derive(Debug, Clone, Copy, PartialEq, Eq, Structural)]
pub struct AllocStats {
    /// Number of regions on the free list.
    pub free_regions: usize,
    /// Bytes held by the free list.
    pub free_memory: usize,
    /// Bytes the heap was registered with.
    pub total: usize,
    /// Bytes currently handed out (total minus free, wrapping).
    pub used: usize,
}

/// How an allocation is carved out of one free region: an optional free
/// remainder in front (from alignment padding), the allocation's address,
/// and an optional free remainder behind.
#[derive(Debug, Clone, Copy)]
pub struct RegionAllocSplit {
    /// Address and length of the free node left in front.
    pub start_node: Option<(usize, usize)>,
    /// Address of the allocation.
    pub addr: usize,
    /// Address and length of the free node left behind.
    pub end_node: Option<(usize, usize)>,
}


/// The allocator behind its interrupt-masking spinlock, the shape the
/// global allocation hook uses: allocation can be triggered from
/// interrupt-adjacent paths, so the critical section masks interrupts and
/// restores the previous interrupt state on release.
pub struct SpinLockFreelist {
    lock: SpinLock<FreeListAlloc, DisableInterrupts>,
}

impl SpinLockFreelist {
    pub closed spec fn spec_inner(self) -> FreeListAlloc {
        self.lock.spec_value()
    }

    pub closed spec fn spec_locked(self) -> bool {
        self.lock.spec_locked()
    }

    pub open spec fn wf(self) -> bool {
        &&& !self.spec_locked()
        &&& self.spec_inner().wf()
    }

    /// Put an allocator behind the lock.
    pub fn new(inner: FreeListAlloc) -> (a: SpinLockFreelist)
        requires
            inner.wf(),
        ensures
            a.wf(),
            a.spec_inner() == inner,
    {
        SpinLockFreelist { lock: SpinLock::disable_interrupts(inner) }
    }

    /// The global allocation hook: take the lock with interrupts masked,
    /// normalize the layout and carve the first fitting region, then
    /// release and restore the interrupt state.
    pub fn allocate(&mut self, cpu: &mut InterruptFlag, size: usize, align: usize) -> (r: Option<
        usize,
    >)
        requires
            old(self).wf(),
            vstd::arithmetic::power2::is_pow2(align as int),
            size <= usize::MAX / 16,
            align <= usize::MAX / 16,
        ensures
            final(self).wf(),
            final(cpu).enabled == old(cpu).enabled,
            final(self).spec_inner().spec_total() == old(self).spec_inner().spec_total(),
            (r is Some) <==> (exists|i: int|
                0 <= i < old(self).spec_inner().spec_regions().len() && region_fits(
                    #[trigger] old(self).spec_inner().spec_regions()[i],
                    spec_prepared_size(size as int, align as int),
                    spec_prepared_align(align as int),
                )),
            r matches Some(a) ==> a as int % align as int == 0,
            r matches Some(a) ==> a >= NODE_ALIGN,
            r matches Some(a) ==> sum_sizes(final(self).spec_inner().spec_regions()) == sum_sizes(
                old(self).spec_inner().spec_regions(),
            ) - spec_prepared_size(size as int, align as int),
            r matches Some(a) ==> (forall|x: int|
                #[trigger] free_at(final(self).spec_inner().spec_regions(), x) <==> (free_at(
                    old(self).spec_inner().spec_regions(),
                    x,
                ) && !(a <= x < a + spec_prepared_size(size as int, align as int)))),
            r is None ==> final(self).spec_inner().spec_regions() == old(
                self,
            ).spec_inner().spec_regions(),
    {
        self.lock.lock(cpu);
        let inner = self.lock.get_mut();
        let r = inner.allocate(size, align);
        self.lock.unlock(cpu);
        r
    }

    /// The global deallocation hook: take the lock with interrupts
    /// masked, return the region to the free list (coalescing with its
    /// neighbours), then release and restore the interrupt state.
    pub fn deallocate(&mut self, cpu: &mut InterruptFlag, ptr: usize, size: usize, align: usize)
        requires
            old(self).wf(),
            vstd::arithmetic::power2::is_pow2(align as int),
            size >= 1,
            size <= usize::MAX / 16,
            align <= usize::MAX / 16,
            ptr >= NODE_ALIGN,
            ptr as int % NODE_ALIGN as int == 0,
            ptr + spec_prepared_size(size as int, align as int) <= usize::MAX / 2,
            forall|x: int|
                ptr <= x < ptr + spec_prepared_size(size as int, align as int) ==> !free_at(
                    old(self).spec_inner().spec_regions(),
                    x,
                ),
        ensures
            final(self).wf(),
            final(cpu).enabled == old(cpu).enabled,
            final(self).spec_inner().spec_total() == old(self).spec_inner().spec_total(),
            forall|x: int| #[trigger]
                free_at(final(self).spec_inner().spec_regions(), x) <==> (free_at(
                    old(self).spec_inner().spec_regions(),
                    x,
                ) || (ptr <= x < ptr + spec_prepared_size(size as int, align as int))),
            sum_sizes(final(self).spec_inner().spec_regions()) == sum_sizes(
                old(self).spec_inner().spec_regions(),
            ) + spec_prepared_size(size as int, align as int),
    {
        self.lock.lock(cpu);
        let inner = self.lock.get_mut();
        inner.deallocate(ptr, size, align);
        self.lock.unlock(cpu);
    }

    /// A snapshot of the allocator's bookkeeping, taken under the lock.
    pub fn stats(&mut self, cpu: &mut InterruptFlag) -> (st: AllocStats)
        requires
            old(self).wf(),
        ensures
            final(self).wf(),
            final(self).spec_inner() == old(self).spec_inner(),
            final(cpu).enabled == old(cpu).enabled,
            st.free_regions == old(self).spec_inner().spec_regions().len(),
            st.free_memory == sum_sizes(old(self).spec_inner().spec_regions()),
            st.total == old(self).spec_inner().spec_total(),
    {
        self.lock.lock(cpu);
        let inner = self.lock.get_mut();
        let st = inner.stats();
        self.lock.unlock(cpu);
        st
    }
}

} // verus!
