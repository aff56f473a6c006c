//! The bootstrap allocator: a level-4 table whose own level-1 entries form
//! the list of free pages.
use vstd::prelude::*;
use crate::address::{index_of, page_table_of, VirtualAddress, ADDRESS_SPACE, PAGE_SIZE, PAGE_TABLE_SPAN};
use crate::page::{address_field, has_flag, points, Level1Entry, Pointer, PRESENT};
use crate::memory::{offered_pages, segment_ok, segment_pages, MemorySegment, MemoryUsage};
use crate::tables::{is_page_address, lemma_entry_word, PageTables};

verus! {

/// Why an allocator operation failed.
#[derive(Copy, Clone, Debug, PartialEq, Eq, Structural)]
pub enum AllocError {
    /// The tables handed to `Allocator::new` lack the chain for the null
    /// address, or that chain reuses a table.
    ScaffoldInvalid,
    /// No free page is left.
    OutOfMemory,
}

/// Bytes covered by one level-1 table, as an integer.
pub open spec fn span() -> int {
    0x20_0000
}

/// Address of free-list slot `k`.
pub open spec fn slot_address(k: int) -> u64 {
    (k * 4096) as u64
}

/// Counts of level-3, level-2 and level-1 tables that a hierarchy can hold:
/// every level-1 table has its level-2 table and every level-2 table its
/// level-3 table; at most one table of level 2 or 3 waits for children, and
/// only once the level below is full.
pub open spec fn shape_ok(n3: int, n2: int, n1: int) -> bool {
    &&& 1 <= n1 && 1 <= n2 && 1 <= n3 && n3 <= 512
    &&& 512 * (n2 - 1) <= n1 <= 512 * n2
    &&& 512 * (n3 - 1) <= n2 <= 512 * n3
    &&& n2 == 512 * (n3 - 1) ==> n1 == 512 * n2
}

/// The tables are frames other than the root, and no frame plays two parts.
pub open spec fn frames_ok(t: PageTables, l3: Seq<int>, l2: Seq<int>, l1: Seq<int>) -> bool {
    let n = t.frame_count() as int;
    &&& forall|i: int| 0 <= i < l3.len() ==> 1 <= #[trigger] l3[i] < n
    &&& forall|i: int| 0 <= i < l2.len() ==> 1 <= #[trigger] l2[i] < n
    &&& forall|i: int| 0 <= i < l1.len() ==> 1 <= #[trigger] l1[i] < n
    &&& forall|i: int, j: int| 0 <= i < l3.len() && 0 <= j < l3.len() && i != j ==> #[trigger] l3[i] != #[trigger] l3[j]
    &&& forall|i: int, j: int| 0 <= i < l2.len() && 0 <= j < l2.len() && i != j ==> #[trigger] l2[i] != #[trigger] l2[j]
    &&& forall|i: int, j: int| 0 <= i < l1.len() && 0 <= j < l1.len() && i != j ==> #[trigger] l1[i] != #[trigger] l1[j]
    &&& forall|i: int, j: int| 0 <= i < l3.len() && 0 <= j < l2.len() ==> #[trigger] l3[i] != #[trigger] l2[j]
    &&& forall|i: int, j: int| 0 <= i < l3.len() && 0 <= j < l1.len() ==> #[trigger] l3[i] != #[trigger] l1[j]
    &&& forall|i: int, j: int| 0 <= i < l2.len() && 0 <= j < l1.len() ==> #[trigger] l2[i] != #[trigger] l1[j]
}

/// Each table is linked from its parent at the index its position gives.
pub open spec fn links_ok(t: PageTables, l3: Seq<int>, l2: Seq<int>, l1: Seq<int>) -> bool {
    &&& forall|h: int| 0 <= h < l3.len() ==> #[trigger] t.follow(0, h) == Some(l3[h])
    &&& forall|g: int| 0 <= g < l2.len() ==> #[trigger] t.follow(l3[g / 512], g % 512) == Some(l2[g])
    &&& forall|r: int| 0 <= r < l1.len() ==> #[trigger] t.follow(l2[r / 512], r % 512) == Some(l1[r])
}

/// Once the level-1 tables fill their last level-2 table, the entry where the
/// next level-2 or level-3 table goes is clear.
pub open spec fn pending_ok(t: PageTables, l3: Seq<int>, l2: Seq<int>, l1: Seq<int>) -> bool {
    &&& (l1.len() == 512 * l2.len() && l2.len() < 512 * l3.len()) ==> !points(
        t.word(l3[l2.len() as int / 512], l2.len() as int % 512),
    )
    &&& (l1.len() == 512 * l2.len() && l2.len() == 512 * l3.len() && l3.len() < 512) ==> !points(
        t.word(0, l3.len() as int),
    )
}

/// The page named by free-list slot `k`, reached through the recorded tables.
pub open spec fn slot_page(t: PageTables, l1: Seq<int>, k: int) -> u64 {
    address_field(t.word(l1[k / 512], k % 512))
}

proof fn lemma_indices(a: u64)
    requires
        a < ADDRESS_SPACE,
    ensures
        index_of(a, 4) == (a as int) / 0x80_0000_0000,
        index_of(a, 3) == ((a as int) / 0x4000_0000) % 512,
        index_of(a, 2) == ((a as int) / 0x20_0000) % 512,
        (a as int) / 0x4000_0000 / 512 == (a as int) / 0x80_0000_0000,
        (a as int) / 0x20_0000 / 512 == (a as int) / 0x4000_0000,
{
    assert(a / 0x4000_0000 / 512 == a / 0x80_0000_0000 && a / 0x20_0000 / 512 == a / 0x4000_0000
        && (a / 0x80_0000_0000) % 512 == a / 0x80_0000_0000) by (bit_vector)
        requires
            a < 0x1_0000_0000_0000u64,
    ;
}

proof fn lemma_slot(k: int)
    requires
        0 <= k < 0x10_0000_0000,
    ensures
        slot_address(k) == k * 4096,
        index_of(slot_address(k), 1) == k % 512,
        (slot_address(k) as int) / span() == k / 512,
        slot_address(k) < ADDRESS_SPACE,
{
    assert(0 <= k * 4096 < 0x1_0000_0000_0000) by (nonlinear_arith)
        requires
            0 <= k < 0x10_0000_0000,
    ;
    assert((k * 4096) / 4096 == k) by (nonlinear_arith);
    assert((k * 4096) / 0x20_0000 == k / 512) by (nonlinear_arith)
        requires
            0 <= k,
    ;
}

/// Under the recorded tables, every address below the covered span walks to
/// the level-1 table of its 2 MiB region.
proof fn lemma_walk(t: PageTables, l3: Seq<int>, l2: Seq<int>, l1: Seq<int>, a: u64)
    requires
        t.wf(),
        shape_ok(l3.len() as int, l2.len() as int, l1.len() as int),
        links_ok(t, l3, l2, l1),
        (a as int) < l1.len() * span(),
        (a as int) < ADDRESS_SPACE,
    ensures
        t.walk(a) == Some(l1[(a as int) / span()]),
{
    lemma_indices(a);
    let r = (a as int) / span();
    let g = r / 512;
    let h = g / 512;
    assert(r < l1.len()) by (nonlinear_arith)
        requires
            (a as int) < l1.len() * span(),
            r == (a as int) / span(),
            span() == 0x20_0000,
    ;
    assert(g < l2.len()) by (nonlinear_arith)
        requires
            r < l1.len(),
            l1.len() <= 512 * l2.len(),
            g == r / 512,
    ;
    assert(h < l3.len()) by (nonlinear_arith)
        requires
            g < l2.len(),
            l2.len() <= 512 * l3.len(),
            h == g / 512,
    ;
    assert(t.follow(0, h) == Some(l3[h]));
    assert(t.follow(l3[g / 512], g % 512) == Some(l2[g]));
    assert(t.follow(l2[r / 512], r % 512) == Some(l1[r]));
}

/// A changed store keeps a link when the linking word and the frames up to
/// the old count are kept.
proof fn lemma_follow_kept(t: PageTables, t2: PageTables, f: int, j: int)
    requires
        t.wf(),
        t2.wf(),
        t.frame_count() <= t2.frame_count(),
        forall|g: int| 0 <= g < t.frame_count() ==> #[trigger] t2.base(g) == t.base(g),
        t2.word(f, j) == t.word(f, j),
        t.follow(f, j).is_some(),
    ensures
        t2.follow(f, j) == t.follow(f, j),
{
    let a = address_field(t.word(f, j));
    let g = t.frame_at(a);
    assert(t.base(g) == a);
    assert(t2.base(g) == a);
    t2.lemma_frame_at(g);
}

/// The slot at `x` lies below the regions covered by `n1` level-1 tables
/// exactly when its region start is at most that of the last of them.
proof fn lemma_boundary(x: u64, n1: int)
    requires
        1 <= n1,
        n1 * span() <= ADDRESS_SPACE,
        (x as int) <= ADDRESS_SPACE,
    ensures
        page_table_of(x) == (x as int) - (x as int) % span(),
        page_table_of(((n1 - 1) * span()) as u64) == (n1 - 1) * span(),
        page_table_of(x) > page_table_of(((n1 - 1) * span()) as u64) <==> (x as int) >= n1 * span(),
{
    let y = (n1 - 1) * span();
    assert(0 <= y < 0x1_0000_0000_0000) by (nonlinear_arith)
        requires
            1 <= n1,
            n1 * 0x20_0000 <= 0x1_0000_0000_0000,
            y == (n1 - 1) * 0x20_0000,
    ;
    assert(y % 0x20_0000 == 0) by (nonlinear_arith)
        requires
            y == (n1 - 1) * 0x20_0000,
    ;
    let xi = x as int;
    assert(xi - xi % 0x20_0000 > y <==> xi >= n1 * 0x20_0000) by (nonlinear_arith)
        requires
            y == (n1 - 1) * 0x20_0000,
            0 <= xi,
    ;
}

/// Links, the parts frames play and the level-1 entries survive a change of
/// the store that keeps every old frame and every word but one, when that word
/// is no link and lies outside the level-1 tables.
proof fn lemma_kept(
    t: PageTables,
    t2: PageTables,
    l3: Seq<int>,
    l2: Seq<int>,
    l1: Seq<int>,
    f: int,
    j: int,
)
    requires
        t.wf(),
        t2.wf(),
        t.frame_count() <= t2.frame_count(),
        forall|g: int| 0 <= g < t.frame_count() ==> #[trigger] t2.base(g) == t.base(g),
        forall|g: int, k: int|
            0 <= g < t.frame_count() && 0 <= k < 512 && (g != f || k != j) ==> #[trigger] t2.word(g, k)
                == t.word(g, k),
        shape_ok(l3.len() as int, l2.len() as int, l1.len() as int),
        frames_ok(t, l3, l2, l1),
        links_ok(t, l3, l2, l1),
        forall|r: int| 0 <= r < l1.len() ==> #[trigger] l1[r] != f,
        f == 0 ==> j >= l3.len(),
        forall|g: int| 0 <= g < l2.len() ==> #[trigger] l3[g / 512] != f || g % 512 != j,
        forall|r: int| 0 <= r < l1.len() ==> #[trigger] l2[r / 512] != f || r % 512 != j,
    ensures
        links_ok(t2, l3, l2, l1),
        frames_ok(t2, l3, l2, l1),
        forall|r: int, k: int|
            0 <= r < l1.len() && 0 <= k < 512 ==> #[trigger] t2.word(l1[r], k) == t.word(l1[r], k),
        forall|p: u64| t.has(p) ==> #[trigger] t2.has(p),
{
    assert forall|h: int| 0 <= h < l3.len() implies #[trigger] t2.follow(0, h) == Some(l3[h]) by {
        lemma_follow_kept(t, t2, 0, h);
    }
    assert forall|g: int| 0 <= g < l2.len() implies #[trigger] t2.follow(l3[g / 512], g % 512)
        == Some(l2[g]) by {
        assert(g / 512 < l3.len()) by (nonlinear_arith)
            requires
                0 <= g < l2.len(),
                l2.len() <= 512 * l3.len(),
        ;
        assert(l3[g / 512] != f || g % 512 != j);
        lemma_follow_kept(t, t2, l3[g / 512], g % 512);
    }
    assert forall|r: int| 0 <= r < l1.len() implies #[trigger] t2.follow(l2[r / 512], r % 512)
        == Some(l1[r]) by {
        assert(r / 512 < l2.len()) by (nonlinear_arith)
            requires
                0 <= r < l1.len(),
                l1.len() <= 512 * l2.len(),
        ;
        assert(l2[r / 512] != f || r % 512 != j);
        lemma_follow_kept(t, t2, l2[r / 512], r % 512);
    }
    assert forall|p: u64| t.has(p) implies #[trigger] t2.has(p) by {
        let g = t.frame_at(p);
        assert(t2.base(g) == p);
    }
}

/// In every state an allocator can reach, the last free-list slot lies in a
/// 2 MiB region whose level-1 table is in place, and no page that serves as
/// a table is on the free list, so none is ever handed out.
pub proof fn lemma_scaffolding_growth(a: &Allocator)
    requires
        a.wf(),
    ensures
        page_table_of(a.last_free_at()) <= page_table_of(a.last_page_table_at()),
        forall|p: u64| a.table().has(p) ==> !#[trigger] a.free_pages().contains(p),
{
    lemma_boundary(a.last_free_at(), a.l1@.len() as int);
    a.lemma_free_pages();
    assert forall|p: u64| a.table().has(p) implies !#[trigger] a.free_pages().contains(p) by {
        if a.free_pages().contains(p) {
            let i = choose|i: int| 0 <= i < a.free_pages().len() && a.free_pages()[i] == p;
            assert(slot_page(a.free, a.l1@, i + 1) == p);
        }
    }
}

proof fn lemma_free_slot(a: &Allocator, k: int)
    requires
        a.wf(),
        1 <= k <= a.last_free_at() / 4096,
    ensures
        a.table().leaf(slot_address(k)) == Some(a.table().word(a.l1@[k / 512], k % 512)),
        points(a.table().word(a.l1@[k / 512], k % 512)),
        a.free_pages()[k - 1] == address_field(a.table().word(a.l1@[k / 512], k % 512)),
        !a.table().has(a.free_pages()[k - 1]),
{
    a.lemma_free_pages();
    lemma_slot(k);
    lemma_walk(a.free, a.l3@, a.l2@, a.l1@, slot_address(k));
    assert(points(a.free.word(a.l1@[k / 512], k % 512)));
    assert(!a.free.has(slot_page(a.free, a.l1@, k)));
}

/// `t2` is `t` with one table added at `page`, its entries all clear, and
/// linked from entry `j1` of frame `f1`. Besides that entry, at most entry
/// `j2` of frame `f2` changed, and only to be cleared.
pub open spec fn linked_table(
    t: PageTables,
    t2: PageTables,
    page: u64,
    f1: int,
    j1: int,
    f2: int,
    j2: int,
) -> bool {
    let n = t.frame_count() as int;
    &&& t2.frame_count() == n + 1
    &&& t2.base(n) == page
    &&& forall|k: int| 0 <= k < 512 ==> #[trigger] t2.word(n, k) == 0
    &&& 0 <= f1 < n && 0 <= j1 < 512
    &&& t2.follow(f1, j1) == Some(n)
    &&& (f2 == f1 && j2 == j1) || t2.word(f2, j2) == 0
    &&& forall|g: int| 0 <= g < n ==> #[trigger] t2.base(g) == t.base(g)
    &&& forall|g: int, k: int|
        0 <= g < n && 0 <= k < 512 && (g != f1 || k != j1) && (g != f2 || k != j2) ==> #[trigger] t2.word(g, k)
            == t.word(g, k)
}

/// Level of the first table that a 2 MiB region starting at `c` lacks, once
/// the region before it is complete: a level-1 table within a 1 GiB span, a
/// level-2 table at a 1 GiB boundary, a level-3 table at a 512 GiB boundary.
pub open spec fn first_level(c: int) -> int {
    if c % 0x4000_0000 != 0 || c >= 0x1_0000_0000_0000 {
        1
    } else if c % 0x80_0000_0000 != 0 {
        2
    } else {
        3
    }
}

/// Whether the next page reclaimed from cursors `s` becomes a table.
pub open spec fn diverts(s: (int, int, int)) -> bool {
    s.0 + 4096 >= s.1 + 0x20_0000
}

/// The cursors after one reclaim from cursors `s`.
pub open spec fn reclaim_step(s: (int, int, int)) -> (int, int, int) {
    if !diverts(s) {
        (s.0 + 4096, s.1, s.2)
    } else if s.2 == 3 {
        (s.0, s.1, 2)
    } else if s.2 == 2 {
        (s.0, s.1, 1)
    } else {
        (s.0, s.1 + 0x20_0000, first_level(s.1 + 2 * 0x20_0000))
    }
}

/// The cursors after `n` reclaims from cursors `s`.
pub open spec fn reclaim_steps(s: (int, int, int), n: nat) -> (int, int, int)
    decreases n,
{
    if n == 0 {
        s
    } else {
        reclaim_step(reclaim_steps(s, (n - 1) as nat))
    }
}

/// The level of the next table follows from the tables the allocator holds.
proof fn lemma_level(a: &Allocator)
    requires
        a.wf(),
    ensures
        a.l1@.len() * span() < ADDRESS_SPACE ==> a.table_level() == if a.l1@.len() / 512 < a.l2@.len() {
            1int
        } else if a.l1@.len() / 0x4_0000 < a.l3@.len() {
            2int
        } else {
            3int
        },
        a.l1@.len() * span() == ADDRESS_SPACE ==> a.table_level() == 1,
{
    let t = a.free;
    let l3 = a.l3@;
    let l2 = a.l2@;
    let n1 = a.l1@.len() as int;
    let n2 = l2.len() as int;
    let n3 = l3.len() as int;
    let c = (a.last_page_table.0 + PAGE_TABLE_SPAN) as u64;
    assert(c as int == n1 * span());
    if n1 * span() < ADDRESS_SPACE {
        lemma_indices(c);
        let g = n1 / 512;
        let h = g / 512;
        assert(c as int / span() == n1) by (nonlinear_arith)
            requires
                c as int == n1 * 0x20_0000,
        ;
        assert(n1 / 0x4_0000 == h) by (nonlinear_arith)
            requires
                g == n1 / 512,
                h == g / 512,
                n1 >= 0,
        ;
        assert(g <= n2 && h <= n3) by (nonlinear_arith)
            requires
                n1 <= 512 * n2,
                n2 <= 512 * n3,
                g == n1 / 512,
                h == g / 512,
        ;
        assert(h == n3 ==> n1 == 512 * n2 && n2 == 512 * n3) by (nonlinear_arith)
            requires
                n1 <= 512 * n2,
                n2 <= 512 * n3,
                g == n1 / 512,
                h == g / 512,
        ;
        assert(g == n2 ==> n1 == 512 * n2) by (nonlinear_arith)
            requires
                n1 <= 512 * n2,
                g == n1 / 512,
        ;
        assert(g == n2 && h < n3 ==> n2 < 512 * n3) by (nonlinear_arith)
            requires
                h == g / 512,
        ;
        if h < n3 {
            assert(t.follow(0, h) == Some(l3[h]));
            if g < n2 {
                assert(t.follow(l3[g / 512], g % 512) == Some(l2[g]));
            }
        }
    } else {
        assert(l2.len() >= 1 && l3.len() >= 1);
        assert(index_of(c, 4) == 0 && index_of(c, 3) == 0);
        assert(t.follow(0, 0) == Some(l3[0]));
        assert(t.follow(l3[0int / 512], 0int % 512) == Some(l2[0]));
    }
}

/// When the next 2 MiB region does not start a new 1 GiB span, the page that
/// the free list diverts next becomes a level-1 table; and the free list
/// outgrows its tables exactly when its next slot is that region's start.
pub proof fn lemma_next_table(a: &Allocator)
    requires
        a.wf(),
    ensures
        a.needs_table() == diverts(a.cursors()),
        a.needs_table() == (a.last_free_at() + PAGE_SIZE == a.last_page_table_at() + PAGE_TABLE_SPAN),
        (a.last_page_table_at() + PAGE_TABLE_SPAN) % 0x4000_0000 != 0 ==> a.table_level() == 1,
        1 <= a.table_level() <= 3,
{
    let n1 = a.l1@.len() as int;
    let n2 = a.l2@.len() as int;
    lemma_boundary((a.last_free.0 + PAGE_SIZE) as u64, n1);
    lemma_level(a);
    if (a.last_page_table.0 + PAGE_TABLE_SPAN) % 0x4000_0000 != 0 {
        assert(n1 % 512 != 0) by (nonlinear_arith)
            requires
                (n1 * 0x20_0000) % 0x4000_0000 != 0,
        ;
        assert(n1 / 512 < n2) by (nonlinear_arith)
            requires
                n1 % 512 != 0,
                n1 <= 512 * n2,
        ;
    }
}

/// The free list is exactly what the level-1 entries of slots 1 up to
/// `last_free` name: each such entry is reached by the walk, is present, and
/// names a page that is no table; the pages are distinct.
pub proof fn lemma_free_list(a: &Allocator)
    requires
        a.wf(),
    ensures
        a.free_pages().len() == a.last_free_at() / 4096,
        a.free_pages().no_duplicates(),
        forall|k: int| 1 <= k <= a.free_pages().len() ==> (#[trigger] a.table().leaf(slot_address(k))).is_some(),
        forall|k: int| 1 <= k <= a.free_pages().len() ==> points(#[trigger] a.table().leaf(slot_address(k)).unwrap()),
        forall|k: int| 1 <= k <= a.free_pages().len() ==> a.free_pages()[k - 1] == address_field(
            #[trigger] a.table().leaf(slot_address(k)).unwrap(),
        ),
        forall|i: int| 0 <= i < a.free_pages().len() ==> !a.table().has(#[trigger] a.free_pages()[i]),
{
    a.lemma_free_pages();
    assert forall|k: int| 1 <= k <= a.free_pages().len() implies (#[trigger] a.table().leaf(slot_address(k))).is_some()
        && points(a.table().leaf(slot_address(k)).unwrap()) && a.free_pages()[k - 1] == address_field(
        a.table().leaf(slot_address(k)).unwrap(),
    ) by {
        lemma_free_slot(a, k);
    }
    assert forall|i: int| 0 <= i < a.free_pages().len() implies !a.table().has(#[trigger] a.free_pages()[i]) by {
        lemma_free_slot(a, i + 1);
    }
    assert forall|i: int, j: int| 0 <= i < a.free_pages().len() && 0 <= j < a.free_pages().len() && i != j
        implies a.free_pages()[i] != a.free_pages()[j] by {
        assert(slot_page(a.free, a.l1@, i + 1) != slot_page(a.free, a.l1@, j + 1));
    }
}

/// The pages of `s` that are not tables in `t`, in order.
pub open spec fn kept(s: Seq<u64>, t: PageTables) -> Seq<u64>
    decreases s.len(),
{
    if s.len() == 0 {
        Seq::empty()
    } else if t.has(s.last()) {
        kept(s.drop_last(), t)
    } else {
        kept(s.drop_last(), t).push(s.last())
    }
}

proof fn lemma_kept_same(s: Seq<u64>, t1: PageTables, t2: PageTables)
    requires
        forall|i: int| 0 <= i < s.len() ==> t1.has(#[trigger] s[i]) == t2.has(s[i]),
    ensures
        kept(s, t1) == kept(s, t2),
    decreases s.len(),
{
    if s.len() > 0 {
        lemma_kept_same(s.drop_last(), t1, t2);
        assert(t1.has(s[s.len() - 1]) == t2.has(s[s.len() - 1]));
    }
}

proof fn lemma_kept_within(s: Seq<u64>, t: PageTables, p: u64)
    requires
        kept(s, t).contains(p),
    ensures
        s.contains(p),
    decreases s.len(),
{
    if s.len() > 0 {
        if p == s.last() {
            assert(s[s.len() - 1] == p);
        } else {
            let k = kept(s.drop_last(), t);
            if !t.has(s.last()) {
                let i = choose|i: int| 0 <= i < k.push(s.last()).len() && k.push(s.last())[i] == p;
                assert(k[i] == p);
            }
            lemma_kept_within(s.drop_last(), t, p);
            let i = choose|i: int| 0 <= i < s.drop_last().len() && s.drop_last()[i] == p;
            assert(s[i] == p);
        }
    }
}

/// A change of one word in a level-1 table keeps every link, the cleared
/// entries, and the set of frame addresses.
proof fn lemma_leaf_write(
    t: PageTables,
    t2: PageTables,
    l3: Seq<int>,
    l2: Seq<int>,
    l1: Seq<int>,
    f: int,
    j: int,
)
    requires
        t.wf(),
        t2.wf(),
        t2.frame_count() == t.frame_count(),
        forall|g: int| 0 <= g < t.frame_count() ==> #[trigger] t2.base(g) == t.base(g),
        forall|g: int, k: int|
            0 <= g < t.frame_count() && 0 <= k < 512 && (g != f || k != j) ==> #[trigger] t2.word(g, k)
                == t.word(g, k),
        shape_ok(l3.len() as int, l2.len() as int, l1.len() as int),
        frames_ok(t, l3, l2, l1),
        links_ok(t, l3, l2, l1),
        pending_ok(t, l3, l2, l1),
        exists|r: int| 0 <= r < l1.len() && l1[r] == f,
    ensures
        links_ok(t2, l3, l2, l1),
        pending_ok(t2, l3, l2, l1),
        forall|p: u64| #[trigger] t2.has(p) == t.has(p),
{
    assert forall|h: int| 0 <= h < l3.len() implies #[trigger] t2.follow(0, h) == Some(l3[h]) by {
        lemma_follow_kept(t, t2, 0, h);
    }
    assert forall|g: int| 0 <= g < l2.len() implies #[trigger] t2.follow(l3[g / 512], g % 512) == Some(l2[g]) by {
        assert(g / 512 < l3.len()) by (nonlinear_arith)
            requires
                0 <= g < l2.len(),
                l2.len() <= 512 * l3.len(),
        ;
        lemma_follow_kept(t, t2, l3[g / 512], g % 512);
    }
    assert forall|r: int| 0 <= r < l1.len() implies #[trigger] t2.follow(l2[r / 512], r % 512) == Some(l1[r]) by {
        assert(r / 512 < l2.len()) by (nonlinear_arith)
            requires
                0 <= r < l1.len(),
                l1.len() <= 512 * l2.len(),
        ;
        lemma_follow_kept(t, t2, l2[r / 512], r % 512);
    }
    let n2 = l2.len() as int;
    let n3 = l3.len() as int;
    if l1.len() == 512 * n2 && n2 < 512 * n3 {
        assert(n2 / 512 < n3) by (nonlinear_arith)
            requires
                n2 < 512 * n3,
        ;
    }
    assert forall|p: u64| #[trigger] t2.has(p) == t.has(p) by {
        if t.has(p) {
            let g = t.frame_at(p);
            assert(t2.base(g) == p);
        }
        if t2.has(p) {
            let g = t2.frame_at(p);
            assert(t.base(g) == p);
        }
    }
}

proof fn lemma_steps_add(s: (int, int, int), m: nat, n: nat)
    ensures
        reclaim_steps(reclaim_steps(s, m), n) == reclaim_steps(s, m + n),
    decreases n,
{
    if n > 0 {
        lemma_steps_add(s, m, (n - 1) as nat);
    }
}

proof fn lemma_offered_concat(a: Seq<MemorySegment>, b: Seq<MemorySegment>)
    ensures
        offered_pages(a + b) == offered_pages(a) + offered_pages(b),
    decreases a.len(),
{
    if a.len() == 0 {
        assert(a + b =~= b);
    } else {
        assert((a + b)[0] == a[0]);
        assert((a + b).skip(1) =~= a.skip(1) + b);
        lemma_offered_concat(a.skip(1), b);
        assert(offered_pages(a + b) =~= offered_pages(a) + offered_pages(b));
    }
}

proof fn lemma_kept_concat(a: Seq<u64>, b: Seq<u64>, t: PageTables)
    ensures
        kept(a + b, t) == kept(a, t) + kept(b, t),
    decreases b.len(),
{
    if b.len() == 0 {
        assert(a + b =~= a);
        assert(kept(a, t) + kept(b, t) =~= kept(a, t));
    } else {
        assert((a + b).drop_last() =~= a + b.drop_last());
        assert((a + b).last() == b.last());
        lemma_kept_concat(a, b.drop_last(), t);
        if !t.has(b.last()) {
            assert(kept(a, t) + kept(b.drop_last(), t).push(b.last()) =~= (kept(a, t) + kept(
                b.drop_last(),
                t,
            )).push(b.last()));
        }
    }
}

/// Discovering the pages of `s1` and then of `s2` moves the cursors as
/// discovering those of `s1 + s2` does, and, under the same final tables,
/// adds the same pages to the free list in the same order.
pub proof fn lemma_discover_concat(
    c: (int, int, int),
    s1: Seq<MemorySegment>,
    s2: Seq<MemorySegment>,
    t: PageTables,
)
    ensures
        reclaim_steps(reclaim_steps(c, offered_pages(s1).len()), offered_pages(s2).len())
            == reclaim_steps(c, offered_pages(s1 + s2).len()),
        kept(offered_pages(s1 + s2), t) == kept(offered_pages(s1), t) + kept(offered_pages(s2), t),
        forall|i: int|
            0 <= i < offered_pages(s2).len() ==> diverts(
                #[trigger] reclaim_steps(reclaim_steps(c, offered_pages(s1).len()), i as nat),
            ) == diverts(reclaim_steps(c, (offered_pages(s1).len() + i) as nat)),
{
    lemma_offered_concat(s1, s2);
    lemma_kept_concat(offered_pages(s1), offered_pages(s2), t);
    lemma_steps_add(c, offered_pages(s1).len(), offered_pages(s2).len());
    assert forall|i: int| 0 <= i < offered_pages(s2).len() implies diverts(
        #[trigger] reclaim_steps(reclaim_steps(c, offered_pages(s1).len()), i as nat),
    ) == diverts(reclaim_steps(c, (offered_pages(s1).len() + i) as nat)) by {
        lemma_steps_add(c, offered_pages(s1).len(), i as nat);
    }
}

/// The allocator: the free table, the last slot written to the free list, and
/// the start of the last 2 MiB region whose level-1 table is in place.
pub struct Allocator {
    free: PageTables,
    last_free: VirtualAddress,
    last_page_table: VirtualAddress,
    /// Frames of the level-3 tables, by level-4 index.
    l3: Ghost<Seq<int>>,
    /// Frames of the level-2 tables, by address / 1 GiB.
    l2: Ghost<Seq<int>>,
    /// Frames of the level-1 tables, by address / 2 MiB.
    l1: Ghost<Seq<int>>,
}

impl Allocator {
    /// The tables the allocator owns.
    pub closed spec fn table(&self) -> PageTables {
        self.free
    }

    /// The address of the last free-list slot written; null when the list is
    /// empty.
    pub closed spec fn last_free_at(&self) -> u64 {
        self.last_free.0
    }

    /// The start of the last 2 MiB region with a level-1 table in place.
    pub closed spec fn last_page_table_at(&self) -> u64 {
        self.last_page_table.0
    }

    /// The free pages, oldest first: the pages named by the level-1 entries
    /// of slots 1 up to the last one written.
    pub closed spec fn free_pages(&self) -> Seq<u64> {
        Seq::new(
            (self.last_free.0 / 4096) as nat,
            |i: int| address_field(self.free.leaf(slot_address(i + 1)).unwrap()),
        )
    }

    pub closed spec fn wf(&self) -> bool {
        let t = self.free;
        let l3 = self.l3@;
        let l2 = self.l2@;
        let l1 = self.l1@;
        &&& t.wf()
        &&& shape_ok(l3.len() as int, l2.len() as int, l1.len() as int)
        &&& self.last_page_table.0 == (l1.len() - 1) * span()
        &&& self.last_free.0 % 4096 == 0
        &&& (self.last_free.0 as int) < l1.len() * span()
        &&& l1.len() * span() <= ADDRESS_SPACE
        &&& frames_ok(t, l3, l2, l1)
        &&& links_ok(t, l3, l2, l1)
        &&& pending_ok(t, l3, l2, l1)
        &&& forall|k: int| 1 <= k <= self.last_free.0 / 4096 ==> !t.has(#[trigger] slot_page(t, l1, k))
        &&& forall|k: int| 1 <= k <= self.last_free.0 / 4096 ==> points(#[trigger] t.word(l1[k / 512], k % 512))
        &&& forall|k1: int, k2: int|
            1 <= k1 <= self.last_free.0 / 4096 && 1 <= k2 <= self.last_free.0 / 4096 && k1 != k2
                ==> #[trigger] slot_page(t, l1, k1) != #[trigger] slot_page(t, l1, k2)
    }

    /// The free pages, read through the recorded level-1 tables.
    proof fn lemma_free_pages(&self)
        requires
            self.wf(),
        ensures
            self.free_pages().len() == self.last_free.0 / 4096,
            forall|i: int| 0 <= i < self.free_pages().len() ==> #[trigger] self.free_pages()[i]
                == slot_page(self.free, self.l1@, i + 1),
    {
        assert forall|i: int| 0 <= i < self.free_pages().len() implies #[trigger] self.free_pages()[i]
            == slot_page(self.free, self.l1@, i + 1) by {
            lemma_slot(i + 1);
            lemma_walk(self.free, self.l3@, self.l2@, self.l1@, slot_address(i + 1));
        }
    }

    /// Whether the slot after the last one lies past the level-1 tables in
    /// place, so that the next page reclaimed becomes a table.
    pub open spec fn needs_table(&self) -> bool {
        page_table_of((self.last_free_at() + PAGE_SIZE) as u64) > page_table_of(self.last_page_table_at())
    }

    /// Level of the table that the next page diverted from the free list
    /// becomes: 3 when the root has no level-3 table on the way to the 2 MiB
    /// region after `last_page_table`, else 2 when that table has no level-2
    /// table there, else 1.
    pub open spec fn table_level(&self) -> int {
        let c = (self.last_page_table_at() + PAGE_TABLE_SPAN) as u64;
        match self.table().follow(0, index_of(c, 4) as int) {
            None => 3,
            Some(f3) => match self.table().follow(f3, index_of(c, 3) as int) {
                None => 2,
                Some(_) => 1,
            },
        }
    }

    /// The cursors and the level of the next table: `(last_free,
    /// last_page_table, table_level)`.
    pub open spec fn cursors(&self) -> (int, int, int) {
        (self.last_free_at() as int, self.last_page_table_at() as int, self.table_level())
    }

    /// The chain for the null address is complete in `t`: root, level-3,
    /// level-2 and level-1 tables are four distinct frames, and the level-1
    /// entry for the null address is present.
    pub open spec fn scaffold_ok(t: PageTables) -> bool {
        match t.follow(0, 0) {
            Some(f3) => match t.follow(f3, 0) {
                Some(f2) => match t.follow(f2, 0) {
                    Some(f1) => points(t.word(f1, 0)) && f3 != 0 && f2 != 0 && f1 != 0 && f3
                        != f2 && f3 != f1 && f2 != f1,
                    None => false,
                },
                None => false,
            },
            None => false,
        }
    }

    /// Takes over `free`, whose root must already hold a complete chain of
    /// tables for the null address. Both cursors start at null.
    pub fn new(free: PageTables) -> (r: Result<Allocator, AllocError>)
        requires
            free.wf(),
        ensures
            r.is_ok() == Self::scaffold_ok(free),
            r.is_ok() ==> r.unwrap().wf() && r.unwrap().table() == free && r.unwrap().last_free_at()
                == 0 && r.unwrap().last_page_table_at() == 0 && r.unwrap().free_pages().len() == 0,
            r.is_err() ==> r == Err::<Allocator, AllocError>(AllocError::ScaffoldInvalid),
    {
        let f3 = match free.next(0, 0) {
            Some(f) => f,
            None => return Err(AllocError::ScaffoldInvalid),
        };
        let f2 = match free.next(f3, 0) {
            Some(f) => f,
            None => return Err(AllocError::ScaffoldInvalid),
        };
        let f1 = match free.next(f2, 0) {
            Some(f) => f,
            None => return Err(AllocError::ScaffoldInvalid),
        };
        let e = Pointer(free.read(f1, 0));
        if !e.present() || e.address() == 0 {
            return Err(AllocError::ScaffoldInvalid);
        }
        if f3 == 0 || f2 == 0 || f1 == 0 || f3 == f2 || f3 == f1 || f2 == f1 {
            return Err(AllocError::ScaffoldInvalid);
        }
        let ghost s3 = seq![f3 as int];
        let ghost s2 = seq![f2 as int];
        let ghost s1 = seq![f1 as int];
        let a = Allocator {
            free,
            last_free: VirtualAddress::null(),
            last_page_table: VirtualAddress::null(),
            l3: Ghost(s3),
            l2: Ghost(s2),
            l1: Ghost(s1),
        };
        assert(links_ok(a.free, a.l3@, a.l2@, a.l1@));
        Ok(a)
    }

    /// Writes `page` into the slot after the last one.
    fn add_free(&mut self, page: u64)
        requires
            old(self).wf(),
            !old(self).needs_table(),
            is_page_address(page),
            !old(self).table().has(page),
            !old(self).free_pages().contains(page),
            old(self).last_free_at() + PAGE_SIZE < ADDRESS_SPACE,
        ensures
            final(self).wf(),
            final(self).free_pages() == old(self).free_pages().push(page),
            final(self).table_level() == old(self).table_level(),
            final(self).last_free_at() == old(self).last_free_at() + PAGE_SIZE,
            final(self).last_page_table_at() == old(self).last_page_table_at(),
            final(self).table().frame_count() == old(self).table().frame_count(),
            forall|p: u64| #[trigger] final(self).table().has(p) == old(self).table().has(p),
            forall|g: int| 0 <= g < old(self).table().frame_count() ==> #[trigger] final(self).table().base(g)
                == old(self).table().base(g),
            forall|g: int, k: int|
                0 <= g < old(self).table().frame_count() && 0 <= k < 512 && (old(self).table().walk(
                    final(self).last_free_at(),
                ) != Some(g) || k != index_of(final(self).last_free_at(), 1)) ==> #[trigger] final(self).table().word(g, k)
                    == old(self).table().word(g, k),
    {
        let ghost t = self.free;
        let ghost l3 = self.l3@;
        let ghost l2 = self.l2@;
        let ghost l1 = self.l1@;
        let ghost n = (self.last_free.0 / 4096) as int;
        let mut next = self.last_free;
        next.increment_page();
        let ghost k = n + 1;
        proof {
            lemma_boundary(next.0, l1.len() as int);
            self.lemma_free_pages();
            lemma_slot(k);
            assert(next.0 == slot_address(k));
            lemma_walk(t, l3, l2, l1, next.0);
        }
        let f1 = self.free.walk_frame(next).unwrap();
        let j = next.level1_entry();
        let mut e = Level1Entry(Pointer(self.free.read(f1, j)));
        e.set_address(page);
        e.0.set_present();
        proof {
            lemma_entry_word(t.word(f1 as int, j as int), page);
        }
        self.free.write(f1, j, e.0.0);
        self.last_free = next;
        proof {
            let t2 = self.free;
            assert(f1 == l1[k / 512] && j == k % 512);
            lemma_leaf_write(t, t2, l3, l2, l1, l1[k / 512], k % 512);
            assert forall|i: int| 1 <= i <= n implies slot_page(t2, l1, i) == slot_page(t, l1, i) by {
                if i / 512 != k / 512 {
                    assert(l1[i / 512] != l1[k / 512]);
                }
            }
            assert forall|i: int| 1 <= i <= k implies !t2.has(#[trigger] slot_page(t2, l1, i)) by {
                if i <= n {
                    assert(slot_page(t2, l1, i) == slot_page(t, l1, i));
                }
            }
            assert forall|i: int| 1 <= i <= k implies points(#[trigger] t2.word(l1[i / 512], i % 512)) by {
                if i < k && i / 512 != k / 512 {
                    assert(l1[i / 512] != l1[k / 512]);
                }
            }
            assert forall|i1: int, i2: int| 1 <= i1 <= k && 1 <= i2 <= k && i1 != i2
                implies #[trigger] slot_page(t2, l1, i1) != #[trigger] slot_page(t2, l1, i2) by {
                if i1 < k && i2 < k {
                    assert(slot_page(t2, l1, i1) == slot_page(t, l1, i1));
                    assert(slot_page(t2, l1, i2) == slot_page(t, l1, i2));
                } else if i1 < k {
                    assert(slot_page(t2, l1, i1) == slot_page(t, l1, i1));
                    assert(old(self).free_pages()[i1 - 1] == slot_page(t, l1, i1));
                } else {
                    assert(slot_page(t2, l1, i2) == slot_page(t, l1, i2));
                    assert(old(self).free_pages()[i2 - 1] == slot_page(t, l1, i2));
                }
            }
            assert(self.wf());
            self.lemma_free_pages();
            assert(self.free_pages() =~= old(self).free_pages().push(page));
            lemma_level(self);
            lemma_level(&old(self));
        }
    }

    /// Takes the most recently freed page off the free list and hands it out;
    /// its level-1 entry is marked not present.
    pub fn allocate(&mut self) -> (r: Result<u64, AllocError>)
        requires
            old(self).wf(),
        ensures
            final(self).wf(),
            old(self).free_pages().len() == 0 ==> r == Err::<u64, AllocError>(AllocError::OutOfMemory)
                && *final(self) == *old(self),
            old(self).free_pages().len() > 0 ==> r == Ok::<u64, AllocError>(old(self).free_pages().last())
                && final(self).free_pages() == old(self).free_pages().drop_last(),
            old(self).free_pages().len() > 0 ==> {
                &&& final(self).last_free_at() == old(self).last_free_at() - PAGE_SIZE
                &&& old(self).table().leaf(old(self).last_free_at()).is_some()
                &&& final(self).table().leaf(old(self).last_free_at()).is_some()
                &&& address_field(final(self).table().leaf(old(self).last_free_at()).unwrap()) == address_field(
                    old(self).table().leaf(old(self).last_free_at()).unwrap(),
                )
                &&& !has_flag(final(self).table().leaf(old(self).last_free_at()).unwrap(), PRESENT)
                &&& forall|g: int, k: int|
                    0 <= g < old(self).table().frame_count() && 0 <= k < 512 && (old(self).table().walk(
                        old(self).last_free_at(),
                    ) != Some(g) || k != index_of(old(self).last_free_at(), 1)) ==> #[trigger] final(self).table().word(g, k)
                        == old(self).table().word(g, k)
            },
            final(self).last_page_table_at() == old(self).last_page_table_at(),
            final(self).table_level() == old(self).table_level(),
            final(self).table().frame_count() == old(self).table().frame_count(),
            forall|g: int| 0 <= g < old(self).table().frame_count() ==> #[trigger] final(self).table().base(g)
                == old(self).table().base(g),
            forall|p: u64| #[trigger] final(self).table().has(p) == old(self).table().has(p),
    {
        proof {
            self.lemma_free_pages();
        }
        if self.last_free.0 == 0 {
            return Err(AllocError::OutOfMemory);
        }
        let ghost t = self.free;
        let ghost l3 = self.l3@;
        let ghost l2 = self.l2@;
        let ghost l1 = self.l1@;
        let ghost k = (self.last_free.0 / 4096) as int;
        proof {
            lemma_slot(k);
            assert(self.last_free.0 == slot_address(k));
            lemma_walk(t, l3, l2, l1, self.last_free.0);
        }
        let f1 = self.free.walk_frame(self.last_free).unwrap();
        let j = self.last_free.level1_entry();
        let mut e = Level1Entry(Pointer(self.free.read(f1, j)));
        let page = e.address();
        e.0.unset_present();
        proof {
            let w = t.word(f1 as int, j as int);
            assert((w & !1u64) & 0x000F_FFFF_FFFF_F000 == w & 0x000F_FFFF_FFFF_F000 && (w & !1u64) & 1 == 0)
                by (bit_vector);
        }
        self.free.write(f1, j, e.0.0);
        self.last_free = VirtualAddress(self.last_free.0 - PAGE_SIZE);
        proof {
            let t2 = self.free;
            assert(f1 == l1[k / 512] && j == k % 512);
            lemma_leaf_write(t, t2, l3, l2, l1, l1[k / 512], k % 512);
            assert forall|i: int| 1 <= i < k implies slot_page(t2, l1, i) == slot_page(t, l1, i) by {
                if i / 512 != k / 512 {
                    assert(l1[i / 512] != l1[k / 512]);
                }
            }
            assert forall|i: int| 1 <= i <= k - 1 implies !t2.has(#[trigger] slot_page(t2, l1, i)) by {
                assert(slot_page(t2, l1, i) == slot_page(t, l1, i));
            }
            assert forall|i: int| 1 <= i <= k - 1 implies points(#[trigger] t2.word(l1[i / 512], i % 512)) by {
                if i / 512 != k / 512 {
                    assert(l1[i / 512] != l1[k / 512]);
                }
                assert(t.word(l1[i / 512], i % 512) == t2.word(l1[i / 512], i % 512));
            }
            assert forall|i1: int, i2: int| 1 <= i1 <= k - 1 && 1 <= i2 <= k - 1 && i1 != i2
                implies #[trigger] slot_page(t2, l1, i1) != #[trigger] slot_page(t2, l1, i2) by {
                assert(slot_page(t2, l1, i1) == slot_page(t, l1, i1));
                assert(slot_page(t2, l1, i2) == slot_page(t, l1, i2));
            }
            assert(self.wf());
            self.lemma_free_pages();
            assert(self.free_pages() =~= old(self).free_pages().drop_last());
            lemma_walk(t2, l3, l2, l1, old(self).last_free.0);
            lemma_level(self);
            lemma_level(&old(self));
        }
        Ok(page)
    }

    /// Start of the 2 MiB region just past the level-1 tables in place.
    spec fn region_end(&self) -> int {
        self.l1@.len() * span()
    }

    /// What a reclaimed page that becomes a table may assume.
    spec fn divert_pre(&self, page: u64) -> bool {
        &&& self.wf()
        &&& is_page_address(page)
        &&& !self.free.has(page)
        &&& !self.free_pages().contains(page)
        &&& self.last_free.0 + PAGE_SIZE == self.region_end()
        &&& self.region_end() < ADDRESS_SPACE
    }

    /// What holds after a reclaimed page became a table.
    spec fn divert_post(&self, old: &Allocator, page: u64) -> bool {
        &&& self.wf()
        &&& self.free_pages() == old.free_pages()
        &&& self.last_free == old.last_free
        &&& self.free.has(page)
        &&& forall|p: u64| #[trigger] self.free.has(p) == (old.free.has(p) || p == page)
        &&& exists|f1: int, j1: int, f2: int, j2: int| #[trigger] linked_table(old.free, self.free, page, f1, j1, f2, j2)
    }

    /// The free-list pages stay as they were, and are no tables, after a
    /// change that keeps their entries and adds at most `page` as a frame.
    proof fn lemma_pages_kept(&self, old: &Allocator, page: u64)
        requires
            old.wf(),
            self.free.wf(),
            self.last_free == old.last_free,
            self.l1@.len() >= old.l1@.len(),
            forall|r: int| 0 <= r < old.l1@.len() ==> #[trigger] self.l1@[r] == old.l1@[r],
            forall|r: int, k: int|
                0 <= r < old.l1@.len() && 0 <= k < 512 ==> #[trigger] self.free.word(old.l1@[r], k)
                    == old.free.word(old.l1@[r], k),
            forall|p: u64| #[trigger] self.free.has(p) ==> old.free.has(p) || p == page,
            !old.free_pages().contains(page),
            self.l1@.len() * span() <= ADDRESS_SPACE,
        ensures
            forall|k: int| 1 <= k <= self.last_free.0 / 4096 ==> !self.free.has(
                #[trigger] slot_page(self.free, self.l1@, k),
            ),
            forall|k: int| 1 <= k <= self.last_free.0 / 4096 ==> #[trigger] slot_page(self.free, self.l1@, k)
                == slot_page(old.free, old.l1@, k),
            forall|k: int| 1 <= k <= self.last_free.0 / 4096 ==> points(
                #[trigger] self.free.word(self.l1@[k / 512], k % 512),
            ),
            forall|k1: int, k2: int|
                1 <= k1 <= self.last_free.0 / 4096 && 1 <= k2 <= self.last_free.0 / 4096 && k1 != k2
                    ==> #[trigger] slot_page(self.free, self.l1@, k1) != #[trigger] slot_page(self.free, self.l1@, k2),
    {
        old.lemma_free_pages();
        assert forall|k: int| 1 <= k <= self.last_free.0 / 4096 implies #[trigger] self.free.word(self.l1@[k / 512], k % 512)
            == old.free.word(old.l1@[k / 512], k % 512) by {
            assert(k / 512 < old.l1@.len()) by (nonlinear_arith)
                requires
                    1 <= k <= old.last_free.0 / 4096,
                    (old.last_free.0 as int) < old.l1@.len() * 0x20_0000,
            ;
        }
        assert forall|k: int| 1 <= k <= self.last_free.0 / 4096 implies #[trigger] slot_page(self.free, self.l1@, k)
            == slot_page(old.free, old.l1@, k) by {
            assert(k / 512 < old.l1@.len()) by (nonlinear_arith)
                requires
                    1 <= k <= old.last_free.0 / 4096,
                    (old.last_free.0 as int) < old.l1@.len() * 0x20_0000,
            ;
        }
        assert forall|k: int| 1 <= k <= self.last_free.0 / 4096 implies !self.free.has(
            #[trigger] slot_page(self.free, self.l1@, k),
        ) by {
            assert(old.free_pages()[k - 1] == slot_page(old.free, old.l1@, k));
        }
    }

    /// Makes `page` the level-1 table of the region just past the covered
    /// span, linked from entry `n1 % 512` of level-2 table `f2`, and clears the
    /// entry where the next level-2 or level-3 table will go once this one
    /// completes a level-2 table.
    #[verifier::rlimit(80)]
    fn link_leaf(&mut self, f2: usize, page: u64)
        requires
            old(self).divert_pre(page),
            (old(self).l1@.len() as int) < 512 * old(self).l2@.len(),
            f2 == old(self).l2@[old(self).l1@.len() as int / 512],
        ensures
            final(self).divert_post(&old(self), page),
            final(self).last_page_table.0 == old(self).last_page_table.0 + PAGE_TABLE_SPAN,
            final(self).table_level() == first_level(old(self).last_page_table.0 + 2 * PAGE_TABLE_SPAN),
    {
        let ghost t = self.free;
        let ghost l3 = self.l3@;
        let ghost l2 = self.l2@;
        let ghost l1 = self.l1@;
        let ghost n1 = l1.len() as int;
        let ghost n2 = l2.len() as int;
        let ghost n3 = l3.len() as int;
        let b = VirtualAddress(self.last_free.0 + PAGE_SIZE);
        proof {
            lemma_indices(b.0);
            assert(b.0 as int / span() == n1) by (nonlinear_arith)
                requires
                    b.0 as int == n1 * 0x20_0000,
            ;
            assert(n1 / 512 < n2) by (nonlinear_arith)
                requires
                    n1 < 512 * n2,
            ;
            assert(0 <= f2 < t.frame_count());
        }
        let j = b.level2_entry();
        let fp = self.free.attach(f2, j, page);
        let ghost t1 = self.free;
        let ghost mut cf: int = f2 as int;
        let ghost mut cj: int = j as int;
        proof {
            let t2 = self.free;
            assert forall|g: int| 0 <= g < n2 implies #[trigger] l3[g / 512] != f2 || g % 512 != j by {
                assert(g / 512 < n3) by (nonlinear_arith)
                    requires
                        0 <= g < n2,
                        n2 <= 512 * n3,
                ;
            }
            assert forall|r: int| 0 <= r < n1 implies #[trigger] l2[r / 512] != f2 || r % 512 != j by {
                if r / 512 == n1 / 512 {
                    assert(r % 512 != n1 % 512);
                }
            }
            lemma_kept(t, t2, l3, l2, l1, f2 as int, j as int);
        }
        self.l1 = Ghost(self.l1@.push(fp as int));
        self.last_page_table = b;
        let ghost t2 = self.free;
        let ghost l1b = self.l1@;
        proof {
            assert(links_ok(t2, l3, l2, l1b)) by {
                assert forall|r: int| 0 <= r < l1b.len() implies #[trigger] t2.follow(l2[r / 512], r % 512)
                    == Some(l1b[r]) by {
                    if r < n1 {
                        assert(t2.follow(l2[r / 512], r % 512) == Some(l1[r]));
                    }
                }
            }
            assert(frames_ok(t2, l3, l2, l1b));
        }
        // Clear the entry for the next level-2 or level-3 table.
        let c = VirtualAddress(b.0 + PAGE_TABLE_SPAN);
        proof {
            assert(c.0 as int == (n1 + 1) * span());
        }
        if c.0 < ADDRESS_SPACE && c.level2_entry() == 0 {
            proof {
                lemma_indices(c.0);
                assert(c.0 as int / span() == n1 + 1) by (nonlinear_arith)
                    requires
                        c.0 as int == (n1 + 1) * 0x20_0000,
                ;
                assert(n1 + 1 == 512 * n2) by (nonlinear_arith)
                    requires
                        (n1 + 1) % 512 == 0,
                        n1 < 512 * n2,
                        512 * (n2 - 1) <= n1,
                ;
            }
            if c.level3_entry() != 0 {
                proof {
                    assert(n2 < 512 * n3 && n2 / 512 < n3) by (nonlinear_arith)
                        requires
                            n2 % 512 != 0,
                            n2 <= 512 * n3,
                    ;
                }
                let f3 = self.free.next(0, c.level4_entry()).unwrap();
                self.free.write(f3, c.level3_entry(), 0);
                proof {
                    cf = f3 as int;
                    cj = n2 % 512;
                    let t3 = self.free;
                    assert(f3 == l3[n2 / 512]);
                    assert forall|g: int| 0 <= g < n2 implies #[trigger] l3[g / 512] != f3 || g % 512 != n2 % 512 by {
                        if g / 512 == n2 / 512 {
                            assert(g % 512 != n2 % 512);
                        }
                    }
                    lemma_kept(t2, t3, l3, l2, l1b, f3 as int, n2 % 512);
                }
            } else {
                proof {
                    assert(n2 == 512 * n3) by (nonlinear_arith)
                        requires
                            n2 % 512 == 0,
                            512 * (n3 - 1) <= n2 <= 512 * n3,
                            n2 == 512 * (n3 - 1) ==> n1 == 512 * n2,
                            n1 + 1 == 512 * n2,
                    ;
                }
                self.free.write(0, c.level4_entry(), 0);
                proof {
                    cf = 0;
                    cj = n3;
                    let t3 = self.free;
                    assert forall|g: int| 0 <= g < n2 implies #[trigger] l3[g / 512] != 0 || g % 512 != n3 by {
                        assert(g / 512 < n3) by (nonlinear_arith)
                            requires
                                0 <= g < n2,
                                n2 <= 512 * n3,
                        ;
                    }
                    lemma_kept(t2, t3, l3, l2, l1b, 0, n3);
                }
            }
        }
        proof {
            self.lemma_pages_kept(&old(self), page);
            if cf != f2 || cj != j {
                assert(cf < t.frame_count());
                assert(self.free.word(f2 as int, j as int) == t1.word(f2 as int, j as int));
                lemma_follow_kept(t1, self.free, f2 as int, j as int);
            }
            assert(linked_table(t, self.free, page, f2 as int, j as int, cf, cj));
            let tf = self.free;
            let l1f = self.l1@;
            assert(tf.wf());
            assert(shape_ok(n3, n2, n1 + 1));
            assert(self.last_page_table.0 == n1 * span());
            assert(frames_ok(tf, l3, l2, l1f));
            assert(links_ok(tf, l3, l2, l1f));
            assert(0u64 & 1 == 0) by (bit_vector);
            if c.0 < ADDRESS_SPACE {
                lemma_indices(c.0);
                assert(c.0 as int / span() == n1 + 1) by (nonlinear_arith)
                    requires
                        c.0 as int == (n1 + 1) * 0x20_0000,
                ;
            } else {
                assert(n1 + 1 == 512 * n2 ==> n2 == 512 * n3) by (nonlinear_arith)
                    requires
                        (n1 + 1) * 0x20_0000 >= 0x1_0000_0000_0000,
                        n1 + 1 <= 512 * n2,
                        n2 <= 512 * n3,
                        n3 <= 512,
                ;
            }
            assert(pending_ok(tf, l3, l2, l1f));
            assert(self.wf());
            self.lemma_free_pages();
            old(self).lemma_free_pages();
            assert(self.free_pages() =~= old(self).free_pages());
            lemma_level(self);
            let m = n1 + 1;
            assert(n2 > 512 * (n3 - 1));
            if m * span() < ADDRESS_SPACE {
                assert((m / 512 < n2) == ((m * 0x20_0000) % 0x4000_0000 != 0)) by (nonlinear_arith)
                    requires
                        m <= 512 * n2,
                        m > 512 * (n2 - 1),
                        m >= 1,
                ;
                assert(m == 512 * n2 ==> ((m / 0x4_0000 < n3) == ((m * 0x20_0000) % 0x80_0000_0000 != 0)))
                    by (nonlinear_arith)
                    requires
                        n2 <= 512 * n3,
                        n2 > 512 * (n3 - 1),
                        n2 >= 1,
                ;
            }
        }
    }

    /// Makes `page` the level-2 table for the region just past the covered
    /// span, linked from level-3 table `f3`.
    fn link_level2(&mut self, f3: usize, page: u64)
        requires
            old(self).divert_pre(page),
            old(self).l1@.len() == 512 * old(self).l2@.len(),
            (old(self).l2@.len() as int) < 512 * old(self).l3@.len(),
            f3 == old(self).l3@[old(self).l2@.len() as int / 512],
        ensures
            final(self).divert_post(&old(self), page),
            final(self).last_page_table == old(self).last_page_table,
            final(self).table_level() == 1,
    {
        let ghost t = self.free;
        let ghost l3 = self.l3@;
        let ghost l2 = self.l2@;
        let ghost l1 = self.l1@;
        let ghost n1 = l1.len() as int;
        let ghost n2 = l2.len() as int;
        let ghost n3 = l3.len() as int;
        proof {
            assert(n2 / 512 < n3) by (nonlinear_arith)
                requires
                    n2 < 512 * n3,
            ;
            assert(0 <= f3 < t.frame_count());
        }
        let b = VirtualAddress(self.last_free.0 + PAGE_SIZE);
        proof {
            lemma_indices(b.0);
            assert(b.0 as int / 0x4000_0000 == n2) by (nonlinear_arith)
                requires
                    b.0 as int == n1 * 0x20_0000,
                    n1 == 512 * n2,
            ;
        }
        let j = b.level3_entry();
        let fp = self.free.attach(f3, j, page);
        proof {
            let t2 = self.free;
            assert forall|g: int| 0 <= g < n2 implies #[trigger] l3[g / 512] != f3 || g % 512 != j by {
                assert(g / 512 < n3) by (nonlinear_arith)
                    requires
                        0 <= g < n2,
                        n2 <= 512 * n3,
                ;
                if g / 512 == n2 / 512 {
                    assert(g % 512 != n2 % 512);
                }
            }
            assert forall|r: int| 0 <= r < n1 implies #[trigger] l2[r / 512] != f3 || r % 512 != j by {
                assert(r / 512 < n2) by (nonlinear_arith)
                    requires
                        0 <= r < n1,
                        n1 <= 512 * n2,
                ;
            }
            lemma_kept(t, t2, l3, l2, l1, f3 as int, j as int);
        }
        self.l2 = Ghost(self.l2@.push(fp as int));
        proof {
            let t2 = self.free;
            let l2b = self.l2@;
            assert forall|g: int| 0 <= g < l2b.len() implies #[trigger] t2.follow(l3[g / 512], g % 512)
                == Some(l2b[g]) by {
                if g < n2 {
                    assert(t2.follow(l3[g / 512], g % 512) == Some(l2[g]));
                }
            }
            assert forall|r: int| 0 <= r < l1.len() implies #[trigger] t2.follow(l2b[r / 512], r % 512)
                == Some(l1[r]) by {
                assert(r / 512 < n2) by (nonlinear_arith)
                    requires
                        0 <= r < n1,
                        n1 <= 512 * n2,
                ;
                assert(t2.follow(l2[r / 512], r % 512) == Some(l1[r]));
            }
            assert(links_ok(t2, l3, l2b, l1));
            assert(frames_ok(t2, l3, l2b, l1));
            assert(pending_ok(t2, l3, l2b, l1));
            self.lemma_pages_kept(&old(self), page);
            assert(linked_table(t, t2, page, f3 as int, j as int, f3 as int, j as int));
            lemma_level(self);
            assert(n1 / 512 == n2) by (nonlinear_arith)
                requires
                    n1 == 512 * n2,
            ;
            assert(self.wf());
            self.lemma_free_pages();
            old(self).lemma_free_pages();
            assert(self.free_pages() =~= old(self).free_pages());
        }
    }

    /// Makes `page` the level-3 table for the region just past the covered
    /// span, linked from the root.
    fn link_level3(&mut self, page: u64)
        requires
            old(self).divert_pre(page),
            old(self).l1@.len() == 512 * old(self).l2@.len(),
            old(self).l2@.len() == 512 * old(self).l3@.len(),
            old(self).l3@.len() < 512,
        ensures
            final(self).divert_post(&old(self), page),
            final(self).last_page_table == old(self).last_page_table,
            final(self).table_level() == 2,
    {
        let ghost t = self.free;
        let ghost l3 = self.l3@;
        let ghost l2 = self.l2@;
        let ghost l1 = self.l1@;
        let ghost n1 = l1.len() as int;
        let ghost n2 = l2.len() as int;
        let ghost n3 = l3.len() as int;
        let b = VirtualAddress(self.last_free.0 + PAGE_SIZE);
        proof {
            lemma_indices(b.0);
            assert(b.0 as int / 0x80_0000_0000 == n3) by (nonlinear_arith)
                requires
                    b.0 as int == n1 * 0x20_0000,
                    n1 == 512 * n2,
                    n2 == 512 * n3,
            ;
        }
        let fp = self.free.attach(0, b.level4_entry(), page);
        proof {
            let t2 = self.free;
            lemma_kept(t, t2, l3, l2, l1, 0, n3);
        }
        self.l3 = Ghost(self.l3@.push(fp as int));
        proof {
            let t2 = self.free;
            let l3b = self.l3@;
            assert forall|h: int| 0 <= h < l3b.len() implies #[trigger] t2.follow(0, h) == Some(l3b[h]) by {
                if h < n3 {
                    assert(t2.follow(0, h) == Some(l3[h]));
                }
            }
            assert forall|g: int| 0 <= g < l2.len() implies #[trigger] t2.follow(l3b[g / 512], g % 512)
                == Some(l2[g]) by {
                assert(g / 512 < n3) by (nonlinear_arith)
                    requires
                        0 <= g < n2,
                        n2 <= 512 * n3,
                ;
                assert(t2.follow(l3[g / 512], g % 512) == Some(l2[g]));
            }
            assert(links_ok(t2, l3b, l2, l1));
            assert(frames_ok(t2, l3b, l2, l1));
            assert(n2 / 512 == n3 && n2 % 512 == 0) by (nonlinear_arith)
                requires
                    n2 == 512 * n3,
            ;
            assert(0u64 & 1 == 0) by (bit_vector);
            assert(pending_ok(t2, l3b, l2, l1));
            self.lemma_pages_kept(&old(self), page);
            assert(linked_table(t, t2, page, 0, n3, 0, n3));
            lemma_level(self);
            assert(n1 / 512 == n2 && n1 / 0x4_0000 == n3) by (nonlinear_arith)
                requires
                    n1 == 512 * n2,
                    n2 == 512 * n3,
            ;
            assert(self.wf());
            self.lemma_free_pages();
            old(self).lemma_free_pages();
            assert(self.free_pages() =~= old(self).free_pages());
        }
    }

    /// Turns `page` into the next table that the free list needs.
    fn grow(&mut self, page: u64)
        requires
            old(self).divert_pre(page),
        ensures
            final(self).divert_post(&old(self), page),
            final(self).last_page_table.0 == if old(self).table_level() == 1 {
                old(self).last_page_table.0 + PAGE_TABLE_SPAN
            } else {
                old(self).last_page_table.0 as int
            },
            final(self).table_level() == if old(self).table_level() == 3 {
                2
            } else if old(self).table_level() == 2 {
                1
            } else {
                first_level(old(self).last_page_table.0 + 2 * PAGE_TABLE_SPAN)
            },
    {
        let ghost t = self.free;
        let ghost l3 = self.l3@;
        let ghost l2 = self.l2@;
        let ghost l1 = self.l1@;
        let ghost n1 = l1.len() as int;
        let ghost n2 = l2.len() as int;
        let ghost n3 = l3.len() as int;
        let b = VirtualAddress(self.last_free.0 + PAGE_SIZE);
        let ghost g = n1 / 512;
        let ghost h = g / 512;
        proof {
            lemma_indices(b.0);
            assert(b.0 as int / span() == n1) by (nonlinear_arith)
                requires
                    b.0 as int == n1 * 0x20_0000,
            ;
            assert(h < 512);
            assert(g <= n2 && h <= n3) by (nonlinear_arith)
                requires
                    n1 <= 512 * n2,
                    n2 <= 512 * n3,
                    g == n1 / 512,
                    h == g / 512,
            ;
            assert(h == n3 ==> n1 == 512 * n2 && n2 == 512 * n3) by (nonlinear_arith)
                requires
                    n1 <= 512 * n2,
                    n2 <= 512 * n3,
                    g == n1 / 512,
                    h == g / 512,
            ;
            assert(g == n2 ==> n1 == 512 * n2) by (nonlinear_arith)
                requires
                    n1 <= 512 * n2,
                    g == n1 / 512,
            ;
            assert(g < n2 ==> n1 < 512 * n2 || g + 1 == n2) by (nonlinear_arith)
                requires
                    g == n1 / 512,
            ;
            assert(n1 == 512 * n2 ==> g == n2) by (nonlinear_arith)
                requires
                    g == n1 / 512,
            ;
            assert(g == n2 && h < n3 ==> n2 < 512 * n3) by (nonlinear_arith)
                requires
                    h == g / 512,
            ;
        }
        match self.free.next(0, b.level4_entry()) {
            None => {
                proof {
                    if h < n3 {
                        assert(t.follow(0, h) == Some(l3[h]));
                    }
                }
                self.link_level3(page);
            },
            Some(f3) => {
                proof {
                    if h == n3 {
                        assert(!points(t.word(0, n3)));
                    }
                    assert(f3 == l3[h]);
                }
                match self.free.next(f3, b.level3_entry()) {
                    None => {
                        proof {
                            if g < n2 {
                                assert(t.follow(l3[g / 512], g % 512) == Some(l2[g]));
                            }
                        }
                        self.link_level2(f3, page);
                    },
                    Some(f2) => {
                        proof {
                            if g == n2 {
                                assert(!points(t.word(l3[n2 / 512], n2 % 512)));
                            }
                            assert(t.follow(l3[g / 512], g % 512) == Some(l2[g]));
                            assert(f2 == l2[g]);
                            if n1 == 512 * n2 {
                                assert(g == n2);
                            }
                        }
                        self.link_leaf(f2, page);
                    },
                }
            },
        }
    }

    /// Hands `page` to the allocator. While the slot after the last one has a
    /// level-1 table, `page` goes onto the free list there: that one entry is
    /// pointed at `page` and marked present, and no other word changes.
    /// Otherwise `page` becomes the next table the free list needs (see
    /// `table_level`), linked from one entry, and is never handed out; once
    /// that is a level-1 table, `last_page_table` moves on by 2 MiB. The
    /// cursors move as `reclaim_step` says.
    pub fn reclaim(&mut self, page: u64)
        requires
            old(self).wf(),
            is_page_address(page),
            !old(self).table().has(page),
            !old(self).free_pages().contains(page),
            old(self).last_free_at() + PAGE_SIZE < ADDRESS_SPACE,
        ensures
            final(self).wf(),
            old(self).needs_table() == diverts(old(self).cursors()),
            final(self).cursors() == reclaim_step(old(self).cursors()),
            forall|p: u64| #[trigger] final(self).table().has(p) == (old(self).table().has(p) || (
            old(self).needs_table() && p == page)),
            old(self).needs_table() ==> {
                &&& final(self).free_pages() == old(self).free_pages()
                &&& final(self).last_free_at() == old(self).last_free_at()
                &&& final(self).last_page_table_at() == if old(self).table_level() == 1 {
                    old(self).last_page_table_at() + PAGE_TABLE_SPAN
                } else {
                    old(self).last_page_table_at() as int
                }
            },
            old(self).needs_table() ==> exists|f1: int, j1: int, f2: int, j2: int| #[trigger]
                linked_table(old(self).table(), final(self).table(), page, f1, j1, f2, j2),
            !old(self).needs_table() ==> {
                &&& final(self).free_pages() == old(self).free_pages().push(page)
                &&& final(self).last_free_at() == old(self).last_free_at() + PAGE_SIZE
                &&& final(self).last_page_table_at() == old(self).last_page_table_at()
                &&& final(self).table().leaf(final(self).last_free_at()).is_some()
                &&& points(final(self).table().leaf(final(self).last_free_at()).unwrap())
                &&& address_field(final(self).table().leaf(final(self).last_free_at()).unwrap()) == page
                &&& final(self).table().frame_count() == old(self).table().frame_count()
                &&& forall|g: int| 0 <= g < old(self).table().frame_count() ==> #[trigger] final(self).table().base(g)
                    == old(self).table().base(g)
                &&& forall|g: int, k: int|
                    0 <= g < old(self).table().frame_count() && 0 <= k < 512 && (old(self).table().walk(
                        final(self).last_free_at(),
                    ) != Some(g) || k != index_of(final(self).last_free_at(), 1)) ==> #[trigger] final(self).table().word(g, k)
                        == old(self).table().word(g, k)
            },
    {
        let mut next = self.last_free;
        next.increment_page();
        proof {
            lemma_boundary(next.0, self.l1@.len() as int);
            lemma_next_table(self);
        }
        if next.page_table() > self.last_page_table.page_table() {
            proof {
                assert(next.0 as int == self.region_end()) by (nonlinear_arith)
                    requires
                        next.0 as int >= self.l1@.len() * 0x20_0000,
                        next.0 == self.last_free.0 + 4096,
                        (self.last_free.0 as int) < self.l1@.len() * 0x20_0000,
                        self.last_free.0 % 4096 == 0,
                        self.region_end() == self.l1@.len() * 0x20_0000,
                ;
            }
            self.grow(page);
        } else {
            self.add_free(page);
            proof {
                lemma_free_list(self);
                let k = (self.last_free.0 / 4096) as int;
                lemma_slot(k);
                assert(slot_address(k) == self.last_free.0);
                assert(self.free_pages()[k - 1] == page);
            }
        }
    }

    /// Reclaims, in order, every page of every free segment; other segments
    /// are skipped. The cursors end as that many reclaim steps leave them; an
    /// offered page becomes a table exactly when its step diverts, and the
    /// others join the free list in order. With no page offered nothing
    /// changes.
    pub fn discover_pages(&mut self, memory_segments: &Vec<MemorySegment>)
        requires
            old(self).wf(),
            forall|i: int| 0 <= i < memory_segments@.len() ==> segment_ok(#[trigger] memory_segments@[i]),
            offered_pages(memory_segments@).no_duplicates(),
            forall|i: int|
                0 <= i < offered_pages(memory_segments@).len() ==> !old(self).table().has(
                    #[trigger] offered_pages(memory_segments@)[i],
                ) && !old(self).free_pages().contains(offered_pages(memory_segments@)[i]),
            old(self).last_free_at() + PAGE_SIZE * (offered_pages(memory_segments@).len() + 1)
                < ADDRESS_SPACE,
        ensures
            final(self).wf(),
            final(self).free_pages() == old(self).free_pages() + kept(
                offered_pages(memory_segments@),
                final(self).table(),
            ),
            forall|p: u64| #[trigger] final(self).table().has(p) ==> old(self).table().has(p)
                || offered_pages(memory_segments@).contains(p),
            forall|p: u64| old(self).table().has(p) ==> #[trigger] final(self).table().has(p),
            final(self).cursors() == reclaim_steps(old(self).cursors(), offered_pages(memory_segments@).len()),
            forall|i: int|
                0 <= i < offered_pages(memory_segments@).len() ==> final(self).table().has(
                    #[trigger] offered_pages(memory_segments@)[i],
                ) == diverts(reclaim_steps(old(self).cursors(), i as nat)),
            offered_pages(memory_segments@).len() == 0 ==> *final(self) == *old(self),
    {
        let ghost segs = memory_segments@;
        let ghost ps = offered_pages(segs);
        let ghost mut done: Seq<u64> = Seq::empty();
        let mut i: usize = 0;
        proof {
            assert(segs.skip(0) =~= segs);
        }
        while i < memory_segments.len()
            invariant
                0 <= i <= segs.len(),
                segs == memory_segments@,
                self.wf(),
                done + offered_pages(segs.skip(i as int)) == ps,
                self.free_pages() == old(self).free_pages() + kept(done, self.table()),
                forall|p: u64| #[trigger] self.table().has(p) ==> old(self).table().has(p) || done.contains(p),
                forall|p: u64| old(self).table().has(p) ==> #[trigger] self.table().has(p),
                self.last_free_at() <= old(self).last_free_at() + PAGE_SIZE * done.len(),
                self.cursors() == reclaim_steps(old(self).cursors(), done.len()),
                forall|k: int| 0 <= k < done.len() ==> self.table().has(#[trigger] done[k]) == diverts(
                    reclaim_steps(old(self).cursors(), k as nat),
                ),
                done.len() == 0 ==> *self == *old(self),
                forall|k: int| 0 <= k < segs.len() ==> segment_ok(#[trigger] segs[k]),
                ps.no_duplicates(),
                forall|k: int|
                    0 <= k < ps.len() ==> !old(self).table().has(#[trigger] ps[k]) && !old(self).free_pages().contains(ps[k]),
                old(self).last_free_at() + PAGE_SIZE * (ps.len() + 1) < ADDRESS_SPACE,
            decreases segs.len() - i,
        {
            let seg = memory_segments[i];
            proof {
                let rest = segs.skip(i as int);
                assert(rest[0] == seg);
                assert(rest.skip(1) =~= segs.skip(i + 1));
                assert(offered_pages(rest) == segment_pages(seg) + offered_pages(segs.skip(i + 1)));
                assert(done + segment_pages(seg).skip(0) + offered_pages(segs.skip(i + 1)) =~= ps);
            }
            if seg.usage == MemoryUsage::Free {
                let mut j: usize = 0;
                while j < seg.count
                    invariant
                        0 <= j <= seg.count,
                        segs == memory_segments@,
                        seg == segs[i as int],
                        0 <= i < segs.len(),
                        seg.usage == MemoryUsage::Free,
                        segment_ok(seg),
                        self.wf(),
                        done + segment_pages(seg).skip(j as int) + offered_pages(segs.skip(i + 1)) == ps,
                        self.free_pages() == old(self).free_pages() + kept(done, self.table()),
                        forall|p: u64| #[trigger] self.table().has(p) ==> old(self).table().has(p) || done.contains(p),
                        forall|p: u64| old(self).table().has(p) ==> #[trigger] self.table().has(p),
                        self.last_free_at() <= old(self).last_free_at() + PAGE_SIZE * done.len(),
                        self.cursors() == reclaim_steps(old(self).cursors(), done.len()),
                        forall|k: int| 0 <= k < done.len() ==> self.table().has(#[trigger] done[k]) == diverts(
                            reclaim_steps(old(self).cursors(), k as nat),
                        ),
                        done.len() == 0 ==> *self == *old(self),
                        ps.no_duplicates(),
                        forall|k: int|
                            0 <= k < ps.len() ==> !old(self).table().has(#[trigger] ps[k]) && !old(self).free_pages().contains(ps[k]),
                        old(self).last_free_at() + PAGE_SIZE * (ps.len() + 1) < ADDRESS_SPACE,
                    decreases seg.count - j,
                {
                    proof {
                        assert(j * 4096 <= seg.count * 4096) by (nonlinear_arith)
                            requires
                                j <= seg.count,
                        ;
                    }
                    let page = seg.page + (j as u64) * PAGE_SIZE;
                    let ghost tail = segment_pages(seg).skip(j + 1) + offered_pages(segs.skip(i + 1));
                    proof {
                        assert(segment_pages(seg).skip(j as int) =~= seq![page] + segment_pages(seg).skip(j + 1));
                        assert(ps =~= done + (seq![page] + tail));
                        let n = done.len() as int;
                        assert(ps[n] == page);
                        assert(!done.contains(page)) by {
                            if done.contains(page) {
                                let k = choose|k: int| 0 <= k < done.len() && done[k] == page;
                                assert(ps[k] == page);
                            }
                        }
                        assert(!old(self).table().has(page) && !old(self).free_pages().contains(page));
                        assert(!self.table().has(page));
                        assert(!self.free_pages().contains(page)) by {
                            if self.free_pages().contains(page) {
                                let k = choose|k: int| 0 <= k < self.free_pages().len() && self.free_pages()[k] == page;
                                if k >= old(self).free_pages().len() {
                                    let kd = kept(done, self.table());
                                    assert(kd[k - old(self).free_pages().len()] == page);
                                    lemma_kept_within(done, self.table(), page);
                                } else {
                                    assert(old(self).free_pages()[k] == page);
                                }
                            }
                        }
                        assert(page % 4096 == 0) by (nonlinear_arith)
                            requires
                                seg.page % 4096 == 0,
                                page == seg.page + j * 4096,
                        ;
                        assert(ps.len() >= n + 1);
                        let cur = self.last_free_at() as int;
                        let first = old(self).last_free_at() as int;
                        let m = ps.len() as int;
                        assert(cur + 4096 < 0x1_0000_0000_0000) by (nonlinear_arith)
                            requires
                                cur <= first + 4096 * n,
                                first + 4096 * (m + 1) < 0x1_0000_0000_0000,
                                m >= n + 1,
                        ;
                    }
                    let ghost before = *self;
                    self.reclaim(page);
                    proof {
                        let d2 = done.push(page);
                        assert forall|k: int| 0 <= k < done.len() implies before.table().has(#[trigger] done[k])
                            == self.table().has(done[k]) by {
                            assert(done[k] != page);
                        }
                        lemma_kept_same(done, before.table(), self.table());
                        assert(d2.drop_last() =~= done);
                        assert(self.free_pages() =~= old(self).free_pages() + kept(d2, self.table()));
                        assert forall|p: u64| #[trigger] self.table().has(p) implies old(self).table().has(p) || d2.contains(p) by {
                            if p == page {
                                assert(d2[done.len() as int] == page);
                            } else if done.contains(p) {
                                let k = choose|k: int| 0 <= k < done.len() && done[k] == p;
                                assert(d2[k] == p);
                            }
                        }
                        assert forall|k: int| 0 <= k < d2.len() implies self.table().has(#[trigger] d2[k]) == diverts(
                            reclaim_steps(old(self).cursors(), k as nat),
                        ) by {
                            if k < done.len() {
                                assert(d2[k] == done[k]);
                            } else {
                                assert(d2[k] == page);
                            }
                        }
                        assert(reclaim_steps(old(self).cursors(), d2.len()) == reclaim_step(
                            reclaim_steps(old(self).cursors(), done.len()),
                        ));
                        done = d2;
                        assert(done + segment_pages(seg).skip(j + 1) + offered_pages(segs.skip(i + 1)) =~= ps);
                    }
                    j = j + 1;
                }
            } else {
                proof {
                    assert(segment_pages(seg) =~= Seq::<u64>::empty());
                    assert(done + offered_pages(segs.skip(i + 1)) =~= ps);
                }
            }
            proof {
                if seg.usage == MemoryUsage::Free {
                    assert(segment_pages(seg).skip(seg.count as int) =~= Seq::<u64>::empty());
                    assert(done + offered_pages(segs.skip(i + 1)) =~= ps);
                }
            }
            i = i + 1;
        }
        proof {
            assert(offered_pages(segs.skip(i as int)) == Seq::<u64>::empty());
            assert(done =~= ps);
            assert forall|k: int| 0 <= k < ps.len() implies self.table().has(#[trigger] ps[k]) == diverts(
                reclaim_steps(old(self).cursors(), k as nat),
            ) by {
                assert(done[k] == ps[k]);
            }
        }
    }

    /// The address of the last free-list slot written.
    pub fn last_free(&self) -> (r: VirtualAddress)
        ensures
            r.0 == self.last_free_at(),
    {
        self.last_free
    }

    /// The start of the last 2 MiB region whose level-1 table is in place.
    pub fn last_page_table(&self) -> (r: VirtualAddress)
        ensures
            r.0 == self.last_page_table_at(),
    {
        self.last_page_table
    }

    /// The tables the allocator owns.
    pub fn tables(&self) -> (r: &PageTables)
        requires
            self.wf(),
        ensures
            *r == self.table(),
            r.wf(),
    {
        &self.free
    }

}

} // verus!
