//! The physical frames that hold a page-table hierarchy, and read-only walks
//! through it.
use vstd::prelude::*;
use crate::address::{index_of, offset_of, VirtualAddress};
use crate::page::{address_field, points, Level1Entry, Pointer, Table, ENTRIES};

verus! {

/// Whether `a` can be the address of a table or page named by an entry:
/// non-null, page-aligned and within the 52-bit address field.
pub open spec fn is_page_address(a: u64) -> bool {
    a != 0 && a % 4096 == 0 && a < 0x10_0000_0000_0000
}

/// The entry word that names `page`, present, built from `w`.
pub proof fn lemma_entry_word(w: u64, page: u64)
    requires
        is_page_address(page),
    ensures
        address_field(((w & 0xFFF0_0000_0000_0FFF) | (page & 0x000F_FFFF_FFFF_F000)) | 1) == page,
        points(((w & 0xFFF0_0000_0000_0FFF) | (page & 0x000F_FFFF_FFFF_F000)) | 1),
        address_field(((w & 0xFFF0_0000_0000_0FFF) | (page & 0x000F_FFFF_FFFF_F000)) & !1u64) == page,
{
    assert(page % 4096 == 0 && page < 0x10_0000_0000_0000 ==> (((w & 0xFFF0_0000_0000_0FFF) | (page
        & 0x000F_FFFF_FFFF_F000)) | 1) & 0x000F_FFFF_FFFF_F000 == page && (((w
        & 0xFFF0_0000_0000_0FFF) | (page & 0x000F_FFFF_FFFF_F000)) | 1) & 1 != 0 && (((w
        & 0xFFF0_0000_0000_0FFF) | (page & 0x000F_FFFF_FFFF_F000)) & !1u64) & 0x000F_FFFF_FFFF_F000
        == page) by (bit_vector);
}

/// Position of entry `j` of frame `f` in the flat word store.
pub open spec fn word_index(f: int, j: int) -> int {
    f * 512 + j
}

proof fn lemma_word_index(f: int, j: int, g: int, k: int, n: int)
    requires
        0 <= f < n,
        0 <= j < 512,
        0 <= g,
        0 <= k < 512,
    ensures
        0 <= word_index(f, j) < 512 * n,
        word_index(f, j) == word_index(g, k) ==> f == g && j == k,
{
    assert(0 <= f * 512 + j < 512 * n) by (nonlinear_arith)
        requires
            0 <= f < n,
            0 <= j < 512,
    ;
    assert(f * 512 + j == g * 512 + k ==> f == g && j == k) by (nonlinear_arith)
        requires
            0 <= f,
            0 <= j < 512,
            0 <= g,
            0 <= k < 512,
    ;
}

/// Page-sized frames of physical memory, each holding one table; frame 0 is
/// the level-4 root. Frames are told apart by their physical addresses, which
/// are distinct.
pub struct PageTables {
    bases: Vec<u64>,
    words: Vec<u64>,
}

impl PageTables {
    /// Number of frames.
    pub closed spec fn frame_count(&self) -> nat {
        self.bases@.len()
    }

    /// Physical address of frame `f`.
    pub closed spec fn base(&self, f: int) -> u64 {
        self.bases@[f]
    }

    /// Entry `j` of the table in frame `f`.
    pub closed spec fn word(&self, f: int, j: int) -> u64 {
        self.words@[word_index(f, j)]
    }

    pub closed spec fn storage_wf(&self) -> bool {
        self.words@.len() == 512 * self.bases@.len()
    }

    pub open spec fn wf(&self) -> bool {
        &&& self.storage_wf()
        &&& self.frame_count() >= 1
        &&& forall|f: int| 0 <= f < self.frame_count() ==> is_page_address(#[trigger] self.base(f))
        &&& forall|f: int, g: int|
            0 <= f < self.frame_count() && 0 <= g < self.frame_count() && f != g ==> #[trigger] self.base(f)
                != #[trigger] self.base(g)
    }

    /// Whether some frame lies at `a`.
    pub open spec fn has(&self, a: u64) -> bool {
        exists|f: int| 0 <= f < self.frame_count() && #[trigger] self.base(f) == a
    }

    /// The frame that lies at `a`.
    pub open spec fn frame_at(&self, a: u64) -> int {
        choose|f: int| 0 <= f < self.frame_count() && #[trigger] self.base(f) == a
    }

    /// The frame that entry `j` of frame `f` leads to, if it is present,
    /// non-null, and names a frame.
    pub open spec fn follow(&self, f: int, j: int) -> Option<int> {
        let w = self.word(f, j);
        if points(w) && self.has(address_field(w)) {
            Some(self.frame_at(address_field(w)))
        } else {
            None
        }
    }

    /// The frame of the level-1 table reached from the root through the
    /// entries that `a` selects, if every level leads on.
    pub open spec fn walk(&self, a: u64) -> Option<int> {
        match self.follow(0, index_of(a, 4) as int) {
            Some(l3) => match self.follow(l3, index_of(a, 3) as int) {
                Some(l2) => self.follow(l2, index_of(a, 2) as int),
                None => None,
            },
            None => None,
        }
    }

    /// The level-1 entry word that `a` selects, if the walk reaches it.
    pub open spec fn leaf(&self, a: u64) -> Option<u64> {
        match self.walk(a) {
            Some(l1) => Some(self.word(l1, index_of(a, 1) as int)),
            None => None,
        }
    }

    /// Under well-formedness a frame's address leads back to that frame.
    pub proof fn lemma_frame_at(&self, f: int)
        requires
            self.wf(),
            0 <= f < self.frame_count(),
        ensures
            self.has(self.base(f)),
            self.frame_at(self.base(f)) == f,
    {
        assert(self.has(self.base(f)));
        let g = self.frame_at(self.base(f));
        assert(self.base(g) == self.base(f));
    }

    /// A store holding only `root`, placed at `root_base`.
    pub fn new(root_base: u64, root: Table) -> (r: PageTables)
        requires
            is_page_address(root_base),
            root.wf(),
        ensures
            r.wf(),
            r.frame_count() == 1,
            r.base(0) == root_base,
            forall|j: int| 0 <= j < 512 ==> r.word(0, j) == root@[j],
    {
        let mut r = PageTables { bases: Vec::new(), words: Vec::new() };
        r.push_frame(root_base, &root);
        r
    }

    fn push_frame(&mut self, base: u64, table: &Table)
        requires
            old(self).storage_wf(),
            table.wf(),
        ensures
            final(self).storage_wf(),
            final(self).bases@ == old(self).bases@.push(base),
            forall|f: int, j: int|
                0 <= f < old(self).frame_count() && 0 <= j < 512 ==> #[trigger] final(self).word(f, j)
                    == old(self).word(f, j),
            forall|j: int|
                0 <= j < 512 ==> #[trigger] final(self).word(old(self).frame_count() as int, j)
                    == table@[j],
    {
        let ghost n = self.bases@.len() as int;
        let ghost old_words = self.words@;
        let mut j: usize = 0;
        while j < ENTRIES
            invariant
                0 <= j <= 512,
                table.wf(),
                self.words@.len() == 512 * n + j,
                self.bases@ == old(self).bases@,
                self.bases@.len() == n,
                forall|i: int| 0 <= i < 512 * n ==> self.words@[i] == old_words[i],
                forall|k: int| 0 <= k < j ==> self.words@[512 * n + k] == table@[k],
            decreases 512 - j,
        {
            let e = table.entry(j);
            self.words.push(e.0);
            j = j + 1;
        }
        self.bases.push(base);
        assert forall|f: int, j: int|
            0 <= f < n && 0 <= j < 512 implies #[trigger] self.word(f, j) == old_words[word_index(f, j)] by {
            lemma_word_index(f, j, 0, 0, n);
        }
        assert forall|j: int| 0 <= j < 512 implies #[trigger] self.word(n, j) == table@[j] by {
            assert(word_index(n, j) == 512 * n + j);
        }
    }

    /// Adds `table` as a new frame at `base`. Refused, leaving the store as it
    /// was, when `base` is not a page address or a frame already lies there.
    pub fn insert(&mut self, base: u64, table: &Table) -> (r: bool)
        requires
            old(self).wf(),
            table.wf(),
        ensures
            r == (is_page_address(base) && !old(self).has(base)),
            final(self).wf(),
            r ==> final(self).frame_count() == old(self).frame_count() + 1,
            r ==> final(self).base(old(self).frame_count() as int) == base,
            r ==> forall|j: int|
                0 <= j < 512 ==> #[trigger] final(self).word(old(self).frame_count() as int, j)
                    == table@[j],
            !r ==> *final(self) == *old(self),
            forall|f: int| 0 <= f < old(self).frame_count() ==> #[trigger] final(self).base(f) == old(self).base(f),
            forall|f: int, j: int|
                0 <= f < old(self).frame_count() && 0 <= j < 512 ==> #[trigger] final(self).word(f, j)
                    == old(self).word(f, j),
    {
        if base == 0 || base % 4096 != 0 || base >= 0x10_0000_0000_0000 {
            return false;
        }
        if self.find(base).is_some() {
            return false;
        }
        self.push_frame(base, table);
        assert forall|f: int| 0 <= f < self.frame_count() implies is_page_address(#[trigger] self.base(f)) by {
            if f < self.frame_count() - 1 {
                assert(self.base(f) == old(self).base(f));
            }
        }
        assert forall|f: int, g: int|
            0 <= f < self.frame_count() && 0 <= g < self.frame_count() && f != g implies #[trigger] self.base(f)
                != #[trigger] self.base(g) by {
            let n = old(self).frame_count() as int;
            if f < n && g < n {
                assert(old(self).base(f) != old(self).base(g));
            } else if f < n {
                assert(old(self).base(f) == self.base(f));
            } else if g < n {
                assert(old(self).base(g) == self.base(g));
            }
        }
        true
    }

    /// Number of frames.
    pub fn frames(&self) -> (r: usize)
        requires
            self.wf(),
        ensures
            r == self.frame_count(),
    {
        self.bases.len()
    }

    /// Adds a table with no entry present at `table`, and points entry `j`
    /// of frame `f` at it, present.
    pub fn attach(&mut self, f: usize, j: usize, table: u64) -> (r: usize)
        requires
            old(self).wf(),
            f < old(self).frame_count(),
            j < 512,
            is_page_address(table),
            !old(self).has(table),
        ensures
            final(self).wf(),
            r == old(self).frame_count(),
            final(self).frame_count() == old(self).frame_count() + 1,
            final(self).base(r as int) == table,
            forall|g: int| 0 <= g < old(self).frame_count() ==> #[trigger] final(self).base(g) == old(self).base(g),
            forall|g: int, k: int|
                0 <= g < old(self).frame_count() && 0 <= k < 512 && (g != f || k != j)
                    ==> #[trigger] final(self).word(g, k) == old(self).word(g, k),
            forall|k: int| 0 <= k < 512 ==> #[trigger] final(self).word(r as int, k) == 0,
            final(self).follow(f as int, j as int) == Some(r as int),
    {
        let r = self.bases.len();
        let zero = Table::new();
        let added = self.insert(table, &zero);
        let mut e = Pointer(self.read(f, j));
        e.set_address(table);
        e.set_present();
        proof {
            lemma_entry_word(self.word(f as int, j as int), table);
        }
        self.write(f, j, e.0);
        proof {
            self.lemma_frame_at(r as int);
        }
        r
    }

    /// The frame that lies at `a`, if any.
    pub fn find(&self, a: u64) -> (r: Option<usize>)
        requires
            self.wf(),
        ensures
            r.is_some() == self.has(a),
            r.is_some() ==> r.unwrap() < self.frame_count() && self.base(r.unwrap() as int) == a
                && self.frame_at(a) == r.unwrap(),
    {
        let mut f: usize = 0;
        while f < self.bases.len()
            invariant
                0 <= f <= self.frame_count(),
                self.wf(),
                forall|g: int| 0 <= g < f ==> self.base(g) != a,
            decreases self.frame_count() - f,
        {
            if self.bases[f] == a {
                proof {
                    self.lemma_frame_at(f as int);
                }
                return Some(f);
            }
            f = f + 1;
        }
        None
    }

    /// Entry `j` of frame `f`.
    pub fn read(&self, f: usize, j: usize) -> (r: u64)
        requires
            self.wf(),
            f < self.frame_count(),
            j < 512,
        ensures
            r == self.word(f as int, j as int),
    {
        let len = self.words.len();
        proof {
            lemma_word_index(f as int, j as int, 0, 0, self.frame_count() as int);
            assert(f * 512 + j < len);
        }
        self.words[f * ENTRIES + j]
    }

    /// Overwrites entry `j` of frame `f` with `w`.
    pub fn write(&mut self, f: usize, j: usize, w: u64)
        requires
            old(self).wf(),
            f < old(self).frame_count(),
            j < 512,
        ensures
            final(self).wf(),
            final(self).frame_count() == old(self).frame_count(),
            forall|g: int| 0 <= g < old(self).frame_count() ==> #[trigger] final(self).base(g) == old(self).base(g),
            final(self).word(f as int, j as int) == w,
            forall|g: int, k: int|
                0 <= g < old(self).frame_count() && 0 <= k < 512 && (g != f || k != j)
                    ==> #[trigger] final(self).word(g, k) == old(self).word(g, k),
    {
        let len = self.words.len();
        proof {
            lemma_word_index(f as int, j as int, 0, 0, self.frame_count() as int);
            assert(f * 512 + j < len);
        }
        self.words.set(f * ENTRIES + j, w);
        assert(self.bases@ == old(self).bases@);
        assert(self.storage_wf());
        assert forall|g: int| 0 <= g < self.frame_count() implies #[trigger] self.base(g) == old(self).base(g) by {}
        assert(self.wf());
        assert forall|g: int, k: int|
            0 <= g < old(self).frame_count() && 0 <= k < 512 && (g != f || k != j)
                implies #[trigger] self.word(g, k) == old(self).word(g, k) by {
            lemma_word_index(g, k, f as int, j as int, self.frame_count() as int);
        }
    }

    /// The frame that entry `j` of frame `f` leads to.
    pub fn next(&self, f: usize, j: usize) -> (r: Option<usize>)
        requires
            self.wf(),
            f < self.frame_count(),
            j < 512,
        ensures
            r.is_some() == self.follow(f as int, j as int).is_some(),
            r.is_some() ==> r.unwrap() == self.follow(f as int, j as int).unwrap(),
            r.is_some() ==> r.unwrap() < self.frame_count(),
    {
        let e = Pointer(self.read(f, j));
        if !e.present() || e.address() == 0 {
            return None;
        }
        self.find(e.address())
    }

    /// The level-1 table frame that `address` leads to.
    pub fn walk_frame(&self, address: VirtualAddress) -> (r: Option<usize>)
        requires
            self.wf(),
        ensures
            r.is_some() == self.walk(address.0).is_some(),
            r.is_some() ==> r.unwrap() == self.walk(address.0).unwrap(),
            r.is_some() ==> r.unwrap() < self.frame_count(),
    {
        let l3 = match self.next(0, address.level4_entry()) {
            Some(f) => f,
            None => return None,
        };
        let l2 = match self.next(l3, address.level3_entry()) {
            Some(f) => f,
            None => return None,
        };
        self.next(l2, address.level2_entry())
    }

    /// The level-1 entry that `address` selects, or `None` as soon as a level
    /// on the way is absent. Nothing is changed.
    pub fn page_entry(&self, address: VirtualAddress) -> (r: Option<Level1Entry>)
        requires
            self.wf(),
        ensures
            r == (match self.leaf(address.0) {
                Some(w) => Some(Level1Entry(Pointer(w))),
                None => None,
            }),
    {
        match self.walk_frame(address) {
            Some(l1) => Some(Level1Entry(Pointer(self.read(l1, address.level1_entry())))),
            None => None,
        }
    }

    /// The page that `address` lies in, as its level-1 entry names it; null
    /// when the walk stops early.
    pub fn page(&self, address: VirtualAddress) -> (r: u64)
        requires
            self.wf(),
        ensures
            r == (match self.leaf(address.0) {
                Some(w) => address_field(w),
                None => 0,
            }),
    {
        match self.page_entry(address) {
            Some(e) => e.address(),
            None => 0,
        }
    }

    /// The physical address that `address` stands for: its page plus its
    /// offset.
    pub fn physical(&self, address: VirtualAddress) -> (r: u64)
        requires
            self.wf(),
        ensures
            r == (match self.leaf(address.0) {
                Some(w) => address_field(w),
                None => 0,
            }) + offset_of(address.0),
    {
        let page = self.page(address);
        let offset = address.offset();
        assert(page & 0x000F_FFFF_FFFF_F000 == page ==> page + 4095 <= u64::MAX) by (bit_vector);
        proof {
            if page != 0 {
                assert(address_field(self.leaf(address.0).unwrap()) == page);
                let w = self.leaf(address.0).unwrap();
                assert((w & 0x000F_FFFF_FFFF_F000) & 0x000F_FFFF_FFFF_F000 == w & 0x000F_FFFF_FFFF_F000)
                    by (bit_vector);
            }
        }
        page + offset as u64
    }
}

} // verus!
