//! Memory hierarchy: byte-addressed HBM shared by all cores, and one LX
//! scratchpad per core.
//!
//! Storage model: each allocation is a contiguous byte buffer keyed by its base
//! byte address. An access at `ptr` resolves to the allocation whose base is
//! exactly `ptr`, or else to the earliest-created allocation whose extent
//! strictly contains `ptr`. Reads past the end of an allocation, and reads of
//! unmapped addresses, yield zero bytes; writes past the end grow the
//! allocation, and writes to unmapped addresses create a new one.

use vstd::prelude::*;

verus! {

/// HBM "stick" (cache block) size in bytes.
pub const STICK_BYTES: i64 = 128;

/// LX live-set budget for fused-segment planning: 7/8 of the 2 MB per-core LX.
pub const LX_FUSION_BUDGET_BYTES: usize = 1835008;

// ---------------------------------------------------------------------------
// The allocation table shared by HBM and LX
// ---------------------------------------------------------------------------

/// Abstract allocation table: `(base, bytes)` in creation order.
pub type Allocs = Seq<(i64, Seq<u8>)>;

/// A table of allocations keyed by base address.
#[derive(Debug)]
pub struct ByteStore {
    allocs: Vec<(i64, Vec<u8>)>,
}

pub open spec fn alloc_contains(a: (i64, Seq<u8>), ptr: i64) -> bool {
    a.0 < ptr && ptr < a.0 + a.1.len()
}

/// Index of the allocation an access at `ptr` resolves to.
pub open spec fn find_alloc(t: Allocs, ptr: i64) -> Option<int> {
    if exists|k: int| 0 <= k < t.len() && (#[trigger] t[k]).0 == ptr {
        Some(choose|k: int| 0 <= k < t.len() && (#[trigger] t[k]).0 == ptr)
    } else if exists|k: int| 0 <= k < t.len() && alloc_contains(#[trigger] t[k], ptr) {
        Some(
            choose|k: int|
                0 <= k < t.len() && alloc_contains(#[trigger] t[k], ptr) && forall|j: int|
                    0 <= j < k ==> !alloc_contains(#[trigger] t[j], ptr),
        )
    } else {
        None
    }
}

/// Bytes returned by reading `len` bytes at `ptr`.
pub open spec fn spec_read(t: Allocs, ptr: i64, len: nat) -> Seq<u8> {
    Seq::new(
        len,
        |i: int|
            match find_alloc(t, ptr) {
                Some(k) => {
                    let off = ptr - t[k].0;
                    if off + i < t[k].1.len() {
                        t[k].1[off + i]
                    } else {
                        0u8
                    }
                },
                None => 0u8,
            },
    )
}

/// `buf` with `data` written at offset `off`, zero-extended as needed.
pub open spec fn splice_write(buf: Seq<u8>, off: int, data: Seq<u8>) -> Seq<u8> {
    let n = if buf.len() >= off + data.len() { buf.len() as int } else { off + data.len() };
    Seq::new(
        n as nat,
        |i: int|
            if off <= i < off + data.len() {
                data[i - off]
            } else if i < buf.len() {
                buf[i]
            } else {
                0u8
            },
    )
}

/// The table after writing `data` at `ptr`.
pub open spec fn spec_write(t: Allocs, ptr: i64, data: Seq<u8>) -> Allocs {
    match find_alloc(t, ptr) {
        Some(k) => t.update(k, (t[k].0, splice_write(t[k].1, ptr - t[k].0, data))),
        None => t.push((ptr, data)),
    }
}

/// Bases are distinct, non-negative, and every allocation's end address fits
/// in `i64`.
pub open spec fn allocs_wf(t: Allocs) -> bool {
    &&& forall|i: int, j: int| 0 <= i < j < t.len() ==> (#[trigger] t[i]).0 != (#[trigger] t[j]).0
    &&& forall|i: int| 0 <= i < t.len() ==> 0 <= (#[trigger] t[i]).0 && t[i].0 + t[i].1.len() <= i64::MAX
}

proof fn lemma_find_alloc(t: Allocs, ptr: i64)
    requires
        allocs_wf(t),
    ensures
        match find_alloc(t, ptr) {
            Some(k) => 0 <= k < t.len() && (t[k].0 == ptr || (alloc_contains(t[k], ptr) && (forall|j: int|
                0 <= j < t.len() ==> (#[trigger] t[j]).0 != ptr) && forall|j: int|
                0 <= j < k ==> !alloc_contains(#[trigger] t[j], ptr))),
            None => forall|j: int| 0 <= j < t.len() ==> (#[trigger] t[j]).0 != ptr && !alloc_contains(t[j], ptr),
        },
{
    if exists|k: int| 0 <= k < t.len() && (#[trigger] t[k]).0 == ptr {
    } else if exists|k: int| 0 <= k < t.len() && alloc_contains(#[trigger] t[k], ptr) {
        let k0 = choose|k: int| 0 <= k < t.len() && alloc_contains(#[trigger] t[k], ptr);
        lemma_min_containing(t, ptr, k0);
    }
}

proof fn lemma_min_containing(t: Allocs, ptr: i64, k0: int)
    requires
        0 <= k0 < t.len(),
        alloc_contains(t[k0], ptr),
    ensures
        exists|k: int|
            0 <= k < t.len() && alloc_contains(#[trigger] t[k], ptr) && forall|j: int|
                0 <= j < k ==> !alloc_contains(#[trigger] t[j], ptr),
    decreases k0,
{
    if exists|j: int| 0 <= j < k0 && alloc_contains(#[trigger] t[j], ptr) {
        let j = choose|j: int| 0 <= j < k0 && alloc_contains(#[trigger] t[j], ptr);
        lemma_min_containing(t, ptr, j);
    } else {
        assert(alloc_contains(t[k0], ptr) && forall|j: int|
            0 <= j < k0 ==> !alloc_contains(#[trigger] t[j], ptr));
    }
}

impl ByteStore {
    pub closed spec fn view(&self) -> Allocs {
        self.allocs@.map_values(|e: (i64, Vec<u8>)| (e.0, e.1@))
    }


    /// Whether the table is well formed: distinct, non-negative bases, and
    /// every allocation's end address fits in `i64`.
    pub fn is_well_formed(&self) -> (b: bool)
        ensures
            b == allocs_wf(self@),
    {
        let n = self.allocs.len();
        let ghost t = self@;
        let mut i: usize = 0;
        while i < n
            invariant
                n == self.allocs@.len(),
                t == self@,
                t.len() == n,
                0 <= i <= n,
                forall|a: int, b: int| 0 <= a < b < i ==> (#[trigger] t[a]).0 != (#[trigger] t[b]).0,
                forall|a: int| 0 <= a < i ==> 0 <= (#[trigger] t[a]).0 && t[a].0 + t[a].1.len() <= i64::MAX,
            decreases n - i,
        {
            let base = self.allocs[i].0;
            let len = self.allocs[i].1.len();
            assert(t[i as int] == (base, self.allocs@[i as int].1@));
            if base < 0 || (len as u64) > ((i64::MAX - base) as u64) {
                return false;
            }
            let mut j: usize = 0;
            while j < i
                invariant
                    n == self.allocs@.len(),
                    t == self@,
                    t.len() == n,
                    0 <= j <= i < n,
                    base == t[i as int].0,
                    forall|a: int| 0 <= a < j ==> (#[trigger] t[a]).0 != base,
                decreases i - j,
            {
                assert(t[j as int].0 == self.allocs@[j as int].0);
                if self.allocs[j].0 == base {
                    assert(t[j as int].0 == t[i as int].0);
                    return false;
                }
                j = j + 1;
            }
            i = i + 1;
        }
        true
    }

    /// An empty table.
    pub fn new() -> (s: ByteStore)
        ensures
            s@ == Seq::<(i64, Seq<u8>)>::empty(),
            allocs_wf(s@),
    {
        let s = ByteStore { allocs: Vec::new() };
        assert(s@ =~= Seq::<(i64, Seq<u8>)>::empty());
        s
    }

    /// Drop every allocation.
    pub fn clear(&mut self)
        ensures
            final(self)@ == Seq::<(i64, Seq<u8>)>::empty(),
            allocs_wf(final(self)@),
    {
        self.allocs.clear();
        assert(self@ =~= Seq::<(i64, Seq<u8>)>::empty());
    }

    /// Index of the allocation that `ptr` resolves to (`find_alloc`).
    fn find(&self, ptr: i64) -> (r: Option<usize>)
        requires
            allocs_wf(self@),
        ensures
            r matches Some(k) ==> find_alloc(self@, ptr) == Some(k as int),
            r is None ==> find_alloc(self@, ptr) is None,
    {
        proof {
            lemma_find_alloc(self@, ptr);
        }
        let n = self.allocs.len();
        let mut i: usize = 0;
        while i < n
            invariant
                n == self.allocs@.len(),
                n == self@.len(),
                allocs_wf(self@),
                0 <= i <= n,
                forall|j: int| 0 <= j < i ==> (#[trigger] self@[j]).0 != ptr,
            decreases n - i,
        {
            if self.allocs[i].0 == ptr {
                assert(self@[i as int].0 == ptr);
                proof {
                    let k = choose|k: int| 0 <= k < self@.len() && (#[trigger] self@[k]).0 == ptr;
                    if k != i as int {
                        if k < i {
                            assert(self@[k].0 != self@[i as int].0);
                        } else {
                            assert(self@[i as int].0 != self@[k].0);
                        }
                    }
                }
                return Some(i);
            }
            i = i + 1;
        }
        let mut i: usize = 0;
        while i < n
            invariant
                n == self.allocs@.len(),
                n == self@.len(),
                allocs_wf(self@),
                0 <= i <= n,
                forall|j: int| 0 <= j < n ==> (#[trigger] self@[j]).0 != ptr,
                forall|j: int| 0 <= j < i ==> !alloc_contains(#[trigger] self@[j], ptr),
            decreases n - i,
        {
            let base = self.allocs[i].0;
            let len = self.allocs[i].1.len();
            assert(self@[i as int].1.len() == len);
            assert(self@[i as int].0 + self@[i as int].1.len() <= i64::MAX);
            if ptr > base && ptr < base + len as i64 {
                assert(alloc_contains(self@[i as int], ptr));
                proof {
                    let k = choose|k: int|
                        0 <= k < self@.len() && alloc_contains(#[trigger] self@[k], ptr) && forall|j: int|
                            0 <= j < k ==> !alloc_contains(#[trigger] self@[j], ptr);
                    if k < i {
                        assert(!alloc_contains(self@[k], ptr));
                    } else if k > i {
                        assert(!alloc_contains(self@[i as int], ptr));
                    }
                }
                return Some(i);
            }
            assert(!alloc_contains(self@[i as int], ptr));
            i = i + 1;
        }
        None
    }

    /// Read `len` bytes at `ptr`, zero-padding past the allocation's end and
    /// for unmapped addresses.
    pub fn read_bytes(&self, ptr: i64, len: usize) -> (out: Vec<u8>)
        requires
            allocs_wf(self@),
        ensures
            out@ == spec_read(self@, ptr, len as nat),
            allocs_wf(self@),
    {
        let found = self.find(ptr);
        proof {
            lemma_find_alloc(self@, ptr);
        }
        let mut out: Vec<u8> = Vec::new();
        match found {
            Some(k) => {
                let base = self.allocs[k].0;
                let buf = &self.allocs[k].1;
                assert(buf@ == self@[k as int].1);
                assert(base == self@[k as int].0);
                assert(self@[k as int].0 == ptr || alloc_contains(self@[k as int], ptr));
                assert(0 <= self@[k as int].0 && self@[k as int].0 + self@[k as int].1.len() <= i64::MAX);
                let blen = buf.len();
                assert(ptr != base ==> ptr - base < blen);
                let off: usize = if ptr == base { 0 } else { (ptr - base) as usize };
                let mut i: usize = 0;
                while i < len
                    invariant
                        0 <= i <= len,
                        off == ptr - base,
                        base == self@[k as int].0,
                        buf@ == self@[k as int].1,
                        find_alloc(self@, ptr) == Some(k as int),
                        0 <= k < self@.len(),
                        out@ =~= spec_read(self@, ptr, len as nat).take(i as int),
                    decreases len - i,
                {
                    let b: u8 = if off < buf.len() && i < buf.len() - off {
                        buf[off + i]
                    } else {
                        0
                    };
                    out.push(b);
                    i = i + 1;
                }
            },
            None => {
                let mut i: usize = 0;
                while i < len
                    invariant
                        0 <= i <= len,
                        find_alloc(self@, ptr) is None,
                        out@ =~= spec_read(self@, ptr, len as nat).take(i as int),
                    decreases len - i,
                {
                    out.push(0);
                    i = i + 1;
                }
            },
        }
        assert(out@ =~= spec_read(self@, ptr, len as nat));
        out
    }

    /// Write `data` at `ptr`, growing the containing allocation or creating a
    /// new one.
    pub fn write_bytes(&mut self, ptr: i64, data: &[u8])
        requires
            allocs_wf(old(self)@),
            0 <= ptr,
            ptr + data@.len() <= i64::MAX,
            ptr + data@.len() <= usize::MAX,
        ensures
            final(self)@ == spec_write(old(self)@, ptr, data@),
            allocs_wf(old(self)@),
            allocs_wf(final(self)@),
    {
        let found = self.find(ptr);
        proof {
            lemma_find_alloc(self@, ptr);
        }
        let ghost t = self@;
        match found {
            Some(k) => {
                let base = self.allocs[k].0;
                let mut buf: Vec<u8> = Vec::new();
                std::mem::swap(&mut buf, &mut self.allocs[k].1);
                assert(buf@ == t[k as int].1);
                assert(base == t[k as int].0);
                assert(t[k as int].0 == ptr || alloc_contains(t[k as int], ptr));
                assert(0 <= t[k as int].0 && t[k as int].0 + t[k as int].1.len() <= i64::MAX);
                assert(ptr != base ==> ptr - base < buf@.len());
                let off: usize = if ptr == base { 0 } else { (ptr - base) as usize };
                let needed = off + data.len();
                let old_len = buf.len();
                let mut out: Vec<u8> = Vec::new();
                let n = if old_len >= needed { old_len } else { needed };
                let mut i: usize = 0;
                while i < n
                    invariant
                        0 <= i <= n,
                        off == ptr - base,
                        needed == off + data@.len(),
                        old_len == buf@.len(),
                        n == if old_len >= needed { old_len } else { needed },
                        out@ =~= splice_write(buf@, off as int, data@).take(i as int),
                    decreases n - i,
                {
                    let b: u8 = if off <= i && i < needed {
                        data[i - off]
                    } else if i < old_len {
                        buf[i]
                    } else {
                        0
                    };
                    out.push(b);
                    i = i + 1;
                }
                assert(out@ =~= splice_write(buf@, off as int, data@));
                self.allocs.set(k, (base, out));
                proof {
                    assert(self@ =~= spec_write(t, ptr, data@));
                    assert forall|i: int, j: int| 0 <= i < j < self@.len() implies (#[trigger] self@[i]).0
                        != (#[trigger] self@[j]).0 by {
                        assert(self@[i].0 == t[i].0 && self@[j].0 == t[j].0);
                    }
                    assert forall|i: int| 0 <= i < self@.len() implies (#[trigger] self@[i]).0
                        + self@[i].1.len() <= i64::MAX by {
                        assert(t[i].0 + t[i].1.len() <= i64::MAX);
                    }
                }
            },
            None => {
                let mut copy: Vec<u8> = Vec::new();
                let mut i: usize = 0;
                while i < data.len()
                    invariant
                        0 <= i <= data@.len(),
                        copy@ =~= data@.take(i as int),
                    decreases data@.len() - i,
                {
                    copy.push(data[i]);
                    i = i + 1;
                }
                assert(copy@ =~= data@);
                self.allocs.push((ptr, copy));
                proof {
                    assert(self@ =~= spec_write(t, ptr, data@));
                    assert forall|i: int, j: int| 0 <= i < j < self@.len() implies (#[trigger] self@[i]).0
                        != (#[trigger] self@[j]).0 by {
                        if j == t.len() {
                            assert(t[i].0 != ptr);
                        } else {
                            assert(self@[i] == t[i] && self@[j] == t[j]);
                        }
                    }
                    assert forall|i: int| 0 <= i < self@.len() implies (#[trigger] self@[i]).0
                        + self@[i].1.len() <= i64::MAX by {
                        if i < t.len() {
                            assert(self@[i] == t[i]);
                        }
                    }
                }
            },
        }
    }

    /// Create a zero-filled allocation of `size` bytes at `ptr` unless one is
    /// already based there.
    fn ensure_allocated(&mut self, ptr: i64, size: usize)
        requires
            allocs_wf(old(self)@),
            0 <= ptr,
            ptr + size <= i64::MAX,
        ensures
            allocs_wf(final(self)@),
            (exists|k: int| 0 <= k < old(self)@.len() && (#[trigger] old(self)@[k]).0 == ptr)
                ==> final(self)@ == old(self)@,
            !(exists|k: int| 0 <= k < old(self)@.len() && (#[trigger] old(self)@[k]).0 == ptr)
                ==> final(self)@ == old(self)@.push((ptr, Seq::new(size as nat, |i: int| 0u8))),
    {
        let ghost t = self@;
        let n = self.allocs.len();
        let mut i: usize = 0;
        while i < n
            invariant
                n == self.allocs@.len(),
                n == self@.len(),
                self@ == t,
                allocs_wf(t),
                0 <= i <= n,
                forall|j: int| 0 <= j < i ==> (#[trigger] self@[j]).0 != ptr,
            decreases n - i,
        {
            if self.allocs[i].0 == ptr {
                assert(self@[i as int].0 == ptr);
                return;
            }
            i = i + 1;
        }
        let mut zeros: Vec<u8> = Vec::new();
        let mut j: usize = 0;
        while j < size
            invariant
                0 <= j <= size,
                zeros@ =~= Seq::new(j as nat, |i: int| 0u8),
            decreases size - j,
        {
            zeros.push(0);
            j = j + 1;
        }
        self.allocs.push((ptr, zeros));
        proof {
            assert(self@ =~= t.push((ptr, Seq::new(size as nat, |i: int| 0u8))));
            assert forall|a: int, b: int| 0 <= a < b < self@.len() implies (#[trigger] self@[a]).0
                != (#[trigger] self@[b]).0 by {
                if b == t.len() {
                    assert(t[a].0 != ptr);
                } else {
                    assert(self@[a] == t[a] && self@[b] == t[b]);
                }
            }
            assert forall|a: int| 0 <= a < self@.len() implies (#[trigger] self@[a]).0
                + self@[a].1.len() <= i64::MAX by {
                if a < t.len() {
                    assert(self@[a] == t[a]);
                }
            }
        }
    }
}

/// Reading back what was just written yields exactly the written bytes.
pub proof fn lemma_write_then_read(t: Allocs, ptr: i64, data: Seq<u8>)
    requires
        allocs_wf(t),
        0 <= ptr,
        ptr + data.len() <= i64::MAX,
    ensures
        spec_read(spec_write(t, ptr, data), ptr, data.len()) == data,
{
    lemma_find_alloc(t, ptr);
    let t2 = spec_write(t, ptr, data);
    match find_alloc(t, ptr) {
        Some(k) => {
            // The same allocation is found again: no base equals `ptr` unless
            // it was `k`, and no allocation earlier than `k` contains `ptr`.
            let off = ptr - t[k].0;
            assert(t2[k].0 == t[k].0);
            if t[k].0 == ptr {
                assert(t2[k].0 == ptr);
                assert forall|j: int| 0 <= j < t2.len() && (#[trigger] t2[j]).0 == ptr implies j == k by {
                    if j != k {
                        assert(t2[j] == t[j]);
                        if j < k {
                            assert(t[j].0 != t[k].0);
                        } else {
                            assert(t[k].0 != t[j].0);
                        }
                    }
                }
                assert(find_alloc(t2, ptr) == Some(k));
            } else {
                assert forall|j: int| 0 <= j < t2.len() implies (#[trigger] t2[j]).0 != ptr by {
                    if j != k {
                        assert(t2[j] == t[j]);
                    }
                }
                assert(alloc_contains(t2[k], ptr));
                assert forall|j: int| 0 <= j < k implies !alloc_contains(#[trigger] t2[j], ptr) by {
                    assert(t2[j] == t[j]);
                }
                let k2 = choose|k2: int|
                    0 <= k2 < t2.len() && alloc_contains(#[trigger] t2[k2], ptr) && forall|j: int|
                        0 <= j < k2 ==> !alloc_contains(#[trigger] t2[j], ptr);
                assert(k2 == k) by {
                    if k2 < k {
                        assert(!alloc_contains(t2[k2], ptr));
                    } else if k2 > k {
                        assert(!alloc_contains(t2[k], ptr));
                    }
                }
            }
            assert(spec_read(t2, ptr, data.len()) =~= data);
        },
        None => {
            assert(t2 == t.push((ptr, data)));
            assert(t2[t.len() as int].0 == ptr);
            assert forall|j: int| 0 <= j < t2.len() && (#[trigger] t2[j]).0 == ptr implies j == t.len() by {
                if j < t.len() {
                    assert(t2[j] == t[j]);
                }
            }
            assert(find_alloc(t2, ptr) == Some(t.len() as int));
            assert(spec_read(t2, ptr, data.len()) =~= data);
        },
    }
}


/// Two tables that agree, allocation by allocation, on the bases and on
/// which allocations contain `q` (the second may add allocations that
/// neither start at nor contain `q`) resolve an access at `q` alike.
proof fn lemma_find_alloc_same(t: Allocs, t2: Allocs, q: i64)
    requires
        allocs_wf(t),
        allocs_wf(t2),
        t.len() <= t2.len(),
        forall|j: int| 0 <= j < t.len() ==> (#[trigger] t2[j]).0 == t[j].0 && alloc_contains(t2[j], q) == alloc_contains(t[j], q),
        forall|j: int| t.len() <= j < t2.len() ==> (#[trigger] t2[j]).0 != q && !alloc_contains(t2[j], q),
    ensures
        find_alloc(t2, q) == find_alloc(t, q),
{
    lemma_find_alloc(t, q);
    lemma_find_alloc(t2, q);
    match find_alloc(t, q) {
        Some(k) => {
            match find_alloc(t2, q) {
                Some(k2) => {
                    if t[k].0 == q {
                        assert(t2[k].0 == q);
                        if k2 != k {
                            assert(t2[k2].0 == q);
                            if k2 < k {
                                assert(t2[k2].0 != t2[k].0);
                            } else {
                                assert(t2[k].0 != t2[k2].0);
                            }
                        }
                    } else {
                        assert(alloc_contains(t2[k], q));
                        if k2 < t.len() {
                            assert(t2[k2].0 == t[k2].0);
                        }
                        assert(t2[k2].0 != q);
                        if k2 < k {
                            assert(alloc_contains(t[k2], q));
                        } else if k2 > k {
                            assert(!alloc_contains(t2[k], q));
                        }
                    }
                },
                None => {
                    assert(t2[k].0 != q && !alloc_contains(t2[k], q));
                },
            }
        },
        None => {
            match find_alloc(t2, q) {
                Some(k2) => {
                    if k2 < t.len() {
                        assert(t[k2].0 != q && !alloc_contains(t[k2], q));
                    }
                },
                None => {},
            }
        },
    }
}

/// Byte `o` of buffer `buf`, reading `0` past its end.
pub open spec fn byte_at(buf: Seq<u8>, o: int) -> u8 {
    if 0 <= o < buf.len() {
        buf[o]
    } else {
        0u8
    }
}

/// Reads at `q` from two tables that resolve `q` to the same allocation, with
/// the same base and the same bytes where the read looks, agree.
proof fn lemma_read_agree(t: Allocs, t2: Allocs, q: i64, n: nat)
    requires
        find_alloc(t2, q) == find_alloc(t, q),
        find_alloc(t, q) matches Some(kq) ==> (0 <= kq < t.len() && kq < t2.len() && t2[kq].0 == t[kq].0 && q
            - t[kq].0 >= 0 && forall|o: int|
            q - t[kq].0 <= o < q - t[kq].0 + n ==> #[trigger] byte_at(t2[kq].1, o) == byte_at(t[kq].1, o)),
    ensures
        spec_read(t2, q, n) == spec_read(t, q, n),
{
    assert forall|i: int| 0 <= i < n implies #[trigger] spec_read(t2, q, n)[i] == spec_read(t, q, n)[i] by {
        match find_alloc(t, q) {
            Some(kq) => {
                let o = q - t[kq].0 + i;
                assert(byte_at(t2[kq].1, o) == byte_at(t[kq].1, o));
            },
            None => {},
        }
    }
    assert(spec_read(t2, q, n) =~= spec_read(t, q, n));
}

/// Splicing `data` in at offset `off` of an allocation based at `base`
/// changes neither which addresses clear of the write it contains nor its
/// bytes there.
proof fn lemma_splice_frame(base: i64, buf: Seq<u8>, off: int, data: Seq<u8>, q: i64, n: nat)
    requires
        0 <= off <= buf.len(),
        off == 0 || off < buf.len(),
        q + n <= base + off || base + off + data.len() <= q,
        n > 0,
    ensures
        alloc_contains((base, splice_write(buf, off, data)), q) == alloc_contains((base, buf), q),
        forall|o: int|
            q - base <= o < q - base + n ==> #[trigger] byte_at(splice_write(buf, off, data), o) == byte_at(buf, o),
{
    let nb = splice_write(buf, off, data);
    assert forall|o: int| q - base <= o < q - base + n implies #[trigger] byte_at(nb, o) == byte_at(buf, o) by {
        assert(!(off <= o < off + data.len()));
    }
}

/// The frame of a write into the existing allocation `k`.
proof fn lemma_write_frame_into(t: Allocs, ptr: i64, data: Seq<u8>, q: i64, n: nat, k: int)
    requires
        allocs_wf(t),
        0 <= ptr,
        ptr + data.len() <= i64::MAX,
        q + n <= ptr || ptr + data.len() <= q,
        n > 0,
        0 <= k < t.len(),
        t[k].0 == ptr || alloc_contains(t[k], ptr),
        spec_write(t, ptr, data) == t.update(k, (t[k].0, splice_write(t[k].1, ptr - t[k].0, data))),
    ensures
        spec_read(spec_write(t, ptr, data), q, n) == spec_read(t, q, n),
{
    let t2 = spec_write(t, ptr, data);
    let off = ptr - t[k].0;
    let buf = t[k].1;
    let nb = splice_write(buf, off, data);
    lemma_splice_frame(t[k].0, buf, off, data, q, n);
    assert(nb.len() <= buf.len() || nb.len() == off + data.len());
    assert(allocs_wf(t2)) by {
        assert forall|i: int, j: int| 0 <= i < j < t2.len() implies (#[trigger] t2[i]).0 != (#[trigger] t2[j]).0 by {
            assert(t2[i].0 == t[i].0 && t2[j].0 == t[j].0);
        }
        assert forall|i: int| 0 <= i < t2.len() implies 0 <= (#[trigger] t2[i]).0 && t2[i].0 + t2[i].1.len() <= i64::MAX by {
            if i != k {
                assert(t2[i] == t[i]);
            }
        }
    }
    assert forall|j: int| 0 <= j < t.len() implies (#[trigger] t2[j]).0 == t[j].0 && alloc_contains(t2[j], q)
        == alloc_contains(t[j], q) by {
        if j != k {
            assert(t2[j] == t[j]);
        }
    }
    lemma_find_alloc_same(t, t2, q);
    lemma_find_alloc(t, q);
    match find_alloc(t, q) {
        Some(kq) => {
            if kq != k {
                assert(t2[kq] == t[kq]);
            }
        },
        None => {},
    }
    lemma_read_agree(t, t2, q, n);
}

/// The frame of a write that creates a new allocation at `ptr`.
proof fn lemma_write_frame_new(t: Allocs, ptr: i64, data: Seq<u8>, q: i64, n: nat)
    requires
        allocs_wf(t),
        0 <= ptr,
        ptr + data.len() <= i64::MAX,
        q + n <= ptr || ptr + data.len() <= q,
        n > 0,
        forall|j: int| 0 <= j < t.len() ==> (#[trigger] t[j]).0 != ptr && !alloc_contains(t[j], ptr),
        find_alloc(t, ptr) is None,
        spec_write(t, ptr, data) == t.push((ptr, data)),
    ensures
        spec_read(spec_write(t, ptr, data), q, n) == spec_read(t, q, n),
{
    let t2 = spec_write(t, ptr, data);
    if q == ptr {
        assert(t2[t.len() as int].0 == ptr);
        assert forall|j: int| 0 <= j < t2.len() && (#[trigger] t2[j]).0 == ptr implies j == t.len() by {
            if j < t.len() {
                assert(t2[j] == t[j]);
            }
        }
        assert(find_alloc(t2, ptr) == Some(t.len() as int));
        assert(data.len() == 0);
        assert(spec_read(t2, q, n) =~= spec_read(t, q, n));
    } else {
        assert(allocs_wf(t2)) by {
            assert forall|i: int, j: int| 0 <= i < j < t2.len() implies (#[trigger] t2[i]).0 != (#[trigger] t2[j]).0 by {
                if j == t.len() {
                    assert(t[i].0 != ptr);
                } else {
                    assert(t2[i] == t[i] && t2[j] == t[j]);
                }
            }
            assert forall|i: int| 0 <= i < t2.len() implies 0 <= (#[trigger] t2[i]).0 && t2[i].0 + t2[i].1.len() <= i64::MAX by {
                if i < t.len() {
                    assert(t2[i] == t[i]);
                }
            }
        }
        assert forall|j: int| 0 <= j < t.len() implies (#[trigger] t2[j]).0 == t[j].0 && alloc_contains(t2[j], q)
            == alloc_contains(t[j], q) by {
            assert(t2[j] == t[j]);
        }
        lemma_find_alloc_same(t, t2, q);
        lemma_find_alloc(t, q);
        match find_alloc(t, q) {
            Some(kq) => {
                assert(t2[kq] == t[kq]);
            },
            None => {},
        }
        lemma_read_agree(t, t2, q, n);
    }
}

/// Writing `data` at `ptr` leaves every read that stays clear of the bytes
/// written unchanged: the rest of memory is untouched.
pub proof fn lemma_write_frame(t: Allocs, ptr: i64, data: Seq<u8>, q: i64, n: nat)
    requires
        allocs_wf(t),
        0 <= ptr,
        ptr + data.len() <= i64::MAX,
        q + n <= ptr || ptr + data.len() <= q,
    ensures
        spec_read(spec_write(t, ptr, data), q, n) == spec_read(t, q, n),
{
    lemma_find_alloc(t, ptr);
    if n == 0 {
        assert(spec_read(spec_write(t, ptr, data), q, n) =~= spec_read(t, q, n));
    } else {
        match find_alloc(t, ptr) {
            Some(k) => {
                assert(spec_write(t, ptr, data) == t.update(k, (t[k].0, splice_write(t[k].1, ptr - t[k].0, data))));
                lemma_write_frame_into(t, ptr, data, q, n, k);
            },
            None => {
                assert(spec_write(t, ptr, data) == t.push((ptr, data)));
                lemma_write_frame_new(t, ptr, data, q, n);
            },
        }
    }
}

/// The next bump-allocator position after reserving `size` bytes at `ptr`:
/// `ptr + size` rounded up to a stick boundary.
pub open spec fn stick_round_up(ptr: int, size: int) -> int {
    let a = ptr + size + (STICK_BYTES - 1);
    a - a % (STICK_BYTES as int)
}

fn round_up_to_stick(advanced: i64) -> (r: i64)
    requires
        advanced + (STICK_BYTES - 1) <= i64::MAX,
    ensures
        r == stick_round_up(advanced as int, 0),
{
    let a = advanced + (STICK_BYTES - 1);
    let rem = a.checked_rem_euclid(STICK_BYTES).unwrap();
    a - rem
}

// ---------------------------------------------------------------------------
// HBM
// ---------------------------------------------------------------------------

/// Shared, byte-addressed HBM with stick-granular allocation.
#[derive(Debug)]
pub struct HBMSimulator {
    pub size_bytes: i64,
    pub store: ByteStore,
    /// Next unallocated byte address (stick-aligned in normal use).
    pub next_ptr: i64,
}

impl HBMSimulator {
    /// The allocation table.
    pub open spec fn allocations(&self) -> Allocs {
        self.store@
    }

    /// An empty HBM of `size_gb` GiB; allocation starts at `0x10000`.
    pub fn new(size_gb: i64) -> (h: HBMSimulator)
        requires
            fits_mul_gib(size_gb as int),
        ensures
            h.size_bytes == size_gb * 1073741824,
            h.allocations() == Seq::<(i64, Seq<u8>)>::empty(),
            h.next_ptr == 0x10000,
            allocs_wf(h.allocations()),
    {
        HBMSimulator { size_bytes: size_gb * 1073741824, store: ByteStore::new(), next_ptr: 0x10000 }
    }

    /// Reserve `size` bytes at `next_ptr` (zero-filled, unless an allocation
    /// is already based there), advance `next_ptr` to the next stick boundary,
    /// and return the stick index of the reserved address.
    pub fn allocate(&mut self, size: i64) -> (stick: i64)
        requires
            allocs_wf(old(self).allocations()),
            0 <= old(self).next_ptr,
            old(self).next_ptr + (if size >= 0 { size as int } else { 0 }) <= i64::MAX,
            old(self).next_ptr + size + (STICK_BYTES - 1) <= i64::MAX,
            size <= usize::MAX,
        ensures
            allocs_wf(final(self).allocations()),
            final(self).size_bytes == old(self).size_bytes,
            stick == old(self).next_ptr / STICK_BYTES,
            final(self).next_ptr == stick_round_up(old(self).next_ptr as int, size as int),
            (exists|k: int| 0 <= k < old(self).allocations().len()
                && (#[trigger] old(self).allocations()[k]).0 == old(self).next_ptr)
                ==> final(self).allocations() == old(self).allocations(),
            !(exists|k: int| 0 <= k < old(self).allocations().len()
                && (#[trigger] old(self).allocations()[k]).0 == old(self).next_ptr)
                ==> final(self).allocations() == old(self).allocations().push(
                    (old(self).next_ptr, Seq::new(if size >= 0 { size as nat } else { 0 }, |i: int| 0u8)),
                ),
    {
        let ptr = self.next_ptr;
        let n: usize = if size >= 0 { size as usize } else { 0 };
        self.store.ensure_allocated(ptr, n);
        let advanced = ptr + size;
        self.next_ptr = round_up_to_stick(advanced);
        ptr / STICK_BYTES
    }

    /// Whether the allocation table is well formed (see [`allocs_wf`]).
    pub fn is_well_formed(&self) -> (b: bool)
        ensures
            b == allocs_wf(self.allocations()),
    {
        self.store.is_well_formed()
    }

    /// Read `len` bytes at absolute `byte_addr`, zero-padding past the end of
    /// the containing allocation.
    pub fn read_bytes(&self, byte_addr: i64, len: usize) -> (out: Vec<u8>)
        requires
            allocs_wf(self.allocations()),
        ensures
            out@ == spec_read(self.allocations(), byte_addr, len as nat),
            allocs_wf(self.allocations()),
    {
        self.store.read_bytes(byte_addr, len)
    }

    /// Write raw bytes at absolute `byte_addr`, growing or creating the
    /// allocation.
    pub fn write_bytes(&mut self, byte_addr: i64, data: &[u8])
        requires
            allocs_wf(old(self).allocations()),
            0 <= byte_addr,
            byte_addr + data@.len() <= i64::MAX,
            byte_addr + data@.len() <= usize::MAX,
        ensures
            final(self).allocations() == spec_write(old(self).allocations(), byte_addr, data@),
            allocs_wf(old(self).allocations()),
            allocs_wf(final(self).allocations()),
            final(self).next_ptr == old(self).next_ptr,
            final(self).size_bytes == old(self).size_bytes,
    {
        self.store.write_bytes(byte_addr, data);
    }
}

/// `v * 2^30` fits in `i64`.
pub open spec fn fits_mul_gib(v: int) -> bool {
    i64::MIN <= v * 1073741824 <= i64::MAX
}

/// `v * 2^20` fits in `i64`.
pub open spec fn fits_mul_mib(v: int) -> bool {
    i64::MIN <= v * 1048576 <= i64::MAX
}

impl Default for HBMSimulator {
    /// A 128 GiB HBM.
    fn default() -> (h: HBMSimulator)
        ensures
            h.size_bytes == 128 * 1073741824,
            h.allocations() == Seq::<(i64, Seq<u8>)>::empty(),
            h.next_ptr == 0x10000,
            allocs_wf(h.allocations()),
    {
        HBMSimulator::new(128)
    }
}

/// A read of HBM right after a write gives back the bytes written, and a
/// read of any range clear of them gives what it gave before the write.
pub proof fn lemma_hbm_write_then_read(
    before: HBMSimulator,
    after: HBMSimulator,
    addr: i64,
    data: Seq<u8>,
    q: i64,
    n: nat,
)
    requires
        allocs_wf(before.allocations()),
        0 <= addr,
        addr + data.len() <= i64::MAX,
        after.allocations() == spec_write(before.allocations(), addr, data),
    ensures
        spec_read(after.allocations(), addr, data.len()) == data,
        q + n <= addr || addr + data.len() <= q ==> spec_read(after.allocations(), q, n)
            == spec_read(before.allocations(), q, n),
{
    lemma_write_then_read(before.allocations(), addr, data);
    if q + n <= addr || addr + data.len() <= q {
        lemma_write_frame(before.allocations(), addr, data, q, n);
    }
}

// ---------------------------------------------------------------------------
// LX
// ---------------------------------------------------------------------------

/// Per-core local scratchpad. Plain byte addressing, no stick concept.
#[derive(Debug)]
pub struct LXScratchpad {
    pub capacity: i64,
    pub used: i64,
    pub core_id: usize,
    pub store: ByteStore,
    pub next_ptr: i64,
}

impl LXScratchpad {
    /// The allocation table.
    pub open spec fn allocations(&self) -> Allocs {
        self.store@
    }

    /// An empty scratchpad of `size_mb` MiB for `core_id`.
    pub fn new(core_id: usize, size_mb: i64) -> (lx: LXScratchpad)
        requires
            fits_mul_mib(size_mb as int),
        ensures
            lx.capacity == size_mb * 1048576,
            lx.used == 0,
            lx.core_id == core_id,
            lx.allocations() == Seq::<(i64, Seq<u8>)>::empty(),
            allocs_wf(lx.allocations()),
            lx.next_ptr == 0,
    {
        LXScratchpad {
            capacity: size_mb * 1048576,
            used: 0,
            core_id,
            store: ByteStore::new(),
            next_ptr: 0,
        }
    }

    /// Whether the allocation table is well formed (see [`allocs_wf`]).
    pub fn is_well_formed(&self) -> (b: bool)
        ensures
            b == allocs_wf(self.allocations()),
    {
        self.store.is_well_formed()
    }

    /// Read `len` bytes at `ptr`, zero-padding past the allocation's end.
    pub fn read_bytes(&self, ptr: i64, len: usize) -> (out: Vec<u8>)
        requires
            allocs_wf(self.allocations()),
        ensures
            out@ == spec_read(self.allocations(), ptr, len as nat),
            allocs_wf(self.allocations()),
    {
        self.store.read_bytes(ptr, len)
    }

    /// Write `data` at `ptr`, growing or creating the allocation.
    pub fn write_bytes(&mut self, ptr: i64, data: &[u8])
        requires
            allocs_wf(old(self).allocations()),
            0 <= ptr,
            ptr + data@.len() <= i64::MAX,
            ptr + data@.len() <= usize::MAX,
        ensures
            final(self).allocations() == spec_write(old(self).allocations(), ptr, data@),
            allocs_wf(old(self).allocations()),
            allocs_wf(final(self).allocations()),
            final(self).capacity == old(self).capacity,
            final(self).used == old(self).used,
            final(self).core_id == old(self).core_id,
            final(self).next_ptr == old(self).next_ptr,
    {
        self.store.write_bytes(ptr, data);
    }

    /// Reset for the next execution round: no allocations, nothing used.
    pub fn clear(&mut self)
        ensures
            final(self).allocations() == Seq::<(i64, Seq<u8>)>::empty(),
            allocs_wf(final(self).allocations()),
            final(self).next_ptr == 0,
            final(self).used == 0,
            final(self).capacity == old(self).capacity,
            final(self).core_id == old(self).core_id,
    {
        self.store.clear();
        self.next_ptr = 0;
        self.used = 0;
    }
}

/// A read of a scratchpad right after a write gives back the bytes written,
/// and a read of any range clear of them gives what it gave before.
pub proof fn lemma_lx_write_then_read(
    before: LXScratchpad,
    after: LXScratchpad,
    ptr: i64,
    data: Seq<u8>,
    q: i64,
    n: nat,
)
    requires
        allocs_wf(before.allocations()),
        0 <= ptr,
        ptr + data.len() <= i64::MAX,
        after.allocations() == spec_write(before.allocations(), ptr, data),
    ensures
        spec_read(after.allocations(), ptr, data.len()) == data,
        q + n <= ptr || ptr + data.len() <= q ==> spec_read(after.allocations(), q, n)
            == spec_read(before.allocations(), q, n),
{
    lemma_write_then_read(before.allocations(), ptr, data);
    if q + n <= ptr || ptr + data.len() <= q {
        lemma_write_frame(before.allocations(), ptr, data, q, n);
    }
}

// ---------------------------------------------------------------------------
// Hierarchy
// ---------------------------------------------------------------------------

/// Shared HBM plus one 2 MiB LX per core.
#[derive(Debug)]
pub struct SpyreMemoryHierarchy {
    pub num_cores: usize,
    pub hbm: HBMSimulator,
    pub lx_scratchpads: Vec<LXScratchpad>,
}

impl SpyreMemoryHierarchy {
    /// A fresh hierarchy: default HBM and an empty 2 MiB LX for each core.
    pub fn new(num_cores: usize) -> (m: SpyreMemoryHierarchy)
        ensures
            m.num_cores == num_cores,
            m.hbm.allocations() == Seq::<(i64, Seq<u8>)>::empty(),
            allocs_wf(m.hbm.allocations()),
            m.hbm.next_ptr == 0x10000,
            m.hbm.size_bytes == 128 * 1073741824,
            m.lx_scratchpads@.len() == num_cores,
            forall|c: int| 0 <= c < num_cores ==> {
                let lx = #[trigger] m.lx_scratchpads@[c];
                &&& lx.core_id == c
                &&& lx.capacity == 2 * 1048576
                &&& lx.used == 0
                &&& lx.next_ptr == 0
                &&& lx.allocations() == Seq::<(i64, Seq<u8>)>::empty()
                &&& allocs_wf(lx.allocations())
            },
    {
        let mut lx: Vec<LXScratchpad> = Vec::new();
        let mut c: usize = 0;
        while c < num_cores
            invariant
                0 <= c <= num_cores,
                lx@.len() == c,
                forall|j: int| 0 <= j < c ==> {
                    let l = #[trigger] lx@[j];
                    &&& l.core_id == j
                    &&& l.capacity == 2 * 1048576
                    &&& l.used == 0
                    &&& l.next_ptr == 0
                    &&& l.allocations() == Seq::<(i64, Seq<u8>)>::empty()
                    &&& allocs_wf(l.allocations())
                },
            decreases num_cores - c,
        {
            lx.push(LXScratchpad::new(c, 2));
            c = c + 1;
        }
        SpyreMemoryHierarchy { num_cores, hbm: HBMSimulator::default(), lx_scratchpads: lx }
    }

    /// A core's LX.
    pub fn get_lx(&self, core_id: usize) -> (lx: &LXScratchpad)
        requires
            core_id < self.lx_scratchpads@.len(),
        ensures
            *lx == self.lx_scratchpads@[core_id as int],
    {
        &self.lx_scratchpads[core_id]
    }

    /// A core's LX, for writing.
    pub fn get_lx_mut(&mut self, core_id: usize) -> (lx: &mut LXScratchpad)
        requires
            core_id < old(self).lx_scratchpads@.len(),
        ensures
            *lx == old(self).lx_scratchpads@[core_id as int],
            final(self).lx_scratchpads@ == old(self).lx_scratchpads@.update(core_id as int, *final(lx)),
            final(self).hbm == old(self).hbm,
            final(self).num_cores == old(self).num_cores,
    {
        &mut self.lx_scratchpads[core_id]
    }
}


/// Allocation keeps the bump pointer on a stick boundary, past every byte
/// just reserved.
pub proof fn lemma_allocate_stick_aligned(ptr: int, size: int)
    requires
        size >= 0,
    ensures
        stick_round_up(ptr, size) % (STICK_BYTES as int) == 0,
        ptr + size <= stick_round_up(ptr, size) < ptr + size + STICK_BYTES,
{
    let a = ptr + size + (STICK_BYTES - 1);
    assert(0 <= a % 128 < 128 && (a - a % 128) % 128 == 0) by (nonlinear_arith);
}

} // verus!
